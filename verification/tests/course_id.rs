use myca::CourseID;

#[test]
fn parse_with_separator() {
    let coid = CourseID::from("CSCI 1200").unwrap();
    assert_eq!(coid, CourseID::new("CSCI", 1200));
}

#[test]
fn parse_without_separator() {
    let coid = CourseID::from("CSCI1200").unwrap();
    assert_eq!(coid, CourseID::new("CSCI", 1200));
}

#[test]
fn parse_rejects_short_subject() {
    assert!(CourseID::from("CS 1200").is_none());
}

#[test]
fn parse_rejects_lowercase() {
    assert!(CourseID::from("csci 1200").is_none());
}

#[test]
fn parse_rejects_wrong_length() {
    assert!(CourseID::from("").is_none());
    assert!(CourseID::from("CSCI  1200").is_none());
    assert!(CourseID::from("CSCI120").is_none());
}

#[test]
fn parse_rejects_non_digit_code() {
    assert!(CourseID::from("ABCD 12A3").is_none());
    assert!(CourseID::from("ABCD +123").is_none());
}

#[test]
fn parse_ignores_separator_character() {
    let coid = CourseID::from("MATH-4100").unwrap();
    assert_eq!(coid, CourseID::new("MATH", 4100));
}

#[test]
fn parse_accepts_leading_zero_code() {
    let coid = CourseID::from("ABCD0000").unwrap();
    assert_eq!(coid, CourseID::new("ABCD", 0));
}

#[test]
fn render_canonical_form() {
    assert_eq!(CourseID::new("TEST", 1100).render(), "TEST 1100");
    assert_eq!(CourseID::new("MATH", 42).render(), "MATH 42");
    assert_eq!(CourseID::new("MATH", 0).render(), "MATH 0");
}

#[test]
fn render_parse_round_trip() {
    for code in [1000u16, 1200, 4100, 9999] {
        let id = CourseID::new("CSCI", code);
        let parsed = CourseID::from(&id.render()).unwrap();
        assert_eq!(parsed, id);
    }
}

#[test]
fn distinct_ids_are_unequal() {
    assert_ne!(CourseID::new("CSCI", 1200), CourseID::new("CSCI", 1100));
    assert_ne!(CourseID::new("CSCI", 1200), CourseID::new("MATH", 1200));
}
