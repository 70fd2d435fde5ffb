use myca::Catalog;
use myca::Course;
use myca::CourseID;

fn named_course(coid: &CourseID, name: &str, prereq_groups: Vec<Vec<CourseID>>) -> Course {
    Course::from_parts(
        coid,
        true,
        String::from(name),
        String::new(),
        String::new(),
        String::new(),
        prereq_groups,
        Vec::new(),
        Vec::new(),
        Vec::new(),
        Vec::new(),
    )
}

#[test]
fn emplace_then_lookup() {
    let mut catalog = Catalog::new();
    let coid = CourseID::new("TEST", 1100);
    catalog.emplace_course(&coid);
    let course = catalog.get_course(&coid).unwrap();
    assert_eq!(course.get_id(), coid);
    assert!(!course.is_complete());
}

#[test]
fn lookup_missing_is_none() {
    let mut catalog = Catalog::new();
    catalog.emplace_course(&CourseID::new("TEST", 1100));
    assert!(catalog.get_course(&CourseID::new("TEST", 1200)).is_none());
}

#[test]
fn add_course_registers_prerequisites() {
    let mut catalog = Catalog::new();
    let b = CourseID::new("TEST", 1200);
    let p = CourseID::new("TEST", 1100);
    catalog.add_course(named_course(&b, "Follow-on", vec![vec![p.clone()]]));
    // The prerequisite exists as a key, created as a placeholder.
    let prereq = catalog.get_course(&p).unwrap();
    assert!(!prereq.is_complete());
    // The placeholder's back-references point at the dependent course.
    assert!(prereq.post_options().contains(&b));
}

#[test]
fn add_course_backrefs_on_existing_record() {
    let mut catalog = Catalog::new();
    let a = CourseID::new("TEST", 1100);
    let b = CourseID::new("TEST", 1200);
    catalog.add_course(named_course(&a, "Intro", vec![]));
    catalog.add_course(named_course(&b, "Follow-on", vec![vec![a.clone()]]));
    let rec = catalog.get_course(&a).unwrap();
    assert_eq!(rec.name(), "Intro");
    assert!(rec.post_options().contains(&b));
}

#[test]
fn readd_keeps_new_name_and_old_backrefs() {
    let mut catalog = Catalog::new();
    let c = CourseID::new("TEST", 1100);
    let b = CourseID::new("TEST", 1200);
    catalog.add_course(named_course(&c, "First", vec![]));
    catalog.add_course(named_course(&b, "Dependent", vec![vec![c.clone()]]));
    catalog.add_course(named_course(&c, "Second", vec![]));
    let rec = catalog.get_course(&c).unwrap();
    assert_eq!(rec.name(), "Second");
    assert!(rec.post_options().contains(&b));
}

#[test]
fn get_course_mut_edits_record() {
    let mut catalog = Catalog::new();
    let c = CourseID::new("TEST", 1200);
    catalog.emplace_course(&c);
    let p = CourseID::new("TEST", 1100);
    let rec = catalog.get_course_mut(&c).unwrap();
    rec.add_prereq(&p);
    let rec = catalog.get_course(&c).unwrap();
    assert_eq!(rec.prereq_sets().len(), 1);
    assert_eq!(rec.prereq_sets()[0], vec![p]);
}

#[test]
fn group_duplicates_are_dropped() {
    let mut catalog = Catalog::new();
    let e = CourseID::new("TEST", 1300);
    let f = CourseID::new("TEST", 1100);
    catalog.add_course(named_course(
        &e,
        "Choice",
        vec![vec![f.clone(), f.clone(), f.clone()]],
    ));
    let rec = catalog.get_course(&e).unwrap();
    assert_eq!(rec.prereq_sets()[0], vec![f]);
}

#[test]
fn course_count_grows_with_placeholders() {
    let mut catalog = Catalog::new();
    let b = CourseID::new("TEST", 1200);
    let p = CourseID::new("TEST", 1100);
    catalog.add_course(named_course(&b, "Follow-on", vec![vec![p]]));
    assert_eq!(catalog.course_count(), 2);
}
