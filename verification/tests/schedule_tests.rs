use myca::CourseID;
use myca::Schedule;
use myca::SemTime;
use myca::Semester;

#[test]
fn sem_time_chronology() {
    assert!(SemTime::Spring(2020) < SemTime::Summer(2020));
    assert!(SemTime::Summer(2020) < SemTime::Fall(2020));
    assert!(SemTime::Fall(2020) < SemTime::Spring(2021));
    assert!(SemTime::Spring(2020) < SemTime::Fall(2020));
    assert!(!(SemTime::Fall(2020) < SemTime::Fall(2020)));
}

#[test]
fn semester_add_remove_contains() {
    let mut semester = Semester::new(SemTime::Fall(2019));
    let coid = CourseID::new("TEST", 1100);
    assert!(!semester.contains(&coid));
    semester.add_course(&coid);
    assert!(semester.contains(&coid));
    semester.remove_course(&coid);
    assert!(!semester.contains(&coid));
}

#[test]
fn semester_time() {
    let time = SemTime::Fall(2019);
    let semester = Semester::new(time);
    assert_eq!(*semester.get_time(), time);
}

#[test]
fn semester_render() {
    let mut semester = Semester::new(SemTime::Fall(2019));
    semester.add_course(&CourseID::new("TEST", 1100));
    assert_eq!(semester.render(), "Fall 2019:\n\tTEST 1100\n");
}

#[test]
fn schedule_add_course_needs_semester() {
    let mut schedule = Schedule::new();
    let coid = CourseID::new("TEST", 1100);
    assert!(!schedule.add_course(&SemTime::Fall(2019), &coid));
    schedule.add_semester(Semester::new(SemTime::Fall(2019)));
    assert!(schedule.add_course(&SemTime::Fall(2019), &coid));
    assert!(schedule.contains(&coid));
}

#[test]
fn schedule_get_and_remove_semester() {
    let mut schedule = Schedule::new();
    schedule.add_semester(Semester::new(SemTime::Fall(2019)));
    assert!(schedule.get_semester(&SemTime::Fall(2019)).is_some());
    assert!(schedule.get_semester(&SemTime::Spring(2020)).is_none());
    schedule.remove_semester(&SemTime::Fall(2019));
    assert!(schedule.get_semester(&SemTime::Fall(2019)).is_none());
}

#[test]
fn schedule_semesters_in_chronological_order() {
    let mut schedule = Schedule::new();
    schedule.add_semester(Semester::new(SemTime::Fall(2020)));
    schedule.add_semester(Semester::new(SemTime::Spring(2020)));
    schedule.add_semester(Semester::new(SemTime::Summer(2020)));
    let times: Vec<SemTime> = schedule.semesters().iter().map(|s| *s.get_time()).collect();
    assert_eq!(
        times,
        vec![SemTime::Spring(2020), SemTime::Summer(2020), SemTime::Fall(2020)]
    );
}

#[test]
fn add_semester_replaces_at_same_time() {
    let mut schedule = Schedule::new();
    let mut filled = Semester::new(SemTime::Fall(2019));
    filled.add_course(&CourseID::new("TEST", 1100));
    schedule.add_semester(filled);
    assert!(schedule.contains(&CourseID::new("TEST", 1100)));
    schedule.add_semester(Semester::new(SemTime::Fall(2019)));
    assert_eq!(schedule.semesters().len(), 1);
    assert!(!schedule.contains(&CourseID::new("TEST", 1100)));
}

#[test]
fn schedule_get_time_finds_first_match() {
    let mut schedule = Schedule::new();
    let coid = CourseID::new("TEST", 1100);
    let other = CourseID::new("TEST", 1200);
    let mut semester = Semester::new(SemTime::Fall(2019));
    semester.add_course(&coid);
    schedule.add_semester(semester);
    assert_eq!(schedule.get_time(&coid), Some(&SemTime::Fall(2019)));
    assert!(schedule.get_time(&other).is_none());
}

#[test]
fn default_horizon_has_eight_semesters() {
    let schedule = Schedule::default_horizon();
    let times: Vec<SemTime> = schedule.semesters().iter().map(|s| *s.get_time()).collect();
    assert_eq!(
        times,
        vec![
            SemTime::Fall(0),
            SemTime::Spring(1),
            SemTime::Fall(1),
            SemTime::Spring(2),
            SemTime::Summer(2),
            SemTime::Fall(2),
            SemTime::Fall(3),
            SemTime::Spring(4),
        ]
    );
}

#[test]
fn schedule_render_concatenates_semesters() {
    let mut schedule = Schedule::new();
    let mut fall = Semester::new(SemTime::Fall(2019));
    fall.add_course(&CourseID::new("TEST", 1100));
    schedule.add_semester(fall);
    schedule.add_semester(Semester::new(SemTime::Spring(2020)));
    assert_eq!(schedule.render(), "Fall 2019:\n\tTEST 1100\nSpring 2020:\n");
}

#[test]
fn render_negative_year() {
    let semester = Semester::new(SemTime::Spring(-3));
    assert_eq!(semester.render(), "Spring -3:\n");
}
