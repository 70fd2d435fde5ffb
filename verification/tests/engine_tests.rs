use myca::get_schedules;
use myca::Catalog;
use myca::Course;
use myca::CourseID;
use myca::Schedule;
use myca::SemTime;
use myca::Semester;

fn course_with(
    coid: &CourseID,
    prereq_groups: Vec<Vec<CourseID>>,
    coreq_groups: Vec<Vec<CourseID>>,
) -> Course {
    Course::from_parts(
        coid,
        true,
        String::new(),
        String::new(),
        String::new(),
        String::new(),
        prereq_groups,
        Vec::new(),
        coreq_groups,
        Vec::new(),
        Vec::new(),
    )
}

fn two_semesters() -> Schedule {
    let mut schedule = Schedule::new();
    schedule.add_semester(Semester::new(SemTime::Fall(0)));
    schedule.add_semester(Semester::new(SemTime::Spring(1)));
    schedule
}

#[test]
fn unknown_course_has_no_placement() {
    let catalog = Catalog::new();
    let schedule = two_semesters();
    let results =
        Schedule::add_course_to_schedule(&CourseID::new("TEST", 1100), &schedule, &catalog);
    assert!(results.is_empty());
}

#[test]
fn no_semesters_means_no_placement() {
    let mut catalog = Catalog::new();
    let a = CourseID::new("TEST", 1100);
    catalog.add_course(course_with(&a, vec![], vec![]));
    let results = Schedule::add_course_to_schedule(&a, &Schedule::new(), &catalog);
    assert!(results.is_empty());
}

#[test]
fn free_course_goes_in_every_slot() {
    let mut catalog = Catalog::new();
    let a = CourseID::new("TEST", 1100);
    catalog.add_course(course_with(&a, vec![], vec![]));
    let results = Schedule::add_course_to_schedule(&a, &two_semesters(), &catalog);
    assert_eq!(results.len(), 2);
    assert_eq!(results[0].get_time(&a), Some(&SemTime::Fall(0)));
    assert_eq!(results[1].get_time(&a), Some(&SemTime::Spring(1)));
}

#[test]
fn prerequisite_chain_single_outcome() {
    // A needs nothing; B needs A.  With only Fall(0) and Spring(1) there is
    // exactly one way: A in Fall(0), B in Spring(1).
    let mut catalog = Catalog::new();
    let a = CourseID::new("TEST", 1100);
    let b = CourseID::new("TEST", 1200);
    catalog.add_course(course_with(&a, vec![], vec![]));
    catalog.add_course(course_with(&b, vec![vec![a.clone()]], vec![]));
    let results = Schedule::add_course_to_schedule(&b, &two_semesters(), &catalog);
    assert_eq!(results.len(), 1);
    assert_eq!(results[0].get_time(&a), Some(&SemTime::Fall(0)));
    assert_eq!(results[0].get_time(&b), Some(&SemTime::Spring(1)));
}

#[test]
fn placement_monotonicity_on_results() {
    // Every returned schedule holds the placed course in exactly one
    // semester, with a prerequisite strictly earlier.
    let mut catalog = Catalog::new();
    let a = CourseID::new("TEST", 1100);
    let x = CourseID::new("TEST", 1300);
    catalog.add_course(course_with(&a, vec![], vec![]));
    catalog.add_course(course_with(&x, vec![vec![a.clone()]], vec![]));
    let mut schedule = two_semesters();
    schedule.add_semester(Semester::new(SemTime::Fall(1)));
    let results = Schedule::add_course_to_schedule(&x, &schedule, &catalog);
    assert!(!results.is_empty());
    for result in &results {
        let holding: Vec<SemTime> = result
            .semesters()
            .iter()
            .filter(|sm| sm.contains(&x))
            .map(|sm| *sm.get_time())
            .collect();
        assert_eq!(holding.len(), 1);
        let time_a = *result.get_time(&a).expect("prerequisite scheduled");
        assert!(time_a < holding[0]);
    }
}

#[test]
fn noop_placement_returns_input_unchanged() {
    // Placing a course already scheduled anywhere passes the schedule
    // through unchanged, once per semester slot.
    let mut catalog = Catalog::new();
    let a = CourseID::new("TEST", 1100);
    catalog.add_course(course_with(&a, vec![], vec![]));
    let mut schedule = two_semesters();
    assert!(schedule.add_course(&SemTime::Fall(0), &a));
    let results = Schedule::add_course_to_schedule(&a, &schedule, &catalog);
    assert_eq!(results.len(), 2);
    for result in &results {
        assert_eq!(result.render(), schedule.render());
    }
}

#[test]
fn corequisites_share_the_semester() {
    // C and D list each other as corequisites; every returned schedule has
    // them in the same semester.
    let mut catalog = Catalog::new();
    let c = CourseID::new("TEST", 1400);
    let d = CourseID::new("TEST", 1500);
    catalog.add_course(course_with(&c, vec![], vec![vec![d.clone()]]));
    catalog.add_course(course_with(&d, vec![], vec![vec![c.clone()]]));
    let results = Schedule::add_course_to_schedule(&c, &two_semesters(), &catalog);
    assert!(!results.is_empty());
    for result in &results {
        let tc = result.get_time(&c).expect("course scheduled");
        let td = result.get_time(&d).expect("corequisite scheduled");
        assert_eq!(tc, td);
    }
}

#[test]
fn one_sided_corequisite_offers_shared_semester() {
    // Only C lists the group {D}.  The enumeration then also places D in
    // other semesters, but schedules with C and D together must be among
    // the results.
    let mut catalog = Catalog::new();
    let c = CourseID::new("TEST", 1400);
    let d = CourseID::new("TEST", 1500);
    catalog.add_course(course_with(&c, vec![], vec![vec![d.clone()]]));
    catalog.add_course(course_with(&d, vec![], vec![]));
    let results = Schedule::add_course_to_schedule(&c, &two_semesters(), &catalog);
    assert!(!results.is_empty());
    let mut found_shared = false;
    for result in &results {
        assert!(result.contains(&c));
        assert!(result.contains(&d));
        if result.get_time(&c) == result.get_time(&d) {
            found_shared = true;
        }
    }
    assert!(found_shared);
}

#[test]
fn alternative_group_explores_both_choices() {
    // E needs one of {F, G}: the results reflect both choices.
    let mut catalog = Catalog::new();
    let e = CourseID::new("TEST", 1600);
    let f = CourseID::new("TEST", 1700);
    let g = CourseID::new("TEST", 1800);
    catalog.add_course(course_with(&f, vec![], vec![]));
    catalog.add_course(course_with(&g, vec![], vec![]));
    catalog.add_course(course_with(&e, vec![vec![f.clone(), g.clone()]], vec![]));
    let results = Schedule::add_course_to_schedule(&e, &two_semesters(), &catalog);
    assert!(!results.is_empty());
    assert!(results.iter().any(|s| s.contains(&f)));
    assert!(results.iter().any(|s| s.contains(&g)));
    for result in &results {
        assert!(result.contains(&e));
    }
}

#[test]
fn unsatisfiable_requirements_mean_no_results() {
    // B needs A, and the schedule has a single semester: no slot can ever
    // be strictly later than A's, so B has no legal placement.
    let mut catalog = Catalog::new();
    let a = CourseID::new("TEST", 1100);
    let b = CourseID::new("TEST", 1200);
    catalog.add_course(course_with(&a, vec![], vec![]));
    catalog.add_course(course_with(&b, vec![vec![a.clone()]], vec![]));
    let mut schedule = Schedule::new();
    schedule.add_semester(Semester::new(SemTime::Fall(0)));
    let results = Schedule::add_course_to_schedule(&b, &schedule, &catalog);
    assert!(results.is_empty());
}

#[test]
fn get_schedules_feeds_every_candidate() {
    let mut catalog = Catalog::new();
    let a = CourseID::new("TEST", 1100);
    catalog.add_course(course_with(&a, vec![], vec![]));
    let candidates = vec![two_semesters(), two_semesters()];
    let results = get_schedules(&a, &catalog, candidates);
    assert_eq!(results.len(), 4);
    for result in &results {
        assert!(result.contains(&a));
    }
}
