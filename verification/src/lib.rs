//! A university course planner: a catalog of courses with prerequisite and
//! corequisite rules, a timeline of semesters, and a search that enumerates
//! every legal way to place a course (and the courses it requires) into a
//! schedule.

pub mod catalog;
pub mod course;
pub mod engine;
pub mod schedule;

pub use catalog::Catalog;
pub use course::Course;
pub use course::CourseID;
pub use course::CourseIdView;
pub use course::CourseView;
pub use engine::get_schedules;
pub use schedule::Schedule;
pub use schedule::SemTime;
pub use schedule::Semester;
pub use schedule::SemesterView;
