//! The temporal model: semester times, semesters, and schedules.

use vstd::prelude::*;

use crate::course::clone_ids;
use crate::course::distinct_ids;
use crate::course::ids_contain;
use crate::course::ids_view;
use crate::course::push_unique;
use crate::course::CourseID;
use crate::course::CourseIdView;

verus! {

/// Identifies one university semester: a season and an academic year.
#[derive(Clone, Copy, Debug, PartialEq, Eq, Structural, Hash)]
pub enum SemTime {
    Fall(i32),
    Spring(i32),
    Summer(i32),
}

/// The year a semester time lies in.
pub open spec fn sem_year(t: SemTime) -> int {
    match t {
        SemTime::Fall(y) => y as int,
        SemTime::Spring(y) => y as int,
        SemTime::Summer(y) => y as int,
    }
}

/// Position of a season within its year: Spring, then Summer, then Fall.
pub open spec fn sem_season(t: SemTime) -> int {
    match t {
        SemTime::Spring(_) => 0,
        SemTime::Summer(_) => 1,
        SemTime::Fall(_) => 2,
    }
}

/// Strict chronological order on semester times: by year, then by season.
pub open spec fn sem_lt(a: SemTime, b: SemTime) -> bool {
    sem_year(a) < sem_year(b) || (sem_year(a) == sem_year(b) && sem_season(a) < sem_season(b))
}

/// Chronology within and across years: Spring before Summer before Fall, and
/// everything in an earlier year before everything in a later one.
pub proof fn lemma_sem_time_order(y: i32, z: i32)
    ensures
        sem_lt(SemTime::Spring(y), SemTime::Summer(y)),
        sem_lt(SemTime::Summer(y), SemTime::Fall(y)),
        sem_lt(SemTime::Spring(y), SemTime::Fall(y)),
        y < z ==> sem_lt(SemTime::Fall(y), SemTime::Spring(z)),
{
}

/// The chronological order is a strict total order.
pub proof fn lemma_sem_lt_strict_total(a: SemTime, b: SemTime, c: SemTime)
    ensures
        !sem_lt(a, a),
        sem_lt(a, b) && sem_lt(b, c) ==> sem_lt(a, c),
        sem_lt(a, b) || sem_lt(b, a) || a == b,
{
}

/// Strict chronological comparison.
pub fn sem_before(a: &SemTime, b: &SemTime) -> (r: bool)
    ensures
        r == sem_lt(*a, *b),
{
    let (ya, sa): (i32, u8) = match a {
        SemTime::Spring(y) => (*y, 0),
        SemTime::Summer(y) => (*y, 1),
        SemTime::Fall(y) => (*y, 2),
    };
    let (yb, sb): (i32, u8) = match b {
        SemTime::Spring(y) => (*y, 0),
        SemTime::Summer(y) => (*y, 1),
        SemTime::Fall(y) => (*y, 2),
    };
    ya < yb || (ya == yb && sa < sb)
}

impl PartialOrd for SemTime {
    fn partial_cmp(&self, other: &Self) -> (r: Option<core::cmp::Ordering>) {
        if sem_before(self, other) {
            Some(core::cmp::Ordering::Less)
        } else if sem_before(other, self) {
            Some(core::cmp::Ordering::Greater)
        } else {
            Some(core::cmp::Ordering::Equal)
        }
    }
}

impl vstd::std_specs::cmp::PartialOrdSpecImpl for SemTime {
    open spec fn obeys_partial_cmp_spec() -> bool {
        true
    }

    open spec fn partial_cmp_spec(&self, other: &Self) -> Option<core::cmp::Ordering> {
        if sem_lt(*self, *other) {
            Some(core::cmp::Ordering::Less)
        } else if sem_lt(*other, *self) {
            Some(core::cmp::Ordering::Greater)
        } else {
            Some(core::cmp::Ordering::Equal)
        }
    }
}

/// Mathematical value of a semester: its time and the courses scheduled in
/// it, a duplicate-free sequence read with set semantics.
#[verifier::ext_equal]
pub struct SemesterView {
    pub time: SemTime,
    pub courses: Seq<CourseIdView>,
}

/// The set of courses for one university semester.
#[derive(Debug)]
pub struct Semester {
    courses: Vec<CourseID>,
    time: SemTime,
}

impl View for Semester {
    type V = SemesterView;

    closed spec fn view(&self) -> SemesterView {
        SemesterView { time: self.time, courses: ids_view(self.courses@) }
    }
}

impl Clone for Semester {
    fn clone(&self) -> (r: Self)
        ensures
            r@ == self@,
    {
        let r = Semester { courses: clone_ids(&self.courses), time: self.time };
        proof {
            assert(r@ =~= self@);
        }
        r
    }
}

/// Removes the first occurrence of an identifier, leaving the rest in order.
pub open spec fn remove_first(s: Seq<CourseIdView>, x: CourseIdView) -> Seq<CourseIdView>
    decreases s.len(),
{
    if s.len() == 0 {
        s
    } else if s[0] == x {
        s.drop_first()
    } else {
        seq![s[0]] + remove_first(s.drop_first(), x)
    }
}

/// `remove_first` deletes exactly the first matching position.
proof fn lemma_remove_first_at(s: Seq<CourseIdView>, x: CourseIdView, j: int)
    requires
        0 <= j < s.len(),
        s[j] == x,
        forall|k: int| 0 <= k < j ==> s[k] != x,
    ensures
        remove_first(s, x) == s.remove(j),
    decreases j,
{
    if j == 0 {
        assert(remove_first(s, x) =~= s.remove(0));
    } else {
        lemma_remove_first_at(s.drop_first(), x, j - 1);
        assert(s[0] != x);
        assert(remove_first(s, x) == seq![s[0]] + s.drop_first().remove(j - 1));
        assert(seq![s[0]] + s.drop_first().remove(j - 1) =~= s.remove(j));
    }
}

/// When nothing matches, `remove_first` changes nothing.
proof fn lemma_remove_first_absent(s: Seq<CourseIdView>, x: CourseIdView)
    requires
        !s.contains(x),
    ensures
        remove_first(s, x) == s,
    decreases s.len(),
{
    if s.len() > 0 {
        assert(s[0] != x);
        assert(forall|k: int| 0 <= k < s.drop_first().len() ==> s.drop_first()[k] == s[k + 1]);
        assert(!s.drop_first().contains(x));
        lemma_remove_first_absent(s.drop_first(), x);
        assert(seq![s[0]] + s.drop_first() =~= s);
    }
}

impl Semester {
    /// A new, empty semester at the given time.
    pub fn new(time: SemTime) -> (r: Self)
        ensures
            r@ == (SemesterView { time, courses: Seq::empty() }),
    {
        let r = Semester { courses: Vec::new(), time };
        proof {
            assert(r@ =~= (SemesterView { time, courses: Seq::empty() }));
        }
        r
    }

    /// Adds a course; adding one already present changes nothing.
    pub fn add_course(&mut self, coid: &CourseID)
        ensures
            final(self)@ == (SemesterView {
                time: old(self)@.time,
                courses: push_unique(old(self)@.courses, coid@),
            }),
            distinct_ids(old(self)@.courses) ==> distinct_ids(final(self)@.courses),
    {
        if !ids_contain(&self.courses, coid) {
            self.courses.push(coid.clone());
            proof {
                assert(ids_view(self.courses@) =~= old(self)@.courses.push(coid@));
            }
        }
    }

    /// Removes a course; removing one not present changes nothing.
    pub fn remove_course(&mut self, coid: &CourseID)
        ensures
            final(self)@ == (SemesterView {
                time: old(self)@.time,
                courses: remove_first(old(self)@.courses, coid@),
            }),
    {
        let ghost s0 = ids_view(self.courses@);
        let mut i: usize = 0;
        while i < self.courses.len()
            invariant
                i <= self.courses@.len(),
                self@ == old(self)@,
                s0 == old(self)@.courses,
                forall|k: int| 0 <= k < i ==> s0[k] != coid@,
            decreases self.courses@.len() - i,
        {
            if self.courses[i] == *coid {
                proof {
                    lemma_remove_first_at(s0, coid@, i as int);
                }
                self.courses.remove(i);
                proof {
                    assert(ids_view(self.courses@) =~= s0.remove(i as int));
                    assert(self@ =~= (SemesterView {
                        time: old(self)@.time,
                        courses: remove_first(old(self)@.courses, coid@),
                    }));
                }
                return ;
            }
            i = i + 1;
        }
        proof {
            assert forall|k: int| 0 <= k < s0.len() implies #[trigger] s0[k] != coid@ by {}
            assert(!s0.contains(coid@));
            lemma_remove_first_absent(s0, coid@);
            assert(self@ =~= (SemesterView {
                time: old(self)@.time,
                courses: remove_first(old(self)@.courses, coid@),
            }));
        }
    }

    /// Whether the course is scheduled in this semester.
    pub fn contains(&self, coid: &CourseID) -> (r: bool)
        ensures
            r == self@.courses.contains(coid@),
    {
        ids_contain(&self.courses, coid)
    }

    /// The time this semester lies at.
    pub fn get_time(&self) -> (r: &SemTime)
        ensures
            *r == self@.time,
    {
        &self.time
    }

    /// The courses scheduled in this semester.
    pub fn courses(&self) -> (r: &Vec<CourseID>)
        ensures
            ids_view(r@) == self@.courses,
    {
        &self.courses
    }

    /// Text form: the season and year, a colon, then one indented line per
    /// course.
    pub fn render(&self) -> (r: String)
        ensures
            r@ == semester_chars(self@),
    {
        proof {
            reveal_strlit("Fall");
            reveal_strlit("Spring");
            reveal_strlit("Summer");
            reveal_strlit(" ");
            reveal_strlit(":\n");
            reveal_strlit("\t");
            reveal_strlit("\n");
        }
        let mut out = String::new();
        let year: i32 = match &self.time {
            SemTime::Fall(y) => {
                out.append("Fall");
                *y
            },
            SemTime::Spring(y) => {
                out.append("Spring");
                *y
            },
            SemTime::Summer(y) => {
                out.append("Summer");
                *y
            },
        };
        proof {
            assert(out@ =~= season_chars(self@.time));
        }
        out.append(" ");
        crate::course::push_int(&mut out, year);
        out.append(":\n");
        let ghost head = season_chars(self@.time) + seq![' '] + crate::course::int_rep(
            sem_year(self@.time),
        ) + seq![':', '\n'];
        proof {
            assert(out@ =~= head);
        }
        let ghost vids = ids_view(self.courses@);
        let mut i: usize = 0;
        while i < self.courses.len()
            invariant
                i <= self.courses@.len(),
                vids == ids_view(self.courses@),
                out@ == head + course_lines(vids.take(i as int)),
            decreases self.courses@.len() - i,
        {
            out.append("\t");
            let cr = self.courses[i].render();
            out.append(cr.as_str());
            out.append("\n");
            i = i + 1;
            proof {
                reveal_strlit("\t");
                reveal_strlit("\n");
                assert(vids.take(i as int).drop_last() =~= vids.take(i - 1));
                assert(vids.take(i as int).last() == vids[i - 1]);
                assert(out@ =~= head + course_lines(vids.take(i as int)));
            }
        }
        proof {
            assert(vids.take(self.courses@.len() as int) =~= vids);
            assert(out@ =~= semester_chars(self@));
        }
        out
    }
}

/// The season's name.
pub open spec fn season_chars(t: SemTime) -> Seq<char> {
    match t {
        SemTime::Fall(_) => seq!['F', 'a', 'l', 'l'],
        SemTime::Spring(_) => seq!['S', 'p', 'r', 'i', 'n', 'g'],
        SemTime::Summer(_) => seq!['S', 'u', 'm', 'm', 'e', 'r'],
    }
}

/// One line per scheduled course, each indented and ended by a newline.
pub open spec fn course_lines(cs: Seq<CourseIdView>) -> Seq<char>
    decreases cs.len(),
{
    if cs.len() == 0 {
        Seq::empty()
    } else {
        course_lines(cs.drop_last()) + seq!['\t'] + crate::course::render_spec(cs.last()) + seq![
            '\n',
        ]
    }
}

/// Text form of a semester: its season and year, a colon, then one indented
/// line per course.
pub open spec fn semester_chars(sm: SemesterView) -> Seq<char> {
    season_chars(sm.time) + seq![' '] + crate::course::int_rep(sem_year(sm.time)) + seq![':', '\n']
        + course_lines(sm.courses)
}

/// Text form of a schedule: its semesters, in chronological order.
pub open spec fn schedule_chars(s: Seq<SemesterView>) -> Seq<char>
    decreases s.len(),
{
    if s.len() == 0 {
        Seq::empty()
    } else {
        schedule_chars(s.drop_last()) + semester_chars(s.last())
    }
}

/// Views of a sequence of semesters.
pub open spec fn sems_view(s: Seq<Semester>) -> Seq<SemesterView> {
    s.map_values(|x: Semester| x@)
}

/// A well-formed schedule: semesters in strictly increasing chronological
/// order (so each time occurs once), each free of duplicate courses.
pub open spec fn sched_wf(s: Seq<SemesterView>) -> bool {
    &&& forall|i: int, j: int| 0 <= i < j < s.len() ==> sem_lt(s[i].time, s[j].time)
    &&& forall|i: int| 0 <= i < s.len() ==> distinct_ids(#[trigger] s[i].courses)
}

/// Whether any semester of the schedule holds the course.
pub open spec fn sched_contains(s: Seq<SemesterView>, x: CourseIdView) -> bool {
    exists|i: int| 0 <= i < s.len() && #[trigger] s[i].courses.contains(x)
}

/// Whether the schedule has a semester at the given time.
pub open spec fn contains_time(s: Seq<SemesterView>, t: SemTime) -> bool {
    exists|i: int| 0 <= i < s.len() && s[i].time == t
}

/// The position of the semester at the given time (unique in a well-formed
/// schedule).
pub open spec fn index_of_time(s: Seq<SemesterView>, t: SemTime) -> int {
    choose|i: int| 0 <= i < s.len() && s[i].time == t
}

/// The time of the first semester holding the course, scanning in
/// chronological order.
pub open spec fn time_of(s: Seq<SemesterView>, x: CourseIdView) -> Option<SemTime>
    decreases s.len(),
{
    if s.len() == 0 {
        None
    } else if s[0].courses.contains(x) {
        Some(s[0].time)
    } else {
        time_of(s.drop_first(), x)
    }
}

/// A course has a time exactly when some semester holds it.
pub proof fn lemma_time_of_contains(s: Seq<SemesterView>, x: CourseIdView)
    ensures
        time_of(s, x) is Some <==> sched_contains(s, x),
    decreases s.len(),
{
    if s.len() > 0 {
        lemma_time_of_contains(s.drop_first(), x);
        if s[0].courses.contains(x) {
        } else if sched_contains(s.drop_first(), x) {
            let i = choose|i: int|
                0 <= i < s.drop_first().len() && #[trigger] s.drop_first()[i].courses.contains(x);
            assert(s[i + 1].courses.contains(x));
        } else if sched_contains(s, x) {
            let i = choose|i: int| 0 <= i < s.len() && #[trigger] s[i].courses.contains(x);
            assert(i > 0);
            assert(s.drop_first()[i - 1].courses.contains(x));
        }
    }
}

/// Scanning past semesters that lack the course leaves its time unchanged.
proof fn lemma_time_of_skip(s: Seq<SemesterView>, x: CourseIdView, i: int)
    requires
        0 <= i <= s.len(),
        forall|k: int| 0 <= k < i ==> !(#[trigger] s[k].courses.contains(x)),
    ensures
        time_of(s, x) == time_of(s.skip(i), x),
    decreases i,
{
    if i > 0 {
        assert(!s[0].courses.contains(x));
        assert(time_of(s, x) == time_of(s.drop_first(), x));
        lemma_time_of_skip(s.drop_first(), x, i - 1);
        assert(s.drop_first().skip(i - 1) =~= s.skip(i));
    } else {
        assert(s.skip(0) =~= s);
    }
}

/// Inserting a semester into a chronologically ordered schedule: it replaces
/// the semester at its time, or takes its place in the order.
pub open spec fn insert_semester(s: Seq<SemesterView>, sm: SemesterView) -> Seq<SemesterView>
    decreases s.len(),
{
    if s.len() == 0 {
        seq![sm]
    } else if sem_lt(s[0].time, sm.time) {
        seq![s[0]] + insert_semester(s.drop_first(), sm)
    } else if s[0].time == sm.time {
        seq![sm] + s.drop_first()
    } else {
        seq![sm] + s
    }
}

/// Inserting into a well-formed schedule keeps it well-formed, and every
/// resulting semester is the new one or one of the old.
proof fn lemma_insert_semester_wf(s: Seq<SemesterView>, sm: SemesterView)
    requires
        sched_wf(s),
        distinct_ids(sm.courses),
    ensures
        sched_wf(insert_semester(s, sm)),
        forall|k: int|
            0 <= k < insert_semester(s, sm).len() ==> (#[trigger] insert_semester(s, sm)[k] == sm
                || s.contains(insert_semester(s, sm)[k])),
    decreases s.len(),
{
    let r = insert_semester(s, sm);
    if s.len() == 0 {
    } else {
        let tail = s.drop_first();
        assert(forall|k: int| 0 <= k < tail.len() ==> tail[k] == s[k + 1]);
        assert(sched_wf(tail));
        if sem_lt(s[0].time, sm.time) {
            lemma_insert_semester_wf(tail, sm);
            let rt = insert_semester(tail, sm);
            assert forall|k: int| 0 <= k < r.len() implies (#[trigger] r[k] == sm || s.contains(
                r[k],
            )) by {
                if k == 0 {
                    assert(s[0] == r[0]);
                    assert(s.contains(s[0]));
                } else {
                    assert(r[k] == rt[k - 1]);
                    if rt[k - 1] == sm {
                    } else {
                        let j = choose|j: int| 0 <= j < tail.len() && tail[j] == rt[k - 1];
                        assert(s[j + 1] == rt[k - 1]);
                    }
                }
            }
            assert forall|a: int, b: int| 0 <= a < b < r.len() implies sem_lt(
                r[a].time,
                r[b].time,
            ) by {
                if a == 0 {
                    if rt[b - 1] == sm {
                    } else {
                        let j = choose|j: int| 0 <= j < tail.len() && tail[j] == rt[b - 1];
                        assert(sem_lt(s[0].time, s[j + 1].time));
                    }
                } else {
                    assert(sem_lt(rt[a - 1].time, rt[b - 1].time));
                }
            }
            assert forall|i: int| 0 <= i < r.len() implies distinct_ids(#[trigger] r[i].courses)
                by {
                if i == 0 {
                    assert(distinct_ids(s[0].courses));
                } else {
                    assert(distinct_ids(rt[i - 1].courses));
                }
            }
        } else if s[0].time == sm.time {
            assert forall|a: int, b: int| 0 <= a < b < r.len() implies sem_lt(
                r[a].time,
                r[b].time,
            ) by {
                if a == 0 {
                    assert(r[b] == s[b]);
                    assert(sem_lt(s[0].time, s[b].time));
                } else {
                    assert(sem_lt(s[a].time, s[b].time));
                }
            }
            assert forall|k: int| 0 <= k < r.len() implies (#[trigger] r[k] == sm || s.contains(
                r[k],
            )) by {
                if k > 0 {
                    assert(r[k] == s[k]);
                }
            }
            assert forall|i: int| 0 <= i < r.len() implies distinct_ids(#[trigger] r[i].courses)
                by {
                if i > 0 {
                    assert(distinct_ids(s[i].courses));
                }
            }
        } else {
            assert forall|a: int, b: int| 0 <= a < b < r.len() implies sem_lt(
                r[a].time,
                r[b].time,
            ) by {
                if a == 0 {
                    assert(r[b] == s[b - 1]);
                    if b > 1 {
                        assert(sem_lt(s[0].time, s[b - 1].time));
                    }
                } else {
                    assert(sem_lt(s[a - 1].time, s[b - 1].time));
                }
            }
            assert forall|k: int| 0 <= k < r.len() implies (#[trigger] r[k] == sm || s.contains(
                r[k],
            )) by {
                if k > 0 {
                    assert(r[k] == s[k - 1]);
                }
            }
            assert forall|i: int| 0 <= i < r.len() implies distinct_ids(#[trigger] r[i].courses)
                by {
                if i > 0 {
                    assert(distinct_ids(s[i - 1].courses));
                }
            }
        }
    }
}

/// Splits an insertion at a position every earlier semester precedes.
proof fn lemma_insert_semester_split(s: Seq<SemesterView>, sm: SemesterView, i: int)
    requires
        0 <= i <= s.len(),
        forall|k: int| 0 <= k < i ==> sem_lt(#[trigger] s[k].time, sm.time),
    ensures
        insert_semester(s, sm) == s.take(i) + insert_semester(s.skip(i), sm),
    decreases i,
{
    if i == 0 {
        assert(s.skip(0) =~= s);
        assert(s.take(0) + insert_semester(s, sm) =~= insert_semester(s, sm));
    } else {
        assert(sem_lt(s[0].time, sm.time));
        let tail = s.drop_first();
        assert(forall|k: int| 0 <= k < i - 1 ==> sem_lt(#[trigger] tail[k].time, sm.time));
        lemma_insert_semester_split(tail, sm, i - 1);
        assert(tail.skip(i - 1) =~= s.skip(i));
        assert(seq![s[0]] + (tail.take(i - 1) + insert_semester(s.skip(i), sm)) =~= s.take(i)
            + insert_semester(s.skip(i), sm));
    }
}

/// Adds the course to the semester at the given time, if there is one.
pub open spec fn insert_course(s: Seq<SemesterView>, t: SemTime, x: CourseIdView) -> Seq<
    SemesterView,
> {
    s.map_values(
        |sm: SemesterView|
            if sm.time == t {
                SemesterView { time: sm.time, courses: push_unique(sm.courses, x) }
            } else {
                sm
            },
    )
}

/// Drops the semester at the given time, if there is one.
pub open spec fn remove_semester_spec(s: Seq<SemesterView>, t: SemTime) -> Seq<SemesterView> {
    if contains_time(s, t) {
        s.remove(index_of_time(s, t))
    } else {
        s
    }
}

/// The eight semesters of the default planning horizon, in order.
pub open spec fn default_horizon_spec() -> Seq<SemesterView> {
    seq![
        SemesterView { time: SemTime::Fall(0), courses: Seq::empty() },
        SemesterView { time: SemTime::Spring(1), courses: Seq::empty() },
        SemesterView { time: SemTime::Fall(1), courses: Seq::empty() },
        SemesterView { time: SemTime::Spring(2), courses: Seq::empty() },
        SemesterView { time: SemTime::Summer(2), courses: Seq::empty() },
        SemesterView { time: SemTime::Fall(2), courses: Seq::empty() },
        SemesterView { time: SemTime::Fall(3), courses: Seq::empty() },
        SemesterView { time: SemTime::Spring(4), courses: Seq::empty() },
    ]
}

/// One variant of a planned set of semesters, kept in chronological order.
#[derive(Debug)]
pub struct Schedule {
    semesters: Vec<Semester>,
}

impl View for Schedule {
    type V = Seq<SemesterView>;

    closed spec fn view(&self) -> Seq<SemesterView> {
        sems_view(self.semesters@)
    }
}

impl Clone for Schedule {
    fn clone(&self) -> (r: Self)
        ensures
            r@ == self@,
    {
        let mut v: Vec<Semester> = Vec::new();
        let mut i: usize = 0;
        while i < self.semesters.len()
            invariant
                i <= self.semesters@.len(),
                v@.len() == i,
                forall|k: int| 0 <= k < i ==> v@[k]@ == self.semesters@[k]@,
            decreases self.semesters@.len() - i,
        {
            v.push(self.semesters[i].clone());
            i = i + 1;
        }
        let r = Schedule { semesters: v };
        proof {
            assert(r@ =~= self@);
        }
        r
    }
}

impl Schedule {
    /// A new, empty schedule.
    pub fn new() -> (r: Self)
        ensures
            r@ == Seq::<SemesterView>::empty(),
            sched_wf(r@),
    {
        let r = Schedule { semesters: Vec::new() };
        proof {
            assert(r@ =~= Seq::<SemesterView>::empty());
        }
        r
    }

    /// The default planning horizon: eight empty semesters spanning four
    /// academic years.
    pub fn default_horizon() -> (r: Self)
        ensures
            r@ == default_horizon_spec(),
            sched_wf(r@),
    {
        let mut v: Vec<Semester> = Vec::new();
        v.push(Semester::new(SemTime::Fall(0)));
        v.push(Semester::new(SemTime::Spring(1)));
        v.push(Semester::new(SemTime::Fall(1)));
        v.push(Semester::new(SemTime::Spring(2)));
        v.push(Semester::new(SemTime::Summer(2)));
        v.push(Semester::new(SemTime::Fall(2)));
        v.push(Semester::new(SemTime::Fall(3)));
        v.push(Semester::new(SemTime::Spring(4)));
        let r = Schedule { semesters: v };
        proof {
            assert(r@ =~= default_horizon_spec());
        }
        r
    }

    /// Inserts a semester at its time, replacing any semester already there.
    pub fn add_semester(&mut self, sem: Semester)
        requires
            sched_wf(old(self)@),
            distinct_ids(sem@.courses),
        ensures
            final(self)@ == insert_semester(old(self)@, sem@),
            sched_wf(final(self)@),
    {
        let ghost s0 = self@;
        let time: SemTime = *sem.get_time();
        let mut i: usize = 0;
        while i < self.semesters.len() && sem_before(self.semesters[i].get_time(), &time)
            invariant
                i <= self.semesters@.len(),
                self@ == s0,
                s0 == old(self)@,
                time == sem@.time,
                forall|k: int| 0 <= k < i ==> sem_lt(#[trigger] s0[k].time, time),
            decreases self.semesters@.len() - i,
        {
            i = i + 1;
        }
        proof {
            lemma_insert_semester_split(s0, sem@, i as int);
            lemma_insert_semester_wf(s0, sem@);
        }
        if i == self.semesters.len() {
            self.semesters.push(sem);
            proof {
                assert(s0.skip(i as int) =~= Seq::<SemesterView>::empty());
                assert(self@ =~= s0.take(i as int) + insert_semester(s0.skip(i as int), sem@));
            }
        } else if self.semesters[i].get_time() == sem.get_time() {
            self.semesters.remove(i);
            self.semesters.insert(i, sem);
            proof {
                assert(s0.skip(i as int)[0] == s0[i as int]);
                assert(insert_semester(s0.skip(i as int), sem@) == seq![sem@] + s0.skip(
                    i as int,
                ).drop_first());
                assert(s0.skip(i as int).drop_first() =~= s0.skip(i + 1));
                assert(self@ =~= s0.take(i as int) + (seq![sem@] + s0.skip(i + 1)));
            }
        } else {
            self.semesters.insert(i, sem);
            proof {
                assert(s0.skip(i as int)[0] == s0[i as int]);
                assert(!sem_lt(s0[i as int].time, sem@.time));
                assert(insert_semester(s0.skip(i as int), sem@) == seq![sem@] + s0.skip(i as int));
                assert(self@ =~= s0.take(i as int) + (seq![sem@] + s0.skip(i as int)));
            }
        }
    }

    /// Adds a course to the semester at the given time.  Returns whether
    /// such a semester exists; without one, nothing changes.  Adding a
    /// course its semester already holds changes nothing.
    pub fn add_course(&mut self, sem: &SemTime, coid: &CourseID) -> (r: bool)
        requires
            sched_wf(old(self)@),
        ensures
            r == contains_time(old(self)@, *sem),
            final(self)@ == insert_course(old(self)@, *sem, coid@),
            sched_wf(final(self)@),
    {
        let ghost s0 = self@;
        let mut i: usize = 0;
        while i < self.semesters.len()
            invariant
                i <= self.semesters@.len(),
                self@ == s0,
                s0 == old(self)@,
                sched_wf(s0),
                forall|k: int| 0 <= k < i ==> #[trigger] s0[k].time != *sem,
            decreases self.semesters@.len() - i,
        {
            if self.semesters[i].get_time() == sem {
                let smr = &mut self.semesters[i];
                smr.add_course(coid);
                proof {
                    assert forall|k: int| 0 <= k < self@.len() implies #[trigger] self@[k]
                        == insert_course(s0, *sem, coid@)[k] by {
                        if k != i {
                            if k < i {
                                assert(s0[k].time != *sem);
                            } else {
                                assert(sem_lt(s0[i as int].time, s0[k].time));
                                assert(s0[k].time != *sem);
                            }
                        }
                    }
                    assert(self@ =~= insert_course(s0, *sem, coid@));
                    assert(contains_time(s0, *sem));
                }
                return true;
            }
            i = i + 1;
        }
        proof {
            assert(!contains_time(s0, *sem));
            assert forall|k: int| 0 <= k < self@.len() implies #[trigger] self@[k] == insert_course(
                s0,
                *sem,
                coid@,
            )[k] by {
                assert(s0[k].time != *sem);
            }
            assert(self@ =~= insert_course(s0, *sem, coid@));
        }
        false
    }

    /// The semester at the given time, if there is one.
    pub fn get_semester(&self, sem: &SemTime) -> (r: Option<&Semester>)
        requires
            sched_wf(self@),
        ensures
            match r {
                Some(sm) => contains_time(self@, *sem) && sm@ == self@[index_of_time(
                    self@,
                    *sem,
                )],
                None => !contains_time(self@, *sem),
            },
    {
        let mut i: usize = 0;
        while i < self.semesters.len()
            invariant
                i <= self.semesters@.len(),
                sched_wf(self@),
                forall|k: int| 0 <= k < i ==> #[trigger] self@[k].time != *sem,
            decreases self.semesters@.len() - i,
        {
            if self.semesters[i].get_time() == sem {
                proof {
                    assert(contains_time(self@, *sem));
                    let j = index_of_time(self@, *sem);
                    if j != i {
                        if j < i {
                            assert(sem_lt(self@[j].time, self@[i as int].time));
                        } else {
                            assert(sem_lt(self@[i as int].time, self@[j].time));
                        }
                    }
                }
                return Some(&self.semesters[i]);
            }
            i = i + 1;
        }
        None
    }

    /// A mutable borrow of the semester at the given time, if there is one.
    /// The schedule reflects whatever the caller does through the borrow,
    /// and stays well-formed as long as the semester's time is left alone
    /// (no method of `Semester` changes it) and its courses stay free of
    /// duplicates (every method keeps them so).
    pub fn get_semester_mut(&mut self, sem: &SemTime) -> (r: Option<&mut Semester>)
        requires
            sched_wf(old(self)@),
        ensures
            r is Some <==> contains_time(old(self)@, *sem),
            r is None ==> final(self)@ == old(self)@ && sched_wf(final(self)@),
            r matches Some(sm) ==> (*sm)@ == old(self)@[index_of_time(old(self)@, *sem)] && (
            final(sm)@.time == (*sm)@.time && distinct_ids(final(sm)@.courses) ==> final(self)@
                == old(self)@.update(index_of_time(old(self)@, *sem), final(sm)@) && sched_wf(
                final(self)@,
            )),
    {
        let ghost s0 = self@;
        let ghost sv = self.semesters@;
        let mut i: usize = 0;
        while i < self.semesters.len()
            invariant
                i <= self.semesters@.len(),
                self@ == s0,
                s0 == old(self)@,
                sv == self.semesters@,
                sched_wf(s0),
                forall|k: int| 0 <= k < i ==> #[trigger] s0[k].time != *sem,
            decreases self.semesters@.len() - i,
        {
            if self.semesters[i].get_time() == sem {
                proof {
                    assert(contains_time(s0, *sem));
                    let j = index_of_time(s0, *sem);
                    if j != i {
                        if j < i {
                            assert(sem_lt(s0[j].time, s0[i as int].time));
                        } else {
                            assert(sem_lt(s0[i as int].time, s0[j].time));
                        }
                    }
                    assert forall|x: Semester| #[trigger] sems_view(sv.update(i as int, x))
                        =~= s0.update(i as int, x@) by {}
                    assert forall|w: SemesterView, a: int, b: int|
                        #![trigger s0.update(i as int, w)[a], s0.update(i as int, w)[b]]
                        w.time == s0[i as int].time && distinct_ids(w.courses) && 0 <= a < b
                            < s0.len() implies sem_lt(
                        s0.update(i as int, w)[a].time,
                        s0.update(i as int, w)[b].time,
                    ) by {
                        assert(sem_lt(s0[a].time, s0[b].time));
                    }
                    assert forall|w: SemesterView, a: int|
                        w.time == s0[i as int].time && distinct_ids(w.courses) && 0 <= a
                            < s0.len() implies distinct_ids(
                        #[trigger] s0.update(i as int, w)[a].courses,
                    ) by {
                        if a != i {
                            assert(distinct_ids(s0[a].courses));
                        }
                    }
                }
                let smr = &mut self.semesters[i];
                return Some(smr);
            }
            i = i + 1;
        }
        None
    }

    /// Removes the semester at the given time, if there is one.
    pub fn remove_semester(&mut self, sem: &SemTime)
        requires
            sched_wf(old(self)@),
        ensures
            final(self)@ == remove_semester_spec(old(self)@, *sem),
            sched_wf(final(self)@),
    {
        let ghost s0 = self@;
        let mut i: usize = 0;
        while i < self.semesters.len()
            invariant
                i <= self.semesters@.len(),
                self@ == s0,
                s0 == old(self)@,
                sched_wf(s0),
                forall|k: int| 0 <= k < i ==> #[trigger] s0[k].time != *sem,
            decreases self.semesters@.len() - i,
        {
            if self.semesters[i].get_time() == sem {
                proof {
                    assert(contains_time(s0, *sem));
                    let j = index_of_time(s0, *sem);
                    if j != i {
                        if j < i {
                            assert(sem_lt(s0[j].time, s0[i as int].time));
                        } else {
                            assert(sem_lt(s0[i as int].time, s0[j].time));
                        }
                    }
                }
                self.semesters.remove(i);
                proof {
                    assert(self@ =~= s0.remove(i as int));
                    assert forall|a: int, b: int| 0 <= a < b < self@.len() implies sem_lt(
                        #[trigger] self@[a].time,
                        #[trigger] self@[b].time,
                    ) by {
                        let a0: int = if a < i { a } else { a + 1 };
                        let b0: int = if b < i { b } else { b + 1 };
                        assert(sem_lt(s0[a0].time, s0[b0].time));
                    }
                    assert forall|a: int| 0 <= a < self@.len() implies distinct_ids(
                        #[trigger] self@[a].courses,
                    ) by {
                        let a0: int = if a < i { a } else { a + 1 };
                        assert(distinct_ids(s0[a0].courses));
                    }
                }
                return ;
            }
            i = i + 1;
        }
        proof {
            assert(!contains_time(s0, *sem));
        }
    }

    /// The semesters of this schedule, in chronological order.
    pub fn semesters(&self) -> (r: &Vec<Semester>)
        ensures
            sems_view(r@) == self@,
    {
        &self.semesters
    }

    /// Text form: the semesters of the schedule, in chronological order.
    pub fn render(&self) -> (r: String)
        ensures
            r@ == schedule_chars(self@),
    {
        let mut out = String::new();
        let ghost sv = self@;
        let mut i: usize = 0;
        while i < self.semesters.len()
            invariant
                i <= self.semesters@.len(),
                sv == self@,
                out@ == schedule_chars(sv.take(i as int)),
            decreases self.semesters@.len() - i,
        {
            let sr = self.semesters[i].render();
            out.append(sr.as_str());
            i = i + 1;
            proof {
                assert(sv.take(i as int).drop_last() =~= sv.take(i - 1));
                assert(sv.take(i as int).last() == sv[i - 1]);
                assert(out@ =~= schedule_chars(sv.take(i as int)));
            }
        }
        proof {
            assert(sv.take(self.semesters@.len() as int) =~= sv);
        }
        out
    }

    /// Whether any semester of this schedule holds the course.
    pub fn contains(&self, coid: &CourseID) -> (r: bool)
        ensures
            r == sched_contains(self@, coid@),
    {
        let mut i: usize = 0;
        while i < self.semesters.len()
            invariant
                i <= self.semesters@.len(),
                forall|k: int| 0 <= k < i ==> !(#[trigger] self@[k].courses.contains(coid@)),
            decreases self.semesters@.len() - i,
        {
            if self.semesters[i].contains(coid) {
                proof {
                    assert(self@[i as int].courses.contains(coid@));
                }
                return true;
            }
            i = i + 1;
        }
        false
    }

    /// The time of the first semester holding the course, if any does.
    pub fn get_time(&self, coid: &CourseID) -> (r: Option<&SemTime>)
        ensures
            match r {
                Some(t) => time_of(self@, coid@) == Some(*t),
                None => time_of(self@, coid@) is None,
            },
    {
        let mut i: usize = 0;
        while i < self.semesters.len()
            invariant
                i <= self.semesters@.len(),
                forall|k: int| 0 <= k < i ==> !(#[trigger] self@[k].courses.contains(coid@)),
            decreases self.semesters@.len() - i,
        {
            if self.semesters[i].contains(coid) {
                proof {
                    lemma_time_of_skip(self@, coid@, i as int);
                    assert(self@.skip(i as int)[0] == self@[i as int]);
                }
                return Some(self.semesters[i].get_time());
            }
            i = i + 1;
        }
        proof {
            lemma_time_of_skip(self@, coid@, i as int);
            assert(self@.skip(i as int) =~= Seq::<SemesterView>::empty());
        }
        None
    }
}

} // verus!
