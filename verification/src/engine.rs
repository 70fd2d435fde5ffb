//! The enumeration engine: the recursive search that places a course,
//! together with its transitive requirements, into a schedule in every legal
//! way.

use vstd::prelude::*;

use crate::catalog::Catalog;
use crate::course::distinct_ids;
use crate::course::push_unique;
use crate::course::CourseID;
use crate::course::CourseIdView;
use crate::course::CourseView;
use crate::schedule::contains_time;
use crate::schedule::insert_course;
use crate::schedule::sched_contains;
use crate::schedule::sched_wf;
use crate::schedule::sem_before;
use crate::schedule::sem_lt;
use crate::schedule::sems_view;
use crate::schedule::time_of;
use crate::schedule::Schedule;
use crate::schedule::SemTime;
use crate::schedule::SemesterView;

verus! {

/// One corequisite group passes at `t`: either no member is scheduled yet
/// (the group is resolved later, by the corequisite expansion), or some
/// member is scheduled exactly at `t`.
pub open spec fn coreq_group_ok(s: Seq<SemesterView>, g: Seq<CourseIdView>, t: SemTime) -> bool {
    (exists|j: int| 0 <= j < g.len() && time_of(s, #[trigger] g[j]) is Some) ==> (exists|j: int|
        0 <= j < g.len() && time_of(s, #[trigger] g[j]) == Some(t))
}

/// Every corequisite group passes at `t`.
pub open spec fn coreqs_ok(s: Seq<SemesterView>, gs: Seq<Seq<CourseIdView>>, t: SemTime) -> bool {
    forall|k: int| 0 <= k < gs.len() ==> coreq_group_ok(s, #[trigger] gs[k], t)
}

/// One prerequisite group passes at `t`: some member is scheduled strictly
/// earlier than `t`.
pub open spec fn prereq_group_ok(s: Seq<SemesterView>, g: Seq<CourseIdView>, t: SemTime) -> bool {
    exists|j: int, i: int|
        0 <= j < g.len() && 0 <= i < s.len() && sem_lt(s[i].time, t) && #[trigger] s[i].courses.contains(
            g[j],
        )
}

/// Every prerequisite group passes at `t`.
pub open spec fn prereqs_ok(s: Seq<SemesterView>, gs: Seq<Seq<CourseIdView>>, t: SemTime) -> bool {
    forall|k: int| 0 <= k < gs.len() ==> prereq_group_ok(s, #[trigger] gs[k], t)
}

/// The placement check.  A course already scheduled anywhere passes as a
/// no-op, the schedule unchanged.  Otherwise the course's corequisite and
/// prerequisite groups must all pass at `t`, and the course is inserted into
/// the semester at `t`.
pub open spec fn try_add_spec(
    s: Seq<SemesterView>,
    c: CourseIdView,
    t: SemTime,
    course: CourseView,
) -> Option<Seq<SemesterView>> {
    if sched_contains(s, c) {
        Some(s)
    } else if coreqs_ok(s, course.coreqs, t) && prereqs_ok(s, course.prereqs, t) {
        Some(insert_course(s, t, c))
    } else {
        None
    }
}

impl Schedule {
    /// Attempts to place the course into the semester at `sem`, checking the
    /// course's corequisite and prerequisite groups; a course already
    /// scheduled anywhere passes unchanged.  The catalog must hold the
    /// course.
    pub fn try_add(&self, coid: &CourseID, sem: &SemTime, catalog: &Catalog) -> (r: Option<
        Schedule,
    >)
        requires
            sched_wf(self@),
            catalog.wf(),
            catalog@.contains_key(coid@),
        ensures
            match r {
                Some(ns) => try_add_spec(self@, coid@, *sem, catalog@[coid@]) == Some(ns@)
                    && sched_wf(ns@),
                None => try_add_spec(self@, coid@, *sem, catalog@[coid@]) is None,
            },
    {
        if self.contains(coid) {
            return Some(self.clone());
        }
        let course = match catalog.get_course(coid) {
            Some(c) => c,
            None => {
                proof {
                    assert(false);
                }
                return None;
            },
        };
        let ghost cv = catalog@[coid@];
        let coreq_groups = course.coreq_sets();
        let mut k: usize = 0;
        while k < coreq_groups.len()
            invariant
                k <= coreq_groups@.len(),
                !sched_contains(self@, coid@),
                catalog@.contains_key(coid@),
                cv == catalog@[coid@],
                crate::course::groups_view(coreq_groups@) == cv.coreqs,
                forall|x: int| 0 <= x < k ==> coreq_group_ok(self@, #[trigger] cv.coreqs[x], *sem),
            decreases coreq_groups@.len() - k,
        {
            let g = &coreq_groups[k];
            let ghost gv = cv.coreqs[k as int];
            let mut any_scheduled = false;
            let mut at_target = false;
            let mut j: usize = 0;
            while j < g.len()
                invariant
                    j <= g@.len(),
                    gv == crate::course::ids_view(g@),
                    any_scheduled == (exists|x: int|
                        0 <= x < j && time_of(self@, #[trigger] gv[x]) is Some),
                    at_target == (exists|x: int|
                        0 <= x < j && time_of(self@, #[trigger] gv[x]) == Some(*sem)),
                decreases g@.len() - j,
            {
                match self.get_time(&g[j]) {
                    Some(t) => {
                        any_scheduled = true;
                        if *t == *sem {
                            at_target = true;
                        }
                        proof {
                            assert(time_of(self@, gv[j as int]) is Some);
                        }
                    },
                    None => {},
                }
                j = j + 1;
            }
            if any_scheduled != at_target {
                proof {
                    assert(any_scheduled && !at_target);
                    assert(!coreq_group_ok(self@, cv.coreqs[k as int], *sem));
                }
                return None;
            }
            k = k + 1;
        }
        proof {
            assert(coreqs_ok(self@, cv.coreqs, *sem));
        }
        let prereq_groups = course.prereq_sets();
        let mut k: usize = 0;
        while k < prereq_groups.len()
            invariant
                k <= prereq_groups@.len(),
                !sched_contains(self@, coid@),
                catalog@.contains_key(coid@),
                cv == catalog@[coid@],
                crate::course::groups_view(prereq_groups@) == cv.prereqs,
                coreqs_ok(self@, cv.coreqs, *sem),
                forall|x: int| 0 <= x < k ==> prereq_group_ok(self@, #[trigger] cv.prereqs[x], *sem),
            decreases prereq_groups@.len() - k,
        {
            let g = &prereq_groups[k];
            let ghost gv = cv.prereqs[k as int];
            let mut satisfied = false;
            let mut j: usize = 0;
            while j < g.len()
                invariant
                    j <= g@.len(),
                    gv == crate::course::ids_view(g@),
                    satisfied ==> prereq_group_ok(self@, gv, *sem),
                    !satisfied ==> forall|x: int, i: int|
                        0 <= x < j && 0 <= i < self@.len() && sem_lt(self@[i].time, *sem) ==> !(
                        #[trigger] self@[i].courses.contains(gv[x])),
                decreases g@.len() - j,
            {
                let member = &g[j];
                let sems = self.semesters();
                let mut i: usize = 0;
                while i < sems.len()
                    invariant
                        i <= sems@.len(),
                        sems_view(sems@) == self@,
                        gv == crate::course::ids_view(g@),
                        member@ == gv[j as int],
                        0 <= (j as int) < gv.len(),
                        satisfied ==> prereq_group_ok(self@, gv, *sem),
                        !satisfied ==> forall|x: int, i2: int|
                            0 <= x < j && 0 <= i2 < self@.len() && sem_lt(self@[i2].time, *sem)
                                ==> !(#[trigger] self@[i2].courses.contains(gv[x])),
                        !satisfied ==> forall|i2: int|
                            0 <= i2 < i && sem_lt(#[trigger] self@[i2].time, *sem)
                                ==> !self@[i2].courses.contains(gv[j as int]),
                    decreases sems@.len() - i,
                {
                    if sem_before(sems[i].get_time(), sem) && sems[i].contains(member) {
                        proof {
                            assert(self@[i as int].courses.contains(gv[j as int]));
                        }
                        satisfied = true;
                    }
                    i = i + 1;
                }
                j = j + 1;
            }
            if !satisfied {
                proof {
                    assert(!prereq_group_ok(self@, cv.prereqs[k as int], *sem));
                }
                return None;
            }
            k = k + 1;
        }
        proof {
            assert(prereqs_ok(self@, cv.prereqs, *sem));
        }
        let mut ns = self.clone();
        ns.add_course(sem, coid);
        Some(ns)
    }
}

/// Views of a sequence of schedules.
pub open spec fn scheds_view(s: Seq<Schedule>) -> Seq<Seq<SemesterView>> {
    s.map_values(|x: Schedule| x@)
}

/// The contribution of one alternative `p` across the candidate schedules
/// `w`, in their order: a candidate already holding `p` passes through
/// unchanged, and every legal placement of `p` into the others is taken.
pub open spec fn expand_one(
    p: CourseIdView,
    w: Seq<Seq<SemesterView>>,
    cat: Map<CourseIdView, CourseView>,
    fuel: nat,
) -> Seq<Seq<SemesterView>>
    decreases fuel, 0int, w.len(),
{
    if fuel == 0 || w.len() == 0 {
        Seq::empty()
    } else {
        expand_one(p, w.drop_last(), cat, fuel) + (if sched_contains(w.last(), p) {
            seq![w.last()]
        } else {
            place_spec(p, w.last(), cat, (fuel - 1) as nat)
        })
    }
}

/// One requirement group expands the candidate set: each member alternative
/// contributes in the group's listed order, so the results branch over every
/// choice of alternative.
pub open spec fn expand_members(
    g: Seq<CourseIdView>,
    w: Seq<Seq<SemesterView>>,
    cat: Map<CourseIdView, CourseView>,
    fuel: nat,
) -> Seq<Seq<SemesterView>>
    decreases fuel, 1int, g.len(),
{
    if g.len() == 0 {
        Seq::empty()
    } else {
        expand_members(g.drop_last(), w, cat, fuel) + expand_one(g.last(), w, cat, fuel)
    }
}

/// Requirement groups expand the candidate set one after the other, in their
/// listed order; all groups must be satisfied, so each feeds the next.
pub open spec fn expand_groups(
    gs: Seq<Seq<CourseIdView>>,
    w: Seq<Seq<SemesterView>>,
    cat: Map<CourseIdView, CourseView>,
    fuel: nat,
) -> Seq<Seq<SemesterView>>
    decreases fuel, 2int, gs.len(),
{
    if gs.len() == 0 {
        w
    } else {
        expand_members(gs.last(), expand_groups(gs.drop_last(), w, cat, fuel), cat, fuel)
    }
}

/// Placements of `c` into the first `n` semester slots of one candidate, in
/// chronological order, keeping those the placement check accepts.
pub open spec fn self_place_one(
    c: CourseIdView,
    s: Seq<SemesterView>,
    course: CourseView,
    n: int,
) -> Seq<Seq<SemesterView>>
    decreases n,
{
    if n <= 0 {
        Seq::empty()
    } else {
        self_place_one(c, s, course, n - 1) + (match try_add_spec(s, c, s[n - 1].time, course) {
            Some(ns) => seq![ns],
            None => Seq::empty(),
        })
    }
}

/// Placements of `c` into every semester slot of every candidate.
pub open spec fn self_place(
    c: CourseIdView,
    w: Seq<Seq<SemesterView>>,
    course: CourseView,
) -> Seq<Seq<SemesterView>>
    decreases w.len(),
{
    if w.len() == 0 {
        Seq::empty()
    } else {
        self_place(c, w.drop_last(), course) + self_place_one(
            c,
            w.last(),
            course,
            w.last().len() as int,
        )
    }
}

/// Every schedule the search returns for placing `c` into `s`: an unknown
/// course has no placement; otherwise the prerequisite groups expand the
/// candidate set, the course itself is placed at every slot that passes the
/// placement check, and the corequisite groups expand the result.  `fuel`
/// caps the recursion depth; one step per catalog record is enough for every
/// catalog whose requirement references form no cycle.
pub open spec fn place_spec(
    c: CourseIdView,
    s: Seq<SemesterView>,
    cat: Map<CourseIdView, CourseView>,
    fuel: nat,
) -> Seq<Seq<SemesterView>>
    decreases fuel, 3int, 0int,
{
    if fuel == 0 {
        Seq::empty()
    } else if !cat.contains_key(c) {
        Seq::empty()
    } else {
        let course = cat[c];
        expand_groups(
            course.coreqs,
            self_place(c, expand_groups(course.prereqs, seq![s], cat, fuel), course),
            cat,
            fuel,
        )
    }
}

/// Expands the candidate schedules through one list of requirement groups,
/// recursively placing each member that a candidate does not hold yet.
fn expand_groups_exec(
    groups: &Vec<Vec<CourseID>>,
    start: Vec<Schedule>,
    catalog: &Catalog,
    fuel: usize,
) -> (res: Vec<Schedule>)
    requires
        catalog.wf(),
        fuel >= 1,
        forall|k: int| 0 <= k < start@.len() ==> sched_wf(#[trigger] start@[k]@),
    ensures
        scheds_view(res@) == expand_groups(
            crate::course::groups_view(groups@),
            scheds_view(start@),
            catalog@,
            fuel as nat,
        ),
        forall|k: int| 0 <= k < res@.len() ==> sched_wf(#[trigger] res@[k]@),
    decreases fuel, 0int,
{
    let ghost gs = crate::course::groups_view(groups@);
    let ghost w0 = scheds_view(start@);
    let mut working = start;
    let mut gi: usize = 0;
    while gi < groups.len()
        invariant
            gi <= groups@.len(),
            gs == crate::course::groups_view(groups@),
            catalog.wf(),
            fuel >= 1,
            scheds_view(working@) == expand_groups(gs.take(gi as int), w0, catalog@, fuel as nat),
            forall|k: int| 0 <= k < working@.len() ==> sched_wf(#[trigger] working@[k]@),
        decreases groups@.len() - gi,
    {
        let g = &groups[gi];
        let ghost gv = gs[gi as int];
        let ghost w_in = scheds_view(working@);
        let mut curr: Vec<Schedule> = Vec::new();
        let mut mi: usize = 0;
        proof {
            assert(gv == crate::course::ids_view(g@));
            assert(scheds_view(curr@) =~= expand_members(
                gv.take(0),
                w_in,
                catalog@,
                fuel as nat,
            ));
        }
        while mi < g.len()
            invariant
                mi <= g@.len(),
                gv == crate::course::ids_view(g@),
                catalog.wf(),
                fuel >= 1,
                w_in == scheds_view(working@),
                forall|k: int| 0 <= k < working@.len() ==> sched_wf(#[trigger] working@[k]@),
                scheds_view(curr@) == expand_members(gv.take(mi as int), w_in, catalog@, fuel as nat),
                forall|k: int| 0 <= k < curr@.len() ==> sched_wf(#[trigger] curr@[k]@),
            decreases g@.len() - mi,
        {
            let member = &g[mi];
            let mut wi: usize = 0;
            proof {
                assert(member@ == gv[mi as int]);
                assert(expand_one(gv[mi as int], w_in.take(0), catalog@, fuel as nat)
                    =~= Seq::<Seq<SemesterView>>::empty());
            }
            while wi < working.len()
                invariant
                    wi <= working@.len(),
                    0 <= (mi as int) < gv.len(),
                    member@ == gv[mi as int],
                    gv == crate::course::ids_view(g@),
                    catalog.wf(),
                    fuel >= 1,
                    w_in == scheds_view(working@),
                    forall|k: int| 0 <= k < working@.len() ==> sched_wf(#[trigger] working@[k]@),
                    scheds_view(curr@) == expand_members(
                        gv.take(mi as int),
                        w_in,
                        catalog@,
                        fuel as nat,
                    ) + expand_one(gv[mi as int], w_in.take(wi as int), catalog@, fuel as nat),
                    forall|k: int| 0 <= k < curr@.len() ==> sched_wf(#[trigger] curr@[k]@),
                decreases working@.len() - wi,
            {
                let w = &working[wi];
                let ghost curr_before = scheds_view(curr@);
                if !w.contains(member) {
                    let mut sub = place_rec(member, w, catalog, fuel - 1);
                    proof {
                        assert(scheds_view(curr@ + sub@) =~= curr_before + scheds_view(sub@));
                    }
                    curr.append(&mut sub);
                } else {
                    curr.push(w.clone());
                    proof {
                        assert(scheds_view(curr@) =~= curr_before + seq![w@]);
                    }
                }
                wi = wi + 1;
                proof {
                    assert(w_in.take(wi as int).drop_last() =~= w_in.take(wi - 1));
                    assert(w_in.take(wi as int).last() == w_in[wi - 1]);
                    assert(w_in[wi - 1] == w@);
                }
            }
            mi = mi + 1;
            proof {
                assert(w_in.take(w_in.len() as int) =~= w_in);
                assert(gv.take(mi as int).drop_last() =~= gv.take(mi - 1));
                assert(gv.take(mi as int).last() == gv[mi - 1]);
            }
        }
        working = curr;
        gi = gi + 1;
        proof {
            assert(gv.take(g@.len() as int) =~= gv);
            assert(gs.take(gi as int).drop_last() =~= gs.take(gi - 1));
            assert(gs.take(gi as int).last() == gs[gi - 1]);
        }
    }
    proof {
        assert(gs.take(groups@.len() as int) =~= gs);
    }
    working
}

/// The search: every schedule obtained by placing the course, together with
/// its transitive requirements, into the given schedule, within the given
/// recursion allowance.
fn place_rec(coid: &CourseID, sched: &Schedule, catalog: &Catalog, fuel: usize) -> (res: Vec<
    Schedule,
>)
    requires
        catalog.wf(),
        sched_wf(sched@),
    ensures
        scheds_view(res@) == place_spec(coid@, sched@, catalog@, fuel as nat),
        forall|k: int| 0 <= k < res@.len() ==> sched_wf(#[trigger] res@[k]@),
    decreases fuel, 1int,
{
    if fuel == 0 {
        let res: Vec<Schedule> = Vec::new();
        proof {
            assert(scheds_view(res@) =~= place_spec(coid@, sched@, catalog@, 0));
        }
        return res;
    }
    let course = match catalog.get_course(coid) {
        Some(c) => c,
        None => {
            let res: Vec<Schedule> = Vec::new();
            proof {
                assert(scheds_view(res@) =~= place_spec(coid@, sched@, catalog@, fuel as nat));
            }
            return res;
        },
    };
    let ghost cv = catalog@[coid@];
    let mut start: Vec<Schedule> = Vec::new();
    start.push(sched.clone());
    proof {
        assert(scheds_view(start@) =~= seq![sched@]);
    }
    let after_prereqs = expand_groups_exec(course.prereq_sets(), start, catalog, fuel);
    let ghost w1 = scheds_view(after_prereqs@);
    let mut placed: Vec<Schedule> = Vec::new();
    let mut wi: usize = 0;
    proof {
        assert(scheds_view(placed@) =~= self_place(coid@, w1.take(0), cv));
    }
    while wi < after_prereqs.len()
        invariant
            wi <= after_prereqs@.len(),
            catalog.wf(),
            catalog@.contains_key(coid@),
            cv == catalog@[coid@],
            w1 == scheds_view(after_prereqs@),
            forall|k: int| 0 <= k < after_prereqs@.len() ==> sched_wf(#[trigger] after_prereqs@[k]@),
            scheds_view(placed@) == self_place(coid@, w1.take(wi as int), cv),
            forall|k: int| 0 <= k < placed@.len() ==> sched_wf(#[trigger] placed@[k]@),
        decreases after_prereqs@.len() - wi,
    {
        let w = &after_prereqs[wi];
        let ghost wv = w@;
        let sems = w.semesters();
        let mut si: usize = 0;
        proof {
            assert(self_place_one(coid@, wv, cv, 0) =~= Seq::<Seq<SemesterView>>::empty());
        }
        while si < sems.len()
            invariant
                si <= sems@.len(),
                catalog.wf(),
                catalog@.contains_key(coid@),
                cv == catalog@[coid@],
                wv == w@,
                sched_wf(wv),
                sems_view(sems@) == wv,
                w1 == scheds_view(after_prereqs@),
                scheds_view(placed@) == self_place(coid@, w1.take(wi as int), cv) + self_place_one(
                    coid@,
                    wv,
                    cv,
                    si as int,
                ),
                forall|k: int| 0 <= k < placed@.len() ==> sched_wf(#[trigger] placed@[k]@),
            decreases sems@.len() - si,
        {
            let t: SemTime = *sems[si].get_time();
            proof {
                assert(t == wv[si as int].time);
            }
            let ghost placed_before = scheds_view(placed@);
            match w.try_add(coid, &t, catalog) {
                Some(ns) => {
                    placed.push(ns);
                    proof {
                        assert(scheds_view(placed@) =~= placed_before + seq![placed@.last()@]);
                    }
                },
                None => {},
            }
            si = si + 1;
        }
        wi = wi + 1;
        proof {
            assert(w1.take(wi as int).drop_last() =~= w1.take(wi - 1));
            assert(w1.take(wi as int).last() == w1[wi - 1]);
            assert(w1[wi - 1] == wv);
        }
    }
    proof {
        assert(w1.take(after_prereqs@.len() as int) =~= w1);
    }
    let res = expand_groups_exec(course.coreq_sets(), placed, catalog, fuel);
    res
}

impl Schedule {
    /// Generates all schedules which can be created by adding the given
    /// course into the given schedule, recursively adding prerequisites and
    /// corequisites based on the catalog.  The recursion is allowed one step
    /// per catalog record, which cuts nothing short unless the catalog's
    /// requirement references form a cycle — a catalog the engine's contract
    /// leaves to the caller to avoid.
    pub fn add_course_to_schedule(coid: &CourseID, sched: &Schedule, catalog: &Catalog) -> (res:
        Vec<Schedule>)
        requires
            catalog.wf(),
            sched_wf(sched@),
        ensures
            scheds_view(res@) == place_spec(coid@, sched@, catalog@, catalog@.dom().len()),
            forall|k: int| 0 <= k < res@.len() ==> sched_wf(#[trigger] res@[k]@),
    {
        let fuel = catalog.course_count();
        place_rec(coid, sched, catalog, fuel)
    }
}

/// What feeding a set of candidate schedules through the search yields: the
/// concatenation, in order, of the search's results on each of them.
pub open spec fn get_schedules_spec(
    c: CourseIdView,
    cat: Map<CourseIdView, CourseView>,
    ws: Seq<Seq<SemesterView>>,
) -> Seq<Seq<SemesterView>>
    decreases ws.len(),
{
    if ws.len() == 0 {
        Seq::empty()
    } else {
        get_schedules_spec(c, cat, ws.drop_last()) + place_spec(c, ws.last(), cat, cat.dom().len())
    }
}

/// Each course sits in at most one semester.
pub open spec fn courses_unique(s: Seq<SemesterView>) -> bool {
    forall|i: int, j: int, x: CourseIdView|
        0 <= i < s.len() && 0 <= j < s.len() && i != j && #[trigger] s[i].courses.contains(x)
            ==> !(#[trigger] s[j].courses.contains(x))
}

/// `r` has the same semesters at the same times as `s`, each holding at
/// least what it held in `s`.
pub open spec fn extends(r: Seq<SemesterView>, s: Seq<SemesterView>) -> bool {
    &&& r.len() == s.len()
    &&& forall|i: int| 0 <= i < r.len() ==> #[trigger] r[i].time == s[i].time
    &&& forall|i: int, x: CourseIdView|
        0 <= i < s.len() && #[trigger] s[i].courses.contains(x) ==> #[trigger] r[i].courses.contains(
            x,
        )
}

/// Every course `r` holds that `s` did not hold anywhere is a catalog
/// course whose prerequisite groups are all satisfied strictly before its
/// semester.
pub open spec fn placed_ok(
    r: Seq<SemesterView>,
    s: Seq<SemesterView>,
    cat: Map<CourseIdView, CourseView>,
) -> bool {
    forall|i: int, d: CourseIdView|
        0 <= i < r.len() && #[trigger] r[i].courses.contains(d) && !sched_contains(s, d)
            ==> cat.contains_key(d) && prereqs_ok(r, cat[d].prereqs, r[i].time)
}

/// What the search guarantees of one result `r` against its input `s`.
pub open spec fn sound_result(
    r: Seq<SemesterView>,
    s: Seq<SemesterView>,
    cat: Map<CourseIdView, CourseView>,
) -> bool {
    &&& extends(r, s)
    &&& sched_wf(r)
    &&& courses_unique(r)
    &&& placed_ok(r, s, cat)
}

/// A schedule is a sound result over itself.
proof fn lemma_sound_refl(s: Seq<SemesterView>, cat: Map<CourseIdView, CourseView>)
    requires
        sched_wf(s),
        courses_unique(s),
    ensures
        sound_result(s, s, cat),
{
    assert forall|i: int, d: CourseIdView|
        0 <= i < s.len() && #[trigger] s[i].courses.contains(d) && !sched_contains(s, d) implies
    cat.contains_key(d) && prereqs_ok(s, cat[d].prereqs, s[i].time) by {
        assert(sched_contains(s, d));
    }
}

/// Sound results compose.
proof fn lemma_sound_trans(
    r: Seq<SemesterView>,
    m: Seq<SemesterView>,
    s: Seq<SemesterView>,
    cat: Map<CourseIdView, CourseView>,
)
    requires
        sound_result(m, s, cat),
        sound_result(r, m, cat),
    ensures
        sound_result(r, s, cat),
{
    assert forall|i: int, x: CourseIdView|
        0 <= i < s.len() && #[trigger] s[i].courses.contains(x) implies #[trigger] r[i].courses.contains(
        x,
    ) by {
        assert(m[i].courses.contains(x));
    }
    assert forall|i: int, d: CourseIdView|
        0 <= i < r.len() && #[trigger] r[i].courses.contains(d) && !sched_contains(s, d) implies
    cat.contains_key(d) && prereqs_ok(r, cat[d].prereqs, r[i].time) by {
        if sched_contains(m, d) {
            let j = choose|j: int| 0 <= j < m.len() && #[trigger] m[j].courses.contains(d);
            assert(r[j].courses.contains(d));
            assert(j == i);
            assert(m[i].courses.contains(d));
            assert(cat.contains_key(d) && prereqs_ok(m, cat[d].prereqs, m[i].time));
            assert forall|k: int|
                0 <= k < cat[d].prereqs.len() implies prereq_group_ok(
                r,
                #[trigger] cat[d].prereqs[k],
                r[i].time,
            ) by {
                let (pj, pi): (int, int) = choose|pj: int, pi: int|
                    0 <= pj < cat[d].prereqs[k].len() && 0 <= pi < m.len() && sem_lt(
                        m[pi].time,
                        m[i].time,
                    ) && #[trigger] m[pi].courses.contains(cat[d].prereqs[k][pj]);
                assert(r[pi].courses.contains(cat[d].prereqs[k][pj]));
                assert(sem_lt(r[pi].time, r[i].time));
            }
        } else {
            assert(cat.contains_key(d) && prereqs_ok(r, cat[d].prereqs, r[i].time));
        }
    }
}

/// An accepted placement is a sound result, and holds the course whenever
/// the target time exists in the schedule.
proof fn lemma_try_add_sound(
    s: Seq<SemesterView>,
    c: CourseIdView,
    t: SemTime,
    cat: Map<CourseIdView, CourseView>,
)
    requires
        sched_wf(s),
        courses_unique(s),
        cat.contains_key(c),
        try_add_spec(s, c, t, cat[c]) is Some,
    ensures
        sound_result(try_add_spec(s, c, t, cat[c])->Some_0, s, cat),
        contains_time(s, t) || sched_contains(s, c) ==> sched_contains(
            try_add_spec(s, c, t, cat[c])->Some_0,
            c,
        ),
{
    if sched_contains(s, c) {
        lemma_sound_refl(s, cat);
    } else {
        let r = insert_course(s, t, c);
        assert(coreqs_ok(s, cat[c].coreqs, t) && prereqs_ok(s, cat[c].prereqs, t));
        assert forall|i: int, x: CourseIdView|
            0 <= i < s.len() && #[trigger] s[i].courses.contains(x) implies #[trigger] r[i].courses.contains(
            x,
        ) by {
            if s[i].time == t {
                assert(r[i].courses == push_unique(s[i].courses, c));
                let a = choose|a: int| 0 <= a < s[i].courses.len() && s[i].courses[a] == x;
                assert(r[i].courses[a] == x);
            }
        }
        assert(extends(r, s));
        assert forall|i: int| 0 <= i < r.len() implies distinct_ids(#[trigger] r[i].courses) by {
            assert(distinct_ids(s[i].courses));
            if s[i].time == t && !s[i].courses.contains(c) {
                assert(r[i].courses == s[i].courses.push(c));
                assert forall|a: int, b: int| 0 <= a < b < r[i].courses.len() implies r[i].courses[a]
                    != r[i].courses[b] by {
                    if b < s[i].courses.len() {
                        assert(s[i].courses[a] != s[i].courses[b]);
                    } else {
                        assert(r[i].courses[b] == c);
                        assert(s[i].courses[a] == r[i].courses[a]);
                        assert(s[i].courses.contains(s[i].courses[a]));
                        assert(sched_contains(s, s[i].courses[a]) || s[i].courses[a] != c);
                    }
                }
            }
        }
        assert(sched_wf(r));
        assert forall|i: int, j: int, x: CourseIdView|
            0 <= i < r.len() && 0 <= j < r.len() && i != j && #[trigger] r[i].courses.contains(x)
                && #[trigger] r[j].courses.contains(x) implies false by {
            if x == c {
                assert(s[i].time == t || s[i].courses.contains(c));
                assert(s[j].time == t || s[j].courses.contains(c));
                assert(!sched_contains(s, c));
                assert(s[i].time == t && s[j].time == t);
                if i < j {
                    assert(sem_lt(s[i].time, s[j].time));
                } else {
                    assert(sem_lt(s[j].time, s[i].time));
                }
            } else {
                assert(s[i].courses.contains(x));
                assert(s[j].courses.contains(x));
            }
        }
        assert(courses_unique(r));
        assert forall|i: int, d: CourseIdView|
            0 <= i < r.len() && #[trigger] r[i].courses.contains(d) && !sched_contains(s, d) implies
        cat.contains_key(d) && prereqs_ok(r, cat[d].prereqs, r[i].time) by {
            if d != c || !(s[i].time == t) {
                assert(s[i].courses.contains(d));
                assert(sched_contains(s, d));
            } else {
                assert(r[i].time == t);
                assert forall|k: int|
                    0 <= k < cat[c].prereqs.len() implies prereq_group_ok(
                    r,
                    #[trigger] cat[c].prereqs[k],
                    r[i].time,
                ) by {
                    let (pj, pi): (int, int) = choose|pj: int, pi: int|
                        0 <= pj < cat[c].prereqs[k].len() && 0 <= pi < s.len() && sem_lt(
                            s[pi].time,
                            t,
                        ) && #[trigger] s[pi].courses.contains(cat[c].prereqs[k][pj]);
                    assert(r[pi].courses.contains(cat[c].prereqs[k][pj]));
                    assert(sem_lt(r[pi].time, r[i].time));
                }
            }
        }
        assert(placed_ok(r, s, cat));
        if contains_time(s, t) {
            let i = choose|i: int| 0 <= i < s.len() && #[trigger] s[i].time == t;
            assert(r[i].courses == push_unique(s[i].courses, c));
            assert(r[i].courses.contains(c)) by {
                if !s[i].courses.contains(c) {
                    assert(r[i].courses[s[i].courses.len() as int] == c);
                } else {
                    assert(sched_contains(s, c));
                }
            }
            assert(sched_contains(r, c));
        }
    }
}

/// `r` is a sound result over some candidate of `w`.
pub open spec fn sound_over_some(
    r: Seq<SemesterView>,
    w: Seq<Seq<SemesterView>>,
    cat: Map<CourseIdView, CourseView>,
) -> bool {
    exists|x: int| 0 <= x < w.len() && sound_result(r, #[trigger] w[x], cat)
}

/// Each result of one alternative's expansion is a sound result over some
/// candidate.
proof fn lemma_expand_one_sound(
    p: CourseIdView,
    w: Seq<Seq<SemesterView>>,
    cat: Map<CourseIdView, CourseView>,
    fuel: nat,
)
    requires
        forall|k: int| 0 <= k < w.len() ==> sched_wf(#[trigger] w[k]) && courses_unique(w[k]),
    ensures
        forall|k: int|
            0 <= k < expand_one(p, w, cat, fuel).len() ==> sound_over_some(
                #[trigger] expand_one(p, w, cat, fuel)[k],
                w,
                cat,
            ),
    decreases fuel, 0int, w.len(),
{
    if fuel == 0 || w.len() == 0 {
    } else {
        lemma_expand_one_sound(p, w.drop_last(), cat, fuel);
        let r = expand_one(p, w, cat, fuel);
        let rp = expand_one(p, w.drop_last(), cat, fuel);
        if !sched_contains(w.last(), p) {
            lemma_place_sound(p, w.last(), cat, (fuel - 1) as nat);
        } else {
            lemma_sound_refl(w.last(), cat);
        }
        assert forall|k: int| 0 <= k < r.len() implies sound_over_some(
            #[trigger] r[k],
            w,
            cat,
        ) by {
            if k < rp.len() {
                assert(r[k] == rp[k]);
                assert(sound_over_some(rp[k], w.drop_last(), cat));
                let x = choose|x: int|
                    0 <= x < w.drop_last().len() && sound_result(rp[k], #[trigger] w.drop_last()[x], cat);
                assert(w[x] == w.drop_last()[x]);
                assert(sound_result(r[k], w[x], cat));
            } else {
                let xl = w.len() - 1;
                if sched_contains(w.last(), p) {
                    assert(r[k] == w.last());
                    assert(sound_result(r[k], w[xl], cat));
                } else {
                    let ps = place_spec(p, w.last(), cat, (fuel - 1) as nat);
                    assert(r[k] == ps[k - rp.len()]);
                    assert(sound_result(ps[k - rp.len()], w.last(), cat));
                    assert(sound_result(r[k], w[xl], cat));
                }
            }
        }
    }
}

/// Each result of one group's expansion is a sound result over some
/// candidate.
proof fn lemma_expand_members_sound(
    g: Seq<CourseIdView>,
    w: Seq<Seq<SemesterView>>,
    cat: Map<CourseIdView, CourseView>,
    fuel: nat,
)
    requires
        forall|k: int| 0 <= k < w.len() ==> sched_wf(#[trigger] w[k]) && courses_unique(w[k]),
    ensures
        forall|k: int|
            0 <= k < expand_members(g, w, cat, fuel).len() ==> sound_over_some(
                #[trigger] expand_members(g, w, cat, fuel)[k],
                w,
                cat,
            ),
    decreases fuel, 1int, g.len(),
{
    if g.len() > 0 {
        lemma_expand_members_sound(g.drop_last(), w, cat, fuel);
        lemma_expand_one_sound(g.last(), w, cat, fuel);
        let r = expand_members(g, w, cat, fuel);
        let rp = expand_members(g.drop_last(), w, cat, fuel);
        let ro = expand_one(g.last(), w, cat, fuel);
        assert forall|k: int| 0 <= k < r.len() implies sound_over_some(
            #[trigger] r[k],
            w,
            cat,
        ) by {
            if k < rp.len() {
                assert(r[k] == rp[k]);
                assert(sound_over_some(rp[k], w, cat));
            } else {
                assert(r[k] == ro[k - rp.len()]);
                assert(sound_over_some(ro[k - rp.len()], w, cat));
            }
        }
    }
}

/// Each result of the groups' expansion is a sound result over some
/// candidate.
proof fn lemma_expand_groups_sound(
    gs: Seq<Seq<CourseIdView>>,
    w: Seq<Seq<SemesterView>>,
    cat: Map<CourseIdView, CourseView>,
    fuel: nat,
)
    requires
        forall|k: int| 0 <= k < w.len() ==> sched_wf(#[trigger] w[k]) && courses_unique(w[k]),
    ensures
        forall|k: int|
            0 <= k < expand_groups(gs, w, cat, fuel).len() ==> sound_over_some(
                #[trigger] expand_groups(gs, w, cat, fuel)[k],
                w,
                cat,
            ),
    decreases fuel, 2int, gs.len(),
{
    if gs.len() == 0 {
        assert forall|k: int| 0 <= k < w.len() implies sound_over_some(
            #[trigger] expand_groups(gs, w, cat, fuel)[k],
            w,
            cat,
        ) by {
            lemma_sound_refl(w[k], cat);
            assert(sound_result(w[k], w[k], cat));
        }
    } else {
        lemma_expand_groups_sound(gs.drop_last(), w, cat, fuel);
        let inner = expand_groups(gs.drop_last(), w, cat, fuel);
        assert forall|k: int| 0 <= k < inner.len() implies sched_wf(#[trigger] inner[k])
            && courses_unique(inner[k]) by {
            assert(sound_over_some(inner[k], w, cat));
            let x = choose|x: int| 0 <= x < w.len() && sound_result(inner[k], #[trigger] w[x], cat);
        }
        lemma_expand_members_sound(gs.last(), inner, cat, fuel);
        let r = expand_groups(gs, w, cat, fuel);
        assert(r == expand_members(gs.last(), inner, cat, fuel));
        assert forall|k: int| 0 <= k < r.len() implies sound_over_some(
            #[trigger] r[k],
            w,
            cat,
        ) by {
            assert(sound_over_some(r[k], inner, cat));
            let y = choose|y: int| 0 <= y < inner.len() && sound_result(r[k], #[trigger] inner[y], cat);
            assert(sound_over_some(inner[y], w, cat));
            let x = choose|x: int| 0 <= x < w.len() && sound_result(inner[y], #[trigger] w[x], cat);
            lemma_sound_trans(r[k], inner[y], w[x], cat);
            assert(sound_result(r[k], w[x], cat));
        }
    }
}

/// Each self-placement into one candidate is a sound result over it and
/// holds the course.
proof fn lemma_self_place_one_sound(
    c: CourseIdView,
    s: Seq<SemesterView>,
    cat: Map<CourseIdView, CourseView>,
    n: int,
)
    requires
        sched_wf(s),
        courses_unique(s),
        cat.contains_key(c),
        n <= s.len(),
    ensures
        forall|k: int|
            0 <= k < self_place_one(c, s, cat[c], n).len() ==> sound_result(
                #[trigger] self_place_one(c, s, cat[c], n)[k],
                s,
                cat,
            ) && sched_contains(self_place_one(c, s, cat[c], n)[k], c),
    decreases n,
{
    if n > 0 {
        lemma_self_place_one_sound(c, s, cat, n - 1);
        let r = self_place_one(c, s, cat[c], n);
        let rp = self_place_one(c, s, cat[c], n - 1);
        assert forall|k: int| 0 <= k < r.len() implies sound_result(#[trigger] r[k], s, cat)
            && sched_contains(r[k], c) by {
            if k < rp.len() {
                assert(r[k] == rp[k]);
            } else {
                let t = s[n - 1].time;
                lemma_try_add_sound(s, c, t, cat);
                assert(contains_time(s, t));
                assert(r[k] == try_add_spec(s, c, t, cat[c])->Some_0);
            }
        }
    }
}

/// Each result of the self-placement phase is a sound result over some
/// candidate and holds the course.
proof fn lemma_self_place_sound(
    c: CourseIdView,
    w: Seq<Seq<SemesterView>>,
    cat: Map<CourseIdView, CourseView>,
)
    requires
        forall|k: int| 0 <= k < w.len() ==> sched_wf(#[trigger] w[k]) && courses_unique(w[k]),
        cat.contains_key(c),
    ensures
        forall|k: int|
            0 <= k < self_place(c, w, cat[c]).len() ==> sound_over_some(
                #[trigger] self_place(c, w, cat[c])[k],
                w,
                cat,
            ) && sched_contains(self_place(c, w, cat[c])[k], c),
    decreases w.len(),
{
    if w.len() > 0 {
        lemma_self_place_sound(c, w.drop_last(), cat);
        lemma_self_place_one_sound(c, w.last(), cat, w.last().len() as int);
        let r = self_place(c, w, cat[c]);
        let rp = self_place(c, w.drop_last(), cat[c]);
        let ro = self_place_one(c, w.last(), cat[c], w.last().len() as int);
        assert forall|k: int| 0 <= k < r.len() implies sound_over_some(#[trigger] r[k], w, cat)
            && sched_contains(r[k], c) by {
            if k < rp.len() {
                assert(r[k] == rp[k]);
                assert(sound_over_some(rp[k], w.drop_last(), cat));
                let x = choose|x: int|
                    0 <= x < w.drop_last().len() && sound_result(rp[k], #[trigger] w.drop_last()[x], cat);
                assert(w[x] == w.drop_last()[x]);
                assert(sound_result(r[k], w[x], cat));
            } else {
                assert(r[k] == ro[k - rp.len()]);
                let xl = w.len() - 1;
                assert(sound_result(r[k], w[xl], cat));
            }
        }
    }
}

/// Each result of the search is a sound result over the input schedule and
/// holds the course that was placed.
proof fn lemma_place_sound(
    c: CourseIdView,
    s: Seq<SemesterView>,
    cat: Map<CourseIdView, CourseView>,
    fuel: nat,
)
    requires
        sched_wf(s),
        courses_unique(s),
    ensures
        forall|k: int|
            0 <= k < place_spec(c, s, cat, fuel).len() ==> sound_result(
                #[trigger] place_spec(c, s, cat, fuel)[k],
                s,
                cat,
            ) && sched_contains(place_spec(c, s, cat, fuel)[k], c),
    decreases fuel, 3int, 0int,
{
    if fuel == 0 || !cat.contains_key(c) {
    } else {
        let course = cat[c];
        let w0 = seq![s];
        let w1 = expand_groups(course.prereqs, w0, cat, fuel);
        assert(forall|k: int| 0 <= k < w0.len() ==> #[trigger] w0[k] == s);
        lemma_expand_groups_sound(course.prereqs, w0, cat, fuel);
        assert forall|k: int| 0 <= k < w1.len() implies sound_result(#[trigger] w1[k], s, cat) by {
            assert(sound_over_some(w1[k], w0, cat));
            let x = choose|x: int| 0 <= x < w0.len() && sound_result(w1[k], #[trigger] w0[x], cat);
            assert(w0[x] == s);
        }
        let w2 = self_place(c, w1, course);
        assert(forall|k: int|
            0 <= k < w1.len() ==> sched_wf(#[trigger] w1[k]) && courses_unique(w1[k]));
        lemma_self_place_sound(c, w1, cat);
        assert forall|k: int| 0 <= k < w2.len() implies sound_result(#[trigger] w2[k], s, cat)
            && sched_contains(w2[k], c) by {
            assert(sound_over_some(w2[k], w1, cat));
            let x = choose|x: int| 0 <= x < w1.len() && sound_result(w2[k], #[trigger] w1[x], cat);
            lemma_sound_trans(w2[k], w1[x], s, cat);
        }
        let r = expand_groups(course.coreqs, w2, cat, fuel);
        assert(forall|k: int|
            0 <= k < w2.len() ==> sched_wf(#[trigger] w2[k]) && courses_unique(w2[k]));
        lemma_expand_groups_sound(course.coreqs, w2, cat, fuel);
        assert(place_spec(c, s, cat, fuel) == r);
        assert forall|k: int| 0 <= k < r.len() implies sound_result(#[trigger] r[k], s, cat)
            && sched_contains(r[k], c) by {
            assert(sound_over_some(r[k], w2, cat));
            let x = choose|x: int| 0 <= x < w2.len() && sound_result(r[k], #[trigger] w2[x], cat);
            lemma_sound_trans(r[k], w2[x], s, cat);
            let i = choose|i: int|
                0 <= i < w2[x].len() && #[trigger] w2[x][i].courses.contains(c);
            assert(r[k][i].courses.contains(c));
        }
    }
}

/// Placement monotonicity: every schedule the search returns for a course
/// not yet scheduled holds that course in exactly one semester, with every
/// one of its prerequisite groups satisfied by some member scheduled
/// strictly earlier.
pub proof fn lemma_place_monotonicity(
    c: CourseIdView,
    s: Seq<SemesterView>,
    cat: Map<CourseIdView, CourseView>,
    fuel: nat,
    k: int,
)
    requires
        sched_wf(s),
        courses_unique(s),
        !sched_contains(s, c),
        0 <= k < place_spec(c, s, cat, fuel).len(),
    ensures
        cat.contains_key(c),
        ({
            let r = place_spec(c, s, cat, fuel)[k];
            exists|i: int|
                0 <= i < r.len() && (#[trigger] r[i].courses.contains(c)) && (forall|j: int|
                    0 <= j < r.len() && j != i ==> !r[j].courses.contains(c)) && prereqs_ok(
                    r,
                    cat[c].prereqs,
                    r[i].time,
                )
        }),
{
    lemma_place_sound(c, s, cat, fuel);
    let r = place_spec(c, s, cat, fuel)[k];
    assert(sound_result(r, s, cat));
    assert(sched_contains(r, c));
    let i = choose|i: int| 0 <= i < r.len() && #[trigger] r[i].courses.contains(c);
    assert forall|j: int| 0 <= j < r.len() && j != i implies !r[j].courses.contains(c) by {
        assert(courses_unique(r));
    }
    assert(cat.contains_key(c) && prereqs_ok(r, cat[c].prereqs, r[i].time));
}

/// Every schedule the search returns extends the input schedule: the same
/// semesters at the same times, each holding at least the courses it held,
/// and every course added beyond those is a catalog course placed with its
/// prerequisite groups satisfied strictly earlier.  The search never removes
/// or moves anything.
pub proof fn lemma_place_extends(
    c: CourseIdView,
    s: Seq<SemesterView>,
    cat: Map<CourseIdView, CourseView>,
    fuel: nat,
    k: int,
)
    requires
        sched_wf(s),
        courses_unique(s),
        0 <= k < place_spec(c, s, cat, fuel).len(),
    ensures
        sound_result(place_spec(c, s, cat, fuel)[k], s, cat),
        sched_contains(place_spec(c, s, cat, fuel)[k], c),
{
    lemma_place_sound(c, s, cat, fuel);
}

/// When the course is already scheduled, one alternative expands every
/// candidate equal to `s` into copies of `s`.
proof fn lemma_expand_one_noop(
    p: CourseIdView,
    w: Seq<Seq<SemesterView>>,
    cat: Map<CourseIdView, CourseView>,
    fuel: nat,
    s: Seq<SemesterView>,
)
    requires
        forall|k: int| 0 <= k < w.len() ==> w[k] == s,
        sched_contains(s, p),
    ensures
        forall|k: int|
            0 <= k < expand_one(p, w, cat, fuel).len() ==> expand_one(p, w, cat, fuel)[k] == s,
    decreases w.len(),
{
    if fuel == 0 || w.len() == 0 {
    } else {
        lemma_expand_one_noop(p, w.drop_last(), cat, fuel, s);
        assert(w.last() == s);
        let r = expand_one(p, w, cat, fuel);
        let rp = expand_one(p, w.drop_last(), cat, fuel);
        assert forall|k: int| 0 <= k < r.len() implies r[k] == s by {
            if k < rp.len() {
                assert(r[k] == rp[k]);
            } else {
                assert(r[k] == s);
            }
        }
    }
}

/// When all of a group's members are already scheduled, the group expands
/// candidates equal to `s` into copies of `s`.
proof fn lemma_expand_members_noop(
    g: Seq<CourseIdView>,
    w: Seq<Seq<SemesterView>>,
    cat: Map<CourseIdView, CourseView>,
    fuel: nat,
    s: Seq<SemesterView>,
)
    requires
        forall|k: int| 0 <= k < w.len() ==> w[k] == s,
        forall|j: int| 0 <= j < g.len() ==> sched_contains(s, #[trigger] g[j]),
    ensures
        forall|k: int|
            0 <= k < expand_members(g, w, cat, fuel).len() ==> expand_members(g, w, cat, fuel)[k]
                == s,
    decreases g.len(),
{
    if g.len() > 0 {
        lemma_expand_members_noop(g.drop_last(), w, cat, fuel, s);
        lemma_expand_one_noop(g.last(), w, cat, fuel, s);
        let r = expand_members(g, w, cat, fuel);
        let rp = expand_members(g.drop_last(), w, cat, fuel);
        let ro = expand_one(g.last(), w, cat, fuel);
        assert forall|k: int| 0 <= k < r.len() implies r[k] == s by {
            if k < rp.len() {
                assert(r[k] == rp[k]);
            } else {
                assert(r[k] == ro[k - rp.len()]);
            }
        }
    }
}

/// When every member of every group is already scheduled, the groups expand
/// candidates equal to `s` into copies of `s`.
proof fn lemma_expand_groups_noop(
    gs: Seq<Seq<CourseIdView>>,
    w: Seq<Seq<SemesterView>>,
    cat: Map<CourseIdView, CourseView>,
    fuel: nat,
    s: Seq<SemesterView>,
)
    requires
        forall|k: int| 0 <= k < w.len() ==> w[k] == s,
        forall|k: int, j: int|
            0 <= k < gs.len() && 0 <= j < gs[k].len() ==> sched_contains(s, #[trigger] gs[k][j]),
    ensures
        forall|k: int|
            0 <= k < expand_groups(gs, w, cat, fuel).len() ==> expand_groups(gs, w, cat, fuel)[k]
                == s,
    decreases gs.len(),
{
    if gs.len() > 0 {
        lemma_expand_groups_noop(gs.drop_last(), w, cat, fuel, s);
        assert forall|j: int| 0 <= j < gs.last().len() implies sched_contains(
            s,
            #[trigger] gs.last()[j],
        ) by {
            assert(gs.last() == gs[gs.len() - 1]);
            assert(sched_contains(s, gs[gs.len() - 1][j]));
        }
        lemma_expand_members_noop(
            gs.last(),
            expand_groups(gs.drop_last(), w, cat, fuel),
            cat,
            fuel,
            s,
        );
        assert(expand_groups(gs, w, cat, fuel) == expand_members(
            gs.last(),
            expand_groups(gs.drop_last(), w, cat, fuel),
            cat,
            fuel,
        ));
    }
}

/// Self-placement of an already scheduled course passes each candidate equal
/// to `s` through unchanged, once per semester slot.
proof fn lemma_self_place_one_noop(
    c: CourseIdView,
    s: Seq<SemesterView>,
    course: CourseView,
    n: int,
)
    requires
        sched_contains(s, c),
    ensures
        forall|k: int|
            0 <= k < self_place_one(c, s, course, n).len() ==> self_place_one(c, s, course, n)[k]
                == s,
    decreases n,
{
    if n > 0 {
        lemma_self_place_one_noop(c, s, course, n - 1);
        let r = self_place_one(c, s, course, n);
        let rp = self_place_one(c, s, course, n - 1);
        assert forall|k: int| 0 <= k < r.len() implies r[k] == s by {
            if k < rp.len() {
                assert(r[k] == rp[k]);
            }
        }
    }
}

/// Self-placement of an already scheduled course maps candidates equal to
/// `s` to copies of `s`.
proof fn lemma_self_place_noop(
    c: CourseIdView,
    w: Seq<Seq<SemesterView>>,
    course: CourseView,
    s: Seq<SemesterView>,
)
    requires
        forall|k: int| 0 <= k < w.len() ==> w[k] == s,
        sched_contains(s, c),
    ensures
        forall|k: int|
            0 <= k < self_place(c, w, course).len() ==> self_place(c, w, course)[k] == s,
    decreases w.len(),
{
    if w.len() > 0 {
        lemma_self_place_noop(c, w.drop_last(), course, s);
        lemma_self_place_one_noop(c, s, course, w.last().len() as int);
        assert(w.last() == s);
        let r = self_place(c, w, course);
        let rp = self_place(c, w.drop_last(), course);
        let ro = self_place_one(c, w.last(), course, w.last().len() as int);
        assert forall|k: int| 0 <= k < r.len() implies r[k] == s by {
            if k < rp.len() {
                assert(r[k] == rp[k]);
            } else {
                assert(r[k] == ro[k - rp.len()]);
            }
        }
    }
}

/// Idempotence of no-op placement: when the course is already scheduled
/// somewhere in the schedule and so is every member of each of its
/// requirement groups, the search triggers no further placements, and every
/// schedule it returns equals the input.
pub proof fn lemma_place_noop(
    c: CourseIdView,
    s: Seq<SemesterView>,
    cat: Map<CourseIdView, CourseView>,
    fuel: nat,
)
    requires
        sched_contains(s, c),
        cat.contains_key(c),
        forall|k: int, j: int|
            0 <= k < cat[c].prereqs.len() && 0 <= j < cat[c].prereqs[k].len() ==> sched_contains(
                s,
                #[trigger] cat[c].prereqs[k][j],
            ),
        forall|k: int, j: int|
            0 <= k < cat[c].coreqs.len() && 0 <= j < cat[c].coreqs[k].len() ==> sched_contains(
                s,
                #[trigger] cat[c].coreqs[k][j],
            ),
    ensures
        forall|k: int|
            0 <= k < place_spec(c, s, cat, fuel).len() ==> place_spec(c, s, cat, fuel)[k] == s,
{
    if fuel > 0 {
        let course = cat[c];
        let w1 = expand_groups(course.prereqs, seq![s], cat, fuel);
        lemma_expand_groups_noop(course.prereqs, seq![s], cat, fuel, s);
        let w2 = self_place(c, w1, course);
        lemma_self_place_noop(c, w1, course, s);
        lemma_expand_groups_noop(course.coreqs, w2, cat, fuel, s);
        assert(place_spec(c, s, cat, fuel) == expand_groups(course.coreqs, w2, cat, fuel));
    }
}

/// Runs the search once per given schedule and gathers all results.
pub fn get_schedules(coid: &CourseID, catalog: &Catalog, schedules: Vec<Schedule>) -> (res: Vec<
    Schedule,
>)
    requires
        catalog.wf(),
        forall|k: int| 0 <= k < schedules@.len() ==> sched_wf(#[trigger] schedules@[k]@),
    ensures
        scheds_view(res@) == get_schedules_spec(coid@, catalog@, scheds_view(schedules@)),
        forall|k: int| 0 <= k < res@.len() ==> sched_wf(#[trigger] res@[k]@),
{
    let ghost ws = scheds_view(schedules@);
    let mut res: Vec<Schedule> = Vec::new();
    let mut i: usize = 0;
    proof {
        assert(scheds_view(res@) =~= get_schedules_spec(coid@, catalog@, ws.take(0)));
    }
    while i < schedules.len()
        invariant
            i <= schedules@.len(),
            catalog.wf(),
            ws == scheds_view(schedules@),
            forall|k: int| 0 <= k < schedules@.len() ==> sched_wf(#[trigger] schedules@[k]@),
            scheds_view(res@) == get_schedules_spec(coid@, catalog@, ws.take(i as int)),
            forall|k: int| 0 <= k < res@.len() ==> sched_wf(#[trigger] res@[k]@),
        decreases schedules@.len() - i,
    {
        let ghost res_before = scheds_view(res@);
        let mut sub = Schedule::add_course_to_schedule(coid, &schedules[i], catalog);
        proof {
            assert(scheds_view(res@ + sub@) =~= res_before + scheds_view(sub@));
        }
        res.append(&mut sub);
        i = i + 1;
        proof {
            assert(ws.take(i as int).drop_last() =~= ws.take(i - 1));
            assert(ws.take(i as int).last() == ws[i - 1]);
        }
    }
    proof {
        assert(ws.take(schedules@.len() as int) =~= ws);
    }
    res
}

} // verus!
