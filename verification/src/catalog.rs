//! The course catalog: a growing mapping from course identifier to course
//! record, with automatically maintained back-references.

use vstd::prelude::*;

use crate::course::groups_view;
use crate::course::ids_view;
use crate::course::placeholder_view;
use crate::course::push_unique;
use crate::course::Course;
use crate::course::CourseID;
use crate::course::CourseIdView;
use crate::course::CourseView;

verus! {

/// Views of a sequence of course records.
pub open spec fn courses_view(s: Seq<Course>) -> Seq<CourseView> {
    s.map_values(|c: Course| c@)
}

/// The map a catalog's course list denotes.  Entries are read first to last,
/// a later record for the same identifier winning; the catalog keeps
/// identifiers unique, so the order never actually matters.
pub open spec fn catalog_map(s: Seq<CourseView>) -> Map<CourseIdView, CourseView>
    decreases s.len(),
{
    if s.len() == 0 {
        Map::empty()
    } else {
        catalog_map(s.drop_last()).insert(s.last().coid, s.last())
    }
}

/// A key is in the map exactly when some record carries it.
proof fn lemma_catalog_map_contains(s: Seq<CourseView>, k: CourseIdView)
    ensures
        catalog_map(s).contains_key(k) <==> (exists|i: int| 0 <= i < s.len() && s[i].coid == k),
    decreases s.len(),
{
    if s.len() > 0 {
        lemma_catalog_map_contains(s.drop_last(), k);
        if s.last().coid == k {
            assert(s[s.len() - 1].coid == k);
        } else if catalog_map(s).contains_key(k) {
            let i = choose|i: int| 0 <= i < s.drop_last().len() && s.drop_last()[i].coid == k;
            assert(s[i].coid == k);
        } else if exists|i: int| 0 <= i < s.len() && s[i].coid == k {
            let i = choose|i: int| 0 <= i < s.len() && s[i].coid == k;
            assert(i < s.len() - 1);
            assert(s.drop_last()[i].coid == k);
        }
    }
}

/// With identifiers unique, each record is what its key maps to.
proof fn lemma_catalog_map_index(s: Seq<CourseView>, i: int)
    requires
        0 <= i < s.len(),
        forall|a: int, b: int| 0 <= a < b < s.len() ==> s[a].coid != s[b].coid,
    ensures
        catalog_map(s).contains_key(s[i].coid),
        catalog_map(s)[s[i].coid] == s[i],
    decreases s.len(),
{
    if i < s.len() - 1 {
        lemma_catalog_map_index(s.drop_last(), i);
        assert(s[s.len() - 1].coid != s[i].coid);
    }
}

/// Replacing a record in place, keeping its identifier, is a map insert.
proof fn lemma_catalog_map_update(s: Seq<CourseView>, j: int, c: CourseView)
    requires
        0 <= j < s.len(),
        c.coid == s[j].coid,
        forall|a: int, b: int| 0 <= a < b < s.len() ==> s[a].coid != s[b].coid,
    ensures
        catalog_map(s.update(j, c)) == catalog_map(s).insert(c.coid, c),
    decreases s.len(),
{
    let t = s.update(j, c);
    if j == s.len() - 1 {
        assert(t.drop_last() =~= s.drop_last());
        assert(t.last() == c);
        assert(catalog_map(t) =~= catalog_map(s).insert(c.coid, c));
    } else {
        lemma_catalog_map_update(s.drop_last(), j, c);
        assert(t.drop_last() =~= s.drop_last().update(j, c));
        assert(t.last() == s.last());
        assert(s.last().coid != c.coid);
        assert(catalog_map(t) =~= catalog_map(s).insert(c.coid, c));
    }
}

/// Removing a record removes its key, when identifiers are unique.
proof fn lemma_catalog_map_remove(s: Seq<CourseView>, j: int)
    requires
        0 <= j < s.len(),
        forall|a: int, b: int| 0 <= a < b < s.len() ==> s[a].coid != s[b].coid,
    ensures
        catalog_map(s.remove(j)) == catalog_map(s).remove(s[j].coid),
    decreases s.len(),
{
    let t = s.remove(j);
    if j == s.len() - 1 {
        assert(t =~= s.drop_last());
        lemma_catalog_map_contains(s.drop_last(), s[j].coid);
        assert(forall|i: int|
            0 <= i < s.drop_last().len() ==> s.drop_last()[i].coid != s[j].coid);
        assert(!catalog_map(s.drop_last()).contains_key(s[j].coid));
        assert(catalog_map(t) =~= catalog_map(s).remove(s[j].coid));
    } else {
        lemma_catalog_map_remove(s.drop_last(), j);
        assert(t.drop_last() =~= s.drop_last().remove(j));
        assert(t.last() == s.last());
        assert(s.last().coid != s[j].coid);
        assert(catalog_map(t) =~= catalog_map(s).remove(s[j].coid));
    }
}

/// Appending a record with a fresh identifier is a map insert.
proof fn lemma_catalog_map_push(s: Seq<CourseView>, c: CourseView)
    ensures
        catalog_map(s.push(c)) == catalog_map(s).insert(c.coid, c),
{
    assert(s.push(c).drop_last() =~= s);
    assert(s.push(c).last() == c);
}

/// One back-reference registration: the prerequisite `p` gains `dep` among
/// its back-references; a placeholder record is created for `p` first if the
/// map has none.
pub open spec fn register_one(
    m: Map<CourseIdView, CourseView>,
    p: CourseIdView,
    dep: CourseIdView,
) -> Map<CourseIdView, CourseView> {
    if m.contains_key(p) {
        m.insert(
            p,
            CourseView { post_options: push_unique(m[p].post_options, dep), ..m[p] },
        )
    } else {
        m.insert(
            p,
            CourseView {
                post_options: push_unique(placeholder_view(p).post_options, dep),
                ..placeholder_view(p)
            },
        )
    }
}

/// Registers `dep` on every member of one prerequisite group, in order.
pub open spec fn register_group(
    m: Map<CourseIdView, CourseView>,
    g: Seq<CourseIdView>,
    dep: CourseIdView,
) -> Map<CourseIdView, CourseView>
    decreases g.len(),
{
    if g.len() == 0 {
        m
    } else {
        register_one(register_group(m, g.drop_last(), dep), g.last(), dep)
    }
}

/// Registers `dep` on every member of every prerequisite group, in order.
pub open spec fn register_groups(
    m: Map<CourseIdView, CourseView>,
    gs: Seq<Seq<CourseIdView>>,
    dep: CourseIdView,
) -> Map<CourseIdView, CourseView>
    decreases gs.len(),
{
    if gs.len() == 0 {
        m
    } else {
        register_group(register_groups(m, gs.drop_last(), dep), gs.last(), dep)
    }
}

/// The record that replaces an existing entry keeps the entry's accumulated
/// back-references; everything else comes from the new record.
pub open spec fn merge_existing(m: Map<CourseIdView, CourseView>, c: CourseView) -> CourseView {
    if m.contains_key(c.coid) {
        CourseView { post_options: m[c.coid].post_options, ..c }
    } else {
        c
    }
}

/// What adding a course does to the catalog map: the course's entry is
/// replaced (keeping accumulated back-references), and every identifier its
/// prerequisite groups mention gains a back-reference to the course, behind a
/// fresh placeholder where no record exists yet.
pub open spec fn add_course_spec(
    m: Map<CourseIdView, CourseView>,
    c: CourseView,
) -> Map<CourseIdView, CourseView> {
    let merged = merge_existing(m, c);
    let base = if m.contains_key(c.coid) {
        m.remove(c.coid)
    } else {
        m
    };
    register_groups(base, c.prereqs, c.coid).insert(c.coid, merged)
}

/// The catalog map has finitely many keys: one per record when identifiers
/// are unique.
proof fn lemma_catalog_map_dom(s: Seq<CourseView>)
    ensures
        catalog_map(s).dom().finite(),
        (forall|a: int, b: int| 0 <= a < b < s.len() ==> s[a].coid != s[b].coid)
            ==> catalog_map(s).dom().len() == s.len(),
    decreases s.len(),
{
    if s.len() == 0 {
        assert(catalog_map(s).dom() =~= Set::<CourseIdView>::empty());
    } else {
        lemma_catalog_map_dom(s.drop_last());
        assert(catalog_map(s).dom() =~= catalog_map(s.drop_last()).dom().insert(s.last().coid));
        if forall|a: int, b: int| 0 <= a < b < s.len() ==> s[a].coid != s[b].coid {
            lemma_catalog_map_contains(s.drop_last(), s.last().coid);
            assert(forall|i: int|
                0 <= i < s.drop_last().len() ==> s.drop_last()[i].coid != s.last().coid);
            assert(!catalog_map(s.drop_last()).dom().contains(s.last().coid));
        }
    }
}

/// Stores all courses offered by a university, keyed by their identifiers.
pub struct Catalog {
    courses: Vec<Course>,
}

impl View for Catalog {
    type V = Map<CourseIdView, CourseView>;

    closed spec fn view(&self) -> Map<CourseIdView, CourseView> {
        catalog_map(courses_view(self.courses@))
    }
}

impl Catalog {
    /// The records carry pairwise distinct identifiers.
    pub closed spec fn wf(&self) -> bool {
        forall|a: int, b: int|
            0 <= a < b < self.courses@.len() ==> courses_view(self.courses@)[a].coid != courses_view(
                self.courses@,
            )[b].coid
    }

    /// A new, empty catalog.
    pub fn new() -> (r: Self)
        ensures
            r@ == Map::<CourseIdView, CourseView>::empty(),
            r.wf(),
    {
        Catalog { courses: Vec::new() }
    }

    /// Index of the record carrying the identifier, if any.
    fn find_index(&self, coid: &CourseID) -> (r: Option<usize>)
        ensures
            match r {
                Some(i) => i < self.courses@.len() && courses_view(self.courses@)[i as int].coid
                    == coid@,
                None => forall|i: int|
                    0 <= i < self.courses@.len() ==> courses_view(self.courses@)[i].coid != coid@,
            },
    {
        let mut i: usize = 0;
        while i < self.courses.len()
            invariant
                i <= self.courses@.len(),
                forall|k: int| 0 <= k < i ==> courses_view(self.courses@)[k].coid != coid@,
            decreases self.courses@.len() - i,
        {
            if self.courses[i].get_id() == *coid {
                return Some(i);
            }
            i = i + 1;
        }
        None
    }

    /// Adds a course to the catalog and registers the course on the
    /// back-reference list of every one of its prerequisites.
    ///
    /// If a record with the same identifier already exists, the new record
    /// replaces it in full, except that the back-references accumulated on
    /// the old record are kept.  A prerequisite with no record of its own
    /// gets a fresh placeholder.
    pub fn add_course(&mut self, course: Course)
        requires
            old(self).wf(),
        ensures
            final(self).wf(),
            final(self)@ == add_course_spec(old(self)@, course@),
    {
        let ghost m0 = self@;
        let ghost cv = course@;
        let id = course.get_id();
        let mut course = course;
        let ghost base = if m0.contains_key(cv.coid) {
            m0.remove(cv.coid)
        } else {
            m0
        };
        match self.find_index(&id) {
            Some(i) => {
                proof {
                    let s = courses_view(self.courses@);
                    lemma_catalog_map_index(s, i as int);
                    lemma_catalog_map_remove(s, i as int);
                }
                course.set_post_options(crate::course::clone_ids(self.courses[i].post_options()));
                let ghost s_before = courses_view(self.courses@);
                self.courses.remove(i);
                proof {
                    assert(courses_view(self.courses@) =~= s_before.remove(i as int));
                    assert(self@ == base);
                    assert(course@ =~= merge_existing(m0, cv));
                }
            },
            None => {
                proof {
                    lemma_catalog_map_contains(courses_view(self.courses@), id@);
                    assert(self@ == base);
                    assert(course@ =~= merge_existing(m0, cv));
                }
            },
        }
        let ghost merged = course@;
        let ghost dep = cv.coid;
        let ghost gs = cv.prereqs;
        let groups_ref = course.prereq_sets();
        let mut gi: usize = 0;
        while gi < groups_ref.len()
            invariant
                gi <= groups_ref@.len(),
                groups_view(groups_ref@) == gs,
                id@ == dep,
                self.wf(),
                self@ == register_groups(base, gs.take(gi as int), dep),
            decreases groups_ref@.len() - gi,
        {
            let g = &groups_ref[gi];
            let ghost gseq = gs[gi as int];
            proof {
                assert(gseq == ids_view(g@));
            }
            let ghost entry = register_groups(base, gs.take(gi as int), dep);
            let mut mi: usize = 0;
            while mi < g.len()
                invariant
                    mi <= g@.len(),
                    gseq == ids_view(g@),
                    id@ == dep,
                    self.wf(),
                    self@ == register_group(entry, gseq.take(mi as int), dep),
                decreases g@.len() - mi,
            {
                let member = &g[mi];
                proof {
                    assert(gseq[mi as int] == member@);
                }
                let ghost before = self@;
                let ghost s_before = courses_view(self.courses@);
                match self.find_index(member) {
                    Some(j) => {
                        proof {
                            lemma_catalog_map_index(s_before, j as int);
                        }
                        let cr = &mut self.courses[j];
                        cr.add_postoption(&id);
                        proof {
                            assert(courses_view(self.courses@) =~= s_before.update(
                                j as int,
                                self.courses@[j as int]@,
                            ));
                            lemma_catalog_map_update(
                                s_before,
                                j as int,
                                self.courses@[j as int]@,
                            );
                            assert(self.courses@[j as int]@ =~= (CourseView {
                                post_options: push_unique(before[member@].post_options, dep),
                                ..before[member@]
                            }));
                            assert(self@ == register_one(before, member@, dep));
                        }
                    },
                    None => {
                        proof {
                            lemma_catalog_map_contains(s_before, member@);
                        }
                        let mut placeholder = Course::new(member);
                        placeholder.add_postoption(&id);
                        self.courses.push(placeholder);
                        proof {
                            assert(courses_view(self.courses@) =~= s_before.push(
                                self.courses@.last()@,
                            ));
                            lemma_catalog_map_push(s_before, self.courses@.last()@);
                            assert(self@ == register_one(before, member@, dep));
                            assert forall|a: int, b: int|
                                0 <= a < b < self.courses@.len() implies courses_view(
                                self.courses@,
                            )[a].coid != courses_view(self.courses@)[b].coid by {
                                if b == self.courses@.len() - 1 {
                                    assert(s_before[a].coid != member@);
                                }
                            }
                        }
                    },
                }
                mi = mi + 1;
                proof {
                    assert(gseq.take(mi as int).drop_last() =~= gseq.take(mi - 1));
                    assert(gseq.take(mi as int).last() == gseq[mi - 1]);
                }
            }
            gi = gi + 1;
            proof {
                assert(gseq.take(g@.len() as int) =~= gseq);
                assert(gs.take(gi as int).drop_last() =~= gs.take(gi - 1));
                assert(gs.take(gi as int).last() == gs[gi - 1]);
            }
        }
        proof {
            assert(gs.take(gs.len() as int) =~= gs);
        }
        let ghost registered = register_groups(base, gs, dep);
        let ghost s_after = courses_view(self.courses@);
        match self.find_index(&id) {
            Some(j) => {
                proof {
                    lemma_catalog_map_index(s_after, j as int);
                    lemma_catalog_map_remove(s_after, j as int);
                }
                self.courses.remove(j);
                proof {
                    assert(courses_view(self.courses@) =~= s_after.remove(j as int));
                    assert(self@ == registered.remove(id@));
                    assert forall|i: int|
                        0 <= i < self.courses@.len() implies courses_view(self.courses@)[i].coid
                        != id@ by {
                        if i < j {
                            assert(courses_view(self.courses@)[i] == s_after[i]);
                        } else {
                            assert(courses_view(self.courses@)[i] == s_after[i + 1]);
                        }
                    }
                }
            },
            None => {
                proof {
                    lemma_catalog_map_contains(s_after, id@);
                }
            },
        }
        let ghost s_final = courses_view(self.courses@);
        self.courses.push(course);
        proof {
            assert(courses_view(self.courses@) =~= s_final.push(merged));
            lemma_catalog_map_push(s_final, merged);
            assert(self@ =~= registered.insert(cv.coid, merged));
            assert(self@ == add_course_spec(m0, cv));
            assert forall|a: int, b: int|
                0 <= a < b < self.courses@.len() implies courses_view(self.courses@)[a].coid
                != courses_view(self.courses@)[b].coid by {
                if b == self.courses@.len() - 1 {
                    assert(s_final[a].coid != id@);
                }
            }
        }
    }

    /// Adds a fresh placeholder record for the identifier: a course made
    /// only from its identifier, with no requirements or display data.
    pub fn emplace_course(&mut self, coid: &CourseID)
        requires
            old(self).wf(),
        ensures
            final(self).wf(),
            final(self)@ == add_course_spec(old(self)@, placeholder_view(coid@)),
    {
        self.add_course(Course::new(coid));
    }

    /// The record for the identifier, or nothing: an absent course is a
    /// normal outcome, not an error.
    pub fn get_course(&self, coid: &CourseID) -> (r: Option<&Course>)
        requires
            self.wf(),
        ensures
            match r {
                Some(c) => self@.contains_key(coid@) && c@ == self@[coid@],
                None => !self@.contains_key(coid@),
            },
    {
        proof {
            lemma_catalog_map_contains(courses_view(self.courses@), coid@);
        }
        match self.find_index(coid) {
            Some(i) => {
                proof {
                    lemma_catalog_map_index(courses_view(self.courses@), i as int);
                }
                Some(&self.courses[i])
            },
            None => None,
        }
    }

    /// How many records the catalog holds.
    pub fn course_count(&self) -> (r: usize)
        requires
            self.wf(),
        ensures
            r == self@.dom().len(),
    {
        proof {
            lemma_catalog_map_dom(courses_view(self.courses@));
        }
        self.courses.len()
    }

    /// A mutable borrow of the record for the identifier, if it exists.  The
    /// final catalog reflects whatever the caller does through the borrow;
    /// since no method of `Course` changes a record's identifier, the
    /// catalog stays well-formed for every caller that sticks to them.
    pub fn get_course_mut(&mut self, coid: &CourseID) -> (r: Option<&mut Course>)
        requires
            old(self).wf(),
        ensures
            r is Some <==> old(self)@.contains_key(coid@),
            r is None ==> final(self)@ == old(self)@ && final(self).wf(),
            r matches Some(c) ==> (*c)@ == old(self)@[coid@] && (final(c)@.coid == old(
                self,
            )@[coid@].coid ==> final(self).wf() && final(self)@ == old(self)@.insert(
                coid@,
                final(c)@,
            )),
    {
        proof {
            lemma_catalog_map_contains(courses_view(self.courses@), coid@);
        }
        match self.find_index(coid) {
            Some(i) => {
                let ghost sv = self.courses@;
                let ghost s0 = courses_view(sv);
                proof {
                    lemma_catalog_map_index(s0, i as int);
                    assert forall|x: Course| #[trigger] courses_view(sv.update(i as int, x))
                        =~= s0.update(i as int, x@) by {}
                    assert forall|w: CourseView| w.coid == s0[i as int].coid implies #[trigger]
                    catalog_map(s0.update(i as int, w)) == catalog_map(s0).insert(w.coid, w) by {
                        lemma_catalog_map_update(s0, i as int, w);
                    }
                    assert forall|w: CourseView, a: int, b: int|
                        #![trigger s0.update(i as int, w)[a], s0.update(i as int, w)[b]]
                        w.coid == s0[i as int].coid && 0 <= a < b < s0.len() implies s0.update(
                        i as int,
                        w,
                    )[a].coid != s0.update(i as int, w)[b].coid by {}
                }
                let c = &mut self.courses[i];
                Some(c)
            },
            None => None,
        }
    }
}

/// After `register_one`, a key is present exactly when it was already
/// present or is the one registered.
proof fn lemma_register_one_keys(
    m: Map<CourseIdView, CourseView>,
    q: CourseIdView,
    dep: CourseIdView,
    k: CourseIdView,
)
    ensures
        register_one(m, q, dep).contains_key(k) <==> (m.contains_key(k) || k == q),
{
}

/// After registering a group, a key is present exactly when it was already
/// present or the group mentions it.
proof fn lemma_register_group_keys(
    m: Map<CourseIdView, CourseView>,
    g: Seq<CourseIdView>,
    dep: CourseIdView,
    k: CourseIdView,
)
    ensures
        register_group(m, g, dep).contains_key(k) <==> (m.contains_key(k) || g.contains(k)),
    decreases g.len(),
{
    if g.len() > 0 {
        lemma_register_group_keys(m, g.drop_last(), dep, k);
        lemma_register_one_keys(register_group(m, g.drop_last(), dep), g.last(), dep, k);
        if g.contains(k) && k != g.last() {
            let i = choose|i: int| 0 <= i < g.len() && g[i] == k;
            assert(g.drop_last()[i] == k);
        }
        if g.drop_last().contains(k) {
            let i = choose|i: int| 0 <= i < g.drop_last().len() && g.drop_last()[i] == k;
            assert(g[i] == k);
        }
        if k == g.last() {
            assert(g[g.len() - 1] == k);
        }
    }
}

/// After registering all groups, a key is present exactly when it was
/// already present or some group mentions it.
proof fn lemma_register_groups_keys(
    m: Map<CourseIdView, CourseView>,
    gs: Seq<Seq<CourseIdView>>,
    dep: CourseIdView,
    k: CourseIdView,
)
    ensures
        register_groups(m, gs, dep).contains_key(k) <==> (m.contains_key(k) || exists|i: int|
            0 <= i < gs.len() && #[trigger] gs[i].contains(k)),
    decreases gs.len(),
{
    if gs.len() > 0 {
        lemma_register_groups_keys(m, gs.drop_last(), dep, k);
        lemma_register_group_keys(register_groups(m, gs.drop_last(), dep), gs.last(), dep, k);
        if gs.last().contains(k) {
            assert(gs[gs.len() - 1].contains(k));
        }
        if exists|i: int| 0 <= i < gs.drop_last().len() && #[trigger] gs.drop_last()[i].contains(
            k,
        ) {
            let i = choose|i: int|
                0 <= i < gs.drop_last().len() && #[trigger] gs.drop_last()[i].contains(k);
            assert(gs[i].contains(k));
        }
        if exists|i: int| 0 <= i < gs.len() && #[trigger] gs[i].contains(k) {
            let i = choose|i: int| 0 <= i < gs.len() && #[trigger] gs[i].contains(k);
            if i < gs.len() - 1 {
                assert(gs.drop_last()[i].contains(k));
            }
        }
    }
}

/// Back-reference invariant: after a course is added, every identifier that
/// its prerequisite groups mention exists as a catalog key, a placeholder
/// having been created wherever no record existed.
pub proof fn lemma_add_course_references_present(
    m: Map<CourseIdView, CourseView>,
    c: CourseView,
    p: CourseIdView,
)
    requires
        exists|k: int| 0 <= k < c.prereqs.len() && #[trigger] c.prereqs[k].contains(p),
    ensures
        add_course_spec(m, c).contains_key(p),
{
    let base = if m.contains_key(c.coid) {
        m.remove(c.coid)
    } else {
        m
    };
    lemma_register_groups_keys(base, c.prereqs, c.coid, p);
}

/// Re-insertion: adding a record for an identifier that already has one
/// keeps the new record's data (its name among the rest) while the
/// back-references accumulated up to that point are preserved.
pub proof fn lemma_readd_keeps_backrefs(
    m: Map<CourseIdView, CourseView>,
    c1: CourseView,
    c2: CourseView,
)
    requires
        c1.coid == c2.coid,
    ensures
        ({
            let m1 = add_course_spec(m, c1);
            let m2 = add_course_spec(m1, c2);
            &&& m2.contains_key(c2.coid)
            &&& m2[c2.coid].name == c2.name
            &&& m2[c2.coid].prereqs == c2.prereqs
            &&& m2[c2.coid].post_options == m1[c2.coid].post_options
        }),
{
}

} // verus!
