//! Course identifiers and course records.

use vstd::arithmetic::div_mod::lemma_div_denominator;
use vstd::prelude::*;
use vstd::string::StrSliceExecFns;
use vstd::string::StringExecFns;

verus! {

/// Mathematical value of a course identifier: the subject letters and the
/// numeric code.
#[verifier::ext_equal]
pub struct CourseIdView {
    pub subj: Seq<char>,
    pub code: int,
}

/// Identifies a course in the catalog and the schedule: a subject tag
/// (canonically four upper-case ASCII letters) and a numeric code.
#[derive(Debug, Hash)]
pub struct CourseID {
    subj: String,
    code: u16,
}

impl View for CourseID {
    type V = CourseIdView;

    closed spec fn view(&self) -> CourseIdView {
        CourseIdView { subj: self.subj@, code: self.code as int }
    }
}

impl Clone for CourseID {
    fn clone(&self) -> (r: Self)
        ensures
            r@ == self@,
    {
        CourseID { subj: self.subj.clone(), code: self.code }
    }
}

impl PartialEq for CourseID {
    fn eq(&self, other: &Self) -> (r: bool) {
        self.code == other.code && self.subj == other.subj
    }
}

impl Eq for CourseID {
}

impl vstd::std_specs::cmp::PartialEqSpecImpl for CourseID {
    open spec fn obeys_eq_spec() -> bool {
        true
    }

    open spec fn eq_spec(&self, other: &Self) -> bool {
        self@ == other@
    }
}

/// An upper-case ASCII letter, the only characters a subject may hold.
pub open spec fn is_upper(c: char) -> bool {
    'A' <= c && c <= 'Z'
}

/// A decimal digit.
pub open spec fn is_digit(c: char) -> bool {
    '0' <= c && c <= '9'
}

/// Numeric value of a decimal digit character.
pub open spec fn digit_val(c: char) -> int {
    c as int - '0' as int
}

/// Value of the four-digit code field, read from its four characters.
pub open spec fn code_val(s: Seq<char>) -> int
    recommends
        s.len() == 4,
{
    digit_val(s[0]) * 1000 + digit_val(s[1]) * 100 + digit_val(s[2]) * 10 + digit_val(s[3])
}

/// Exactly four upper-case ASCII letters.
pub open spec fn valid_subject(s: Seq<char>) -> bool {
    s.len() == 4 && forall|i: int| 0 <= i < 4 ==> is_upper(s[i])
}

/// A string that the identifier parser accepts: 8 or 9 characters, the first
/// four upper-case letters, the last four decimal digits.  Whatever stands
/// between the two fields (normally one separator character) is ignored.
pub open spec fn parse_ok(s: Seq<char>) -> bool {
    &&& s.len() == 8 || s.len() == 9
    &&& valid_subject(s.subrange(0, 4))
    &&& forall|i: int| s.len() - 4 <= i < s.len() ==> is_digit(s[i])
}

/// The identifier a well-formed string parses to.
pub open spec fn parse_result(s: Seq<char>) -> CourseIdView
    recommends
        parse_ok(s),
{
    CourseIdView {
        subj: s.subrange(0, 4),
        code: code_val(s.subrange(s.len() - 4, s.len() as int)),
    }
}

/// The character for one decimal digit.
pub open spec fn digit_char(d: int) -> char {
    if d == 0 {
        '0'
    } else if d == 1 {
        '1'
    } else if d == 2 {
        '2'
    } else if d == 3 {
        '3'
    } else if d == 4 {
        '4'
    } else if d == 5 {
        '5'
    } else if d == 6 {
        '6'
    } else if d == 7 {
        '7'
    } else if d == 8 {
        '8'
    } else {
        '9'
    }
}

/// Decimal representation of a non-negative integer, most significant digit
/// first, with no leading zeros.
pub open spec fn dec_rep(n: int) -> Seq<char>
    decreases n,
{
    if n < 10 {
        seq![digit_char(n)]
    } else {
        dec_rep(n / 10).push(digit_char(n % 10))
    }
}

/// Canonical text form of an identifier: the subject, one space, and the code
/// in decimal.
pub open spec fn render_spec(id: CourseIdView) -> Seq<char> {
    id.subj + seq![' '] + dec_rep(id.code)
}

/// Spells out `dec_rep` digit by digit for every value a code field can hold.
proof fn lemma_dec_rep_digits(c: int)
    requires
        0 <= c <= 65535,
    ensures
        c < 10 ==> dec_rep(c) == seq![digit_char(c)],
        10 <= c < 100 ==> dec_rep(c) == seq![digit_char(c / 10), digit_char(c % 10)],
        100 <= c < 1000 ==> dec_rep(c) == seq![
            digit_char(c / 100),
            digit_char((c / 10) % 10),
            digit_char(c % 10),
        ],
        1000 <= c < 10000 ==> dec_rep(c) == seq![
            digit_char(c / 1000),
            digit_char((c / 100) % 10),
            digit_char((c / 10) % 10),
            digit_char(c % 10),
        ],
        10000 <= c ==> dec_rep(c) == seq![
            digit_char(c / 10000),
            digit_char((c / 1000) % 10),
            digit_char((c / 100) % 10),
            digit_char((c / 10) % 10),
            digit_char(c % 10),
        ],
    decreases c,
{
    if c >= 10 {
        lemma_dec_rep_digits(c / 10);
        lemma_div_denominator(c, 10, 10);
        lemma_div_denominator(c, 10, 100);
        lemma_div_denominator(c, 10, 1000);
        assert(dec_rep(c) == dec_rep(c / 10).push(digit_char(c % 10)));
        if c < 100 {
            assert(dec_rep(c) =~= seq![digit_char(c / 10), digit_char(c % 10)]);
        } else if c < 1000 {
            assert(dec_rep(c) =~= seq![
                digit_char(c / 100),
                digit_char((c / 10) % 10),
                digit_char(c % 10),
            ]);
        } else if c < 10000 {
            assert(dec_rep(c) =~= seq![
                digit_char(c / 1000),
                digit_char((c / 100) % 10),
                digit_char((c / 10) % 10),
                digit_char(c % 10),
            ]);
        } else {
            assert(dec_rep(c) =~= seq![
                digit_char(c / 10000),
                digit_char((c / 1000) % 10),
                digit_char((c / 100) % 10),
                digit_char((c / 10) % 10),
                digit_char(c % 10),
            ]);
        }
    }
}

/// Round trip: for an identifier whose subject is four upper-case letters and
/// whose code has four digits, parsing the canonical text form gives the same
/// identifier back.  (A code under 1000 renders to fewer than four digits, so
/// its text form is shorter than the parser accepts; such codes are left out.)
pub proof fn lemma_parse_render_roundtrip(id: CourseIdView)
    requires
        valid_subject(id.subj),
        1000 <= id.code <= 9999,
    ensures
        parse_ok(render_spec(id)),
        parse_result(render_spec(id)) == id,
{
    let c = id.code;
    lemma_dec_rep_digits(c);
    lemma_div_denominator(c, 10, 10);
    lemma_div_denominator(c, 100, 10);
    let s = render_spec(id);
    assert(s.len() == 9);
    assert(s.subrange(0, 4) =~= id.subj);
    assert(s[5] == digit_char(c / 1000));
    assert(s[6] == digit_char((c / 100) % 10));
    assert(s[7] == digit_char((c / 10) % 10));
    assert(s[8] == digit_char(c % 10));
    assert(1 <= c / 1000 <= 9);
    assert forall|i: int| 5 <= i < 9 implies is_digit(s[i]) by {
        if i == 5 {
            assert(is_digit(digit_char(c / 1000)));
        } else if i == 6 {
            assert(is_digit(digit_char((c / 100) % 10)));
        } else if i == 7 {
            assert(is_digit(digit_char((c / 10) % 10)));
        } else {
            assert(is_digit(digit_char(c % 10)));
        }
    }
    assert(parse_ok(s));
    let tail = s.subrange(5, 9);
    assert(tail[0] == s[5]);
    assert(tail[1] == s[6]);
    assert(tail[2] == s[7]);
    assert(tail[3] == s[8]);
    assert(digit_val(digit_char(c / 1000)) == c / 1000);
    assert(digit_val(digit_char((c / 100) % 10)) == (c / 100) % 10);
    assert(digit_val(digit_char((c / 10) % 10)) == (c / 10) % 10);
    assert(digit_val(digit_char(c % 10)) == c % 10);
    assert(c / 10 == 10 * (c / 100) + (c / 10) % 10);
    assert(c / 100 == 10 * (c / 1000) + (c / 100) % 10);
    assert(code_val(tail) == c);
    assert(parse_result(s).subj =~= id.subj);
    assert(parse_result(s) =~= id);
}

/// The one-character string for one decimal digit.
fn digit_str(d: u16) -> (r: &'static str)
    requires
        d <= 9,
    ensures
        r@ == seq![digit_char(d as int)],
{
    proof {
        reveal_strlit("0");
        reveal_strlit("1");
        reveal_strlit("2");
        reveal_strlit("3");
        reveal_strlit("4");
        reveal_strlit("5");
        reveal_strlit("6");
        reveal_strlit("7");
        reveal_strlit("8");
        reveal_strlit("9");
    }
    if d == 0 {
        "0"
    } else if d == 1 {
        "1"
    } else if d == 2 {
        "2"
    } else if d == 3 {
        "3"
    } else if d == 4 {
        "4"
    } else if d == 5 {
        "5"
    } else if d == 6 {
        "6"
    } else if d == 7 {
        "7"
    } else if d == 8 {
        "8"
    } else {
        "9"
    }
}

/// Decimal representation of any integer: a minus sign before the digits of
/// the magnitude.
pub open spec fn int_rep(n: int) -> Seq<char> {
    if n < 0 {
        seq!['-'] + dec_rep(-n)
    } else {
        dec_rep(n)
    }
}

/// Appends the decimal digits of `n`.
pub(crate) fn push_dec(out: &mut String, n: u64)
    ensures
        final(out)@ == old(out)@ + dec_rep(n as int),
    decreases n,
{
    if n < 10 {
        out.append(digit_str(n as u16));
    } else {
        push_dec(out, n / 10);
        out.append(digit_str((n % 10) as u16));
        proof {
            assert(old(out)@ + dec_rep((n / 10) as int) + seq![digit_char((n % 10) as int)]
                =~= old(out)@ + dec_rep(n as int));
        }
    }
}

/// Appends the decimal form of `n`, sign included.
pub(crate) fn push_int(out: &mut String, n: i32)
    ensures
        final(out)@ == old(out)@ + int_rep(n as int),
    {
    proof {
        reveal_strlit("-");
    }
    let wide: i64 = n as i64;
    if wide < 0 {
        out.append("-");
        push_dec(out, (-wide) as u64);
        proof {
            assert(old(out)@ + seq!['-'] + dec_rep(-(n as int)) =~= old(out)@ + int_rep(n as int));
        }
    } else {
        push_dec(out, wide as u64);
    }
}

impl CourseID {
    /// Constructs an identifier directly from its parts, with no validation.
    pub fn new(subj: &str, code: u16) -> (r: Self)
        ensures
            r@ == (CourseIdView { subj: subj@, code: code as int }),
    {
        CourseID { subj: subj.to_owned(), code }
    }

    /// Parses an identifier from text.  The string must be 8 or 9 characters
    /// long: the first four are the subject (each must be an upper-case ASCII
    /// letter) and the last four are the decimal code.  Returns no value for
    /// any other string.
    pub fn from(coid: &str) -> (r: Option<CourseID>)
        ensures
            r is Some <==> parse_ok(coid@),
            r matches Some(id) ==> id@ == parse_result(coid@),
    {
        let n = coid.unicode_len();
        if n != 8 && n != 9 {
            return None;
        }
        let mut i: usize = 0;
        while i < 4
            invariant
                i <= 4,
                n == coid@.len(),
                n == 8 || n == 9,
                forall|k: int| 0 <= k < i ==> is_upper(coid@[k]),
            decreases 4 - i,
        {
            let c = coid.get_char(i);
            if c < 'A' || c > 'Z' {
                proof {
                    assert(coid@.subrange(0, 4)[i as int] == coid@[i as int]);
                }
                return None;
            }
            i = i + 1;
        }
        let c0 = coid.get_char(n - 4);
        let c1 = coid.get_char(n - 3);
        let c2 = coid.get_char(n - 2);
        let c3 = coid.get_char(n - 1);
        if c0 < '0' || c0 > '9' || c1 < '0' || c1 > '9' || c2 < '0' || c2 > '9' || c3 < '0'
            || c3 > '9' {
            return None;
        }
        let d0 = (c0 as u32 - 48) as u16;
        let d1 = (c1 as u32 - 48) as u16;
        let d2 = (c2 as u32 - 48) as u16;
        let d3 = (c3 as u32 - 48) as u16;
        let code: u16 = d0 * 1000 + d1 * 100 + d2 * 10 + d3;
        let subj = coid.substring_char(0, 4).to_owned();
        proof {
            assert(valid_subject(coid@.subrange(0, 4)));
            let tail = coid@.subrange(n - 4, n as int);
            assert(tail[0] == coid@[n - 4]);
            assert(tail[1] == coid@[n - 3]);
            assert(tail[2] == coid@[n - 2]);
            assert(tail[3] == coid@[n - 1]);
        }
        Some(CourseID { subj, code })
    }

    /// The subject letters of this identifier.
    pub fn subject(&self) -> (r: &String)
        ensures
            r@ == self@.subj,
    {
        &self.subj
    }

    /// The numeric code of this identifier.
    pub fn code(&self) -> (r: u16)
        ensures
            r as int == self@.code,
    {
        self.code
    }

    /// Canonical text form: the subject, one space, and the code in decimal.
    pub fn render(&self) -> (r: String)
        ensures
            r@ == render_spec(self@),
    {
        proof {
            reveal_strlit(" ");
        }
        let mut s = self.subj.clone();
        s.append(" ");
        let code = self.code;
        if code >= 10000 {
            s.append(digit_str(code / 10000));
        }
        if code >= 1000 {
            s.append(digit_str((code / 1000) % 10));
        }
        if code >= 100 {
            s.append(digit_str((code / 100) % 10));
        }
        if code >= 10 {
            s.append(digit_str((code / 10) % 10));
        }
        s.append(digit_str(code % 10));
        proof {
            lemma_dec_rep_digits(code as int);
            assert(s@ =~= render_spec(self@));
        }
        s
    }
}

/// Views of a sequence of identifiers.
pub open spec fn ids_view(s: Seq<CourseID>) -> Seq<CourseIdView> {
    s.map_values(|c: CourseID| c@)
}

/// Views of a sequence of requirement groups.
pub open spec fn groups_view(s: Seq<Vec<CourseID>>) -> Seq<Seq<CourseIdView>> {
    s.map_values(|v: Vec<CourseID>| ids_view(v@))
}

/// No identifier occurs twice.
pub open spec fn distinct_ids(s: Seq<CourseIdView>) -> bool {
    forall|i: int, j: int| 0 <= i < j < s.len() ==> s[i] != s[j]
}

/// Appends an identifier unless it is already present.
pub open spec fn push_unique(s: Seq<CourseIdView>, x: CourseIdView) -> Seq<CourseIdView> {
    if s.contains(x) {
        s
    } else {
        s.push(x)
    }
}

/// Keeps the first occurrence of each identifier, in order.
pub open spec fn dedup_ids(s: Seq<CourseIdView>) -> Seq<CourseIdView>
    decreases s.len(),
{
    if s.len() == 0 {
        Seq::empty()
    } else {
        push_unique(dedup_ids(s.drop_last()), s.last())
    }
}

/// Deduplicates every group of a group sequence.
pub open spec fn dedup_groups(gs: Seq<Seq<CourseIdView>>) -> Seq<Seq<CourseIdView>> {
    gs.map_values(|g: Seq<CourseIdView>| dedup_ids(g))
}

/// Deduplication yields a duplicate-free sequence with the same members.
pub proof fn lemma_dedup_ids(s: Seq<CourseIdView>)
    ensures
        distinct_ids(dedup_ids(s)),
        forall|x: CourseIdView| #[trigger] dedup_ids(s).contains(x) <==> s.contains(x),
    decreases s.len(),
{
    if s.len() > 0 {
        lemma_dedup_ids(s.drop_last());
        let d = dedup_ids(s.drop_last());
        let r = dedup_ids(s);
        assert forall|x: CourseIdView| #[trigger] r.contains(x) implies s.contains(x) by {
            if d.contains(x) {
                assert(s.drop_last().contains(x));
                let i = choose|i: int| 0 <= i < s.drop_last().len() && s.drop_last()[i] == x;
                assert(s[i] == x);
            } else {
                assert(x == s.last());
                assert(s[s.len() - 1] == x);
            }
        }
        assert forall|x: CourseIdView| s.contains(x) implies #[trigger] r.contains(x) by {
            let i = choose|i: int| 0 <= i < s.len() && s[i] == x;
            if i < s.len() - 1 {
                assert(s.drop_last()[i] == x);
                assert(s.drop_last().contains(x));
                assert(d.contains(x));
                if !d.contains(s.last()) {
                    assert(r[choose|j: int| 0 <= j < d.len() && d[j] == x] == x);
                } else {
                    assert(r == d);
                }
            } else {
                assert(x == s.last());
                if d.contains(x) {
                    assert(r == d);
                } else {
                    assert(r[d.len() as int] == x);
                }
            }
        }
        if !d.contains(s.last()) {
            assert forall|i: int, j: int| 0 <= i < j < r.len() implies r[i] != r[j] by {
                if j < d.len() {
                    assert(d[i] != d[j]);
                } else {
                    assert(r[j] == s.last());
                    assert(d[i] == r[i]);
                    assert(d.contains(r[i]));
                }
            }
        }
    }
}

/// Membership in a sequence of identifier views.
pub(crate) fn ids_contain(v: &Vec<CourseID>, x: &CourseID) -> (r: bool)
    ensures
        r == ids_view(v@).contains(x@),
{
    let mut i: usize = 0;
    while i < v.len()
        invariant
            i <= v@.len(),
            forall|k: int| 0 <= k < i ==> v@[k]@ != x@,
        decreases v@.len() - i,
    {
        if v[i] == *x {
            proof {
                assert(ids_view(v@)[i as int] == x@);
            }
            return true;
        }
        i = i + 1;
    }
    proof {
        assert forall|k: int| 0 <= k < ids_view(v@).len() implies #[trigger] ids_view(v@)[k] != x@
            by {
            assert(v@[k]@ != x@);
        }
    }
    false
}

/// Copy of a sequence of identifiers, equal in view.
pub(crate) fn clone_ids(v: &Vec<CourseID>) -> (r: Vec<CourseID>)
    ensures
        ids_view(r@) == ids_view(v@),
{
    let mut r: Vec<CourseID> = Vec::new();
    let mut i: usize = 0;
    while i < v.len()
        invariant
            i <= v@.len(),
            r@.len() == i,
            forall|k: int| 0 <= k < i ==> r@[k]@ == v@[k]@,
        decreases v@.len() - i,
    {
        r.push(v[i].clone());
        i = i + 1;
    }
    proof {
        assert(ids_view(r@) =~= ids_view(v@));
    }
    r
}

/// Keeps the first occurrence of each identifier, in order.
pub(crate) fn dedup_ids_exec(v: &Vec<CourseID>) -> (r: Vec<CourseID>)
    ensures
        ids_view(r@) == dedup_ids(ids_view(v@)),
{
    let ghost s = ids_view(v@);
    let mut acc: Vec<CourseID> = Vec::new();
    let mut i: usize = 0;
    while i < v.len()
        invariant
            i <= v@.len(),
            s == ids_view(v@),
            ids_view(acc@) == dedup_ids(s.take(i as int)),
        decreases v@.len() - i,
    {
        proof {
            assert(s.take(i + 1).drop_last() =~= s.take(i as int));
            assert(s.take(i + 1).last() == s[i as int]);
            assert(s[i as int] == v@[i as int]@);
        }
        if !ids_contain(&acc, &v[i]) {
            acc.push(v[i].clone());
            proof {
                assert(ids_view(acc@) =~= push_unique(dedup_ids(s.take(i as int)), s[i as int]));
            }
        }
        i = i + 1;
    }
    proof {
        assert(s.take(s.len() as int) =~= s);
    }
    acc
}

/// Mathematical value of a course record.
#[verifier::ext_equal]
pub struct CourseView {
    pub complete: bool,
    pub name: Seq<char>,
    pub description: Seq<char>,
    pub coid: CourseIdView,
    pub offered: Seq<char>,
    pub age_reqs: Seq<char>,
    pub prereqs: Seq<Seq<CourseIdView>>,
    pub prereqs_opt: Seq<CourseIdView>,
    pub coreqs: Seq<Seq<CourseIdView>>,
    pub coreqs_opt: Seq<CourseIdView>,
    pub post_options: Seq<CourseIdView>,
}

/// The record an identifier maps to when it is first referenced before its
/// own data is loaded: empty text fields, no requirements, and the complete
/// flag cleared.
pub open spec fn placeholder_view(id: CourseIdView) -> CourseView {
    CourseView {
        complete: false,
        name: Seq::empty(),
        description: Seq::empty(),
        coid: id,
        offered: Seq::empty(),
        age_reqs: Seq::empty(),
        prereqs: Seq::empty(),
        prereqs_opt: Seq::empty(),
        coreqs: Seq::empty(),
        coreqs_opt: Seq::empty(),
        post_options: Seq::empty(),
    }
}

/// Set semantics hold wherever the record stores a set: requirement groups
/// and the auxiliary identifier sets are free of duplicates.
pub open spec fn course_wf(c: CourseView) -> bool {
    &&& forall|k: int| 0 <= k < c.prereqs.len() ==> distinct_ids(#[trigger] c.prereqs[k])
    &&& forall|k: int| 0 <= k < c.coreqs.len() ==> distinct_ids(#[trigger] c.coreqs[k])
    &&& distinct_ids(c.prereqs_opt)
    &&& distinct_ids(c.coreqs_opt)
    &&& distinct_ids(c.post_options)
}

/// Everything the catalog knows about one course: its identifier, display
/// data, and its requirement groups.  Each group lists alternatives: one
/// member scheduled the right way satisfies the group.
pub struct Course {
    complete: bool,
    name: String,
    description: String,
    coid: CourseID,
    offered: String,
    age_reqs: String,
    prereqs: Vec<Vec<CourseID>>,
    prereqs_opt: Vec<CourseID>,
    coreqs: Vec<Vec<CourseID>>,
    coreqs_opt: Vec<CourseID>,
    post_options: Vec<CourseID>,
}

impl View for Course {
    type V = CourseView;

    closed spec fn view(&self) -> CourseView {
        CourseView {
            complete: self.complete,
            name: self.name@,
            description: self.description@,
            coid: self.coid@,
            offered: self.offered@,
            age_reqs: self.age_reqs@,
            prereqs: groups_view(self.prereqs@),
            prereqs_opt: ids_view(self.prereqs_opt@),
            coreqs: groups_view(self.coreqs@),
            coreqs_opt: ids_view(self.coreqs_opt@),
            post_options: ids_view(self.post_options@),
        }
    }
}

impl Course {
    /// A fresh placeholder record for the given identifier.
    pub fn new(coid: &CourseID) -> (r: Self)
        ensures
            r@ == placeholder_view(coid@),
            course_wf(r@),
    {
        let r = Course {
            complete: false,
            name: String::new(),
            description: String::new(),
            coid: coid.clone(),
            offered: String::new(),
            age_reqs: String::new(),
            prereqs: Vec::new(),
            prereqs_opt: Vec::new(),
            coreqs: Vec::new(),
            coreqs_opt: Vec::new(),
            post_options: Vec::new(),
        };
        proof {
            assert(r@ =~= placeholder_view(coid@));
        }
        r
    }

    /// A full record.  Requirement groups and the auxiliary identifier lists
    /// are read with set semantics: duplicates within one group or list are
    /// dropped, keeping first occurrences.
    pub fn from_parts(
        coid: &CourseID,
        complete: bool,
        name: String,
        description: String,
        offered: String,
        age_reqs: String,
        prereqs: Vec<Vec<CourseID>>,
        prereqs_opt: Vec<CourseID>,
        coreqs: Vec<Vec<CourseID>>,
        coreqs_opt: Vec<CourseID>,
        post_options: Vec<CourseID>,
    ) -> (r: Self)
        ensures
            r@ == (CourseView {
                complete,
                name: name@,
                description: description@,
                coid: coid@,
                offered: offered@,
                age_reqs: age_reqs@,
                prereqs: dedup_groups(groups_view(prereqs@)),
                prereqs_opt: dedup_ids(ids_view(prereqs_opt@)),
                coreqs: dedup_groups(groups_view(coreqs@)),
                coreqs_opt: dedup_ids(ids_view(coreqs_opt@)),
                post_options: dedup_ids(ids_view(post_options@)),
            }),
            course_wf(r@),
    {
        let r = Course {
            complete,
            name,
            description,
            coid: coid.clone(),
            offered,
            age_reqs,
            prereqs: dedup_each(&prereqs),
            prereqs_opt: dedup_ids_exec(&prereqs_opt),
            coreqs: dedup_each(&coreqs),
            coreqs_opt: dedup_ids_exec(&coreqs_opt),
            post_options: dedup_ids_exec(&post_options),
        };
        proof {
            lemma_dedup_ids(ids_view(prereqs_opt@));
            lemma_dedup_ids(ids_view(coreqs_opt@));
            lemma_dedup_ids(ids_view(post_options@));
            assert forall|k: int| 0 <= k < r@.prereqs.len() implies distinct_ids(
                #[trigger] r@.prereqs[k],
            ) by {
                assert(r@.prereqs[k] == dedup_ids(groups_view(prereqs@)[k]));
                lemma_dedup_ids(groups_view(prereqs@)[k]);
            }
            assert forall|k: int| 0 <= k < r@.coreqs.len() implies distinct_ids(
                #[trigger] r@.coreqs[k],
            ) by {
                assert(r@.coreqs[k] == dedup_ids(groups_view(coreqs@)[k]));
                lemma_dedup_ids(groups_view(coreqs@)[k]);
            }
        }
        r
    }

    /// The identifier of this course.
    pub fn get_id(&self) -> (r: CourseID)
        ensures
            r@ == self@.coid,
    {
        self.coid.clone()
    }

    /// The display name of this course.
    pub fn name(&self) -> (r: &String)
        ensures
            r@ == self@.name,
    {
        &self.name
    }

    /// Whether the record carries full data (placeholders do not).
    pub fn is_complete(&self) -> (r: bool)
        ensures
            r == self@.complete,
    {
        self.complete
    }

    /// Appends a new prerequisite group holding the one given alternative.
    pub fn add_prereq(&mut self, coid: &CourseID)
        ensures
            final(self)@ == (CourseView {
                prereqs: old(self)@.prereqs.push(seq![coid@]),
                ..old(self)@
            }),
    {
        let mut group: Vec<CourseID> = Vec::new();
        group.push(coid.clone());
        self.prereqs.push(group);
        proof {
            assert(ids_view(self.prereqs@.last()@) =~= seq![coid@]);
            assert(groups_view(self.prereqs@) =~= old(self)@.prereqs.push(seq![coid@]));
            assert(final(self)@ =~= (CourseView {
                prereqs: old(self)@.prereqs.push(seq![coid@]),
                ..old(self)@
            }));
        }
    }

    /// Appends a prerequisite group of alternatives, dropping duplicates.
    pub fn add_prereq_group(&mut self, group: Vec<CourseID>)
        ensures
            final(self)@ == (CourseView {
                prereqs: old(self)@.prereqs.push(dedup_ids(ids_view(group@))),
                ..old(self)@
            }),
    {
        self.prereqs.push(dedup_ids_exec(&group));
        proof {
            assert(groups_view(self.prereqs@) =~= old(self)@.prereqs.push(
                dedup_ids(ids_view(group@)),
            ));
            assert(final(self)@ =~= (CourseView {
                prereqs: old(self)@.prereqs.push(dedup_ids(ids_view(group@))),
                ..old(self)@
            }));
        }
    }

    /// Appends a corequisite group of alternatives, dropping duplicates.
    pub fn add_coreq_group(&mut self, group: Vec<CourseID>)
        ensures
            final(self)@ == (CourseView {
                coreqs: old(self)@.coreqs.push(dedup_ids(ids_view(group@))),
                ..old(self)@
            }),
    {
        self.coreqs.push(dedup_ids_exec(&group));
        proof {
            assert(groups_view(self.coreqs@) =~= old(self)@.coreqs.push(
                dedup_ids(ids_view(group@)),
            ));
            assert(final(self)@ =~= (CourseView {
                coreqs: old(self)@.coreqs.push(dedup_ids(ids_view(group@))),
                ..old(self)@
            }));
        }
    }

    /// Records that the given course lists this one as a prerequisite.
    pub fn add_postoption(&mut self, coid: &CourseID)
        ensures
            final(self)@ == (CourseView {
                post_options: push_unique(old(self)@.post_options, coid@),
                ..old(self)@
            }),
    {
        if !ids_contain(&self.post_options, coid) {
            self.post_options.push(coid.clone());
            proof {
                assert(ids_view(self.post_options@) =~= old(self)@.post_options.push(coid@));
            }
        }
        proof {
            assert(final(self)@ =~= (CourseView {
                post_options: push_unique(old(self)@.post_options, coid@),
                ..old(self)@
            }));
        }
    }

    /// Replaces the recorded back-references wholesale.
    pub(crate) fn set_post_options(&mut self, post_options: Vec<CourseID>)
        ensures
            final(self)@ == (CourseView {
                post_options: ids_view(post_options@),
                ..old(self)@
            }),
    {
        self.post_options = post_options;
        proof {
            assert(final(self)@ =~= (CourseView {
                post_options: ids_view(post_options@),
                ..old(self)@
            }));
        }
    }

    /// The recorded back-references: courses that list this one as a
    /// prerequisite.
    pub fn post_options(&self) -> (r: &Vec<CourseID>)
        ensures
            ids_view(r@) == self@.post_options,
    {
        &self.post_options
    }

    /// The prerequisite groups.  Any one member of a group, scheduled
    /// strictly earlier, satisfies that group.
    pub fn prereq_sets(&self) -> (r: &Vec<Vec<CourseID>>)
        ensures
            groups_view(r@) == self@.prereqs,
    {
        &self.prereqs
    }

    /// The corequisite groups.  A scheduled member of a group must share the
    /// semester of this course.
    pub fn coreq_sets(&self) -> (r: &Vec<Vec<CourseID>>)
        ensures
            groups_view(r@) == self@.coreqs,
    {
        &self.coreqs
    }
}

/// Deduplicates every group of a list of groups.
fn dedup_each(groups: &Vec<Vec<CourseID>>) -> (r: Vec<Vec<CourseID>>)
    ensures
        groups_view(r@) == dedup_groups(groups_view(groups@)),
{
    let mut r: Vec<Vec<CourseID>> = Vec::new();
    let mut i: usize = 0;
    while i < groups.len()
        invariant
            i <= groups@.len(),
            r@.len() == i,
            forall|k: int| 0 <= k < i ==> ids_view(#[trigger] r@[k]@) == dedup_ids(
                ids_view(groups@[k]@),
            ),
        decreases groups@.len() - i,
    {
        r.push(dedup_ids_exec(&groups[i]));
        i = i + 1;
    }
    proof {
        assert(groups_view(r@) =~= dedup_groups(groups_view(groups@)));
    }
    r
}

} // verus!
