//! Version precedence, and which versions comparators, sets and ranges accept.

use vstd::prelude::*;
use std::borrow::Cow;
use std::cmp::Ordering;
use crate::parser::{
    identifier_views, Comparator, ComparatorOp, ComparatorSet, ComparatorView, Identifier,
    Version, VersionRange, VersionView,
};

verus! {

/// `a` has lower precedence than `b`: compared by major, then minor, then
/// patch; pre-release and build metadata play no part.
pub open spec fn precedes(a: VersionView, b: VersionView) -> bool {
    a.major < b.major || (a.major == b.major && (a.minor < b.minor || (a.minor == b.minor && a.patch
        < b.patch)))
}

/// `a` and `b` agree on major, minor and patch.
pub open spec fn same_precedence(a: VersionView, b: VersionView) -> bool {
    a.major == b.major && a.minor == b.minor && a.patch == b.patch
}

/// Where `a` stands against `b` by precedence.
pub open spec fn precedence_order(a: VersionView, b: VersionView) -> Ordering {
    if precedes(a, b) {
        Ordering::Less
    } else if precedes(b, a) {
        Ordering::Greater
    } else {
        Ordering::Equal
    }
}

/// Whether version `v` satisfies comparator `c`. `=` asks for the very same
/// version, metadata included; the other operators go by precedence.
pub open spec fn holds(c: ComparatorView, v: VersionView) -> bool {
    match c.op {
        ComparatorOp::Eq => v == c.version,
        ComparatorOp::Gt => precedes(c.version, v),
        ComparatorOp::Gte => !precedes(v, c.version),
        ComparatorOp::Lt => precedes(v, c.version),
        ComparatorOp::Lte => !precedes(c.version, v),
    }
}

/// Whether `v` satisfies every comparator of a set.
pub open spec fn set_holds(set: Seq<ComparatorView>, v: VersionView) -> bool {
    forall|i: int| 0 <= i < set.len() ==> holds(#[trigger] set[i], v)
}

/// Whether `v` satisfies at least one set of a range.
pub open spec fn range_holds(range: Seq<Seq<ComparatorView>>, v: VersionView) -> bool {
    exists|i: int| 0 <= i < range.len() && set_holds(#[trigger] range[i], v)
}

/// The comparator `op w`.
pub open spec fn comparing(op: ComparatorOp, w: VersionView) -> ComparatorView {
    ComparatorView { op, version: w }
}

/// Precedence is a strict total order on major, minor and patch: no version
/// precedes itself, precedence is transitive, and of two versions one
/// precedes the other or both have the same precedence, never two of these.
pub proof fn lemma_precedence_is_total_order(a: VersionView, b: VersionView, c: VersionView)
    ensures
        !precedes(a, a),
        precedes(a, b) && precedes(b, c) ==> precedes(a, c),
        precedes(a, b) || precedes(b, a) || same_precedence(a, b),
        !(precedes(a, b) && precedes(b, a)),
        same_precedence(a, b) ==> !precedes(a, b) && !precedes(b, a),
        precedence_order(a, b) == Ordering::Less <==> precedence_order(b, a) == Ordering::Greater,
        precedence_order(a, b) == Ordering::Equal <==> same_precedence(a, b),
{
}

/// `<=` accepts exactly the versions that `>` rejects, `<` exactly those that
/// `>=` rejects; `>=` is `>` or the same precedence, `<=` is `<` or the same
/// precedence; and a version accepted by `=` is accepted by `>=` and `<=`.
pub proof fn lemma_comparators_complement(w: VersionView, v: VersionView)
    ensures
        holds(comparing(ComparatorOp::Lte, w), v) == !holds(comparing(ComparatorOp::Gt, w), v),
        holds(comparing(ComparatorOp::Lt, w), v) == !holds(comparing(ComparatorOp::Gte, w), v),
        holds(comparing(ComparatorOp::Gte, w), v) == (holds(comparing(ComparatorOp::Gt, w), v)
            || same_precedence(v, w)),
        holds(comparing(ComparatorOp::Lte, w), v) == (holds(comparing(ComparatorOp::Lt, w), v)
            || same_precedence(v, w)),
        holds(comparing(ComparatorOp::Eq, w), v) ==> holds(comparing(ComparatorOp::Gte, w), v)
            && holds(comparing(ComparatorOp::Lte, w), v),
{
}

/// Pre-release and build metadata do not matter to `>`, `>=`, `<` and `<=`:
/// two versions with the same precedence satisfy the same such comparators.
pub proof fn lemma_metadata_ignored_by_order(c: ComparatorView, v1: VersionView, v2: VersionView)
    requires
        c.op != ComparatorOp::Eq,
        same_precedence(v1, v2),
    ensures
        holds(c, v1) == holds(c, v2),
{
}

/// A set is a conjunction: joining two sets asks for both; a range is a
/// disjunction: joining two ranges asks for either.
pub proof fn lemma_sets_and_ranges_compose(
    s1: Seq<ComparatorView>,
    s2: Seq<ComparatorView>,
    r1: Seq<Seq<ComparatorView>>,
    r2: Seq<Seq<ComparatorView>>,
    v: VersionView,
)
    ensures
        set_holds(s1 + s2, v) == (set_holds(s1, v) && set_holds(s2, v)),
        range_holds(r1 + r2, v) == (range_holds(r1, v) || range_holds(r2, v)),
        set_holds(Seq::empty(), v),
        !range_holds(Seq::empty(), v),
{
    let s = s1 + s2;
    if set_holds(s1, v) && set_holds(s2, v) {
        assert forall|i: int| 0 <= i < s.len() implies holds(#[trigger] s[i], v) by {
            if i < s1.len() {
                assert(s[i] == s1[i]);
            } else {
                assert(s[i] == s2[i - s1.len()]);
            }
        }
    }
    if set_holds(s, v) {
        assert forall|i: int| 0 <= i < s1.len() implies holds(#[trigger] s1[i], v) by {
            assert(s[i] == s1[i]);
        }
        assert forall|i: int| 0 <= i < s2.len() implies holds(#[trigger] s2[i], v) by {
            assert(s[i + s1.len()] == s2[i]);
        }
    }
    let r = r1 + r2;
    if range_holds(r, v) {
        let i = choose|i: int| 0 <= i < r.len() && set_holds(#[trigger] r[i], v);
        if i < r1.len() {
            assert(r[i] == r1[i]);
        } else {
            assert(r[i] == r2[i - r1.len()]);
        }
    }
    if range_holds(r1, v) {
        let i = choose|i: int| 0 <= i < r1.len() && set_holds(#[trigger] r1[i], v);
        assert(r[i] == r1[i]);
    }
    if range_holds(r2, v) {
        let i = choose|i: int| 0 <= i < r2.len() && set_holds(#[trigger] r2[i], v);
        assert(r[i + r1.len()] == r2[i]);
    }
}

/// The text of an identifier, whether it is borrowed or owned.
fn text_of<'a, 'b>(t: &'b Cow<'a, str>) -> (r: &'b str)
    ensures
        r@ == t@,
{
    match t {
        Cow::Borrowed(b) => b,
        Cow::Owned(o) => o.as_str(),
    }
}

fn identifiers_equal(a: &Identifier, b: &Identifier) -> (r: bool)
    ensures
        r == (a@ == b@),
{
    match (a, b) {
        (Identifier::Number(x), Identifier::Number(y)) => *x == *y,
        (Identifier::Text(x), Identifier::Text(y)) => text_of(x).to_owned() == text_of(y).to_owned(),
        _ => false,
    }
}

fn identifier_lists_equal(a: &Vec<Identifier>, b: &Vec<Identifier>) -> (r: bool)
    ensures
        r == (identifier_views(a@) == identifier_views(b@)),
{
    if a.len() != b.len() {
        assert(identifier_views(a@).len() != identifier_views(b@).len());
        return false;
    }
    let mut i: usize = 0;
    while i < a.len()
        invariant
            a.len() == b.len(),
            i <= a.len(),
            forall|k: int| 0 <= k < i ==> a@[k]@ == b@[k]@,
        decreases a.len() - i,
    {
        if !identifiers_equal(&a[i], &b[i]) {
            assert(identifier_views(a@)[i as int] != identifier_views(b@)[i as int]);
            return false;
        }
        i = i + 1;
    }
    assert(identifier_views(a@) =~= identifier_views(b@));
    true
}

/// Whether `a` and `b` are the same version, metadata included.
fn versions_equal(a: &Version, b: &Version) -> (r: bool)
    ensures
        r == (a@ == b@),
{
    a.major == b.major && a.minor == b.minor && a.patch == b.patch && identifier_lists_equal(
        &a.pre_release,
        &b.pre_release,
    ) && identifier_lists_equal(&a.build, &b.build)
}

/// Whether `a` has lower precedence than `b`.
fn lower_precedence(a: &Version, b: &Version) -> (r: bool)
    ensures
        r == precedes(a@, b@),
{
    a.major < b.major || (a.major == b.major && (a.minor < b.minor || (a.minor == b.minor
        && a.patch < b.patch)))
}

/// Versions are ordered by precedence: major, then minor, then patch.
impl<'a> PartialOrd for Version<'a> {
    fn partial_cmp(&self, other: &Self) -> (r: Option<Ordering>) {
        if lower_precedence(self, other) {
            Some(Ordering::Less)
        } else if lower_precedence(other, self) {
            Some(Ordering::Greater)
        } else {
            Some(Ordering::Equal)
        }
    }
}

impl<'a> vstd::std_specs::cmp::PartialOrdSpecImpl for Version<'a> {
    open spec fn obeys_partial_cmp_spec() -> bool {
        true
    }

    open spec fn partial_cmp_spec(&self, other: &Self) -> Option<Ordering> {
        Some(precedence_order(self@, other@))
    }
}

impl<'a> Comparator<'a> {
    /// Whether `version` satisfies this comparator.
    pub fn satisfies(&self, version: &Version<'a>) -> (r: bool)
        ensures
            r == holds(self@, version@),
    {
        match self.op {
            ComparatorOp::Eq => versions_equal(version, &self.version),
            ComparatorOp::Gt => version > &self.version,
            ComparatorOp::Gte => version >= &self.version,
            ComparatorOp::Lt => version < &self.version,
            ComparatorOp::Lte => version <= &self.version,
        }
    }
}

impl<'a> ComparatorSet<'a> {
    /// Whether `version` satisfies every comparator of the set.
    pub fn satisfies(&self, version: &Version<'a>) -> (r: bool)
        ensures
            r == set_holds(self@, version@),
    {
        let mut i: usize = 0;
        while i < self.comparators.len()
            invariant
                i <= self.comparators.len(),
                forall|k: int| 0 <= k < i ==> holds(#[trigger] self@[k], version@),
            decreases self.comparators.len() - i,
        {
            if !self.comparators[i].satisfies(version) {
                assert(!holds(self@[i as int], version@));
                return false;
            }
            i = i + 1;
        }
        true
    }
}

impl<'a> VersionRange<'a> {
    /// Whether `version` satisfies at least one set of the range.
    pub fn satisfies(&self, version: &Version<'a>) -> (r: bool)
        ensures
            r == range_holds(self@, version@),
    {
        let mut i: usize = 0;
        while i < self.sets.len()
            invariant
                i <= self.sets.len(),
                forall|k: int| 0 <= k < i ==> !set_holds(#[trigger] self@[k], version@),
            decreases self.sets.len() - i,
        {
            if self.sets[i].satisfies(version) {
                assert(set_holds(self@[i as int], version@));
                return true;
            }
            i = i + 1;
        }
        false
    }
}

} // verus!
