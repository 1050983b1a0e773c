//! Rewrites `^`, `~` and partial versions into plain comparators.

use vstd::prelude::*;
use crate::satisfies::{comparing, holds, precedes, set_holds};
use crate::parser::{
    comparator_views, plain_op, Comparator, ComparatorOp, ComparatorView, Parser,
    PartialComparator, PartialComparatorOp, PartialComparatorView, PartialVersion,
    PartialVersionView, ParserError, Version, VersionComponent, VersionView,
};

verus! {

/// `major.minor.patch` with no pre-release and no build metadata.
pub open spec fn plain_version(major: u32, minor: u32, patch: u32) -> VersionView {
    VersionView { major, minor, patch, pre_release: Seq::empty(), build: Seq::empty() }
}

/// The comparator `op major.minor.patch`.
pub open spec fn bare(op: ComparatorOp, major: u32, minor: u32, patch: u32) -> ComparatorView {
    ComparatorView { op, version: plain_version(major, minor, patch) }
}

/// `x + 1`, where it fits in a `u32`.
pub open spec fn succ(x: u32) -> u32 {
    (x + 1) as u32
}

/// The comparators that a partial comparator stands for.
///
/// - `^M.m.p` allows changes that keep the leftmost non-zero component.
/// - `~M.m.p` allows patch-level changes (`~M` allows minor-level ones).
/// - `M`, `M.m`, `M.x` are x-ranges; `*` matches everything.
/// - `<`, `<=` on a partial version move the bound to the next release.
pub open spec fn desugar(pc: PartialComparatorView) -> Result<Seq<ComparatorView>, ParserError> {
    let v = pc.version;
    match pc.op {
        PartialComparatorOp::Caret => match (v.major, v.minor, v.patch) {
            (VersionComponent::Number(0), VersionComponent::Wildcard, VersionComponent::Wildcard) => Ok(
                seq![bare(ComparatorOp::Gte, 0, 0, 0), bare(ComparatorOp::Lt, 1, 0, 0)],
            ),
            (
                VersionComponent::Number(0),
                VersionComponent::Number(0),
                VersionComponent::Number(patch),
            ) => Ok(
                seq![bare(ComparatorOp::Gte, 0, 0, patch), bare(ComparatorOp::Lt, 0, 0, succ(patch))],
            ),
            (
                VersionComponent::Number(0),
                VersionComponent::Number(minor),
                VersionComponent::Wildcard,
            ) => Ok(
                seq![bare(ComparatorOp::Gte, 0, minor, 0), bare(ComparatorOp::Lt, 0, succ(minor), 0)],
            ),
            (
                VersionComponent::Number(0),
                VersionComponent::Number(minor),
                VersionComponent::Number(patch),
            ) => Ok(
                seq![
                    bare(ComparatorOp::Gte, 0, minor, patch),
                    bare(ComparatorOp::Lt, 0, succ(minor), 0),
                ],
            ),
            (
                VersionComponent::Number(major),
                VersionComponent::Wildcard,
                VersionComponent::Wildcard,
            ) => Ok(
                seq![bare(ComparatorOp::Gte, major, 0, 0), bare(ComparatorOp::Lt, succ(major), 0, 0)],
            ),
            (
                VersionComponent::Number(major),
                VersionComponent::Number(minor),
                VersionComponent::Wildcard,
            ) => Ok(
                seq![
                    bare(ComparatorOp::Gte, major, minor, 0),
                    bare(ComparatorOp::Lt, succ(major), 0, 0),
                ],
            ),
            (
                VersionComponent::Number(major),
                VersionComponent::Number(minor),
                VersionComponent::Number(patch),
            ) => Ok(
                seq![
                    bare(ComparatorOp::Gte, major, minor, patch),
                    bare(ComparatorOp::Lt, succ(major), 0, 0),
                ],
            ),
            _ => Err(ParserError::Generic),
        },
        PartialComparatorOp::Tilde => match (v.major, v.minor, v.patch) {
            (
                VersionComponent::Number(major),
                VersionComponent::Wildcard,
                VersionComponent::Wildcard,
            ) => Ok(
                seq![bare(ComparatorOp::Gte, major, 0, 0), bare(ComparatorOp::Lt, succ(major), 0, 0)],
            ),
            (
                VersionComponent::Number(major),
                VersionComponent::Number(minor),
                VersionComponent::Wildcard,
            ) => Ok(
                seq![
                    bare(ComparatorOp::Gte, major, minor, 0),
                    bare(ComparatorOp::Lt, major, succ(minor), 0),
                ],
            ),
            (
                VersionComponent::Number(major),
                VersionComponent::Number(minor),
                VersionComponent::Number(patch),
            ) => Ok(
                seq![
                    bare(ComparatorOp::Gte, major, minor, patch),
                    bare(ComparatorOp::Lt, major, succ(minor), 0),
                ],
            ),
            _ => Err(ParserError::Generic),
        },
        op => match (v.major, v.minor, v.patch) {
            (
                VersionComponent::Number(major),
                VersionComponent::Number(minor),
                VersionComponent::Number(patch),
            ) => match plain_op(op) {
                Ok(o) => Ok(
                    seq![
                        ComparatorView {
                            op: o,
                            version: VersionView {
                                major,
                                minor,
                                patch,
                                pre_release: v.pre_release,
                                build: v.build,
                            },
                        },
                    ],
                ),
                Err(_) => Err(ParserError::InvalidComparatorOp),
            },
            (VersionComponent::Wildcard, VersionComponent::Wildcard, VersionComponent::Wildcard) => Ok(
                seq![bare(ComparatorOp::Gte, 0, 0, 0)],
            ),
            (
                VersionComponent::Number(major),
                VersionComponent::Wildcard,
                VersionComponent::Wildcard,
            ) => match op {
                PartialComparatorOp::Eq => Ok(
                    seq![
                        bare(ComparatorOp::Gte, major, 0, 0),
                        bare(ComparatorOp::Lt, succ(major), 0, 0),
                    ],
                ),
                PartialComparatorOp::Gt => Ok(seq![bare(ComparatorOp::Gt, major, 0, 0)]),
                PartialComparatorOp::Gte => Ok(seq![bare(ComparatorOp::Gte, major, 0, 0)]),
                PartialComparatorOp::Lt => Ok(seq![bare(ComparatorOp::Lt, succ(major), 0, 0)]),
                PartialComparatorOp::Lte => Ok(seq![bare(ComparatorOp::Lt, succ(major), 0, 0)]),
                _ => Err(ParserError::InvalidComparatorOp),
            },
            (
                VersionComponent::Number(major),
                VersionComponent::Number(minor),
                VersionComponent::Wildcard,
            ) => match op {
                PartialComparatorOp::Eq => Ok(
                    seq![
                        bare(ComparatorOp::Gte, major, minor, 0),
                        bare(ComparatorOp::Lt, major, succ(minor), 0),
                    ],
                ),
                PartialComparatorOp::Gt => Ok(seq![bare(ComparatorOp::Gt, major, minor, 0)]),
                PartialComparatorOp::Gte => Ok(seq![bare(ComparatorOp::Gte, major, minor, 0)]),
                PartialComparatorOp::Lt => Ok(seq![bare(ComparatorOp::Lt, major, succ(minor), 0)]),
                PartialComparatorOp::Lte => Ok(seq![bare(ComparatorOp::Lt, major, succ(minor), 0)]),
                _ => Err(ParserError::InvalidComparatorOp),
            },
            _ => Err(ParserError::Generic),
        },
    }
}

/// Whether desugaring `pc` adds one to a component that is already
/// `u32::MAX` (the addition overflows and panics).
pub open spec fn desugar_overflows(pc: PartialComparatorView) -> bool {
    let v = pc.version;
    match pc.op {
        PartialComparatorOp::Caret => match (v.major, v.minor, v.patch) {
            (VersionComponent::Number(0), VersionComponent::Wildcard, VersionComponent::Wildcard) => false,
            (
                VersionComponent::Number(0),
                VersionComponent::Number(0),
                VersionComponent::Number(patch),
            ) => patch == u32::MAX,
            (VersionComponent::Number(0), VersionComponent::Number(minor), _) => minor == u32::MAX,
            (VersionComponent::Number(major), VersionComponent::Wildcard, VersionComponent::Wildcard) => major
                == u32::MAX,
            (VersionComponent::Number(major), VersionComponent::Number(_), _) => major == u32::MAX,
            _ => false,
        },
        PartialComparatorOp::Tilde => match (v.major, v.minor, v.patch) {
            (VersionComponent::Number(major), VersionComponent::Wildcard, VersionComponent::Wildcard) => major
                == u32::MAX,
            (VersionComponent::Number(_), VersionComponent::Number(minor), _) => minor == u32::MAX,
            _ => false,
        },
        op => {
            let bumps = op == PartialComparatorOp::Eq || op == PartialComparatorOp::Lt || op
                == PartialComparatorOp::Lte;
            match (v.major, v.minor, v.patch) {
                (
                    VersionComponent::Number(major),
                    VersionComponent::Wildcard,
                    VersionComponent::Wildcard,
                ) => bumps && major == u32::MAX,
                (
                    VersionComponent::Number(_),
                    VersionComponent::Number(minor),
                    VersionComponent::Wildcard,
                ) => bumps && minor == u32::MAX,
                _ => false,
            }
        },
    }
}

/// How many leading components of a partial version are given: 3 for
/// `M.m.p`, 2 for `M.m`, 1 for `M`, 0 for `*` (and for shapes such as
/// `M.x.p`, which no range operator accepts).
pub open spec fn given(pv: PartialVersionView) -> int {
    match (pv.major, pv.minor, pv.patch) {
        (VersionComponent::Number(_), VersionComponent::Number(_), VersionComponent::Number(_)) => 3,
        (VersionComponent::Number(_), VersionComponent::Number(_), VersionComponent::Wildcard) => 2,
        (VersionComponent::Number(_), VersionComponent::Wildcard, VersionComponent::Wildcard) => 1,
        _ => 0,
    }
}

pub open spec fn value_or_zero(c: VersionComponent) -> u32 {
    match c {
        VersionComponent::Number(n) => n,
        VersionComponent::Wildcard => 0,
    }
}

/// The partial version with its missing components read as zero.
pub open spec fn floor(pv: PartialVersionView) -> VersionView {
    plain_version(value_or_zero(pv.major), value_or_zero(pv.minor), value_or_zero(pv.patch))
}

/// `v` has the same first `depth` components (major, minor, patch) as `w`.
pub open spec fn agrees_through(v: VersionView, w: VersionView, depth: int) -> bool {
    &&& (depth >= 1 ==> v.major == w.major)
    &&& (depth >= 2 ==> v.minor == w.minor)
    &&& (depth >= 3 ==> v.patch == w.patch)
}

/// How many components `^` keeps: up to the leftmost non-zero one among
/// those given, or all of those given when they are all zero.
pub open spec fn caret_depth(pv: PartialVersionView) -> int {
    let f = floor(pv);
    if f.major > 0 {
        1
    } else if given(pv) >= 2 && f.minor > 0 {
        2
    } else {
        given(pv)
    }
}

proof fn lemma_pair_holds(a: ComparatorView, b: ComparatorView, v: VersionView)
    ensures
        set_holds(seq![a, b], v) == (holds(a, v) && holds(b, v)),
{
    let s = seq![a, b];
    assert(s[0] == a && s[1] == b);
}

proof fn lemma_single_holds(a: ComparatorView, v: VersionView)
    ensures
        set_holds(seq![a], v) == holds(a, v),
{
    let s = seq![a];
    assert(s[0] == a);
}

/// `^` allows the versions from the given one up that keep its leftmost
/// non-zero component (and the zeros before it): `^1.2.3` is `>=1.2.3
/// <2.0.0`, `^0.2.3` is `>=0.2.3 <0.3.0`, `^0.0.3` is `=0.0.3`.
pub proof fn lemma_caret_meaning(pc: PartialComparatorView, v: VersionView)
    requires
        pc.op == PartialComparatorOp::Caret,
        given(pc.version) >= 1,
        !desugar_overflows(pc),
    ensures
        desugar(pc) is Ok,
        set_holds(desugar(pc)->Ok_0, v) <==> !precedes(v, floor(pc.version)) && agrees_through(
            v,
            floor(pc.version),
            caret_depth(pc.version),
        ),
{
    let cs = desugar(pc)->Ok_0;
    lemma_pair_holds(cs[0], cs[1], v);
    assert(cs =~= seq![cs[0], cs[1]]);
}

/// `~` allows patch-level changes when a minor version is given (`~1.2.3` is
/// `>=1.2.3 <1.3.0`) and minor-level ones when it is not (`~1` is `>=1.0.0
/// <2.0.0`).
pub proof fn lemma_tilde_meaning(pc: PartialComparatorView, v: VersionView)
    requires
        pc.op == PartialComparatorOp::Tilde,
        given(pc.version) >= 1,
        !desugar_overflows(pc),
    ensures
        desugar(pc) is Ok,
        set_holds(desugar(pc)->Ok_0, v) <==> !precedes(v, floor(pc.version)) && agrees_through(
            v,
            floor(pc.version),
            if given(pc.version) >= 2 {
                2
            } else {
                1
            },
        ),
{
    let cs = desugar(pc)->Ok_0;
    lemma_pair_holds(cs[0], cs[1], v);
    assert(cs =~= seq![cs[0], cs[1]]);
}

/// An x-range matches the versions that share its given components: `1`,
/// `1.x` and `1.*` are `>=1.0.0 <2.0.0`, `1.2` is `>=1.2.0 <1.3.0`, and `*`
/// matches every version, whatever plain operator comes before it.
pub proof fn lemma_x_range_meaning(pc: PartialComparatorView, v: VersionView)
    requires
        pc.op != PartialComparatorOp::Caret,
        pc.op != PartialComparatorOp::Tilde,
        (pc.op == PartialComparatorOp::Eq && 1 <= given(pc.version) <= 2) || (pc.version.major
            == VersionComponent::Wildcard && pc.version.minor == VersionComponent::Wildcard
            && pc.version.patch == VersionComponent::Wildcard),
        !desugar_overflows(pc),
    ensures
        desugar(pc) is Ok,
        set_holds(desugar(pc)->Ok_0, v) <==> agrees_through(v, floor(pc.version), given(pc.version)),
{
    let cs = desugar(pc)->Ok_0;
    if given(pc.version) == 0 {
        lemma_single_holds(cs[0], v);
        assert(cs =~= seq![cs[0]]);
    } else {
        lemma_pair_holds(cs[0], cs[1], v);
        assert(cs =~= seq![cs[0], cs[1]]);
    }
}

/// `<` and `<=` before a partial version both stop at the next release:
/// `<1.2` and `<=1.2` are `<1.3.0`, accepting what precedes `1.2.0` or shares
/// `1.2`; `>` and `>=` read the missing components as zero: `>1.2` is
/// `>1.2.0`.
pub proof fn lemma_partial_bounds_meaning(pc: PartialComparatorView, v: VersionView)
    requires
        pc.op != PartialComparatorOp::Eq,
        pc.op != PartialComparatorOp::Caret,
        pc.op != PartialComparatorOp::Tilde,
        1 <= given(pc.version) <= 2,
        !desugar_overflows(pc),
    ensures
        desugar(pc) is Ok,
        (pc.op == PartialComparatorOp::Lt || pc.op == PartialComparatorOp::Lte) ==> (set_holds(
            desugar(pc)->Ok_0,
            v,
        ) <==> precedes(v, floor(pc.version)) || agrees_through(
            v,
            floor(pc.version),
            given(pc.version),
        )),
        pc.op == PartialComparatorOp::Gt ==> (set_holds(desugar(pc)->Ok_0, v) <==> holds(
            comparing(ComparatorOp::Gt, floor(pc.version)),
            v,
        )),
        pc.op == PartialComparatorOp::Gte ==> (set_holds(desugar(pc)->Ok_0, v) <==> holds(
            comparing(ComparatorOp::Gte, floor(pc.version)),
            v,
        )),
{
    let cs = desugar(pc)->Ok_0;
    lemma_single_holds(cs[0], v);
    assert(cs =~= seq![cs[0]]);
}

/// A fully given version keeps its operator and its metadata: `>=1.2.3-rc.1`
/// stays one comparator.
pub proof fn lemma_exact_meaning(pc: PartialComparatorView, v: VersionView)
    requires
        plain_op(pc.op) is Ok,
        given(pc.version) == 3,
    ensures
        !desugar_overflows(pc),
        desugar(pc) is Ok,
        set_holds(desugar(pc)->Ok_0, v) <==> holds(
            comparing(
                plain_op(pc.op)->Ok_0,
                VersionView {
                    major: floor(pc.version).major,
                    minor: floor(pc.version).minor,
                    patch: floor(pc.version).patch,
                    pre_release: pc.version.pre_release,
                    build: pc.version.build,
                },
            ),
            v,
        ),
{
    let cs = desugar(pc)->Ok_0;
    lemma_single_holds(cs[0], v);
    assert(cs =~= seq![cs[0]]);
}

/// Desugaring overflows only on a component that is already `u32::MAX`:
/// without one, every partial comparator desugars without overflow. For `~`
/// on a full version `M.m.p` the one component raised is the minor, so it
/// overflows exactly when `m` is `u32::MAX`.
pub proof fn lemma_overflow_needs_max_component(pc: PartialComparatorView)
    ensures
        desugar_overflows(pc) ==> pc.version.major == VersionComponent::Number(u32::MAX)
            || pc.version.minor == VersionComponent::Number(u32::MAX) || pc.version.patch
            == VersionComponent::Number(u32::MAX),
        pc.op == PartialComparatorOp::Tilde && pc.version.major is Number
            && pc.version.minor is Number && pc.version.patch is Number ==> (desugar_overflows(pc)
            <==> pc.version.minor == VersionComponent::Number(u32::MAX)),
        pc.op == PartialComparatorOp::Caret && pc.version.major is Number
            && pc.version.minor is Number && pc.version.patch is Number ==> (desugar_overflows(pc)
            <==> (if pc.version.major != VersionComponent::Number(0) {
                pc.version.major == VersionComponent::Number(u32::MAX)
            } else if pc.version.minor != VersionComponent::Number(0) {
                pc.version.minor == VersionComponent::Number(u32::MAX)
            } else {
                pc.version.patch == VersionComponent::Number(u32::MAX)
            })),
{
}

/// A partial comparator that desugars stands for one or two comparators.
pub proof fn lemma_desugar_gives_comparators(pc: PartialComparatorView)
    ensures
        desugar(pc) matches Ok(cs) ==> 1 <= cs.len() <= 2,
{
}

/// The comparator `op major.minor.patch`, with no metadata.
fn bare_comparator<'a>(op: ComparatorOp, major: u32, minor: u32, patch: u32) -> (c: Comparator<'a>)
    ensures
        c@ == bare(op, major, minor, patch),
{
    let c = Comparator {
        op,
        version: Version { major, minor, patch, pre_release: Vec::new(), build: Vec::new() },
    };
    assert(c.version@.pre_release =~= Seq::empty());
    assert(c.version@.build =~= Seq::empty());
    c
}

/// Decides `desugar_overflows`.
pub(crate) fn desugar_would_overflow(pc: &PartialComparator) -> (r: bool)
    ensures
        r == desugar_overflows(pc@),
{
    let v = &pc.version;
    match pc.op {
        PartialComparatorOp::Caret => match (v.major, v.minor, v.patch) {
            (VersionComponent::Number(0), VersionComponent::Wildcard, VersionComponent::Wildcard) => false,
            (
                VersionComponent::Number(0),
                VersionComponent::Number(0),
                VersionComponent::Number(patch),
            ) => patch == u32::MAX,
            (VersionComponent::Number(0), VersionComponent::Number(minor), _) => minor == u32::MAX,
            (VersionComponent::Number(major), VersionComponent::Wildcard, VersionComponent::Wildcard) => major
                == u32::MAX,
            (VersionComponent::Number(major), VersionComponent::Number(_), _) => major == u32::MAX,
            _ => false,
        },
        PartialComparatorOp::Tilde => match (v.major, v.minor, v.patch) {
            (VersionComponent::Number(major), VersionComponent::Wildcard, VersionComponent::Wildcard) => major
                == u32::MAX,
            (VersionComponent::Number(_), VersionComponent::Number(minor), _) => minor == u32::MAX,
            _ => false,
        },
        op => {
            let bumps = match op {
                PartialComparatorOp::Eq | PartialComparatorOp::Lt | PartialComparatorOp::Lte => true,
                _ => false,
            };
            match (v.major, v.minor, v.patch) {
                (
                    VersionComponent::Number(major),
                    VersionComponent::Wildcard,
                    VersionComponent::Wildcard,
                ) => bumps && major == u32::MAX,
                (
                    VersionComponent::Number(_),
                    VersionComponent::Number(minor),
                    VersionComponent::Wildcard,
                ) => bumps && minor == u32::MAX,
                _ => false,
            }
        },
    }
}

impl<'a> Parser<'a> {
    /// The plain comparators that `partial_comparator` stands for.
    pub fn desugar_partial_comparator(&self, partial_comparator: PartialComparator<'a>) -> (r:
        Result<Vec<Comparator<'a>>, ParserError>)
        requires
            !desugar_overflows(partial_comparator@),
        ensures
            match desugar(partial_comparator@) {
                Ok(cs) => r matches Ok(v) && comparator_views(v@) == cs,
                Err(e) => r == Err::<Vec<Comparator<'a>>, ParserError>(e),
            },
    {
        let ghost pc = partial_comparator@;
        let PartialComparator { op, version } = partial_comparator;
        let PartialVersion { major, minor, patch, pre_release, build } = version;
        let r: Result<Vec<Comparator<'a>>, ParserError> = match op {
            // ^: Allow the latest compatible version without changing the leftmost non-zero component.
            PartialComparatorOp::Caret => match (major, minor, patch) {
                // Pre-1.0.0 caret rules (0.x releases)
                (VersionComponent::Number(0), VersionComponent::Wildcard, VersionComponent::Wildcard) => Ok(
                    vec![
                        bare_comparator(ComparatorOp::Gte, 0, 0, 0),
                        bare_comparator(ComparatorOp::Lt, 1, 0, 0),
                    ],
                ),
                (
                    VersionComponent::Number(0),
                    VersionComponent::Number(0),
                    VersionComponent::Number(patch),
                ) => Ok(
                    vec![
                        bare_comparator(ComparatorOp::Gte, 0, 0, patch),
                        bare_comparator(ComparatorOp::Lt, 0, 0, patch + 1),
                    ],
                ),
                (
                    VersionComponent::Number(0),
                    VersionComponent::Number(minor),
                    VersionComponent::Wildcard,
                ) => Ok(
                    vec![
                        bare_comparator(ComparatorOp::Gte, 0, minor, 0),
                        bare_comparator(ComparatorOp::Lt, 0, minor + 1, 0),
                    ],
                ),
                (
                    VersionComponent::Number(0),
                    VersionComponent::Number(minor),
                    VersionComponent::Number(patch),
                ) => Ok(
                    vec![
                        bare_comparator(ComparatorOp::Gte, 0, minor, patch),
                        bare_comparator(ComparatorOp::Lt, 0, minor + 1, 0),
                    ],
                ),
                // Caret (^) ranges for major versions >= 1
                (
                    VersionComponent::Number(major),
                    VersionComponent::Wildcard,
                    VersionComponent::Wildcard,
                ) => Ok(
                    vec![
                        bare_comparator(ComparatorOp::Gte, major, 0, 0),
                        bare_comparator(ComparatorOp::Lt, major + 1, 0, 0),
                    ],
                ),
                (
                    VersionComponent::Number(major),
                    VersionComponent::Number(minor),
                    VersionComponent::Wildcard,
                ) => Ok(
                    vec![
                        bare_comparator(ComparatorOp::Gte, major, minor, 0),
                        bare_comparator(ComparatorOp::Lt, major + 1, 0, 0),
                    ],
                ),
                (
                    VersionComponent::Number(major),
                    VersionComponent::Number(minor),
                    VersionComponent::Number(patch),
                ) => Ok(
                    vec![
                        bare_comparator(ComparatorOp::Gte, major, minor, patch),
                        bare_comparator(ComparatorOp::Lt, major + 1, 0, 0),
                    ],
                ),
                _ => Err(ParserError::Generic),
            },
            // ~: Allow the latest compatible patch/minor version.
            PartialComparatorOp::Tilde => match (major, minor, patch) {
                (
                    VersionComponent::Number(major),
                    VersionComponent::Wildcard,
                    VersionComponent::Wildcard,
                ) => Ok(
                    vec![
                        bare_comparator(ComparatorOp::Gte, major, 0, 0),
                        bare_comparator(ComparatorOp::Lt, major + 1, 0, 0),
                    ],
                ),
                (
                    VersionComponent::Number(major),
                    VersionComponent::Number(minor),
                    VersionComponent::Wildcard,
                ) => Ok(
                    vec![
                        bare_comparator(ComparatorOp::Gte, major, minor, 0),
                        bare_comparator(ComparatorOp::Lt, major, minor + 1, 0),
                    ],
                ),
                (
                    VersionComponent::Number(major),
                    VersionComponent::Number(minor),
                    VersionComponent::Number(patch),
                ) => Ok(
                    vec![
                        bare_comparator(ComparatorOp::Gte, major, minor, patch),
                        bare_comparator(ComparatorOp::Lt, major, minor + 1, 0),
                    ],
                ),
                _ => Err(ParserError::Generic),
            },
            op => match (major, minor, patch) {
                // "1.2.3"
                (
                    VersionComponent::Number(major),
                    VersionComponent::Number(minor),
                    VersionComponent::Number(patch),
                ) => match ComparatorOp::try_from(op) {
                    Ok(plain) => Ok(
                        vec![
                            Comparator {
                                op: plain,
                                version: Version { major, minor, patch, pre_release, build },
                            },
                        ],
                    ),
                    Err(_) => Err(ParserError::InvalidComparatorOp),
                },
                // "*"
                (VersionComponent::Wildcard, VersionComponent::Wildcard, VersionComponent::Wildcard) => Ok(
                    vec![bare_comparator(ComparatorOp::Gte, 0, 0, 0)],
                ),
                // "1" (e.g., >=1.0.0, <2.0.0)
                (
                    VersionComponent::Number(major),
                    VersionComponent::Wildcard,
                    VersionComponent::Wildcard,
                ) => match op {
                    PartialComparatorOp::Eq => Ok(
                        vec![
                            bare_comparator(ComparatorOp::Gte, major, 0, 0),
                            bare_comparator(ComparatorOp::Lt, major + 1, 0, 0),
                        ],
                    ),
                    PartialComparatorOp::Gt => Ok(vec![bare_comparator(ComparatorOp::Gt, major, 0, 0)]),
                    PartialComparatorOp::Gte => Ok(
                        vec![bare_comparator(ComparatorOp::Gte, major, 0, 0)],
                    ),
                    PartialComparatorOp::Lt => Ok(
                        vec![bare_comparator(ComparatorOp::Lt, major + 1, 0, 0)],
                    ),
                    PartialComparatorOp::Lte => Ok(
                        vec![bare_comparator(ComparatorOp::Lt, major + 1, 0, 0)],
                    ),
                    _ => Err(ParserError::InvalidComparatorOp),
                },
                // "1.2" (e.g., >=1.2.0, <1.3.0)
                (
                    VersionComponent::Number(major),
                    VersionComponent::Number(minor),
                    VersionComponent::Wildcard,
                ) => match op {
                    PartialComparatorOp::Eq => Ok(
                        vec![
                            bare_comparator(ComparatorOp::Gte, major, minor, 0),
                            bare_comparator(ComparatorOp::Lt, major, minor + 1, 0),
                        ],
                    ),
                    PartialComparatorOp::Gt => Ok(
                        vec![bare_comparator(ComparatorOp::Gt, major, minor, 0)],
                    ),
                    PartialComparatorOp::Gte => Ok(
                        vec![bare_comparator(ComparatorOp::Gte, major, minor, 0)],
                    ),
                    PartialComparatorOp::Lt => Ok(
                        vec![bare_comparator(ComparatorOp::Lt, major, minor + 1, 0)],
                    ),
                    PartialComparatorOp::Lte => Ok(
                        vec![bare_comparator(ComparatorOp::Lt, major, minor + 1, 0)],
                    ),
                    _ => Err(ParserError::InvalidComparatorOp),
                },
                _ => Err(ParserError::Generic),
            },
        };
        r
    }
}

} // verus!
