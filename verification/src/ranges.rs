//! How version ranges compose: `||` joins the sets of two ranges.

use vstd::prelude::*;
use crate::lexer::{breaks_lexer, lemma_lex_is_lossless, lemma_lex_or_joined, lex, lexable, TokenView};
use crate::range_answer;
use crate::text::whitespace;
use crate::parser::{
    comparator_set_at, comparator_set_from, desugar_into, lemma_comparator_set_within,
    lemma_metadata_within, lemma_partial_comparator_within, lemma_partial_version_within,
    metadata_from, number_at, operator_at, or_separator, partial_comparator_at,
    partial_version_at, peek_at, skip_whitespace, version_range_at, version_range_from,
    version_tail, whitespace_at, ComparatorView, IdentifierView, Outcome, ParserError,
};

verus! {

/// `o` with every position it names moved on by `k`.
pub open spec fn shifted<T>(o: Outcome<T>, k: int) -> Outcome<T> {
    match o {
        Outcome::Accept(v, q) => Outcome::Accept(v, q + k),
        Outcome::Reject(e, q) => Outcome::Reject(e, q + k),
        Outcome::Stuck => Outcome::Stuck,
    }
}

/// `o` with the sets `x` put before the sets it accepts.
pub open spec fn after_sets(
    x: Seq<Seq<ComparatorView>>,
    o: Outcome<Seq<Seq<ComparatorView>>>,
) -> Outcome<Seq<Seq<ComparatorView>>> {
    match o {
        Outcome::Accept(v, q) => Outcome::Accept(x + v, q),
        Outcome::Reject(e, q) => Outcome::Reject(e, q),
        Outcome::Stuck => Outcome::Stuck,
    }
}

// Reading after a prefix: the same as reading alone, positions moved on.

proof fn lemma_peek_shift(pre: Seq<TokenView>, u: Seq<TokenView>, p: int)
    requires
        0 <= p,
    ensures
        peek_at(pre + u, p + pre.len()) == peek_at(u, p),
{
    if p < u.len() {
        assert((pre + u)[p + pre.len()] == u[p]);
    }
}

proof fn lemma_number_shift(pre: Seq<TokenView>, u: Seq<TokenView>, p: int)
    requires
        0 <= p,
    ensures
        number_at(pre + u, p + pre.len()) == (number_at(u, p).0, number_at(u, p).1 + pre.len()),
{
    lemma_peek_shift(pre, u, p);
}

proof fn lemma_metadata_shift(
    pre: Seq<TokenView>,
    u: Seq<TokenView>,
    p: int,
    pr: bool,
    id: Seq<char>,
    acc: Seq<IdentifierView>,
)
    requires
        0 <= p,
    ensures
        metadata_from(pre + u, p + pre.len(), pr, id, acc) == shifted(
            metadata_from(u, p, pr, id, acc),
            pre.len() as int,
        ),
    decreases u.len() - p,
{
    let k = pre.len() as int;
    lemma_peek_shift(pre, u, p);
    match peek_at(u, p) {
        Some(TokenView::Number(s)) => {
            lemma_metadata_shift(pre, u, p + 1, pr, id + s, acc);
            assert(p + 1 + k == p + k + 1);
        },
        Some(TokenView::Text(s)) => {
            lemma_metadata_shift(pre, u, p + 1, pr, id + s, acc);
            assert(p + 1 + k == p + k + 1);
        },
        Some(TokenView::Dot) => {
            if let Ok(acc1) = crate::parser::flush(id, pr, acc) {
                lemma_metadata_shift(pre, u, p + 1, pr, Seq::empty(), acc1);
                assert(p + 1 + k == p + k + 1);
            }
        },
        _ => {},
    }
}

proof fn lemma_version_tail_shift(pre: Seq<TokenView>, u: Seq<TokenView>, p: int, major: u32)
    requires
        0 <= p,
    ensures
        version_tail(pre + u, p + pre.len(), major) == shifted(
            version_tail(u, p, major),
            pre.len() as int,
        ),
{
    let k = pre.len() as int;
    let t = pre + u;
    lemma_peek_shift(pre, u, p);
    lemma_number_shift(pre, u, p + 1);
    assert(p + 1 + k == p + k + 1);
    let (minor, p2) = if peek_at(u, p) == Some(TokenView::Dot) {
        number_at(u, p + 1)
    } else {
        (None, p)
    };
    assert(p2 >= 0);
    lemma_peek_shift(pre, u, p2);
    lemma_number_shift(pre, u, p2 + 1);
    assert(p2 + 1 + k == p2 + k + 1);
    let (patch, p3) = if peek_at(u, p2) == Some(TokenView::Dot) {
        number_at(u, p2 + 1)
    } else {
        (None, p2)
    };
    assert(p3 >= 0);
    lemma_peek_shift(pre, u, p3);
    lemma_metadata_shift(pre, u, p3 + 1, true, Seq::empty(), Seq::empty());
    assert(p3 + 1 + k == p3 + k + 1);
    if peek_at(u, p3) == Some(TokenView::Dash) {
        lemma_metadata_within(u, p3 + 1, true, Seq::empty(), Seq::empty());
    }
    let pre_o = if peek_at(u, p3) == Some(TokenView::Dash) {
        crate::parser::metadata_at(u, p3 + 1, true)
    } else {
        Outcome::Accept(Seq::empty(), p3)
    };
    if let Outcome::Accept(_, p4) = pre_o {
        assert(p4 >= 0);
        lemma_peek_shift(pre, u, p4);
        lemma_metadata_shift(pre, u, p4 + 1, false, Seq::empty(), Seq::empty());
        assert(p4 + 1 + k == p4 + k + 1);
    }
}

proof fn lemma_partial_version_shift(pre: Seq<TokenView>, u: Seq<TokenView>, p: int)
    requires
        0 <= p,
    ensures
        partial_version_at(pre + u, p + pre.len()) == shifted(
            partial_version_at(u, p),
            pre.len() as int,
        ),
{
    let k = pre.len() as int;
    lemma_peek_shift(pre, u, p);
    lemma_number_shift(pre, u, p);
    lemma_version_tail_shift(pre, u, p + 1, 0);
    if let (Some(m), _) = number_at(u, p) {
        lemma_version_tail_shift(pre, u, p + 1, m);
    }
    assert(p + 1 + k == p + k + 1);
}

proof fn lemma_partial_comparator_shift(pre: Seq<TokenView>, u: Seq<TokenView>, p: int)
    requires
        0 <= p,
    ensures
        partial_comparator_at(pre + u, p + pre.len()) == shifted(
            partial_comparator_at(u, p),
            pre.len() as int,
        ),
{
    let k = pre.len() as int;
    lemma_peek_shift(pre, u, p);
    let p1 = operator_at(u, p).1;
    assert(operator_at(pre + u, p + k) == (operator_at(u, p).0, p1 + k));
    lemma_partial_version_shift(pre, u, p1);
}

proof fn lemma_comparator_set_from_shift(
    pre: Seq<TokenView>,
    u: Seq<TokenView>,
    p: int,
    acc: Seq<ComparatorView>,
)
    requires
        0 <= p,
    ensures
        comparator_set_from(pre + u, p + pre.len(), acc) == shifted(
            comparator_set_from(u, p, acc),
            pre.len() as int,
        ),
    decreases u.len() - p,
{
    let k = pre.len() as int;
    lemma_peek_shift(pre, u, p);
    lemma_peek_shift(pre, u, p + 1);
    lemma_partial_comparator_shift(pre, u, p + 1);
    assert(p + 1 + k == p + k + 1);
    if whitespace_at(u, p) && peek_at(u, p + 1) != Some(TokenView::LogicalOr) {
        lemma_partial_comparator_within(u, p + 1);
        if let Outcome::Accept(pc, p2) = partial_comparator_at(u, p + 1) {
            if let Outcome::Accept(acc1, _) = desugar_into(pc, p2, acc) {
                lemma_comparator_set_from_shift(pre, u, p2, acc1);
            }
        }
    }
}

proof fn lemma_comparator_set_shift(pre: Seq<TokenView>, u: Seq<TokenView>, p: int)
    requires
        0 <= p,
    ensures
        comparator_set_at(pre + u, p + pre.len()) == shifted(
            comparator_set_at(u, p),
            pre.len() as int,
        ),
{
    lemma_partial_comparator_shift(pre, u, p);
    if p <= u.len() {
        lemma_partial_comparator_within(u, p);
    }
    if let Outcome::Accept(pc, p1) = partial_comparator_at(u, p) {
        if let Outcome::Accept(cs, _) = desugar_into(pc, p1, Seq::empty()) {
            if 0 <= p1 {
                lemma_comparator_set_from_shift(pre, u, p1, cs);
            }
        }
    }
}

proof fn lemma_version_range_from_shift(
    pre: Seq<TokenView>,
    u: Seq<TokenView>,
    p: int,
    acc: Seq<Seq<ComparatorView>>,
)
    requires
        0 <= p,
    ensures
        version_range_from(pre + u, p + pre.len(), acc) == shifted(
            version_range_from(u, p, acc),
            pre.len() as int,
        ),
    decreases u.len() - p,
{
    let k = pre.len() as int;
    lemma_peek_shift(pre, u, p);
    lemma_peek_shift(pre, u, p + 1);
    assert(p + 1 + k == p + k + 1);
    let p1 = skip_whitespace(u, p);
    lemma_peek_shift(pre, u, p1);
    lemma_peek_shift(pre, u, p1 + 1);
    assert(p1 + 1 + k == p1 + k + 1);
    let (more, p3) = or_separator(u, p);
    assert(or_separator(pre + u, p + k) == (more, p3 + k));
    if more {
        lemma_comparator_set_shift(pre, u, p3);
        lemma_comparator_set_within(u, p3);
        if let Outcome::Accept(s, p4) = comparator_set_at(u, p3) {
            lemma_version_range_from_shift(pre, u, p4, acc.push(s));
        }
    }
}

proof fn lemma_version_range_from_after(u: Seq<TokenView>, p: int, x: Seq<Seq<ComparatorView>>, acc: Seq<Seq<ComparatorView>>)
    ensures
        version_range_from(u, p, x + acc) == after_sets(x, version_range_from(u, p, acc)),
    decreases u.len() - p,
{
    let (more, p1) = or_separator(u, p);
    if more {
        if let Outcome::Accept(s, p2) = comparator_set_at(u, p1) {
            if 0 <= p1 <= u.len() {
                lemma_comparator_set_within(u, p1);
                assert((x + acc).push(s) =~= x + acc.push(s));
                lemma_version_range_from_after(u, p2, x, acc.push(s));
            }
        }
    }
}

// Reading a prefix closed by the end, or by white space and `||`: the same,
// up to where the end stands.

/// `t1` is `n` tokens closed by `Eof`; `t2` is the same `n` tokens followed
/// by white space and `||`.
pub open spec fn closed_alike(t1: Seq<TokenView>, t2: Seq<TokenView>, n: int) -> bool {
    &&& 0 <= n
    &&& t1.len() == n + 1
    &&& t1[n] == TokenView::Eof
    &&& t2.len() >= n + 2
    &&& t2[n] is Whitespace
    &&& t2[n + 1] == TokenView::LogicalOr
    &&& forall|i: int| 0 <= i < n ==> t1[i] == t2[i]
}

proof fn lemma_peek_alike(t1: Seq<TokenView>, t2: Seq<TokenView>, n: int, p: int)
    requires
        closed_alike(t1, t2, n),
    ensures
        0 <= p < n ==> peek_at(t1, p) == peek_at(t2, p),
        p == n ==> peek_at(t1, p) == Some(TokenView::Eof) && peek_at(t2, p) matches Some(
            TokenView::Whitespace(_),
        ),
        p == n + 1 ==> peek_at(t1, p) is None && peek_at(t2, p) == Some(TokenView::LogicalOr),
{
}

proof fn lemma_metadata_alike(
    t1: Seq<TokenView>,
    t2: Seq<TokenView>,
    n: int,
    p: int,
    pr: bool,
    id: Seq<char>,
    acc: Seq<IdentifierView>,
)
    requires
        closed_alike(t1, t2, n),
        0 <= p <= n + 1,
    ensures
        metadata_from(t1, p, pr, id, acc) == metadata_from(t2, p, pr, id, acc),
    decreases n + 1 - p,
{
    lemma_peek_alike(t1, t2, n, p);
    if p < n {
        match peek_at(t1, p) {
            Some(TokenView::Number(s)) => lemma_metadata_alike(t1, t2, n, p + 1, pr, id + s, acc),
            Some(TokenView::Text(s)) => lemma_metadata_alike(t1, t2, n, p + 1, pr, id + s, acc),
            Some(TokenView::Dot) => {
                if let Ok(acc1) = crate::parser::flush(id, pr, acc) {
                    lemma_metadata_alike(t1, t2, n, p + 1, pr, Seq::empty(), acc1);
                }
            },
            _ => {},
        }
    }
}

proof fn lemma_version_tail_alike(t1: Seq<TokenView>, t2: Seq<TokenView>, n: int, p: int, major: u32)
    requires
        closed_alike(t1, t2, n),
        0 <= p <= n + 1,
    ensures
        version_tail(t1, p, major) == version_tail(t2, p, major),
{
    lemma_peek_alike(t1, t2, n, p);
    lemma_peek_alike(t1, t2, n, p + 1);
    let (minor, p2) = if peek_at(t1, p) == Some(TokenView::Dot) {
        number_at(t1, p + 1)
    } else {
        (None, p)
    };
    assert(p2 <= n + 1);
    lemma_peek_alike(t1, t2, n, p2);
    lemma_peek_alike(t1, t2, n, p2 + 1);
    let (patch, p3) = if peek_at(t1, p2) == Some(TokenView::Dot) {
        number_at(t1, p2 + 1)
    } else {
        (None, p2)
    };
    assert(p3 <= n + 1);
    lemma_peek_alike(t1, t2, n, p3);
    if peek_at(t1, p3) == Some(TokenView::Dash) {
        lemma_metadata_alike(t1, t2, n, p3 + 1, true, Seq::empty(), Seq::empty());
        lemma_metadata_within(t1, p3 + 1, true, Seq::empty(), Seq::empty());
    }
    let pre_o = if peek_at(t1, p3) == Some(TokenView::Dash) {
        crate::parser::metadata_at(t1, p3 + 1, true)
    } else {
        Outcome::Accept(Seq::empty(), p3)
    };
    if let Outcome::Accept(_, p4) = pre_o {
        lemma_peek_alike(t1, t2, n, p4);
        if peek_at(t1, p4) == Some(TokenView::Plus) {
            lemma_metadata_alike(t1, t2, n, p4 + 1, false, Seq::empty(), Seq::empty());
        }
    }
}

proof fn lemma_partial_version_alike(t1: Seq<TokenView>, t2: Seq<TokenView>, n: int, p: int)
    requires
        closed_alike(t1, t2, n),
        0 <= p <= n + 1,
    ensures
        partial_version_at(t1, p) == partial_version_at(t2, p),
{
    lemma_peek_alike(t1, t2, n, p);
    if p < n {
        lemma_version_tail_alike(t1, t2, n, p + 1, 0);
        if let (Some(m), _) = number_at(t1, p) {
            lemma_version_tail_alike(t1, t2, n, p + 1, m);
        }
    }
}

proof fn lemma_partial_comparator_alike(t1: Seq<TokenView>, t2: Seq<TokenView>, n: int, p: int)
    requires
        closed_alike(t1, t2, n),
        0 <= p <= n + 1,
    ensures
        partial_comparator_at(t1, p) == partial_comparator_at(t2, p),
{
    lemma_peek_alike(t1, t2, n, p);
    assert(operator_at(t1, p) == operator_at(t2, p));
    lemma_partial_version_alike(t1, t2, n, operator_at(t1, p).1);
}

proof fn lemma_comparator_set_from_alike(
    t1: Seq<TokenView>,
    t2: Seq<TokenView>,
    n: int,
    p: int,
    acc: Seq<ComparatorView>,
)
    requires
        closed_alike(t1, t2, n),
        0 <= p <= n + 1,
    ensures
        comparator_set_from(t1, p, acc) == comparator_set_from(t2, p, acc),
    decreases n + 1 - p,
{
    lemma_peek_alike(t1, t2, n, p);
    lemma_peek_alike(t1, t2, n, p + 1);
    if p < n && whitespace_at(t1, p) && peek_at(t1, p + 1) != Some(TokenView::LogicalOr) {
        lemma_partial_comparator_alike(t1, t2, n, p + 1);
        lemma_partial_comparator_within(t1, p + 1);
        if let Outcome::Accept(pc, p2) = partial_comparator_at(t1, p + 1) {
            if let Outcome::Accept(acc1, _) = desugar_into(pc, p2, acc) {
                lemma_comparator_set_from_alike(t1, t2, n, p2, acc1);
            }
        }
    }
}

proof fn lemma_comparator_set_alike(t1: Seq<TokenView>, t2: Seq<TokenView>, n: int, p: int)
    requires
        closed_alike(t1, t2, n),
        0 <= p <= n + 1,
    ensures
        comparator_set_at(t1, p) == comparator_set_at(t2, p),
{
    lemma_partial_comparator_alike(t1, t2, n, p);
    lemma_partial_comparator_within(t1, p);
    if let Outcome::Accept(pc, p1) = partial_comparator_at(t1, p) {
        if let Outcome::Accept(cs, _) = desugar_into(pc, p1, Seq::empty()) {
            lemma_comparator_set_from_alike(t1, t2, n, p1, cs);
        }
    }
}

/// A comparator set ends only where no further comparator follows: not at
/// white space that is followed by anything but `||`.
pub open spec fn set_may_end_at(t: Seq<TokenView>, q: int) -> bool {
    !(whitespace_at(t, q) && peek_at(t, q + 1) != Some(TokenView::LogicalOr))
}

proof fn lemma_comparator_set_from_ends(t: Seq<TokenView>, p: int, acc: Seq<ComparatorView>)
    requires
        0 <= p <= t.len(),
    ensures
        comparator_set_from(t, p, acc) matches Outcome::Accept(_, q) ==> set_may_end_at(t, q),
    decreases t.len() - p,
{
    if whitespace_at(t, p) && peek_at(t, p + 1) != Some(TokenView::LogicalOr) {
        lemma_partial_comparator_within(t, p + 1);
        if let Outcome::Accept(pc, p2) = partial_comparator_at(t, p + 1) {
            if let Outcome::Accept(acc1, _) = desugar_into(pc, p2, acc) {
                lemma_comparator_set_from_ends(t, p2, acc1);
            }
        }
    }
}

proof fn lemma_comparator_set_ends(t: Seq<TokenView>, p: int)
    requires
        0 <= p <= t.len(),
    ensures
        comparator_set_at(t, p) matches Outcome::Accept(_, q) ==> set_may_end_at(t, q),
{
    lemma_partial_comparator_within(t, p);
    if let Outcome::Accept(pc, p1) = partial_comparator_at(t, p) {
        if let Outcome::Accept(cs, _) = desugar_into(pc, p1, Seq::empty()) {
            lemma_comparator_set_from_ends(t, p1, cs);
        }
    }
}

/// Where a range read from `t1` ends exactly at the end, reading `t2` gets
/// the same sets up to position `n` and goes on from there.
proof fn lemma_range_reaches_end(
    t1: Seq<TokenView>,
    t2: Seq<TokenView>,
    n: int,
    p: int,
    acc: Seq<Seq<ComparatorView>>,
)
    requires
        closed_alike(t1, t2, n),
        0 <= p <= n,
        set_may_end_at(t1, p),
        version_range_from(t1, p, acc) matches Outcome::Accept(_, q) && q == n,
    ensures
        version_range_from(t2, p, acc) == version_range_from(
            t2,
            n,
            version_range_from(t1, p, acc)->Accept_0,
        ),
    decreases n - p,
{
    lemma_peek_alike(t1, t2, n, n);
    if p < n {
        lemma_peek_alike(t1, t2, n, p);
        lemma_peek_alike(t1, t2, n, p + 1);
        let p1 = skip_whitespace(t1, p);
        lemma_peek_alike(t1, t2, n, p1);
        lemma_peek_alike(t1, t2, n, p1 + 1);
        lemma_peek_alike(t1, t2, n, p1 + 2);
        let (more, p3) = or_separator(t1, p);
        if more {
            assert(p1 < n);
            if p3 == n {
                lemma_peek_alike(t1, t2, n, n);
                assert(comparator_set_at(t1, n) is Reject);
            }
            assert(p3 < n);
            assert(or_separator(t2, p) == (more, p3));
            lemma_comparator_set_alike(t1, t2, n, p3);
            lemma_comparator_set_within(t1, p3);
            lemma_comparator_set_ends(t1, p3);
            if let Outcome::Accept(s, p4) = comparator_set_at(t1, p3) {
                if p4 == n + 1 {
                    lemma_peek_alike(t1, t2, n, n + 1);
                    assert(version_range_from(t1, p4, acc.push(s)) == Outcome::Accept(
                        acc.push(s),
                        n + 1,
                    ));
                }
                lemma_range_reaches_end(t1, t2, n, p4, acc.push(s));
            }
        }
    }
}

proof fn lemma_range_until_separator(t1: Seq<TokenView>, t2: Seq<TokenView>, n: int)
    requires
        closed_alike(t1, t2, n),
        version_range_at(t1, 0) matches Outcome::Accept(_, q) && q == n,
    ensures
        version_range_at(t2, 0) == version_range_from(t2, n, version_range_at(t1, 0)->Accept_0),
{
    lemma_comparator_set_alike(t1, t2, n, 0);
    lemma_comparator_set_within(t1, 0);
    lemma_comparator_set_ends(t1, 0);
    let s1 = comparator_set_at(t1, 0)->Accept_0;
    let p1 = comparator_set_at(t1, 0)->Accept_1;
    if p1 == n + 1 {
        lemma_peek_alike(t1, t2, n, n + 1);
        assert(version_range_from(t1, p1, seq![s1]) == Outcome::Accept(seq![s1], n + 1));
    }
    lemma_range_reaches_end(t1, t2, n, p1, seq![s1]);
}

#[verifier::spinoff_prover]
proof fn lemma_range_after_separator(
    pre: Seq<TokenView>,
    tb: Seq<TokenView>,
    ra: Seq<Seq<ComparatorView>>,
)
    requires
        pre.len() >= 3,
        pre[pre.len() - 3] is Whitespace,
        pre[pre.len() - 2] == TokenView::LogicalOr,
        pre[pre.len() - 1] is Whitespace,
        version_range_at(tb, 0) is Accept,
    ensures
        version_range_from(pre + tb, pre.len() - 3, ra) == Outcome::Accept(
            ra + version_range_at(tb, 0)->Accept_0,
            pre.len() + version_range_at(tb, 0)->Accept_1,
        ),
{
    let t2 = pre + tb;
    let n = pre.len() - 3;
    assert(t2[n] == pre[n]);
    assert(t2[n + 1] == pre[n + 1]);
    assert(t2[n + 2] == pre[n + 2]);
    assert(whitespace_at(t2, n));
    assert(skip_whitespace(t2, n) == n + 1);
    assert(peek_at(t2, n + 1) == Some(TokenView::LogicalOr));
    assert(whitespace_at(t2, n + 2));
    assert(skip_whitespace(t2, n + 2) == n + 3);
    assert(or_separator(t2, n) == (true, n + 3));
    lemma_comparator_set_shift(pre, tb, 0);
    let sb = comparator_set_at(tb, 0)->Accept_0;
    let qb = comparator_set_at(tb, 0)->Accept_1;
    lemma_comparator_set_within(tb, 0);
    lemma_version_range_from_shift(pre, tb, qb, ra.push(sb));
    assert(ra.push(sb) =~= ra + seq![sb]);
    lemma_version_range_from_after(tb, qb, ra, seq![sb]);
}

/// `||` joins ranges: when the tokens `ta`, closed by the end, read as the
/// range `ra` up to that end, and the tokens `tb` read as the range `rb`,
/// then `ta`, white space, `||`, white space and `tb` read as the sets of
/// `ra` followed by the sets of `rb`, each set kept whole.
pub proof fn lemma_or_joins_ranges(
    ta: Seq<TokenView>,
    w1: Seq<char>,
    w2: Seq<char>,
    tb: Seq<TokenView>,
)
    requires
        version_range_at(ta.push(TokenView::Eof), 0) matches Outcome::Accept(_, q) && q == ta.len(),
        version_range_at(tb, 0) is Accept,
    ensures
        version_range_at(
            ta + seq![TokenView::Whitespace(w1), TokenView::LogicalOr, TokenView::Whitespace(w2)]
                + tb,
            0,
        ) == Outcome::Accept(
            version_range_at(ta.push(TokenView::Eof), 0)->Accept_0 + version_range_at(
                tb,
                0,
            )->Accept_0,
            ta.len() + 3 + version_range_at(tb, 0)->Accept_1,
        ),
{
    let n = ta.len() as int;
    let sep = seq![TokenView::Whitespace(w1), TokenView::LogicalOr, TokenView::Whitespace(w2)];
    let pre = ta + sep;
    let t1 = ta.push(TokenView::Eof);
    let t2 = pre + tb;
    assert(pre[n] == TokenView::Whitespace(w1));
    assert(pre[n + 1] == TokenView::LogicalOr);
    assert(pre[n + 2] == TokenView::Whitespace(w2));
    assert(t2[n] == pre[n]);
    assert(t2[n + 1] == pre[n + 1]);
    assert forall|i: int| 0 <= i < n implies t1[i] == t2[i] by {
        assert(t1[i] == ta[i]);
        assert(pre[i] == ta[i]);
        assert(t2[i] == pre[i]);
    }
    assert(closed_alike(t1, t2, n));
    lemma_range_until_separator(t1, t2, n);
    lemma_range_after_separator(pre, tb, version_range_at(t1, 0)->Accept_0);
}

proof fn lemma_lexable_or_joined(a: Seq<char>, b: Seq<char>)
    requires
        lexable(a),
        lexable(b),
    ensures
        lexable(a + seq![' ', '|', '|', ' '] + b),
{
    let sep = seq![' ', '|', '|', ' '];
    let s = a + sep + b;
    assert forall|i: int| 0 <= i < s.len() implies !breaks_lexer(#[trigger] s[i]) by {
        if i < a.len() {
            assert(s[i] == a[i]);
        } else if i < a.len() + 4 {
            assert(s[i] == sep[i - a.len()]);
        } else {
            assert(s[i] == b[i - a.len() - 4]);
        }
    }
}

#[verifier::spinoff_prover]
proof fn lemma_or_joined_tokens_read(a: Seq<char>, b: Seq<char>)
    requires
        a.len() >= 1,
        !whitespace(a.last()),
        b.len() >= 1,
        !whitespace(b[0]),
        version_range_at(lex(a), 0) matches Outcome::Accept(_, q) && q == lex(a).len() - 1,
        version_range_at(lex(b), 0) is Accept,
    ensures
        version_range_at(lex(a + seq![' ', '|', '|', ' '] + b), 0) matches Outcome::Accept(r, _)
            && r == version_range_at(lex(a), 0)->Accept_0 + version_range_at(lex(b), 0)->Accept_0,
{
    let s = a + seq![' ', '|', '|', ' '] + b;
    let ta = lex(a).drop_last();
    let sep = seq![
        TokenView::Whitespace(seq![' ']),
        TokenView::LogicalOr,
        TokenView::Whitespace(seq![' ']),
    ];
    assert(lex(s) == ta + sep + lex(b)) by {
        lemma_lex_or_joined(a, b);
    }
    assert(ta.push(TokenView::Eof) == lex(a)) by {
        lemma_lex_is_lossless(a);
        assert(ta.push(TokenView::Eof) =~= lex(a));
    }
    lemma_or_joins_ranges(ta, seq![' '], seq![' '], lex(b));
}

/// `||` joins range strings: when `a`, read to its end, is the range `ra`,
/// and `b` is the range `rb`, then `a || b` is `ra` followed by `rb`, each
/// comparator set kept whole. `a` must not end in white space, nor `b` start
/// with it, so that the space around `||` is the one written here.
pub proof fn lemma_or_joins_range_strings(a: Seq<char>, b: Seq<char>)
    requires
        lexable(a),
        lexable(b),
        a.len() >= 1,
        !whitespace(a.last()),
        b.len() >= 1,
        !whitespace(b[0]),
        version_range_at(lex(a), 0) matches Outcome::Accept(_, q) && q == lex(a).len() - 1,
        range_answer(b) matches Some(Ok(_)),
    ensures
        range_answer(a + seq![' ', '|', '|', ' '] + b) == Some(
            Ok::<Seq<Seq<ComparatorView>>, ParserError>(
                range_answer(a)->Some_0->Ok_0 + range_answer(b)->Some_0->Ok_0,
            ),
        ),
{
    lemma_lexable_or_joined(a, b);
    lemma_or_joined_tokens_read(a, b);
}

/// Two strings that read as the same range, each to its end, join the same
/// text by `||` alike.
pub proof fn lemma_or_joins_alike(x: Seq<char>, y: Seq<char>, rest: Seq<char>)
    requires
        lexable(x),
        lexable(y),
        x.len() >= 1,
        !whitespace(x.last()),
        y.len() >= 1,
        !whitespace(y.last()),
        version_range_at(lex(x), 0) matches Outcome::Accept(_, q) && q == lex(x).len() - 1,
        version_range_at(lex(y), 0) matches Outcome::Accept(_, q) && q == lex(y).len() - 1,
        version_range_at(lex(x), 0)->Accept_0 == version_range_at(lex(y), 0)->Accept_0,
        lexable(rest),
        rest.len() >= 1,
        !whitespace(rest[0]),
        range_answer(rest) matches Some(Ok(_)),
    ensures
        range_answer(x + seq![' ', '|', '|', ' '] + rest) == range_answer(
            y + seq![' ', '|', '|', ' '] + rest,
        ),
{
    lemma_or_joins_range_strings(x, rest);
    lemma_or_joins_range_strings(y, rest);
}

} // verus!
