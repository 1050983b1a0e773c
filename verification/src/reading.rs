//! What whole range and version strings read as.

use vstd::prelude::*;
use crate::desugar::{bare, succ};
use crate::lexer::{
    breaks_lexer, joined_text, lemma_lex_after_char, lemma_lex_dotted_numbers, lemma_lex_dotted_pair,
    lemma_lex_from_shift, lemma_lex_identifier_chars, lemma_lex_identifier_then_dot,
    lemma_lex_is_lossless, lex, lex_from,
    lexable, next_token, TokenView,
};
use crate::parser::{
    identifier_of, lemma_dot_separates_identifiers, lemma_identifier_split_only_at_dots,
    metadata_at, partial_comparator_at,
    partial_version_at, version_at, version_range_at, ComparatorOp, ComparatorView,
    IdentifierView, Outcome, ParserError, PartialComparatorOp, PartialComparatorView,
    PartialVersionView, VersionComponent, VersionView,
};
use crate::ranges::lemma_or_joins_alike;
use crate::text::{all_ascii_digits, alphabetic, ascii_digit, parse_u32, whitespace};
use crate::{range_answer, version_answer};

verus! {

/// A numeral: one or more ASCII digits.
pub open spec fn numeral(s: Seq<char>) -> bool {
    s.len() >= 1 && all_ascii_digits(s)
}

/// `prefix`, then `a.b.c`.
pub open spec fn after_dotted(prefix: Seq<char>, a: Seq<char>, b: Seq<char>, c: Seq<char>) -> Seq<
    char,
> {
    prefix + a + seq!['.'] + b + seq!['.'] + c
}

/// `~a.b.c` is lexed as the tilde, the three numbers with dots, and the end.
proof fn lemma_lex_tilde_version(a: Seq<char>, b: Seq<char>, c: Seq<char>)
    requires
        numeral(a),
        numeral(b),
        numeral(c),
    ensures
        lexable(after_dotted(seq!['~'], a, b, c)),
        lex(after_dotted(seq!['~'], a, b, c)) == seq![
            TokenView::Tilde,
            TokenView::Number(a),
            TokenView::Dot,
            TokenView::Number(b),
            TokenView::Dot,
            TokenView::Number(c),
            TokenView::Eof,
        ],
{
    let v = a + seq!['.'] + b + seq!['.'] + c;
    let s = after_dotted(seq!['~'], a, b, c);
    assert(s =~= seq!['~'] + v);
    let e = Seq::<char>::empty();
    assert(v + e =~= v);
    lemma_lex_dotted_numbers(a, b, c, e);
    lemma_lex_from_shift(seq!['~'], v, 0);
    assert(s[0] == '~');
    assert(next_token(s, 0) == (TokenView::Tilde, 1int));
    assert(lex_from(s, 1) == lex(v));
    assert(lex(e) == seq![TokenView::Eof]);
    assert(lex(s) =~= seq![
        TokenView::Tilde,
        TokenView::Number(a),
        TokenView::Dot,
        TokenView::Number(b),
        TokenView::Dot,
        TokenView::Number(c),
        TokenView::Eof,
    ]);
    assert forall|i: int| 0 <= i < s.len() implies !breaks_lexer(#[trigger] s[i]) by {
        let i1 = 1 + a.len();
        let i2 = i1 + 1 + b.len();
        if i == 0 {
        } else if i < i1 {
            assert(s[i] == a[i - 1]);
        } else if i == i1 {
            assert(s[i] == '.');
        } else if i < i2 {
            assert(s[i] == b[i - i1 - 1]);
        } else if i == i2 {
            assert(s[i] == '.');
        } else {
            assert(s[i] == c[i - i2 - 1]);
        }
    }
}

/// `~M.m.p` is the one comparator set `>=M.m.p <M.(m+1).0`: patch-level
/// changes, whatever `p` is. The one way it fails is `m` at `u32::MAX`, where
/// the next minor does not fit in a `u32`: reading panics there, and
/// `range_answer` gives no answer.
pub proof fn lemma_tilde_string_reads(a: Seq<char>, b: Seq<char>, c: Seq<char>)
    requires
        numeral(a),
        numeral(b),
        numeral(c),
        parse_u32(a) is Some,
        parse_u32(b) is Some,
        parse_u32(c) is Some,
    ensures
        ({
            let major = parse_u32(a)->Some_0;
            let minor = parse_u32(b)->Some_0;
            let patch = parse_u32(c)->Some_0;
            &&& minor < u32::MAX ==> range_answer(after_dotted(seq!['~'], a, b, c)) == Some(
                Ok::<Seq<Seq<ComparatorView>>, ParserError>(
                    seq![
                        seq![
                            bare(ComparatorOp::Gte, major, minor, patch),
                            bare(ComparatorOp::Lt, major, succ(minor), 0),
                        ],
                    ],
                ),
            )
            &&& minor == u32::MAX ==> range_answer(after_dotted(seq!['~'], a, b, c)) is None
        }),
{
    lemma_lex_tilde_version(a, b, c);
    let t = lex(after_dotted(seq!['~'], a, b, c));
    let major = parse_u32(a)->Some_0;
    let minor = parse_u32(b)->Some_0;
    let patch = parse_u32(c)->Some_0;
    assert(t[0] == TokenView::Tilde && t[1] == TokenView::Number(a) && t[2] == TokenView::Dot);
    assert(t[3] == TokenView::Number(b) && t[4] == TokenView::Dot && t[5] == TokenView::Number(c));
    assert(t[6] == TokenView::Eof);
    let pv = PartialVersionView {
        major: VersionComponent::Number(major),
        minor: VersionComponent::Number(minor),
        patch: VersionComponent::Number(patch),
        pre_release: Seq::empty(),
        build: Seq::empty(),
    };
    assert(partial_version_at(t, 1) == Outcome::Accept(pv, 6));
    let pc = PartialComparatorView { op: PartialComparatorOp::Tilde, version: pv };
    assert(partial_comparator_at(t, 0) == Outcome::Accept(pc, 6));
    if minor < u32::MAX {
        let cs = seq![
            bare(ComparatorOp::Gte, major, minor, patch),
            bare(ComparatorOp::Lt, major, succ(minor), 0),
        ];
        assert(Seq::<ComparatorView>::empty() + cs =~= cs);
        assert(version_range_at(t, 0) == Outcome::Accept(seq![cs], 6));
    } else {
        assert(version_range_at(t, 0) == Outcome::<Seq<Seq<ComparatorView>>>::Stuck);
    }
}

proof fn lemma_joined_text_before_end(x: Seq<TokenView>)
    ensures
        joined_text(x.push(TokenView::Eof)) == joined_text(x),
    decreases x.len(),
{
    let y = x.push(TokenView::Eof);
    if x.len() == 0 {
        assert(y.drop_first() =~= Seq::<TokenView>::empty());
        assert(y[0] == TokenView::Eof);
        assert(joined_text(y.drop_first()) =~= Seq::<char>::empty());
        assert(joined_text(x) =~= Seq::<char>::empty());
        assert(joined_text(y) =~= joined_text(x));
    } else {
        assert(y.drop_first() =~= x.drop_first().push(TokenView::Eof));
        lemma_joined_text_before_end(x.drop_first());
        assert(y[0] == x[0]);
    }
}

/// The tokens of an identifier of digits and letters: number and text tokens,
/// at least one, whose characters make up the identifier, then the end.
proof fn lemma_identifier_tokens(id: Seq<char>)
    requires
        id.len() >= 1,
        forall|k: int| 0 <= k < id.len() ==> ascii_digit(#[trigger] id[k]) || alphabetic(id[k]),
    ensures
        lex(id).len() >= 2,
        lex(id).last() == TokenView::Eof,
        forall|i: int|
            0 <= i < lex(id).len() - 1 ==> (#[trigger] lex(id)[i] is Number || lex(id)[i] is Text),
        joined_text(lex(id).drop_last()) == id,
{
    let l = lex(id);
    lemma_lex_is_lossless(id);
    lemma_lex_identifier_chars(id, 0);
    assert(l.drop_last().push(TokenView::Eof) =~= l);
    lemma_joined_text_before_end(l.drop_last());
    if l.len() == 1 {
        assert(l.drop_last() =~= Seq::<TokenView>::empty());
        assert(joined_text(l.drop_last()) =~= Seq::<char>::empty());
    }
}

/// `M.m.p-` followed by an identifier of digits and letters is lexed as the
/// version's numbers, the dash, and number and text tokens that make up the
/// identifier, then the end.
proof fn lemma_lex_pre_release(a: Seq<char>, b: Seq<char>, c: Seq<char>, id: Seq<char>)
    requires
        numeral(a),
        numeral(b),
        numeral(c),
        id.len() >= 1,
        forall|k: int| 0 <= k < id.len() ==> ascii_digit(#[trigger] id[k]) || alphabetic(id[k]),
    ensures
        ({
            let t = lex(after_dotted(Seq::empty(), a, b, c) + seq!['-'] + id);
            let k = lex(id).len() - 1;
            &&& lexable(after_dotted(Seq::empty(), a, b, c) + seq!['-'] + id)
            &&& t == seq![
                TokenView::Number(a),
                TokenView::Dot,
                TokenView::Number(b),
                TokenView::Dot,
                TokenView::Number(c),
                TokenView::Dash,
            ] + lex(id)
            &&& k >= 1
            &&& t.len() == 6 + k + 1
            &&& t[6 + k] == TokenView::Eof
            &&& forall|i: int| 6 <= i < 6 + k ==> (#[trigger] t[i] is Number || t[i] is Text)
            &&& joined_text(t.subrange(6, 6 + k)) == id
        }),
{
    let u = seq!['-'] + id;
    let s = after_dotted(Seq::empty(), a, b, c) + seq!['-'] + id;
    assert(s =~= a + seq!['.'] + b + seq!['.'] + c + u);
    assert(u[0] == '-');
    lemma_lex_dotted_numbers(a, b, c, u);
    lemma_lex_after_char('-', id);
    assert(next_token(seq!['-'], 0).0 == TokenView::Dash);
    let l = lex(id);
    lemma_identifier_tokens(id);
    let k = l.len() - 1;
    let t = lex(s);
    let head = seq![
        TokenView::Number(a),
        TokenView::Dot,
        TokenView::Number(b),
        TokenView::Dot,
        TokenView::Number(c),
        TokenView::Dash,
    ];
    assert(t =~= head + l);
    assert(t.subrange(6, 6 + k) =~= l.drop_last());
    assert forall|i: int| 6 <= i < 6 + k implies (#[trigger] t[i] is Number || t[i] is Text) by {
        assert(t[i] == l[i - 6]);
    }
    assert(t[6 + k] == l[k]);
    assert forall|i: int| 0 <= i < s.len() implies !breaks_lexer(#[trigger] s[i]) by {
        let i1 = a.len() as int;
        let i2 = i1 + 1 + b.len();
        let i3 = i2 + 1 + c.len();
        if i < i1 {
            assert(s[i] == a[i]);
        } else if i == i1 {
            assert(s[i] == '.');
        } else if i < i2 {
            assert(s[i] == b[i - i1 - 1]);
        } else if i == i2 {
            assert(s[i] == '.');
        } else if i < i3 {
            assert(s[i] == c[i - i2 - 1]);
        } else if i == i3 {
            assert(s[i] == '-');
        } else {
            assert(s[i] == id[i - i3 - 1]);
        }
    }
}

/// The pre-release after `M.m.p-` is split only at dots: an identifier of
/// digits and letters with no dot in it is read whole, as one identifier, and
/// one that is not all digits (`rc1`, `1a`, `beta2x`) is that text, unsplit.
pub proof fn lemma_pre_release_identifier_reads(
    a: Seq<char>,
    b: Seq<char>,
    c: Seq<char>,
    id: Seq<char>,
)
    requires
        numeral(a),
        numeral(b),
        numeral(c),
        parse_u32(a) is Some,
        parse_u32(b) is Some,
        parse_u32(c) is Some,
        id.len() >= 1,
        forall|k: int| 0 <= k < id.len() ==> ascii_digit(#[trigger] id[k]) || alphabetic(id[k]),
        identifier_of(id, true) is Ok,
    ensures
        version_answer(after_dotted(Seq::empty(), a, b, c) + seq!['-'] + id) == Some(
            Ok::<VersionView, ParserError>(
                VersionView {
                    major: parse_u32(a)->Some_0,
                    minor: parse_u32(b)->Some_0,
                    patch: parse_u32(c)->Some_0,
                    pre_release: seq![identifier_of(id, true)->Ok_0],
                    build: Seq::empty(),
                },
            ),
        ),
        !all_ascii_digits(id) ==> identifier_of(id, true) == Ok::<IdentifierView, ParserError>(
            IdentifierView::Text(id),
        ),
{
    lemma_lex_pre_release(a, b, c, id);
    let t = lex(after_dotted(Seq::empty(), a, b, c) + seq!['-'] + id);
    let k = lex(id).len() - 1;
    assert(t[0] == TokenView::Number(a) && t[1] == TokenView::Dot && t[2] == TokenView::Number(b));
    assert(t[3] == TokenView::Dot && t[4] == TokenView::Number(c) && t[5] == TokenView::Dash);
    lemma_identifier_split_only_at_dots(t, 6, k, true);
    let idv = identifier_of(id, true)->Ok_0;
    assert(metadata_at(t, 6, true) == Outcome::Accept(seq![idv], 6 + k));
    let pv = PartialVersionView {
        major: VersionComponent::Number(parse_u32(a)->Some_0),
        minor: VersionComponent::Number(parse_u32(b)->Some_0),
        patch: VersionComponent::Number(parse_u32(c)->Some_0),
        pre_release: seq![idv],
        build: Seq::empty(),
    };
    assert(partial_version_at(t, 0) == Outcome::Accept(pv, 6 + k));
    assert(version_at(t, 0) is Accept);
}

/// Two identifiers of digits and letters joined by a dot are lexed as the
/// tokens of the first, the dot, and the tokens of the second.
proof fn lemma_lex_dotted_identifiers(id1: Seq<char>, id2: Seq<char>)
    requires
        forall|k: int| 0 <= k < id1.len() ==> ascii_digit(#[trigger] id1[k]) || alphabetic(id1[k]),
    ensures
        lex(id1 + seq!['.'] + id2) == lex(id1).drop_last() + seq![TokenView::Dot] + lex(id2),
{
    let c = seq!['.'] + id2;
    let w = id1 + c;
    let n = id1.len() as int;
    assert(w =~= id1 + seq!['.'] + id2);
    lemma_lex_identifier_then_dot(id1, c, 0);
    assert(w[n] == '.');
    assert(next_token(w, n) == (TokenView::Dot, n + 1));
    assert(w =~= (id1 + seq!['.']) + id2);
    lemma_lex_from_shift(id1 + seq!['.'], id2, 0);
    assert(lex_from(w, n + 1) == lex(id2));
    assert(lex_from(w, n) == seq![TokenView::Dot] + lex(id2));
    assert(lex(w) =~= lex(id1).drop_last() + seq![TokenView::Dot] + lex(id2));
}

proof fn lemma_lexable_concat(x: Seq<char>, y: Seq<char>)
    requires
        lexable(x),
        lexable(y),
    ensures
        lexable(x + y),
{
    let s = x + y;
    assert forall|i: int| 0 <= i < s.len() implies !breaks_lexer(#[trigger] s[i]) by {
        if i < x.len() {
            assert(s[i] == x[i]);
        } else {
            assert(s[i] == y[i - x.len()]);
        }
    }
}

/// `M.m.p-id1.id2` is lexed as the version's numbers, the dash, the tokens of
/// `id1`, the dot, and the tokens of `id2`.
proof fn lemma_lex_pre_release_pair(
    a: Seq<char>,
    b: Seq<char>,
    c: Seq<char>,
    id1: Seq<char>,
    id2: Seq<char>,
)
    requires
        numeral(a),
        numeral(b),
        numeral(c),
        id1.len() >= 1,
        id2.len() >= 1,
        forall|k: int| 0 <= k < id1.len() ==> ascii_digit(#[trigger] id1[k]) || alphabetic(id1[k]),
        forall|k: int| 0 <= k < id2.len() ==> ascii_digit(#[trigger] id2[k]) || alphabetic(id2[k]),
    ensures
        lexable(after_dotted(Seq::empty(), a, b, c) + seq!['-'] + id1 + seq!['.'] + id2),
        lex(after_dotted(Seq::empty(), a, b, c) + seq!['-'] + id1 + seq!['.'] + id2) == seq![
            TokenView::Number(a),
            TokenView::Dot,
            TokenView::Number(b),
            TokenView::Dot,
            TokenView::Number(c),
            TokenView::Dash,
        ] + lex(id1).drop_last() + seq![TokenView::Dot] + lex(id2),
{
    let w = id1 + seq!['.'] + id2;
    let s = after_dotted(Seq::empty(), a, b, c) + seq!['-'] + id1 + seq!['.'] + id2;
    let u = seq!['-'] + w;
    assert(s =~= a + seq!['.'] + b + seq!['.'] + c + u);
    assert(u[0] == '-');
    lemma_lex_dotted_numbers(a, b, c, u);
    lemma_lex_after_char('-', w);
    assert(next_token(seq!['-'], 0).0 == TokenView::Dash);
    lemma_lex_dotted_identifiers(id1, id2);
    assert(lex(s) =~= seq![
        TokenView::Number(a),
        TokenView::Dot,
        TokenView::Number(b),
        TokenView::Dot,
        TokenView::Number(c),
        TokenView::Dash,
    ] + lex(id1).drop_last() + seq![TokenView::Dot] + lex(id2));
    lemma_lex_pre_release(a, b, c, id1);
    let tail = seq!['.'] + id2;
    assert forall|i: int| 0 <= i < tail.len() implies !breaks_lexer(#[trigger] tail[i]) by {
        if i > 0 {
            assert(tail[i] == id2[i - 1]);
        }
    }
    lemma_lexable_concat(after_dotted(Seq::empty(), a, b, c) + seq!['-'] + id1, tail);
    assert(s =~= (after_dotted(Seq::empty(), a, b, c) + seq!['-'] + id1) + tail);
}

/// A dot in the pre-release after `M.m.p-` closes one identifier and starts
/// the next: `id1.id2`, each of digits and letters, is read as the two
/// identifiers `id1` and `id2`, each whole.
pub proof fn lemma_pre_release_dot_splits(
    a: Seq<char>,
    b: Seq<char>,
    c: Seq<char>,
    id1: Seq<char>,
    id2: Seq<char>,
)
    requires
        numeral(a),
        numeral(b),
        numeral(c),
        parse_u32(a) is Some,
        parse_u32(b) is Some,
        parse_u32(c) is Some,
        id1.len() >= 1,
        id2.len() >= 1,
        forall|k: int| 0 <= k < id1.len() ==> ascii_digit(#[trigger] id1[k]) || alphabetic(id1[k]),
        forall|k: int| 0 <= k < id2.len() ==> ascii_digit(#[trigger] id2[k]) || alphabetic(id2[k]),
        identifier_of(id1, true) is Ok,
        identifier_of(id2, true) is Ok,
    ensures
        version_answer(after_dotted(Seq::empty(), a, b, c) + seq!['-'] + id1 + seq!['.'] + id2)
            == Some(
            Ok::<VersionView, ParserError>(
                VersionView {
                    major: parse_u32(a)->Some_0,
                    minor: parse_u32(b)->Some_0,
                    patch: parse_u32(c)->Some_0,
                    pre_release: seq![
                        identifier_of(id1, true)->Ok_0,
                        identifier_of(id2, true)->Ok_0,
                    ],
                    build: Seq::empty(),
                },
            ),
        ),
{
    let s = after_dotted(Seq::empty(), a, b, c) + seq!['-'] + id1 + seq!['.'] + id2;
    lemma_lex_pre_release_pair(a, b, c, id1, id2);
    lemma_identifier_tokens(id1);
    lemma_identifier_tokens(id2);
    let l1 = lex(id1).drop_last();
    let l2 = lex(id2);
    let k1 = l1.len() as int;
    let k2 = l2.len() - 1;
    let t = lex(s);
    assert forall|i: int| 6 <= i < 6 + k1 implies (#[trigger] t[i] is Number || t[i] is Text) by {
        assert(t[i] == l1[i - 6]);
        assert(l1[i - 6] == lex(id1)[i - 6]);
    }
    assert(t[6 + k1] == TokenView::Dot);
    assert forall|i: int| 6 + k1 + 1 <= i < 6 + k1 + 1 + k2 implies (#[trigger] t[i] is Number
        || t[i] is Text) by {
        assert(t[i] == l2[i - 7 - k1]);
    }
    assert(t[6 + k1 + 1 + k2] == l2[k2]);
    assert(t.subrange(6, 6 + k1) =~= l1);
    assert(t.subrange(6 + k1 + 1, 6 + k1 + 1 + k2) =~= l2.drop_last());
    lemma_dot_separates_identifiers(t, 6, k1, k2, true);
    assert(t[0] == TokenView::Number(a) && t[1] == TokenView::Dot && t[2] == TokenView::Number(b));
    assert(t[3] == TokenView::Dot && t[4] == TokenView::Number(c) && t[5] == TokenView::Dash);
    let ids = seq![identifier_of(id1, true)->Ok_0, identifier_of(id2, true)->Ok_0];
    assert(metadata_at(t, 6, true) == Outcome::Accept(ids, 7 + k1 + k2));
    let pv = PartialVersionView {
        major: VersionComponent::Number(parse_u32(a)->Some_0),
        minor: VersionComponent::Number(parse_u32(b)->Some_0),
        patch: VersionComponent::Number(parse_u32(c)->Some_0),
        pre_release: ids,
        build: Seq::empty(),
    };
    assert(partial_version_at(t, 0) == Outcome::Accept(pv, 7 + k1 + k2));
    assert(version_at(t, 0) is Accept);
}

/// `a.b`, the major and minor of a version with no patch.
pub open spec fn dotted_pair(a: Seq<char>, b: Seq<char>) -> Seq<char> {
    a + seq!['.'] + b
}

/// A character that stands for "any" in a version component.
pub open spec fn wildcard_char(w: char) -> bool {
    w == 'x' || w == 'X' || w == '*'
}

proof fn lemma_lex_wildcard_patch(a: Seq<char>, b: Seq<char>, w: char)
    requires
        numeral(a),
        numeral(b),
        wildcard_char(w),
    ensures
        lexable(dotted_pair(a, b) + seq!['.', w]),
        lexable(dotted_pair(a, b)),
        lex(dotted_pair(a, b) + seq!['.', w]).len() == 6,
        lex(dotted_pair(a, b) + seq!['.', w]).subrange(0, 4) == seq![
            TokenView::Number(a),
            TokenView::Dot,
            TokenView::Number(b),
            TokenView::Dot,
        ],
        !(lex(dotted_pair(a, b) + seq!['.', w])[4] is Number),
        lex(dotted_pair(a, b) + seq!['.', w])[5] == TokenView::Eof,
        lex(dotted_pair(a, b)) == seq![
            TokenView::Number(a),
            TokenView::Dot,
            TokenView::Number(b),
            TokenView::Eof,
        ],
{
    let u = seq!['.', w];
    let e = Seq::<char>::empty();
    let one = seq![w];
    lemma_lex_dotted_pair(a, b, u);
    lemma_lex_dotted_pair(a, b, e);
    assert(dotted_pair(a, b) + e =~= dotted_pair(a, b));
    assert(lex(e) == seq![TokenView::Eof]);
    assert(u =~= seq!['.'] + one);
    lemma_lex_after_char('.', one);
    assert(next_token(seq!['.'], 0).0 == TokenView::Dot);
    assert(one[0] == w);
    let wt = next_token(one, 0).0;
    assert(!(wt is Number));
    assert(next_token(one, 0).1 == 1) by {
        if w != '*' {
            assert(crate::lexer::run_end(one, 1, crate::lexer::Run::Word) == 1);
        }
    }
    assert(lex_from(one, 1) == seq![TokenView::Eof]);
    assert(lex(one) == seq![wt] + lex_from(one, 1));
    assert(lex(one) =~= seq![wt, TokenView::Eof]);
    let t = lex(dotted_pair(a, b) + u);
    assert(t =~= seq![
        TokenView::Number(a),
        TokenView::Dot,
        TokenView::Number(b),
        TokenView::Dot,
        wt,
        TokenView::Eof,
    ]);
    assert(t.subrange(0, 4) =~= seq![
        TokenView::Number(a),
        TokenView::Dot,
        TokenView::Number(b),
        TokenView::Dot,
    ]);
    let s0 = dotted_pair(a, b);
    let s1 = dotted_pair(a, b) + u;
    assert forall|i: int| 0 <= i < s1.len() implies !breaks_lexer(#[trigger] s1[i]) by {
        let i1 = a.len() as int;
        let i2 = i1 + 1 + b.len();
        if i < i1 {
            assert(s1[i] == a[i]);
        } else if i == i1 {
            assert(s1[i] == '.');
        } else if i < i2 {
            assert(s1[i] == b[i - i1 - 1]);
        } else if i == i2 {
            assert(s1[i] == '.');
        } else {
            assert(s1[i] == w);
        }
    }
    assert forall|i: int| 0 <= i < s0.len() implies !breaks_lexer(#[trigger] s0[i]) by {
        assert(s0[i] == s1[i]);
    }
}

/// A wildcard patch (`x`, `X` or `*`) after `M.m.` is consumed and reads as
/// if it were not written: `M.m.x` is the range `M.m`, that is
/// `>=M.m.0 <M.(m+1).0`, and both are read to their end.
pub proof fn lemma_wildcard_patch_string_reads(a: Seq<char>, b: Seq<char>, w: char)
    requires
        numeral(a),
        numeral(b),
        parse_u32(a) is Some,
        parse_u32(b) matches Some(m) && m < u32::MAX,
        wildcard_char(w),
    ensures
        range_answer(dotted_pair(a, b) + seq!['.', w]) == range_answer(dotted_pair(a, b)),
        range_answer(dotted_pair(a, b)) == Some(
            Ok::<Seq<Seq<ComparatorView>>, ParserError>(
                seq![
                    seq![
                        bare(ComparatorOp::Gte, parse_u32(a)->Some_0, parse_u32(b)->Some_0, 0),
                        bare(
                            ComparatorOp::Lt,
                            parse_u32(a)->Some_0,
                            succ(parse_u32(b)->Some_0),
                            0,
                        ),
                    ],
                ],
            ),
        ),
        version_range_at(lex(dotted_pair(a, b) + seq!['.', w]), 0) matches Outcome::Accept(_, q)
            && q == lex(dotted_pair(a, b) + seq!['.', w]).len() - 1,
        version_range_at(lex(dotted_pair(a, b)), 0) matches Outcome::Accept(_, q) && q == lex(
            dotted_pair(a, b),
        ).len() - 1,
{
    lemma_lex_wildcard_patch(a, b, w);
    let t1 = lex(dotted_pair(a, b) + seq!['.', w]);
    let t0 = lex(dotted_pair(a, b));
    let major = parse_u32(a)->Some_0;
    let minor = parse_u32(b)->Some_0;
    assert(t1[0] == t1.subrange(0, 4)[0] && t1[1] == t1.subrange(0, 4)[1]);
    assert(t1[2] == t1.subrange(0, 4)[2] && t1[3] == t1.subrange(0, 4)[3]);
    assert(t1[0] == TokenView::Number(a) && t1[1] == TokenView::Dot);
    assert(t1[2] == TokenView::Number(b) && t1[3] == TokenView::Dot);
    assert(t0[0] == TokenView::Number(a) && t0[1] == TokenView::Dot);
    assert(t0[2] == TokenView::Number(b) && t0[3] == TokenView::Eof);
    let pv = PartialVersionView {
        major: VersionComponent::Number(major),
        minor: VersionComponent::Number(minor),
        patch: VersionComponent::Wildcard,
        pre_release: Seq::empty(),
        build: Seq::empty(),
    };
    assert(partial_version_at(t1, 0) == Outcome::Accept(pv, 5));
    assert(partial_version_at(t0, 0) == Outcome::Accept(pv, 3));
    let pc = PartialComparatorView { op: PartialComparatorOp::Eq, version: pv };
    assert(partial_comparator_at(t1, 0) == Outcome::Accept(pc, 5));
    assert(partial_comparator_at(t0, 0) == Outcome::Accept(pc, 3));
    let cs = seq![
        bare(ComparatorOp::Gte, major, minor, 0),
        bare(ComparatorOp::Lt, major, succ(minor), 0),
    ];
    assert(Seq::<ComparatorView>::empty() + cs =~= cs);
    assert(version_range_at(t1, 0) == Outcome::Accept(seq![cs], 5));
    assert(version_range_at(t0, 0) == Outcome::Accept(seq![cs], 3));
}

/// So a wildcard patch joins other ranges by `||` as the bare `M.m` does:
/// `M.m.x || rest` reads as `M.m || rest` (`1.2.x || 1.4.x` as `1.2 || 1.4.x`).
pub proof fn lemma_wildcard_patch_joins_alike(a: Seq<char>, b: Seq<char>, w: char, rest: Seq<char>)
    requires
        numeral(a),
        numeral(b),
        parse_u32(a) is Some,
        parse_u32(b) matches Some(m) && m < u32::MAX,
        wildcard_char(w),
        lexable(rest),
        rest.len() >= 1,
        !whitespace(rest[0]),
        range_answer(rest) matches Some(Ok(_)),
    ensures
        range_answer(dotted_pair(a, b) + seq!['.', w] + seq![' ', '|', '|', ' '] + rest)
            == range_answer(dotted_pair(a, b) + seq![' ', '|', '|', ' '] + rest),
{
    let s1 = dotted_pair(a, b) + seq!['.', w];
    let s0 = dotted_pair(a, b);
    lemma_wildcard_patch_string_reads(a, b, w);
    lemma_lex_wildcard_patch(a, b, w);
    assert(s1.last() == w);
    assert(s0.last() == b.last());
    lemma_or_joins_alike(s1, s0, rest);
}

} // verus!
