//! Splits a range or version string into tokens.

use vstd::prelude::*;
use crate::text::{
    all_ascii_digits, alphabetic, ascii_digit, chars_of, is_alphabetic, is_ascii_digit, is_whitespace, whitespace,
};

verus! {

/// A comparison operator as written in the input.
#[derive(Debug, PartialEq, Eq, Clone, Copy)]
pub enum Comparator {
    Eq,
    Gt,
    Lt,
    Gte,
    Lte,
}

/// A token, borrowing its text from the input.
#[derive(Debug, PartialEq)]
pub enum Token<'a> {
    Text(&'a str),
    Number(&'a str),
    Dot,
    Tilde,
    Caret,
    Wildcard,
    Dash,
    Plus,
    Whitespace(&'a str),
    LogicalOr,
    Comparator(Comparator),
    Eof,
    Unknown(&'a str),
}

/// A token with its text as a sequence of characters.
pub enum TokenView {
    Text(Seq<char>),
    Number(Seq<char>),
    Dot,
    Tilde,
    Caret,
    Wildcard,
    Dash,
    Plus,
    Whitespace(Seq<char>),
    LogicalOr,
    Comparator(Comparator),
    Eof,
    Unknown(Seq<char>),
}

impl<'a> View for Token<'a> {
    type V = TokenView;

    open spec fn view(&self) -> TokenView {
        match self {
            Token::Text(s) => TokenView::Text(s@),
            Token::Number(s) => TokenView::Number(s@),
            Token::Dot => TokenView::Dot,
            Token::Tilde => TokenView::Tilde,
            Token::Caret => TokenView::Caret,
            Token::Wildcard => TokenView::Wildcard,
            Token::Dash => TokenView::Dash,
            Token::Plus => TokenView::Plus,
            Token::Whitespace(s) => TokenView::Whitespace(s@),
            Token::LogicalOr => TokenView::LogicalOr,
            Token::Comparator(c) => TokenView::Comparator(*c),
            Token::Eof => TokenView::Eof,
            Token::Unknown(s) => TokenView::Unknown(s@),
        }
    }
}

/// The views of a sequence of tokens.
pub open spec fn token_views<'a>(ts: Seq<Token<'a>>) -> Seq<TokenView> {
    ts.map_values(|t: Token<'a>| t@)
}

/// The three kinds of multi-character tokens, by the characters that extend them.
#[derive(Clone, Copy)]
pub enum Run {
    /// ASCII digits: a number.
    Digits,
    /// Alphabetic characters, `-`, `:` and `/`: a word.
    Word,
    /// White space.
    Space,
}

/// Whether `c` extends a token of kind `kind`.
pub open spec fn extends(kind: Run, c: char) -> bool {
    match kind {
        Run::Digits => ascii_digit(c),
        Run::Word => alphabetic(c) || c == '-' || c == ':' || c == '/',
        Run::Space => whitespace(c),
    }
}

/// Where a token of kind `kind` that reaches position `i` of `s` ends.
pub open spec fn run_end(s: Seq<char>, i: int, kind: Run) -> int
    decreases s.len() - i,
{
    if 0 <= i < s.len() && extends(kind, s[i]) {
        run_end(s, i + 1, kind)
    } else {
        i
    }
}

/// A run ends between where it starts and the end of the input, and holds at
/// least the character it starts with when that character extends it.
pub proof fn lemma_run_end_bounds(s: Seq<char>, i: int, kind: Run)
    requires
        0 <= i <= s.len(),
    ensures
        i <= run_end(s, i, kind) <= s.len(),
        i < s.len() && extends(kind, s[i]) ==> i < run_end(s, i, kind),
    decreases s.len() - i,
{
    if i < s.len() && extends(kind, s[i]) {
        lemma_run_end_bounds(s, i + 1, kind);
    }
}

/// The characters that the lexer turns into tokens of their own.
pub open spec fn is_punctuation(c: char) -> bool {
    c == '.' || c == '~' || c == '^' || c == '*' || c == '-' || c == '+' || c == '=' || c == '|'
        || c == '>' || c == '<'
}

/// A character that can only become an `Unknown` token and whose UTF-8
/// encoding is longer than one byte: the lexer slices one byte of it and
/// panics.
pub open spec fn breaks_lexer(c: char) -> bool {
    &&& !ascii_digit(c)
    &&& !alphabetic(c)
    &&& !whitespace(c)
    &&& !is_punctuation(c)
    &&& (c as u32) >= 128
}

/// The inputs that the lexer handles without panicking.
pub open spec fn lexable(s: Seq<char>) -> bool {
    forall|i: int| 0 <= i < s.len() ==> !breaks_lexer(#[trigger] s[i])
}

/// The token that starts at position `i` of `s`, and where it ends.
pub open spec fn next_token(s: Seq<char>, i: int) -> (TokenView, int)
    recommends
        0 <= i < s.len(),
{
    let c = s[i];
    if ascii_digit(c) {
        let j = run_end(s, i, Run::Digits);
        (TokenView::Number(s.subrange(i, j)), j)
    } else if alphabetic(c) {
        let j = run_end(s, i, Run::Word);
        (TokenView::Text(s.subrange(i, j)), j)
    } else if whitespace(c) {
        let j = run_end(s, i, Run::Space);
        (TokenView::Whitespace(s.subrange(i, j)), j)
    } else if c == '.' {
        (TokenView::Dot, i + 1)
    } else if c == '~' {
        (TokenView::Tilde, i + 1)
    } else if c == '^' {
        (TokenView::Caret, i + 1)
    } else if c == '*' {
        (TokenView::Wildcard, i + 1)
    } else if c == '-' {
        (TokenView::Dash, i + 1)
    } else if c == '+' {
        (TokenView::Plus, i + 1)
    } else if c == '=' {
        (TokenView::Comparator(Comparator::Eq), i + 1)
    } else if c == '|' {
        if i + 1 < s.len() && s[i + 1] == '|' {
            (TokenView::LogicalOr, i + 2)
        } else {
            (TokenView::Unknown(s.subrange(i, i + 1)), i + 1)
        }
    } else if c == '>' {
        if i + 1 < s.len() && s[i + 1] == '=' {
            (TokenView::Comparator(Comparator::Gte), i + 2)
        } else {
            (TokenView::Comparator(Comparator::Gt), i + 1)
        }
    } else if c == '<' {
        if i + 1 < s.len() && s[i + 1] == '=' {
            (TokenView::Comparator(Comparator::Lte), i + 2)
        } else {
            (TokenView::Comparator(Comparator::Lt), i + 1)
        }
    } else {
        (TokenView::Unknown(s.subrange(i, i + 1)), i + 1)
    }
}

/// Every token takes at least one character, and no more than there are.
pub proof fn lemma_next_token_advances(s: Seq<char>, i: int)
    requires
        0 <= i < s.len(),
    ensures
        i < next_token(s, i).1 <= s.len(),
{
    lemma_run_end_bounds(s, i, Run::Digits);
    lemma_run_end_bounds(s, i, Run::Word);
    lemma_run_end_bounds(s, i, Run::Space);
}

/// The tokens of `s` from position `i` on, closed by `Eof`.
pub open spec fn lex_from(s: Seq<char>, i: int) -> Seq<TokenView>
    decreases s.len() - i,
{
    if 0 <= i < s.len() {
        let (t, j) = next_token(s, i);
        proof {
            lemma_next_token_advances(s, i);
        }
        seq![t] + lex_from(s, j)
    } else {
        seq![TokenView::Eof]
    }
}

/// The tokens of `s`.
pub open spec fn lex(s: Seq<char>) -> Seq<TokenView> {
    lex_from(s, 0)
}

/// The characters that a token stands for.
pub open spec fn token_text(t: TokenView) -> Seq<char> {
    match t {
        TokenView::Text(s) => s,
        TokenView::Number(s) => s,
        TokenView::Dot => seq!['.'],
        TokenView::Tilde => seq!['~'],
        TokenView::Caret => seq!['^'],
        TokenView::Wildcard => seq!['*'],
        TokenView::Dash => seq!['-'],
        TokenView::Plus => seq!['+'],
        TokenView::Whitespace(s) => s,
        TokenView::LogicalOr => seq!['|', '|'],
        TokenView::Comparator(c) => match c {
            Comparator::Eq => seq!['='],
            Comparator::Gt => seq!['>'],
            Comparator::Lt => seq!['<'],
            Comparator::Gte => seq!['>', '='],
            Comparator::Lte => seq!['<', '='],
        },
        TokenView::Eof => Seq::empty(),
        TokenView::Unknown(s) => s,
    }
}

/// The characters that a sequence of tokens stands for, in order.
pub open spec fn joined_text(ts: Seq<TokenView>) -> Seq<char>
    decreases ts.len(),
{
    if ts.len() == 0 {
        Seq::empty()
    } else {
        token_text(ts[0]) + joined_text(ts.drop_first())
    }
}

proof fn lemma_next_token_text(s: Seq<char>, i: int)
    requires
        0 <= i < s.len(),
    ensures
        token_text(next_token(s, i).0) =~= s.subrange(i, next_token(s, i).1),
{
    lemma_next_token_advances(s, i);
}

proof fn lemma_lex_from_lossless(s: Seq<char>, i: int)
    requires
        0 <= i <= s.len(),
    ensures
        joined_text(lex_from(s, i)) =~= s.subrange(i, s.len() as int),
        lex_from(s, i).len() >= 1,
        lex_from(s, i).last() == TokenView::Eof,
        forall|k: int| 0 <= k < lex_from(s, i).len() - 1 ==> lex_from(s, i)[k] != TokenView::Eof,
    decreases s.len() - i,
{
    if i < s.len() {
        let (t, j) = next_token(s, i);
        lemma_next_token_advances(s, i);
        lemma_next_token_text(s, i);
        lemma_lex_from_lossless(s, j);
        let rest = lex_from(s, j);
        let all = seq![t] + rest;
        assert(all.drop_first() =~= rest);
        assert(all[0] == t);
        assert(lex_from(s, i) == all);
        assert(i < j <= s.len());
        assert(joined_text(all) == token_text(t) + joined_text(rest));
        assert(s.subrange(i, s.len() as int) =~= s.subrange(i, j) + s.subrange(j, s.len() as int));
        assert(joined_text(all) =~= s.subrange(i, s.len() as int));
        assert(t != TokenView::Eof);
        assert forall|k: int| 0 <= k < all.len() - 1 implies all[k] != TokenView::Eof by {
            if k > 0 {
                assert(all[k] == rest[k - 1]);
            }
        }
    } else {
        let one = seq![TokenView::Eof];
        assert(one.drop_first() =~= Seq::<TokenView>::empty());
        assert(joined_text(one.drop_first()) =~= Seq::<char>::empty());
        assert(joined_text(one) =~= Seq::<char>::empty());
    }
}

/// Lexing loses nothing: the texts of the tokens, put together, give back the
/// input, and the tokens end with the one `Eof` that they hold.
pub proof fn lemma_lex_is_lossless(s: Seq<char>)
    ensures
        joined_text(lex(s)) == s,
        lex(s).len() >= 1,
        lex(s).last() == TokenView::Eof,
        forall|k: int| 0 <= k < lex(s).len() - 1 ==> lex(s)[k] != TokenView::Eof,
{
    lemma_lex_from_lossless(s, 0);
    assert(s.subrange(0, s.len() as int) =~= s);
}

/// What a single token looks like: a number is one or more ASCII digits, a
/// word starts with an alphabetic character and goes on with alphabetic
/// characters, `-`, `:` or `/`, white space is one or more white-space
/// characters, and an unknown token is one character.
pub open spec fn token_well_formed(t: TokenView) -> bool {
    match t {
        TokenView::Number(s) => s.len() > 0 && forall|k: int|
            0 <= k < s.len() ==> extends(Run::Digits, #[trigger] s[k]),
        TokenView::Text(s) => s.len() > 0 && alphabetic(s[0]) && forall|k: int|
            0 <= k < s.len() ==> extends(Run::Word, #[trigger] s[k]),
        TokenView::Whitespace(s) => s.len() > 0 && forall|k: int|
            0 <= k < s.len() ==> extends(Run::Space, #[trigger] s[k]),
        TokenView::Unknown(s) => s.len() == 1,
        _ => true,
    }
}

/// Whether token `b` may come right after token `a`: runs are never split
/// (no two numbers, two words or two white-space tokens in a row), and `>`
/// or `<` is never followed by a separate `=`.
pub open spec fn may_follow(a: TokenView, b: TokenView) -> bool {
    &&& !(a is Number && b is Number)
    &&& !(a is Text && b is Text)
    &&& !(a is Whitespace && b is Whitespace)
    &&& !((a == TokenView::Comparator(Comparator::Gt) || a == TokenView::Comparator(
        Comparator::Lt,
    )) && b == TokenView::Comparator(Comparator::Eq))
}

proof fn lemma_run_contents(s: Seq<char>, i: int, kind: Run)
    requires
        0 <= i <= s.len(),
    ensures
        forall|k: int| i <= k < run_end(s, i, kind) ==> extends(kind, #[trigger] s[k]),
        run_end(s, i, kind) < s.len() ==> !extends(kind, s[run_end(s, i, kind)]),
    decreases s.len() - i,
{
    if i < s.len() && extends(kind, s[i]) {
        lemma_run_contents(s, i + 1, kind);
    }
}

/// The token at `i` is well formed, and the token after it may follow it.
proof fn lemma_next_token_shape(s: Seq<char>, i: int)
    requires
        0 <= i < s.len(),
    ensures
        token_well_formed(next_token(s, i).0),
        next_token(s, i).1 < s.len() ==> may_follow(
            next_token(s, i).0,
            next_token(s, next_token(s, i).1).0,
        ),
{
    let (t, j) = next_token(s, i);
    lemma_run_end_bounds(s, i, Run::Digits);
    lemma_run_end_bounds(s, i, Run::Word);
    lemma_run_end_bounds(s, i, Run::Space);
    lemma_run_contents(s, i, Run::Digits);
    lemma_run_contents(s, i, Run::Word);
    lemma_run_contents(s, i, Run::Space);
    match t {
        TokenView::Number(w) => {
            assert forall|k: int| 0 <= k < w.len() implies extends(Run::Digits, #[trigger] w[k]) by {
                assert(w[k] == s[i + k]);
            }
        },
        TokenView::Text(w) => {
            assert(w[0] == s[i]);
            assert forall|k: int| 0 <= k < w.len() implies extends(Run::Word, #[trigger] w[k]) by {
                assert(w[k] == s[i + k]);
            }
        },
        TokenView::Whitespace(w) => {
            assert forall|k: int| 0 <= k < w.len() implies extends(Run::Space, #[trigger] w[k]) by {
                assert(w[k] == s[i + k]);
            }
        },
        _ => {},
    }
    if j < s.len() {
        lemma_run_end_bounds(s, j, Run::Digits);
    }
}

proof fn lemma_lex_from_shapes(s: Seq<char>, i: int)
    requires
        0 <= i <= s.len(),
    ensures
        lex_from(s, i)[0] == (if i < s.len() {
            next_token(s, i).0
        } else {
            TokenView::Eof
        }),
        forall|k: int| 0 <= k < lex_from(s, i).len() ==> token_well_formed(#[trigger] lex_from(s, i)[k]),
        forall|k: int|
            0 <= k < lex_from(s, i).len() - 1 ==> may_follow(
                #[trigger] lex_from(s, i)[k],
                lex_from(s, i)[k + 1],
            ),
    decreases s.len() - i,
{
    if i < s.len() {
        let (t, j) = next_token(s, i);
        lemma_next_token_advances(s, i);
        lemma_next_token_shape(s, i);
        lemma_lex_from_shapes(s, j);
        let rest = lex_from(s, j);
        let all = seq![t] + rest;
        assert(lex_from(s, i) == all);
        assert forall|k: int| 0 <= k < all.len() implies token_well_formed(#[trigger] all[k]) by {
            if k > 0 {
                assert(all[k] == rest[k - 1]);
            }
        }
        assert forall|k: int| 0 <= k < all.len() - 1 implies may_follow(
            #[trigger] all[k],
            all[k + 1],
        ) by {
            if k > 0 {
                assert(all[k] == rest[k - 1]);
                assert(all[k + 1] == rest[k]);
            } else {
                assert(all[1] == rest[0]);
            }
        }
    }
}

/// Every token of the lexer's output is well formed, and each may follow the
/// one before it.
pub proof fn lemma_lex_token_shapes(s: Seq<char>)
    ensures
        forall|k: int| 0 <= k < lex(s).len() ==> token_well_formed(#[trigger] lex(s)[k]),
        forall|k: int| 0 <= k < lex(s).len() - 1 ==> may_follow(#[trigger] lex(s)[k], lex(s)[k + 1]),
{
    lemma_lex_from_shapes(s, 0);
}

// Lexing after a prefix, and lexing a prefix that something follows.

proof fn lemma_run_end_shift(pre: Seq<char>, u: Seq<char>, i: int, kind: Run)
    requires
        0 <= i,
    ensures
        run_end(pre + u, i + pre.len(), kind) == run_end(u, i, kind) + pre.len(),
    decreases u.len() - i,
{
    let k = pre.len() as int;
    if i < u.len() {
        assert((pre + u)[i + k] == u[i]);
        if extends(kind, u[i]) {
            lemma_run_end_shift(pre, u, i + 1, kind);
            assert(i + 1 + k == i + k + 1);
        }
    }
}

proof fn lemma_next_token_shift(pre: Seq<char>, u: Seq<char>, i: int)
    requires
        0 <= i < u.len(),
    ensures
        next_token(pre + u, i + pre.len()) == (
            next_token(u, i).0,
            next_token(u, i).1 + pre.len(),
        ),
{
    let k = pre.len() as int;
    let s = pre + u;
    assert(s[i + k] == u[i]);
    if i + 1 < u.len() {
        assert(s[i + k + 1] == u[i + 1]);
    }
    lemma_run_end_shift(pre, u, i, Run::Digits);
    lemma_run_end_shift(pre, u, i, Run::Word);
    lemma_run_end_shift(pre, u, i, Run::Space);
    lemma_run_end_bounds(u, i, Run::Digits);
    lemma_run_end_bounds(u, i, Run::Word);
    lemma_run_end_bounds(u, i, Run::Space);
    let j = next_token(u, i).1;
    lemma_next_token_advances(u, i);
    assert(s.subrange(i + k, j + k) =~= u.subrange(i, j));
}

/// Lexing what follows a prefix gives the tokens of that part alone.
pub proof fn lemma_lex_from_shift(pre: Seq<char>, u: Seq<char>, i: int)
    requires
        0 <= i,
    ensures
        lex_from(pre + u, i + pre.len()) == lex_from(u, i),
    decreases u.len() - i,
{
    let k = pre.len() as int;
    if i < u.len() {
        lemma_next_token_shift(pre, u, i);
        lemma_next_token_advances(u, i);
        lemma_lex_from_shift(pre, u, next_token(u, i).1);
    }
}

proof fn lemma_run_end_prefix(a: Seq<char>, c: Seq<char>, i: int, kind: Run)
    requires
        0 <= i <= a.len(),
        c.len() >= 1,
        run_end(a, i, kind) < a.len() || !extends(kind, c[0]),
    ensures
        run_end(a + c, i, kind) == run_end(a, i, kind),
    decreases a.len() - i,
{
    if i < a.len() {
        assert((a + c)[i] == a[i]);
        if extends(kind, a[i]) {
            lemma_run_end_prefix(a, c, i + 1, kind);
        }
    } else {
        assert((a + c)[i] == c[0]);
    }
}

/// Whether a run of kind `kind` that starts inside `a` stops before or at the
/// end of `a` when `c` follows.
proof fn lemma_next_token_prefix(a: Seq<char>, c: Seq<char>, i: int)
    requires
        0 <= i < a.len(),
        c.len() >= 1,
        c[0] == ' ',
        !whitespace(a.last()),
    ensures
        next_token(a + c, i) == next_token(a, i),
{
    let s = a + c;
    assert(s[i] == a[i]);
    if i + 1 < a.len() {
        assert(s[i + 1] == a[i + 1]);
    } else {
        assert(s[i + 1] == c[0]);
    }
    lemma_run_end_bounds(a, i, Run::Space);
    lemma_run_contents(a, i, Run::Space);
    if run_end(a, i, Run::Space) == a.len() && i < a.len() && extends(Run::Space, a[i]) {
        assert(extends(Run::Space, a[a.len() - 1]));
    }
    lemma_run_end_prefix(a, c, i, Run::Digits);
    lemma_run_end_prefix(a, c, i, Run::Word);
    if extends(Run::Space, a[i]) {
        lemma_run_end_prefix(a, c, i, Run::Space);
    }
    lemma_run_end_bounds(a, i, Run::Digits);
    lemma_run_end_bounds(a, i, Run::Word);
    lemma_next_token_advances(a, i);
    let j = next_token(a, i).1;
    assert(s.subrange(i, j) =~= a.subrange(i, j));
}

/// When a space follows text that does not end in white space, the tokens of
/// that text come first, unchanged, then the tokens of the rest.
pub proof fn lemma_lex_from_prefix(a: Seq<char>, c: Seq<char>, i: int)
    requires
        0 <= i <= a.len(),
        c.len() >= 1,
        c[0] == ' ',
        a.len() >= 1,
        !whitespace(a.last()),
    ensures
        lex_from(a + c, i) == lex_from(a, i).drop_last() + lex_from(a + c, a.len() as int),
    decreases a.len() - i,
{
    if i < a.len() {
        lemma_next_token_prefix(a, c, i);
        lemma_next_token_advances(a, i);
        let (t, j) = next_token(a, i);
        lemma_lex_from_prefix(a, c, j);
        lemma_lex_from_lossless(a, j);
        let rest = lex_from(a, j);
        assert((seq![t] + rest).drop_last() =~= seq![t] + rest.drop_last());
        assert(seq![t] + (rest.drop_last() + lex_from(a + c, a.len() as int)) =~= (seq![t]
            + rest.drop_last()) + lex_from(a + c, a.len() as int));
    } else {
        assert(lex_from(a, i) == seq![TokenView::Eof]);
        assert(seq![TokenView::Eof].drop_last() =~= Seq::<TokenView>::empty());
        assert(Seq::<TokenView>::empty() + lex_from(a + c, i) =~= lex_from(a + c, i));
    }
}

/// The tokens of `a`, space, `||`, space, `b`: those of `a` without its end,
/// white space, `||`, white space, and those of `b`.
pub proof fn lemma_lex_or_joined(a: Seq<char>, b: Seq<char>)
    requires
        a.len() >= 1,
        !whitespace(a.last()),
        b.len() >= 1,
        !whitespace(b[0]),
    ensures
        lex(a + seq![' ', '|', '|', ' '] + b) == lex(a).drop_last() + seq![
            TokenView::Whitespace(seq![' ']),
            TokenView::LogicalOr,
            TokenView::Whitespace(seq![' ']),
        ] + lex(b),
{
    let sep = seq![' ', '|', '|', ' '];
    let n = a.len() as int;
    let s = a + sep + b;
    let c = sep + b;
    assert(s =~= a + c);
    assert(c[0] == ' ');
    lemma_lex_from_prefix(a, c, 0);
    // The separator.
    assert(s[n] == ' ' && s[n + 1] == '|' && s[n + 2] == '|' && s[n + 3] == ' ');
    assert(s[n + 4] == b[0]);
    assert(run_end(s, n + 2, Run::Space) == n + 2);
    assert(run_end(s, n + 1, Run::Space) == n + 1);
    assert(run_end(s, n, Run::Space) == n + 1);
    assert(s.subrange(n, n + 1) =~= seq![' ']);
    assert(next_token(s, n) == (TokenView::Whitespace(seq![' ']), n + 1));
    assert(next_token(s, n + 1) == (TokenView::LogicalOr, n + 3));
    assert(run_end(s, n + 4, Run::Space) == n + 4);
    assert(run_end(s, n + 3, Run::Space) == n + 4);
    assert(s.subrange(n + 3, n + 4) =~= seq![' ']);
    assert(next_token(s, n + 3) == (TokenView::Whitespace(seq![' ']), n + 4));
    lemma_lex_from_shift(a + sep, b, 0);
    assert((a + sep).len() == n + 4);
    assert(lex_from(s, n + 4) == lex(b));
    assert(lex_from(s, n + 3) == seq![TokenView::Whitespace(seq![' '])] + lex(b));
    assert(lex_from(s, n + 1) == seq![TokenView::LogicalOr] + lex_from(s, n + 3));
    assert(lex_from(s, n) == seq![TokenView::Whitespace(seq![' '])] + lex_from(s, n + 1));
    assert(lex_from(s, n) =~= seq![
        TokenView::Whitespace(seq![' ']),
        TokenView::LogicalOr,
        TokenView::Whitespace(seq![' ']),
    ] + lex(b));
    assert(lex(a).drop_last() + (seq![
        TokenView::Whitespace(seq![' ']),
        TokenView::LogicalOr,
        TokenView::Whitespace(seq![' ']),
    ] + lex(b)) =~= lex(a).drop_last() + seq![
        TokenView::Whitespace(seq![' ']),
        TokenView::LogicalOr,
        TokenView::Whitespace(seq![' ']),
    ] + lex(b));
}

// Lexing numbers and identifiers.

/// A run of characters that all extend `kind`, closed by the end of the input
/// or by one that does not, is where a token of that kind ends.
proof fn lemma_run_end_at(s: Seq<char>, i: int, j: int, kind: Run)
    requires
        0 <= i <= j <= s.len(),
        forall|k: int| i <= k < j ==> extends(kind, #[trigger] s[k]),
        j == s.len() || !extends(kind, s[j]),
    ensures
        run_end(s, i, kind) == j,
    decreases j - i,
{
    if i < j {
        lemma_run_end_at(s, i + 1, j, kind);
    }
}

/// The digits `d` at position `i` of `s`, not followed by another digit, are
/// one number token.
proof fn lemma_number_token(s: Seq<char>, i: int, d: Seq<char>)
    requires
        0 <= i,
        i + d.len() <= s.len(),
        d.len() >= 1,
        all_ascii_digits(d),
        s.subrange(i, i + d.len()) == d,
        i + d.len() == s.len() || !ascii_digit(s[i + d.len()]),
    ensures
        next_token(s, i) == (TokenView::Number(d), i + d.len()),
{
    let j = i + d.len();
    assert forall|k: int| i <= k < j implies extends(Run::Digits, #[trigger] s[k]) by {
        assert(s[k] == s.subrange(i, j)[k - i]);
    }
    assert(s[i] == d[0]);
    lemma_run_end_at(s, i, j, Run::Digits);
}

/// Three numerals joined by dots, then text `u` that does not start with a
/// digit, are lexed as number, dot, number, dot, number, then the tokens of `u`.
pub proof fn lemma_lex_dotted_numbers(a: Seq<char>, b: Seq<char>, c: Seq<char>, u: Seq<char>)
    requires
        a.len() >= 1,
        b.len() >= 1,
        c.len() >= 1,
        all_ascii_digits(a),
        all_ascii_digits(b),
        all_ascii_digits(c),
        u.len() == 0 || !ascii_digit(u[0]),
    ensures
        lex(a + seq!['.'] + b + seq!['.'] + c + u) == seq![
            TokenView::Number(a),
            TokenView::Dot,
            TokenView::Number(b),
            TokenView::Dot,
            TokenView::Number(c),
        ] + lex(u),
{
    let pre = a + seq!['.'] + b + seq!['.'] + c;
    let s = pre + u;
    let i1 = a.len() as int;
    let i2 = i1 + 1 + b.len();
    let n = pre.len() as int;
    assert(s =~= a + seq!['.'] + b + seq!['.'] + c + u);
    assert(s.subrange(0, i1) =~= a);
    assert(s[i1] == '.');
    assert(s.subrange(i1 + 1, i2) =~= b);
    assert(s[i2] == '.');
    assert(s.subrange(i2 + 1, n) =~= c);
    if u.len() > 0 {
        assert(s[n] == u[0]);
    }
    lemma_number_token(s, 0, a);
    lemma_number_token(s, i1 + 1, b);
    lemma_number_token(s, i2 + 1, c);
    lemma_lex_from_shift(pre, u, 0);
    assert(lex_from(s, n) == lex(u));
    assert(lex_from(s, i2 + 1) == seq![TokenView::Number(c)] + lex(u));
    assert(lex_from(s, i2) == seq![TokenView::Dot] + lex_from(s, i2 + 1));
    assert(lex_from(s, i1 + 1) == seq![TokenView::Number(b)] + lex_from(s, i2));
    assert(lex_from(s, i1) == seq![TokenView::Dot] + lex_from(s, i1 + 1));
    assert(lex_from(s, 0) == seq![TokenView::Number(a)] + lex_from(s, i1));
    assert(lex_from(s, 0) =~= seq![
        TokenView::Number(a),
        TokenView::Dot,
        TokenView::Number(b),
        TokenView::Dot,
        TokenView::Number(c),
    ] + lex(u));
}

/// Two numerals joined by a dot, then text `u` that does not start with a
/// digit, are lexed as number, dot, number, then the tokens of `u`.
pub proof fn lemma_lex_dotted_pair(a: Seq<char>, b: Seq<char>, u: Seq<char>)
    requires
        a.len() >= 1,
        b.len() >= 1,
        all_ascii_digits(a),
        all_ascii_digits(b),
        u.len() == 0 || !ascii_digit(u[0]),
    ensures
        lex(a + seq!['.'] + b + u) == seq![
            TokenView::Number(a),
            TokenView::Dot,
            TokenView::Number(b),
        ] + lex(u),
{
    let pre = a + seq!['.'] + b;
    let s = pre + u;
    let i1 = a.len() as int;
    let n = pre.len() as int;
    assert(s =~= a + seq!['.'] + b + u);
    assert(s.subrange(0, i1) =~= a);
    assert(s[i1] == '.');
    assert(s.subrange(i1 + 1, n) =~= b);
    if u.len() > 0 {
        assert(s[n] == u[0]);
    }
    lemma_number_token(s, 0, a);
    lemma_number_token(s, i1 + 1, b);
    lemma_lex_from_shift(pre, u, 0);
    assert(lex_from(s, n) == lex(u));
    assert(lex_from(s, i1 + 1) == seq![TokenView::Number(b)] + lex(u));
    assert(lex_from(s, i1) == seq![TokenView::Dot] + lex_from(s, i1 + 1));
    assert(lex_from(s, 0) == seq![TokenView::Number(a)] + lex_from(s, i1));
    assert(lex_from(s, 0) =~= seq![
        TokenView::Number(a),
        TokenView::Dot,
        TokenView::Number(b),
    ] + lex(u));
}

/// A character that is not a digit, a letter, white space, or the start of
/// `||`, `>=` or `<=` is a token of its own, and what follows it is lexed as
/// if it stood alone.
pub proof fn lemma_lex_after_char(c: char, u: Seq<char>)
    requires
        !ascii_digit(c),
        !alphabetic(c),
        !whitespace(c),
        c != '|' && c != '>' && c != '<',
    ensures
        lex(seq![c] + u) == seq![next_token(seq![c], 0).0] + lex(u),
        next_token(seq![c], 0).1 == 1,
{
    let s = seq![c] + u;
    assert(s[0] == c);
    assert(s.subrange(0, 1) =~= seq![c].subrange(0, 1));
    lemma_lex_from_shift(seq![c], u, 0);
    assert(next_token(s, 0) == next_token(seq![c], 0));
}

/// Text of digits and letters followed by a dot: its tokens come first,
/// unchanged, then those from the dot on.
pub proof fn lemma_lex_identifier_then_dot(a: Seq<char>, c: Seq<char>, i: int)
    requires
        0 <= i <= a.len(),
        forall|k: int| 0 <= k < a.len() ==> ascii_digit(#[trigger] a[k]) || alphabetic(a[k]),
        c.len() >= 1,
        c[0] == '.',
    ensures
        lex_from(a + c, i) == lex_from(a, i).drop_last() + lex_from(a + c, a.len() as int),
    decreases a.len() - i,
{
    let s = a + c;
    if i < a.len() {
        assert(s[i] == a[i]);
        assert(ascii_digit(a[i]) || alphabetic(a[i]));
        lemma_run_end_prefix(a, c, i, Run::Digits);
        lemma_run_end_prefix(a, c, i, Run::Word);
        lemma_run_end_bounds(a, i, Run::Digits);
        lemma_run_end_bounds(a, i, Run::Word);
        lemma_next_token_advances(a, i);
        let (t, j) = next_token(a, i);
        assert(s.subrange(i, j) =~= a.subrange(i, j));
        assert(next_token(s, i) == next_token(a, i));
        lemma_lex_identifier_then_dot(a, c, j);
        lemma_lex_from_lossless(a, j);
        let rest = lex_from(a, j);
        assert((seq![t] + rest).drop_last() =~= seq![t] + rest.drop_last());
        assert(seq![t] + (rest.drop_last() + lex_from(s, a.len() as int)) =~= (seq![t]
            + rest.drop_last()) + lex_from(s, a.len() as int));
    } else {
        assert(lex_from(a, i) == seq![TokenView::Eof]);
        assert(seq![TokenView::Eof].drop_last() =~= Seq::<TokenView>::empty());
        assert(Seq::<TokenView>::empty() + lex_from(s, i) =~= lex_from(s, i));
    }
}

/// Text made of digits and alphabetic characters only is lexed as number and
/// text tokens, then the end.
pub proof fn lemma_lex_identifier_chars(s: Seq<char>, i: int)
    requires
        0 <= i <= s.len(),
        forall|k: int| i <= k < s.len() ==> ascii_digit(#[trigger] s[k]) || alphabetic(s[k]),
    ensures
        forall|k: int|
            0 <= k < lex_from(s, i).len() - 1 ==> (#[trigger] lex_from(s, i)[k] is Number
                || lex_from(s, i)[k] is Text),
    decreases s.len() - i,
{
    if i < s.len() {
        let (t, j) = next_token(s, i);
        lemma_next_token_advances(s, i);
        lemma_lex_identifier_chars(s, j);
        assert(ascii_digit(s[i]) || alphabetic(s[i]));
        assert(t is Number || t is Text);
        let all = seq![t] + lex_from(s, j);
        assert forall|k: int| 0 <= k < all.len() - 1 implies (#[trigger] all[k] is Number
            || all[k] is Text) by {
            if k > 0 {
                assert(all[k] == lex_from(s, j)[k - 1]);
            }
        }
    }
}

/// Turns an input string into tokens.
pub struct Lexer {
    position: usize,
}

/// Decides `extends(kind, c)`.
fn extends_run(kind: Run, c: char) -> (r: bool)
    ensures
        r == extends(kind, c),
{
    match kind {
        Run::Digits => is_ascii_digit(c),
        Run::Word => is_alphabetic(c) || c == '-' || c == ':' || c == '/',
        Run::Space => is_whitespace(c),
    }
}

impl Lexer {
    /// The position the lexer has reached, in characters.
    pub closed spec fn cursor(&self) -> nat {
        self.position as nat
    }

    pub fn new() -> (r: Self)
        ensures
            r.cursor() == 0,
    {
        Self { position: 0 }
    }

    fn peek(&self, chars: &Vec<char>) -> (r: Option<char>)
        ensures
            r == (if self.position < chars.len() {
                Some(chars@[self.position as int])
            } else {
                None::<char>
            }),
    {
        if self.position < chars.len() {
            Some(chars[self.position])
        } else {
            None
        }
    }

    fn advance(&mut self, chars: &Vec<char>) -> (r: Option<char>)
        ensures
            old(self).position < chars.len() ==> r == Some(chars@[old(self).position as int])
                && final(self).position == old(self).position + 1,
            old(self).position >= chars.len() ==> r == None::<char> && final(self).position
                == old(self).position,
    {
        match self.peek(chars) {
            Some(c) => {
                self.position = self.position + 1;
                Some(c)
            },
            None => None,
        }
    }

    /// Consumes the longest run of characters of kind `kind` and returns it.
    fn consume_while<'a>(&mut self, input: &'a str, chars: &Vec<char>, kind: Run) -> (r: &'a str)
        requires
            chars@ == input@,
            old(self).position <= chars.len(),
        ensures
            final(self).position == run_end(input@, old(self).position as int, kind),
            r@ == input@.subrange(old(self).position as int, final(self).position as int),
    {
        let start = self.position;
        loop
            invariant
                chars@ == input@,
                start <= self.position <= chars.len(),
                run_end(input@, start as int, kind) == run_end(
                    input@,
                    self.position as int,
                    kind,
                ),
            ensures
                self.position == run_end(input@, start as int, kind),
                start <= self.position <= chars.len(),
            decreases chars.len() - self.position,
        {
            match self.peek(chars) {
                Some(c) => {
                    if !extends_run(kind, c) {
                        break;
                    }
                    self.advance(chars);
                },
                None => {
                    break;
                },
            }
        }
        input.substring_char(start, self.position)
    }

    /// Consumes `expected` if it comes next.
    fn matches(&mut self, chars: &Vec<char>, expected: char) -> (r: bool)
        ensures
            r == (old(self).position < chars.len() && chars@[old(self).position as int]
                == expected),
            final(self).position == if r {
                old(self).position + 1
            } else {
                old(self).position as int
            },
    {
        match self.peek(chars) {
            Some(c) => {
                if c == expected {
                    self.advance(chars);
                    true
                } else {
                    false
                }
            },
            None => false,
        }
    }

    /// The tokens of `input`, closed by `Eof`.
    pub fn parse<'a>(&mut self, input: &'a str) -> (r: Vec<Token<'a>>)
        requires
            lexable(input@),
        ensures
            token_views(r@) == lex(input@),
            final(self).cursor() == input@.len(),
    {
        self.position = 0;
        let chars = chars_of(input);
        let mut tokens: Vec<Token<'a>> = Vec::new();
        let ghost s = input@;
        while self.position < chars.len()
            invariant
                chars@ == s,
                s == input@,
                self.position <= chars.len(),
                token_views(tokens@) + lex_from(s, self.position as int) == lex(s),
            decreases chars.len() - self.position,
        {
            let ghost i = self.position as int;
            let ghost before = tokens@;
            let c = self.peek(&chars).unwrap();
            let ghost (t, j) = next_token(s, i);
            proof {
                lemma_next_token_advances(s, i);
                lemma_run_end_bounds(s, i, Run::Digits);
                lemma_run_end_bounds(s, i, Run::Word);
                lemma_run_end_bounds(s, i, Run::Space);
            }
            if is_ascii_digit(c) {
                let number = self.consume_while(input, &chars, Run::Digits);
                tokens.push(Token::Number(number));
            } else if is_alphabetic(c) {
                let text = self.consume_while(input, &chars, Run::Word);
                tokens.push(Token::Text(text));
            } else if is_whitespace(c) {
                let spaces = self.consume_while(input, &chars, Run::Space);
                tokens.push(Token::Whitespace(spaces));
            } else if c == '.' {
                tokens.push(Token::Dot);
                self.advance(&chars);
            } else if c == '~' {
                tokens.push(Token::Tilde);
                self.advance(&chars);
            } else if c == '^' {
                tokens.push(Token::Caret);
                self.advance(&chars);
            } else if c == '*' {
                tokens.push(Token::Wildcard);
                self.advance(&chars);
            } else if c == '-' {
                tokens.push(Token::Dash);
                self.advance(&chars);
            } else if c == '+' {
                tokens.push(Token::Plus);
                self.advance(&chars);
            } else if c == '=' {
                tokens.push(Token::Comparator(Comparator::Eq));
                self.advance(&chars);
            } else if c == '|' {
                let start = self.position;
                self.advance(&chars);
                if self.matches(&chars, '|') {
                    tokens.push(Token::LogicalOr);
                } else {
                    tokens.push(Token::Unknown(input.substring_char(start, self.position)));
                }
            } else if c == '>' {
                self.advance(&chars);
                let condition = if self.matches(&chars, '=') {
                    Comparator::Gte
                } else {
                    Comparator::Gt
                };
                tokens.push(Token::Comparator(condition));
            } else if c == '<' {
                self.advance(&chars);
                let condition = if self.matches(&chars, '=') {
                    Comparator::Lte
                } else {
                    Comparator::Lt
                };
                tokens.push(Token::Comparator(condition));
            } else {
                tokens.push(Token::Unknown(input.substring_char(self.position, self.position + 1)));
                self.advance(&chars);
            }
            proof {
                assert(self.position == j);
                assert(tokens@ =~= before.push(tokens@.last()));
                assert(tokens@.last()@ == t);
                assert(token_views(tokens@) =~= token_views(before).push(t));
                assert(lex_from(s, i) == seq![t] + lex_from(s, j));
                assert(token_views(tokens@) + lex_from(s, j) =~= token_views(before) + lex_from(
                    s,
                    i,
                ));
            }
        }
        tokens.push(Token::Eof);
        proof {
            assert(lex_from(s, self.position as int) == seq![TokenView::Eof]);
            assert(token_views(tokens@) =~= lex(s));
        }
        tokens
    }
}

/// Decides `lexable`: whether the lexer handles `input` without panicking.
pub fn is_lexable(input: &str) -> (r: bool)
    ensures
        r == lexable(input@),
{
    let chars = chars_of(input);
    let mut i: usize = 0;
    while i < chars.len()
        invariant
            chars@ == input@,
            i <= chars.len(),
            forall|k: int| 0 <= k < i ==> !breaks_lexer(#[trigger] chars@[k]),
        decreases chars.len() - i,
    {
        let c = chars[i];
        let known = is_ascii_digit(c) || is_alphabetic(c) || is_whitespace(c) || c == '.' || c
            == '~' || c == '^' || c == '*' || c == '-' || c == '+' || c == '=' || c == '|' || c
            == '>' || c == '<';
        if !known && (c as u32) >= 128 {
            assert(breaks_lexer(chars@[i as int]));
            return false;
        }
        i = i + 1;
    }
    true
}

} // verus!
