//! Character classes and decimal numerals, as the lexer and the parser read them.

use vstd::prelude::*;

verus! {

/// What `char::is_alphabetic` answers for `c`: whether `c` has the Unicode
/// `Alphabetic` property. The contracts rely on it only beyond ASCII.
pub uninterp spec fn unicode_alphabetic(c: char) -> bool;

/// What `char::is_alphabetic` answers: among ASCII characters exactly the
/// letters, beyond ASCII the Unicode `Alphabetic` property.
pub open spec fn alphabetic(c: char) -> bool {
    if (c as u32) < 128 {
        ('a' <= c && c <= 'z') || ('A' <= c && c <= 'Z')
    } else {
        unicode_alphabetic(c)
    }
}

/// Calls `char::is_alphabetic`. Its source answers ASCII characters itself
/// (`'a'..='z' | 'A'..='Z'`) and looks other characters up in the Unicode
/// `Alphabetic` table; the contract states the first and only names the
/// second (`unicode_alphabetic`), whose table is not restated here.
#[verifier::external_body]
pub(crate) fn is_alphabetic(c: char) -> (r: bool)
    ensures
        (c as u32) < 128 ==> (r <==> (('a' <= c && c <= 'z') || ('A' <= c && c <= 'Z'))),
        (c as u32) >= 128 ==> r == unicode_alphabetic(c),
{
    c.is_alphabetic()
}

/// What `char::is_whitespace` answers: whether `c` has the Unicode
/// `White_Space` property, which these 25 code points have.
pub open spec fn whitespace(c: char) -> bool {
    ||| ('\u{9}' <= c && c <= '\u{d}')
    ||| c == ' '
    ||| c == '\u{85}'
    ||| c == '\u{a0}'
    ||| c == '\u{1680}'
    ||| ('\u{2000}' <= c && c <= '\u{200a}')
    ||| c == '\u{2028}'
    ||| c == '\u{2029}'
    ||| c == '\u{202f}'
    ||| c == '\u{205f}'
    ||| c == '\u{3000}'
}

/// `char::is_whitespace`, written out from the `White_Space` list.
pub(crate) fn is_whitespace(c: char) -> (r: bool)
    ensures
        r == whitespace(c),
{
    ('\u{9}' <= c && c <= '\u{d}') || c == ' ' || c == '\u{85}' || c == '\u{a0}' || c
        == '\u{1680}' || ('\u{2000}' <= c && c <= '\u{200a}') || c == '\u{2028}' || c
        == '\u{2029}' || c == '\u{202f}' || c == '\u{205f}' || c == '\u{3000}'
}

/// `'0'..='9'`, as `char::is_ascii_digit` decides it.
pub open spec fn ascii_digit(c: char) -> bool {
    '0' <= c && c <= '9'
}

pub(crate) fn is_ascii_digit(c: char) -> (r: bool)
    ensures
        r == ascii_digit(c),
{
    '0' <= c && c <= '9'
}

/// Every character of `s` is an ASCII digit (true of the empty sequence).
pub open spec fn all_ascii_digits(s: Seq<char>) -> bool {
    forall|i: int| 0 <= i < s.len() ==> ascii_digit(#[trigger] s[i])
}

pub open spec fn digit_value(c: char) -> nat {
    ((c as u32) - ('0' as u32)) as nat
}

/// The number that the digits of `s` spell in base ten.
pub open spec fn decimal_value(s: Seq<char>) -> nat
    decreases s.len(),
{
    if s.len() == 0 {
        0
    } else {
        decimal_value(s.drop_last()) * 10 + digit_value(s.last())
    }
}

/// What `str::parse::<u32>` gives for a string: an optional leading `+`,
/// then one or more ASCII digits whose value fits in a `u32`.
pub open spec fn parse_u32(s: Seq<char>) -> Option<u32> {
    let digits = if s.len() > 1 && s[0] == '+' {
        s.drop_first()
    } else {
        s
    };
    if digits.len() > 0 && all_ascii_digits(digits) && decimal_value(digits) <= u32::MAX {
        Some(decimal_value(digits) as u32)
    } else {
        None
    }
}

/// Appending digits never makes a numeral smaller.
proof fn lemma_decimal_value_grows(s: Seq<char>, i: int, j: int)
    requires
        0 <= i <= j <= s.len(),
        all_ascii_digits(s),
    ensures
        decimal_value(s.take(i)) <= decimal_value(s.take(j)),
    decreases j - i,
{
    if i < j {
        lemma_decimal_value_grows(s, i, j - 1);
        assert(s.take(j).drop_last() =~= s.take(j - 1));
    }
}

/// The characters of `s`, one per element.
pub(crate) fn chars_of(s: &str) -> (r: Vec<char>)
    ensures
        r@ == s@,
{
    let mut out: Vec<char> = Vec::new();
    for c in it: s.chars()
        invariant
            out@ == it.seq().take(it.index() as int),
            it.seq() == s@,
    {
        out.push(c);
    }
    out
}

/// Whether every character of `s` is an ASCII digit.
pub(crate) fn is_all_ascii_digits(s: &str) -> (r: bool)
    ensures
        r == all_ascii_digits(s@),
{
    let chars = chars_of(s);
    let mut i: usize = 0;
    while i < chars.len()
        invariant
            chars@ == s@,
            i <= chars.len(),
            all_ascii_digits(chars@.take(i as int)),
        decreases chars.len() - i,
    {
        if !is_ascii_digit(chars[i]) {
            assert(!ascii_digit(chars@[i as int]));
            return false;
        }
        assert(all_ascii_digits(chars@.take(i + 1))) by {
            assert forall|k: int| 0 <= k < i + 1 implies ascii_digit(#[trigger] chars@.take(i + 1)[k]) by {
                if k < i {
                    assert(chars@.take(i + 1)[k] == chars@.take(i as int)[k]);
                }
            }
        }
        i = i + 1;
    }
    assert(chars@.take(i as int) =~= chars@);
    true
}

/// `str::parse::<u32>`, written out: an optional `+`, then decimal digits
/// whose value must fit in a `u32`.
pub(crate) fn parse_decimal_u32(s: &str) -> (r: Option<u32>)
    ensures
        r == parse_u32(s@),
{
    let chars = chars_of(s);
    let start: usize = if chars.len() > 1 && chars[0] == '+' {
        1
    } else {
        0
    };
    let ghost digits = if s@.len() > 1 && s@[0] == '+' {
        s@.drop_first()
    } else {
        s@
    };
    assert(digits =~= chars@.subrange(start as int, chars@.len() as int));
    if start == chars.len() {
        return None;
    }
    let mut value: u32 = 0;
    let mut i: usize = start;
    while i < chars.len()
        invariant
            chars@ == s@,
            start <= i <= chars.len(),
            start < chars.len(),
            digits == (if s@.len() > 1 && s@[0] == '+' {
                s@.drop_first()
            } else {
                s@
            }),
            digits =~= chars@.subrange(start as int, chars@.len() as int),
            all_ascii_digits(digits.take(i - start)),
            value == decimal_value(digits.take(i - start)),
        decreases chars.len() - i,
    {
        let c = chars[i];
        if !is_ascii_digit(c) {
            assert(!ascii_digit(digits[i - start]));
            assert(!all_ascii_digits(digits));
            return None;
        }
        let d: u32 = (c as u32) - ('0' as u32);
        let ghost n = (i - start) as int;
        proof {
            assert(digits.take(n + 1).drop_last() =~= digits.take(n));
            assert(digits.take(n + 1).last() == c);
            assert(all_ascii_digits(digits.take(n + 1))) by {
                assert forall|k: int| 0 <= k < n + 1 implies ascii_digit(#[trigger] digits.take(n + 1)[k]) by {
                    if k < n {
                        assert(digits.take(n + 1)[k] == digits.take(n)[k]);
                    }
                }
            }
        }
        let next = match value.checked_mul(10) {
            Some(m) => m.checked_add(d),
            None => None,
        };
        match next {
            Some(v) => {
                value = v;
            },
            None => {
                proof {
                    assert(decimal_value(digits.take(n + 1)) > u32::MAX);
                    if all_ascii_digits(digits) {
                        lemma_decimal_value_grows(digits, n + 1, digits.len() as int);
                        assert(digits.take(digits.len() as int) =~= digits);
                        assert(decimal_value(digits) > u32::MAX);
                    }
                }
                return None;
            },
        }
        i = i + 1;
    }
    assert(digits.take(i - start) =~= digits);
    Some(value)
}

/// Whether `s` is `0` followed by at least one more character.
pub(crate) fn has_leading_zero(s: &str) -> (r: bool)
    ensures
        r == (s@.len() > 1 && s@[0] == '0'),
{
    let n = s.unicode_len();
    n > 1 && s.get_char(0) == '0'
}

} // verus!
