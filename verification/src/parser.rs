//! Turns tokens into versions and version ranges.

use vstd::prelude::*;
use std::borrow::Cow;
use crate::lexer::{joined_text, token_text, token_views, Comparator as LexerComparator, Token, TokenView};
use crate::desugar::{desugar, desugar_overflows, desugar_would_overflow, lemma_desugar_gives_comparators};
use crate::text::{
    all_ascii_digits, has_leading_zero, is_all_ascii_digits, parse_decimal_u32, parse_u32,
};

verus! {

/// A version component that may be a numeric value or a wildcard.
/// Used for major, minor, and patch components.
#[derive(Debug, PartialEq, Eq, Clone, Copy)]
pub enum VersionComponent {
    Number(u32),
    Wildcard,
}

/// A SemVer identifier used in pre-release and build metadata.
/// Identifiers can be numeric or alphanumeric.
#[derive(Debug, PartialEq, Eq)]
pub enum Identifier<'a> {
    Number(u32),
    Text(Cow<'a, str>),
}

/// An identifier with its text as a sequence of characters.
pub enum IdentifierView {
    Number(u32),
    Text(Seq<char>),
}

impl<'a> View for Identifier<'a> {
    type V = IdentifierView;

    open spec fn view(&self) -> IdentifierView {
        match self {
            Identifier::Number(n) => IdentifierView::Number(*n),
            Identifier::Text(t) => IdentifierView::Text(t@),
        }
    }
}

pub open spec fn identifier_views<'a>(ids: Seq<Identifier<'a>>) -> Seq<IdentifierView> {
    ids.map_values(|i: Identifier<'a>| i@)
}

/// A version that hasn't been desugared yet, contains wildcards
#[derive(Debug, PartialEq, Eq)]
pub struct PartialVersion<'a> {
    pub major: VersionComponent,
    pub minor: VersionComponent,
    pub patch: VersionComponent,
    pub pre_release: Vec<Identifier<'a>>,
    pub build: Vec<Identifier<'a>>,
}

pub struct PartialVersionView {
    pub major: VersionComponent,
    pub minor: VersionComponent,
    pub patch: VersionComponent,
    pub pre_release: Seq<IdentifierView>,
    pub build: Seq<IdentifierView>,
}

impl<'a> View for PartialVersion<'a> {
    type V = PartialVersionView;

    open spec fn view(&self) -> PartialVersionView {
        PartialVersionView {
            major: self.major,
            minor: self.minor,
            patch: self.patch,
            pre_release: identifier_views(self.pre_release@),
            build: identifier_views(self.build@),
        }
    }
}

/// A version with concrete major, minor and patch values
#[derive(Debug, PartialEq, Eq)]
pub struct Version<'a> {
    pub major: u32,
    pub minor: u32,
    pub patch: u32,
    pub pre_release: Vec<Identifier<'a>>,
    pub build: Vec<Identifier<'a>>,
}

pub struct VersionView {
    pub major: u32,
    pub minor: u32,
    pub patch: u32,
    pub pre_release: Seq<IdentifierView>,
    pub build: Seq<IdentifierView>,
}

impl<'a> View for Version<'a> {
    type V = VersionView;

    open spec fn view(&self) -> VersionView {
        VersionView {
            major: self.major,
            minor: self.minor,
            patch: self.patch,
            pre_release: identifier_views(self.pre_release@),
            build: identifier_views(self.build@),
        }
    }
}

#[derive(Debug, PartialEq, Eq, Clone, Copy)]
pub enum PartialComparatorOp {
    Eq,
    Gt,
    Gte,
    Lt,
    Lte,
    Caret,
    Tilde,
}

#[derive(Debug, PartialEq, Eq)]
pub struct PartialComparator<'a> {
    pub op: PartialComparatorOp,
    pub version: PartialVersion<'a>,
}

pub struct PartialComparatorView {
    pub op: PartialComparatorOp,
    pub version: PartialVersionView,
}

impl<'a> View for PartialComparator<'a> {
    type V = PartialComparatorView;

    open spec fn view(&self) -> PartialComparatorView {
        PartialComparatorView { op: self.op, version: self.version@ }
    }
}

#[derive(Debug, PartialEq, Eq, Clone, Copy)]
pub enum ComparatorOp {
    Eq,
    Gt,
    Gte,
    Lt,
    Lte,
}

/// The plain comparison that a partial operator stands for; `^` and `~`
/// stand for none.
pub open spec fn plain_op(op: PartialComparatorOp) -> Result<ComparatorOp, ()> {
    match op {
        PartialComparatorOp::Eq => Ok(ComparatorOp::Eq),
        PartialComparatorOp::Gt => Ok(ComparatorOp::Gt),
        PartialComparatorOp::Gte => Ok(ComparatorOp::Gte),
        PartialComparatorOp::Lt => Ok(ComparatorOp::Lt),
        PartialComparatorOp::Lte => Ok(ComparatorOp::Lte),
        PartialComparatorOp::Caret => Err(()),
        PartialComparatorOp::Tilde => Err(()),
    }
}

impl TryFrom<PartialComparatorOp> for ComparatorOp {
    type Error = ();

    fn try_from(op: PartialComparatorOp) -> (r: Result<Self, Self::Error>) {
        match op {
            PartialComparatorOp::Eq => Ok(ComparatorOp::Eq),
            PartialComparatorOp::Gt => Ok(ComparatorOp::Gt),
            PartialComparatorOp::Gte => Ok(ComparatorOp::Gte),
            PartialComparatorOp::Lt => Ok(ComparatorOp::Lt),
            PartialComparatorOp::Lte => Ok(ComparatorOp::Lte),
            PartialComparatorOp::Caret => Err(()),
            PartialComparatorOp::Tilde => Err(()),
        }
    }
}

impl vstd::std_specs::convert::TryFromSpecImpl<PartialComparatorOp> for ComparatorOp {
    open spec fn obeys_try_from_spec() -> bool {
        true
    }

    open spec fn try_from_spec(op: PartialComparatorOp) -> Result<Self, ()> {
        plain_op(op)
    }
}

#[derive(Debug, PartialEq, Eq)]
pub struct Comparator<'a> {
    pub op: ComparatorOp,
    pub version: Version<'a>,
}

pub struct ComparatorView {
    pub op: ComparatorOp,
    pub version: VersionView,
}

impl<'a> View for Comparator<'a> {
    type V = ComparatorView;

    open spec fn view(&self) -> ComparatorView {
        ComparatorView { op: self.op, version: self.version@ }
    }
}

pub open spec fn comparator_views<'a>(cs: Seq<Comparator<'a>>) -> Seq<ComparatorView> {
    cs.map_values(|c: Comparator<'a>| c@)
}

/// A group of comparators that are combined with logical AND.
///
/// A version must satisfy every comparator in the set for the set to match.
/// Example:
/// `>=1.2.3 <2.0.0`
#[derive(Debug, PartialEq, Eq)]
pub struct ComparatorSet<'a> {
    pub comparators: Vec<Comparator<'a>>,
}

impl<'a> View for ComparatorSet<'a> {
    type V = Seq<ComparatorView>;

    open spec fn view(&self) -> Seq<ComparatorView> {
        comparator_views(self.comparators@)
    }
}

/// A collection of comparator sets combined with logical OR.
///
/// A version must satisfy at least one comparator set for the range to match.
/// Example:
/// `1.2.3 || ^3.1.4`
#[derive(Debug, PartialEq, Eq)]
pub struct VersionRange<'a> {
    pub sets: Vec<ComparatorSet<'a>>,
}

pub open spec fn set_views<'a>(sets: Seq<ComparatorSet<'a>>) -> Seq<Seq<ComparatorView>> {
    sets.map_values(|s: ComparatorSet<'a>| s@)
}

impl<'a> View for VersionRange<'a> {
    type V = Seq<Seq<ComparatorView>>;

    open spec fn view(&self) -> Seq<Seq<ComparatorView>> {
        set_views(self.sets@)
    }
}

#[derive(Debug, PartialEq, Eq, Clone, Copy)]
enum ParseModeMetadata {
    PreRelease,
    Build,
}

#[derive(Debug, PartialEq, Eq, Clone, Copy)]
pub enum ParserError {
    Generic,
    InvalidComparatorOp,
    ExpectedVersionComponent,
    InvalidNumericIdentifier,
    InvalidMetadataIdentifier,
    NumericIdentifierLeadingZero,
    ExpectedCompleteVersion,
    UnexpectedToken,
}


/// How a parse ends, seen from position `p` of a token sequence: with a value
/// and the position after it, with an error and the position where it was
/// found, or not at all (the parse would panic or never return).
pub enum Outcome<T> {
    Accept(T, int),
    Reject(ParserError, int),
    Stuck,
}

/// Whether a parse comes to an end, with a value or with an error.
pub open spec fn halts<T>(o: Outcome<T>) -> bool {
    !(o is Stuck)
}

/// Every position that the outcome names lies between `p` and `n`.
pub open spec fn within<T>(o: Outcome<T>, p: int, n: int) -> bool {
    match o {
        Outcome::Accept(_, q) => p <= q <= n,
        Outcome::Reject(_, q) => p <= q <= n,
        Outcome::Stuck => true,
    }
}

/// Whether a result and the parser's final position are what outcome `o` says.
pub open spec fn settles<T: View>(r: Result<T, ParserError>, pos: int, o: Outcome<T::V>) -> bool {
    match o {
        Outcome::Accept(v, q) => r matches Ok(x) && x@ == v && pos == q,
        Outcome::Reject(e, q) => r == Err::<T, ParserError>(e) && pos == q,
        Outcome::Stuck => false,
    }
}

/// The token at position `p`, if there is one.
pub open spec fn peek_at(t: Seq<TokenView>, p: int) -> Option<TokenView> {
    if 0 <= p < t.len() {
        Some(t[p])
    } else {
        None
    }
}

pub open spec fn whitespace_at(t: Seq<TokenView>, p: int) -> bool {
    peek_at(t, p) matches Some(TokenView::Whitespace(_))
}

/// The position after an optional white-space token at `p`.
pub open spec fn skip_whitespace(t: Seq<TokenView>, p: int) -> int {
    if whitespace_at(t, p) {
        p + 1
    } else {
        p
    }
}

/// Whether `||`, with optional white space around it, comes at `p`, and the
/// position after what was consumed (white space is consumed either way).
pub open spec fn or_separator(t: Seq<TokenView>, p: int) -> (bool, int) {
    let p1 = skip_whitespace(t, p);
    if peek_at(t, p1) == Some(TokenView::LogicalOr) {
        (true, skip_whitespace(t, p1 + 1))
    } else {
        (false, p1)
    }
}

/// The operator at `p`, if one is there, and the position after it.
pub open spec fn operator_at(t: Seq<TokenView>, p: int) -> (Option<PartialComparatorOp>, int) {
    match peek_at(t, p) {
        Some(TokenView::Caret) => (Some(PartialComparatorOp::Caret), p + 1),
        Some(TokenView::Tilde) => (Some(PartialComparatorOp::Tilde), p + 1),
        Some(TokenView::Comparator(c)) => (
            Some(
                match c {
                    LexerComparator::Eq => PartialComparatorOp::Eq,
                    LexerComparator::Lt => PartialComparatorOp::Lt,
                    LexerComparator::Lte => PartialComparatorOp::Lte,
                    LexerComparator::Gt => PartialComparatorOp::Gt,
                    LexerComparator::Gte => PartialComparatorOp::Gte,
                },
            ),
            p + 1,
        ),
        _ => (None, p),
    }
}

/// Consumes the token at `p`, if any, and reads it as a `u32` when it is a number.
pub open spec fn number_at(t: Seq<TokenView>, p: int) -> (Option<u32>, int) {
    if 0 <= p < t.len() {
        (
            match t[p] {
                TokenView::Number(d) => parse_u32(d),
                _ => None,
            },
            p + 1,
        )
    } else {
        (None, p)
    }
}

/// The identifier that the characters `id` make: a number when they are all
/// digits (without a leading zero in a pre-release), text otherwise.
pub open spec fn identifier_of(id: Seq<char>, pre_release: bool) -> Result<
    IdentifierView,
    ParserError,
> {
    if all_ascii_digits(id) {
        if pre_release && id.len() > 1 && id[0] == '0' {
            Err(ParserError::NumericIdentifierLeadingZero)
        } else {
            match parse_u32(id) {
                Some(n) => Ok(IdentifierView::Number(n)),
                None => Err(ParserError::InvalidNumericIdentifier),
            }
        }
    } else {
        Ok(IdentifierView::Text(id))
    }
}

/// `acc` with the identifier `id` added, unless `id` is empty.
pub open spec fn flush(id: Seq<char>, pre_release: bool, acc: Seq<IdentifierView>) -> Result<
    Seq<IdentifierView>,
    ParserError,
> {
    if id.len() > 0 {
        match identifier_of(id, pre_release) {
            Ok(i) => Ok(acc.push(i)),
            Err(e) => Err(e),
        }
    } else {
        Ok(acc)
    }
}

/// Pre-release (`pre_release`) or build metadata from position `p` on, where
/// `id` holds the characters of the identifier read so far and `acc` the
/// identifiers before it.
pub open spec fn metadata_from(
    t: Seq<TokenView>,
    p: int,
    pre_release: bool,
    id: Seq<char>,
    acc: Seq<IdentifierView>,
) -> Outcome<Seq<IdentifierView>>
    decreases t.len() - p,
{
    match peek_at(t, p) {
        Some(TokenView::Number(s)) => metadata_from(t, p + 1, pre_release, id + s, acc),
        Some(TokenView::Text(s)) => metadata_from(t, p + 1, pre_release, id + s, acc),
        // A '+' closes pre-release metadata (build metadata follows); inside
        // build metadata it is an error.
        Some(TokenView::Plus) => if pre_release {
            match flush(id, pre_release, acc) {
                Ok(acc1) => Outcome::Accept(acc1, p),
                Err(e) => Outcome::Reject(e, p),
            }
        } else {
            Outcome::Reject(ParserError::InvalidMetadataIdentifier, p)
        },
        Some(TokenView::Dot) => match flush(id, pre_release, acc) {
            Ok(acc1) => metadata_from(t, p + 1, pre_release, Seq::empty(), acc1),
            Err(e) => Outcome::Reject(e, p),
        },
        // Any other token, or the end, closes the metadata and its last identifier.
        _ => match flush(id, pre_release, acc) {
            Ok(acc1) => Outcome::Accept(acc1, p),
            Err(e) => Outcome::Reject(e, p),
        },
    }
}

/// Pre-release or build metadata starting at `p`.
pub open spec fn metadata_at(t: Seq<TokenView>, p: int, pre_release: bool) -> Outcome<
    Seq<IdentifierView>,
> {
    metadata_from(t, p, pre_release, Seq::empty(), Seq::empty())
}

pub open spec fn component(n: Option<u32>) -> VersionComponent {
    match n {
        Some(v) => VersionComponent::Number(v),
        None => VersionComponent::Wildcard,
    }
}

/// What follows the major number of a partial version, from `p` on.
pub open spec fn version_tail(t: Seq<TokenView>, p: int, major: u32) -> Outcome<PartialVersionView> {
    let (minor, p2) = if peek_at(t, p) == Some(TokenView::Dot) {
        number_at(t, p + 1)
    } else {
        (None, p)
    };
    let (patch, p3) = if peek_at(t, p2) == Some(TokenView::Dot) {
        number_at(t, p2 + 1)
    } else {
        (None, p2)
    };
    if patch is Some {
        let pre = if peek_at(t, p3) == Some(TokenView::Dash) {
            metadata_at(t, p3 + 1, true)
        } else {
            Outcome::Accept(Seq::empty(), p3)
        };
        match pre {
            Outcome::Accept(pre_release, p4) => {
                let build = if peek_at(t, p4) == Some(TokenView::Plus) {
                    metadata_at(t, p4 + 1, false)
                } else {
                    Outcome::Accept(Seq::empty(), p4)
                };
                match build {
                    Outcome::Accept(build, p5) => Outcome::Accept(
                        PartialVersionView {
                            major: VersionComponent::Number(major),
                            minor: component(minor),
                            patch: component(patch),
                            pre_release,
                            build,
                        },
                        p5,
                    ),
                    Outcome::Reject(e, q) => Outcome::Reject(e, q),
                    Outcome::Stuck => Outcome::Stuck,
                }
            },
            Outcome::Reject(e, q) => Outcome::Reject(e, q),
            Outcome::Stuck => Outcome::Stuck,
        }
    } else {
        Outcome::Accept(
            PartialVersionView {
                major: VersionComponent::Number(major),
                minor: component(minor),
                patch: component(patch),
                pre_release: Seq::empty(),
                build: Seq::empty(),
            },
            p3,
        )
    }
}

/// A partial version (`*`, `1`, `1.2`, `1.2.3-rc.1+b`, ...) starting at `p`.
pub open spec fn partial_version_at(t: Seq<TokenView>, p: int) -> Outcome<PartialVersionView> {
    match peek_at(t, p) {
        Some(TokenView::Number(_)) => {
            let (major, p1) = number_at(t, p);
            match major {
                Some(m) => version_tail(t, p1, m),
                None => Outcome::Reject(ParserError::Generic, p1),
            }
        },
        Some(TokenView::Wildcard) => Outcome::Accept(
            PartialVersionView {
                major: VersionComponent::Wildcard,
                minor: VersionComponent::Wildcard,
                patch: VersionComponent::Wildcard,
                pre_release: Seq::empty(),
                build: Seq::empty(),
            },
            p + 1,
        ),
        _ => Outcome::Reject(ParserError::ExpectedVersionComponent, p),
    }
}

/// A complete version (major, minor and patch all numbers) starting at `p`.
pub open spec fn version_at(t: Seq<TokenView>, p: int) -> Outcome<VersionView> {
    match partial_version_at(t, p) {
        Outcome::Accept(v, q) => match (v.major, v.minor, v.patch) {
            (
                VersionComponent::Number(major),
                VersionComponent::Number(minor),
                VersionComponent::Number(patch),
            ) => Outcome::Accept(
                VersionView { major, minor, patch, pre_release: v.pre_release, build: v.build },
                q,
            ),
            _ => Outcome::Reject(ParserError::ExpectedCompleteVersion, q),
        },
        Outcome::Reject(e, q) => Outcome::Reject(e, q),
        Outcome::Stuck => Outcome::Stuck,
    }
}

/// An operator (`=` when none is written) and a partial version, at `p`.
pub open spec fn partial_comparator_at(t: Seq<TokenView>, p: int) -> Outcome<
    PartialComparatorView,
> {
    let (op, p1) = operator_at(t, p);
    let op = match op {
        Some(o) => o,
        None => PartialComparatorOp::Eq,
    };
    match partial_version_at(t, p1) {
        Outcome::Accept(v, p2) => Outcome::Accept(PartialComparatorView { op, version: v }, p2),
        Outcome::Reject(e, q) => Outcome::Reject(e, q),
        Outcome::Stuck => Outcome::Stuck,
    }
}

/// Desugars the partial comparator that ends at `p` and appends its comparators to `acc`.
pub open spec fn desugar_into(
    pc: PartialComparatorView,
    p: int,
    acc: Seq<ComparatorView>,
) -> Outcome<Seq<ComparatorView>> {
    if desugar_overflows(pc) {
        Outcome::Stuck
    } else {
        match desugar(pc) {
            Ok(cs) => Outcome::Accept(acc + cs, p),
            Err(e) => Outcome::Reject(e, p),
        }
    }
}

/// The rest of a comparator set from position `p` on, after the comparators `acc`.
pub open spec fn comparator_set_from(t: Seq<TokenView>, p: int, acc: Seq<ComparatorView>) -> Outcome<
    Seq<ComparatorView>,
>
    decreases t.len() - p,
{
    if whitespace_at(t, p) && peek_at(t, p + 1) != Some(TokenView::LogicalOr) {
        match partial_comparator_at(t, p + 1) {
            Outcome::Accept(pc, p2) => match desugar_into(pc, p2, acc) {
                Outcome::Accept(acc1, _) => {
                    proof {
                        lemma_partial_comparator_within(t, p + 1);
                    }
                    comparator_set_from(t, p2, acc1)
                },
                other => other,
            },
            Outcome::Reject(e, q) => Outcome::Reject(e, q),
            Outcome::Stuck => Outcome::Stuck,
        }
    } else {
        Outcome::Accept(acc, p)
    }
}

/// A comparator set (comparators separated by white space) starting at `p`.
pub open spec fn comparator_set_at(t: Seq<TokenView>, p: int) -> Outcome<Seq<ComparatorView>> {
    match partial_comparator_at(t, p) {
        Outcome::Accept(pc, p1) => match desugar_into(pc, p1, Seq::empty()) {
            Outcome::Accept(cs, _) => comparator_set_from(t, p1, cs),
            other => other,
        },
        Outcome::Reject(e, q) => Outcome::Reject(e, q),
        Outcome::Stuck => Outcome::Stuck,
    }
}

/// The rest of a version range from position `p` on, after the sets `acc`.
pub open spec fn version_range_from(
    t: Seq<TokenView>,
    p: int,
    acc: Seq<Seq<ComparatorView>>,
) -> Outcome<Seq<Seq<ComparatorView>>>
    decreases t.len() - p,
{
    let (more, p1) = or_separator(t, p);
    if more {
        match comparator_set_at(t, p1) {
            Outcome::Accept(s, p2) => {
                proof {
                    lemma_comparator_set_within(t, p1);
                }
                version_range_from(t, p2, acc.push(s))
            },
            Outcome::Reject(e, q) => Outcome::Reject(e, q),
            Outcome::Stuck => Outcome::Stuck,
        }
    } else {
        Outcome::Accept(acc, p1)
    }
}

/// A version range (comparator sets separated by `||`) starting at `p`.
pub open spec fn version_range_at(t: Seq<TokenView>, p: int) -> Outcome<Seq<Seq<ComparatorView>>> {
    match comparator_set_at(t, p) {
        Outcome::Accept(s, p1) => version_range_from(t, p1, seq![s]),
        Outcome::Reject(e, q) => Outcome::Reject(e, q),
        Outcome::Stuck => Outcome::Stuck,
    }
}

/// Reading metadata never moves back and never past the last token.
pub proof fn lemma_metadata_within(
    t: Seq<TokenView>,
    p: int,
    pre_release: bool,
    id: Seq<char>,
    acc: Seq<IdentifierView>,
)
    requires
        0 <= p <= t.len(),
    ensures
        within(metadata_from(t, p, pre_release, id, acc), p, t.len() as int),
    decreases t.len() - p,
{
    match peek_at(t, p) {
        Some(TokenView::Number(s)) => lemma_metadata_within(t, p + 1, pre_release, id + s, acc),
        Some(TokenView::Text(s)) => lemma_metadata_within(t, p + 1, pre_release, id + s, acc),
        Some(TokenView::Dot) => match flush(id, pre_release, acc) {
            Ok(acc1) => lemma_metadata_within(t, p + 1, pre_release, Seq::empty(), acc1),
            Err(e) => {},
        },
        _ => {},
    }
}

/// Reading a partial version never moves back and never past the last token.
pub proof fn lemma_partial_version_within(t: Seq<TokenView>, p: int)
    requires
        0 <= p <= t.len(),
    ensures
        within(partial_version_at(t, p), p, t.len() as int),
{
    if peek_at(t, p) matches Some(TokenView::Number(_)) {
        let (major, p1) = number_at(t, p);
        if let Some(m) = major {
            let (minor, p2) = if peek_at(t, p1) == Some(TokenView::Dot) {
                number_at(t, p1 + 1)
            } else {
                (None, p1)
            };
            let (patch, p3) = if peek_at(t, p2) == Some(TokenView::Dot) {
                number_at(t, p2 + 1)
            } else {
                (None, p2)
            };
            if patch is Some {
                if peek_at(t, p3) == Some(TokenView::Dash) {
                    lemma_metadata_within(t, p3 + 1, true, Seq::empty(), Seq::empty());
                }
                let pre = if peek_at(t, p3) == Some(TokenView::Dash) {
                    metadata_at(t, p3 + 1, true)
                } else {
                    Outcome::Accept(Seq::empty(), p3)
                };
                if let Outcome::Accept(_, p4) = pre {
                    if peek_at(t, p4) == Some(TokenView::Plus) {
                        lemma_metadata_within(t, p4 + 1, false, Seq::empty(), Seq::empty());
                    }
                }
            }
        }
    }
}

/// Reading a partial comparator never moves back and never past the last token.
pub proof fn lemma_partial_comparator_within(t: Seq<TokenView>, p: int)
    requires
        0 <= p <= t.len(),
    ensures
        within(partial_comparator_at(t, p), p, t.len() as int),
{
    let (op, p1) = operator_at(t, p);
    lemma_partial_version_within(t, p1);
}

/// Reading the rest of a comparator set never moves back and never past the last token.
pub proof fn lemma_comparator_set_from_within(t: Seq<TokenView>, p: int, acc: Seq<ComparatorView>)
    requires
        0 <= p <= t.len(),
    ensures
        within(comparator_set_from(t, p, acc), p, t.len() as int),
    decreases t.len() - p,
{
    if whitespace_at(t, p) && peek_at(t, p + 1) != Some(TokenView::LogicalOr) {
        lemma_partial_comparator_within(t, p + 1);
        if let Outcome::Accept(pc, p2) = partial_comparator_at(t, p + 1) {
            if let Outcome::Accept(acc1, _) = desugar_into(pc, p2, acc) {
                lemma_comparator_set_from_within(t, p2, acc1);
            }
        }
    }
}

/// Reading a comparator set never moves back and never past the last token.
pub proof fn lemma_comparator_set_within(t: Seq<TokenView>, p: int)
    requires
        0 <= p <= t.len(),
    ensures
        within(comparator_set_at(t, p), p, t.len() as int),
{
    lemma_partial_comparator_within(t, p);
    if let Outcome::Accept(pc, p1) = partial_comparator_at(t, p) {
        if let Outcome::Accept(cs, _) = desugar_into(pc, p1, Seq::empty()) {
            lemma_comparator_set_from_within(t, p1, cs);
        }
    }
}

proof fn lemma_comparator_set_from_nonempty(t: Seq<TokenView>, p: int, acc: Seq<ComparatorView>)
    requires
        acc.len() >= 1,
    ensures
        comparator_set_from(t, p, acc) matches Outcome::Accept(cs, _) ==> cs.len() >= 1,
    decreases t.len() - p,
{
    if whitespace_at(t, p) && peek_at(t, p + 1) != Some(TokenView::LogicalOr) {
        lemma_partial_comparator_within(t, p + 1);
        if let Outcome::Accept(pc, p2) = partial_comparator_at(t, p + 1) {
            if let Outcome::Accept(acc1, _) = desugar_into(pc, p2, acc) {
                lemma_comparator_set_from_nonempty(t, p2, acc1);
            }
        }
    }
}

/// Every comparator set that is read holds at least one comparator.
pub proof fn lemma_comparator_set_nonempty(t: Seq<TokenView>, p: int)
    ensures
        comparator_set_at(t, p) matches Outcome::Accept(cs, _) ==> cs.len() >= 1,
{
    if let Outcome::Accept(pc, p1) = partial_comparator_at(t, p) {
        lemma_desugar_gives_comparators(pc);
        if let Outcome::Accept(cs, _) = desugar_into(pc, p1, Seq::empty()) {
            lemma_comparator_set_from_nonempty(t, p1, cs);
        }
    }
}

proof fn lemma_version_range_from_nonempty(
    t: Seq<TokenView>,
    p: int,
    acc: Seq<Seq<ComparatorView>>,
)
    requires
        acc.len() >= 1,
        forall|i: int| 0 <= i < acc.len() ==> (#[trigger] acc[i]).len() >= 1,
    ensures
        version_range_from(t, p, acc) matches Outcome::Accept(r, _) ==> r.len() >= 1 && forall|i: int|
            0 <= i < r.len() ==> (#[trigger] r[i]).len() >= 1,
    decreases t.len() - p,
{
    let (more, p1) = or_separator(t, p);
    if more {
        lemma_comparator_set_within(t, p1);
        lemma_comparator_set_nonempty(t, p1);
        if let Outcome::Accept(s, p2) = comparator_set_at(t, p1) {
            let acc1 = acc.push(s);
            assert forall|i: int| 0 <= i < acc1.len() implies (#[trigger] acc1[i]).len() >= 1 by {
                if i < acc.len() {
                    assert(acc1[i] == acc[i]);
                }
            }
            lemma_version_range_from_nonempty(t, p2, acc1);
        }
    }
}

/// Every range that is read has at least one set, and every set at least one
/// comparator, so no alternative is satisfied for want of comparators.
pub proof fn lemma_version_range_nonempty(t: Seq<TokenView>, p: int)
    ensures
        version_range_at(t, p) matches Outcome::Accept(r, _) ==> r.len() >= 1 && forall|i: int|
            0 <= i < r.len() ==> (#[trigger] r[i]).len() >= 1,
{
    lemma_comparator_set_nonempty(t, p);
    if let Outcome::Accept(s, p1) = comparator_set_at(t, p) {
        let one = seq![s];
        assert(one[0] == s);
        lemma_version_range_from_nonempty(t, p1, one);
    }
}

/// A wildcard major makes the whole version `*` with no metadata; metadata
/// comes only after a patch number; and anything but a number or `*` where a
/// version should start is `ExpectedVersionComponent`, with nothing consumed.
pub proof fn lemma_partial_version_shape(t: Seq<TokenView>, p: int)
    ensures
        partial_version_at(t, p) matches Outcome::Accept(pv, _) ==> {
            &&& pv.major == VersionComponent::Wildcard ==> pv.minor == VersionComponent::Wildcard
                && pv.patch == VersionComponent::Wildcard && pv.pre_release.len() == 0
                && pv.build.len() == 0
            &&& (pv.pre_release.len() > 0 || pv.build.len() > 0) ==> pv.patch is Number
        },
        !(peek_at(t, p) matches Some(TokenView::Number(_))) && peek_at(t, p) != Some(
            TokenView::Wildcard,
        ) ==> partial_version_at(t, p) == Outcome::<PartialVersionView>::Reject(
            ParserError::ExpectedVersionComponent,
            p,
        ),
{
}

/// The operator at the cursor: `^`, `~` and the five comparisons are read as
/// the operator of the same name and consumed; anything else is no operator,
/// and nothing is consumed.
pub proof fn lemma_operator_at_meaning(t: Seq<TokenView>, p: int)
    ensures
        operator_at(t, p).0 is Some <==> (peek_at(t, p) == Some(TokenView::Caret) || peek_at(t, p)
            == Some(TokenView::Tilde) || peek_at(t, p) matches Some(TokenView::Comparator(_))),
        operator_at(t, p).1 == if operator_at(t, p).0 is Some {
            p + 1
        } else {
            p
        },
        peek_at(t, p) == Some(TokenView::Caret) ==> operator_at(t, p).0 == Some(
            PartialComparatorOp::Caret,
        ),
        peek_at(t, p) == Some(TokenView::Tilde) ==> operator_at(t, p).0 == Some(
            PartialComparatorOp::Tilde,
        ),
        peek_at(t, p) == Some(TokenView::Comparator(LexerComparator::Eq)) ==> operator_at(t, p).0
            == Some(PartialComparatorOp::Eq),
        peek_at(t, p) == Some(TokenView::Comparator(LexerComparator::Gt)) ==> operator_at(t, p).0
            == Some(PartialComparatorOp::Gt),
        peek_at(t, p) == Some(TokenView::Comparator(LexerComparator::Gte)) ==> operator_at(t, p).0
            == Some(PartialComparatorOp::Gte),
        peek_at(t, p) == Some(TokenView::Comparator(LexerComparator::Lt)) ==> operator_at(t, p).0
            == Some(PartialComparatorOp::Lt),
        peek_at(t, p) == Some(TokenView::Comparator(LexerComparator::Lte)) ==> operator_at(t, p).0
            == Some(PartialComparatorOp::Lte),
{
}

/// `||` between sets: the separator is there exactly when the tokens from the
/// cursor start with `||` or with white space and `||`; then the cursor moves
/// past it and past one white-space token after it; otherwise it moves past
/// at most one white-space token.
pub proof fn lemma_or_separator_meaning(t: Seq<TokenView>, p: int)
    requires
        0 <= p,
    ensures
        or_separator(t, p).0 <==> (peek_at(t, p) == Some(TokenView::LogicalOr) || (whitespace_at(
            t,
            p,
        ) && peek_at(t, p + 1) == Some(TokenView::LogicalOr))),
        or_separator(t, p).0 ==> or_separator(t, p).1 == skip_whitespace(
            t,
            skip_whitespace(t, p) + 1,
        ),
        !or_separator(t, p).0 ==> or_separator(t, p).1 == skip_whitespace(t, p),
{
}

/// The plainest version, three numbers joined by dots with nothing after
/// them, is read as that version, with no metadata.
pub proof fn lemma_plain_version_reads(a: Seq<char>, b: Seq<char>, c: Seq<char>)
    requires
        parse_u32(a) is Some,
        parse_u32(b) is Some,
        parse_u32(c) is Some,
    ensures
        version_at(
            seq![
                TokenView::Number(a),
                TokenView::Dot,
                TokenView::Number(b),
                TokenView::Dot,
                TokenView::Number(c),
                TokenView::Eof,
            ],
            0,
        ) == Outcome::Accept(
            VersionView {
                major: parse_u32(a)->Some_0,
                minor: parse_u32(b)->Some_0,
                patch: parse_u32(c)->Some_0,
                pre_release: Seq::empty(),
                build: Seq::empty(),
            },
            5,
        ),
{
    let t = seq![
        TokenView::Number(a),
        TokenView::Dot,
        TokenView::Number(b),
        TokenView::Dot,
        TokenView::Number(c),
        TokenView::Eof,
    ];
    assert(t[0] == TokenView::Number(a) && t[1] == TokenView::Dot && t[2] == TokenView::Number(b));
    assert(t[3] == TokenView::Dot && t[4] == TokenView::Number(c) && t[5] == TokenView::Eof);
}

/// After a dot, the token where the minor or the patch number belongs is
/// consumed whatever it is; one that is not a number (`x`, `X`, `*`, ...) reads
/// as a wildcard, and no metadata follows a wildcard patch.
pub proof fn lemma_wildcard_component_consumed(t: Seq<TokenView>, p: int, a: Seq<char>, b: Seq<char>)
    requires
        0 <= p,
        p + 3 <= t.len(),
        t[p] == TokenView::Number(a),
        t[p + 1] == TokenView::Dot,
        parse_u32(a) is Some,
    ensures
        !(t[p + 2] is Number) && peek_at(t, p + 3) != Some(TokenView::Dot) ==> partial_version_at(
            t,
            p,
        ) == Outcome::Accept(
            PartialVersionView {
                major: VersionComponent::Number(parse_u32(a)->Some_0),
                minor: VersionComponent::Wildcard,
                patch: VersionComponent::Wildcard,
                pre_release: Seq::empty(),
                build: Seq::empty(),
            },
            p + 3,
        ),
        t[p + 2] == TokenView::Number(b) && parse_u32(b) is Some && p + 5 <= t.len() && t[p + 3]
            == TokenView::Dot && !(t[p + 4] is Number) ==> partial_version_at(t, p)
            == Outcome::Accept(
            PartialVersionView {
                major: VersionComponent::Number(parse_u32(a)->Some_0),
                minor: VersionComponent::Number(parse_u32(b)->Some_0),
                patch: VersionComponent::Wildcard,
                pre_release: Seq::empty(),
                build: Seq::empty(),
            },
            p + 5,
        ),
{
}

/// The characters of consecutive number and text tokens in metadata make up
/// one identifier: reading them only extends the identifier being read.
pub proof fn lemma_identifier_run(
    t: Seq<TokenView>,
    p: int,
    k: int,
    pre_release: bool,
    id: Seq<char>,
    acc: Seq<IdentifierView>,
)
    requires
        0 <= p,
        0 <= k,
        p + k <= t.len(),
        forall|i: int| p <= i < p + k ==> (#[trigger] t[i] is Number || t[i] is Text),
    ensures
        metadata_from(t, p, pre_release, id, acc) == metadata_from(
            t,
            p + k,
            pre_release,
            id + joined_text(t.subrange(p, p + k)),
            acc,
        ),
    decreases k,
{
    let run = t.subrange(p, p + k);
    if k == 0 {
        assert(joined_text(run) =~= Seq::<char>::empty());
        assert(id + joined_text(run) =~= id);
    } else {
        assert(t[p] is Number || t[p] is Text);
        let s = token_text(t[p]);
        assert(metadata_from(t, p, pre_release, id, acc) == metadata_from(
            t,
            p + 1,
            pre_release,
            id + s,
            acc,
        ));
        lemma_identifier_run(t, p + 1, k - 1, pre_release, id + s, acc);
        assert(run.drop_first() =~= t.subrange(p + 1, p + k));
        assert(run[0] == t[p]);
        assert(joined_text(run) == s + joined_text(run.drop_first()));
        assert((id + s) + joined_text(t.subrange(p + 1, p + k)) =~= id + joined_text(run));
    }
}

/// Metadata identifiers are split only at dots: a run of number and text
/// tokens closed by anything but another such token, a dot, or (in build
/// metadata) a plus is read as one identifier, the run's characters.
pub proof fn lemma_identifier_split_only_at_dots(t: Seq<TokenView>, p: int, k: int, pre_release: bool)
    requires
        0 <= p,
        1 <= k,
        p + k < t.len(),
        forall|i: int| p <= i < p + k ==> (#[trigger] t[i] is Number || t[i] is Text),
        !(t[p + k] is Number || t[p + k] is Text || t[p + k] is Dot),
        !pre_release ==> !(t[p + k] is Plus),
        joined_text(t.subrange(p, p + k)).len() > 0,
        identifier_of(joined_text(t.subrange(p, p + k)), pre_release) is Ok,
    ensures
        metadata_at(t, p, pre_release) == Outcome::Accept(
            seq![identifier_of(joined_text(t.subrange(p, p + k)), pre_release)->Ok_0],
            p + k,
        ),
{
    lemma_identifier_run(t, p, k, pre_release, Seq::empty(), Seq::empty());
    let id = joined_text(t.subrange(p, p + k));
    assert(Seq::<char>::empty() + id =~= id);
    assert(Seq::<IdentifierView>::empty().push(identifier_of(id, pre_release)->Ok_0) =~= seq![
        identifier_of(id, pre_release)->Ok_0,
    ]);
}

/// A dot closes the identifier before it and starts the next: two runs of
/// number and text tokens with a dot between them, then a closing token, are
/// read as two identifiers, one per run.
pub proof fn lemma_dot_separates_identifiers(
    t: Seq<TokenView>,
    p: int,
    k1: int,
    k2: int,
    pre_release: bool,
)
    requires
        0 <= p,
        1 <= k1,
        1 <= k2,
        p + k1 + 1 + k2 < t.len(),
        forall|i: int| p <= i < p + k1 ==> (#[trigger] t[i] is Number || t[i] is Text),
        t[p + k1] == TokenView::Dot,
        forall|i: int| p + k1 + 1 <= i < p + k1 + 1 + k2 ==> (#[trigger] t[i] is Number || t[i] is Text),
        !(t[p + k1 + 1 + k2] is Number || t[p + k1 + 1 + k2] is Text || t[p + k1 + 1 + k2] is Dot),
        !pre_release ==> !(t[p + k1 + 1 + k2] is Plus),
        joined_text(t.subrange(p, p + k1)).len() > 0,
        joined_text(t.subrange(p + k1 + 1, p + k1 + 1 + k2)).len() > 0,
        identifier_of(joined_text(t.subrange(p, p + k1)), pre_release) is Ok,
        identifier_of(joined_text(t.subrange(p + k1 + 1, p + k1 + 1 + k2)), pre_release) is Ok,
    ensures
        metadata_at(t, p, pre_release) == Outcome::Accept(
            seq![
                identifier_of(joined_text(t.subrange(p, p + k1)), pre_release)->Ok_0,
                identifier_of(
                    joined_text(t.subrange(p + k1 + 1, p + k1 + 1 + k2)),
                    pre_release,
                )->Ok_0,
            ],
            p + k1 + 1 + k2,
        ),
{
    let id1 = joined_text(t.subrange(p, p + k1));
    let id2 = joined_text(t.subrange(p + k1 + 1, p + k1 + 1 + k2));
    let i1 = identifier_of(id1, pre_release)->Ok_0;
    let i2 = identifier_of(id2, pre_release)->Ok_0;
    lemma_identifier_run(t, p, k1, pre_release, Seq::empty(), Seq::empty());
    assert(Seq::<char>::empty() + id1 =~= id1);
    let acc1 = Seq::<IdentifierView>::empty().push(i1);
    assert(metadata_from(t, p + k1, pre_release, id1, Seq::empty()) == metadata_from(
        t,
        p + k1 + 1,
        pre_release,
        Seq::empty(),
        acc1,
    ));
    lemma_identifier_run(t, p + k1 + 1, k2, pre_release, Seq::empty(), acc1);
    assert(Seq::<char>::empty() + id2 =~= id2);
    assert(acc1.push(i2) =~= seq![i1, i2]);
}

/// A complete version is a partial version whose three components are
/// numbers, taken with its metadata; a partial version with a missing or
/// wildcard component is `ExpectedCompleteVersion`.
pub proof fn lemma_version_is_complete_partial(t: Seq<TokenView>, p: int)
    ensures
        version_at(t, p) == match partial_version_at(t, p) {
            Outcome::Accept(pv, q) => if pv.major is Number && pv.minor is Number && pv.patch is Number {
                Outcome::Accept(
                    VersionView {
                        major: pv.major->Number_0,
                        minor: pv.minor->Number_0,
                        patch: pv.patch->Number_0,
                        pre_release: pv.pre_release,
                        build: pv.build,
                    },
                    q,
                )
            } else {
                Outcome::Reject(ParserError::ExpectedCompleteVersion, q)
            },
            Outcome::Reject(e, q) => Outcome::Reject(e, q),
            Outcome::Stuck => Outcome::Stuck,
        },
{
}

/// Why a parse stopped without a value.
#[derive(Debug, PartialEq, Eq, Clone, Copy)]
pub enum Failure {
    /// The tokens do not form what was asked for.
    Reject(ParserError),
    /// Going on would panic or never return.
    Stuck,
}

/// Whether a result and the parser's final position are what outcome `o` says.
pub open spec fn agrees<T: View>(r: Result<T, Failure>, pos: int, o: Outcome<T::V>) -> bool {
    match o {
        Outcome::Accept(v, q) => r matches Ok(x) && x@ == v && pos == q,
        Outcome::Reject(e, q) => r == Err::<T, Failure>(Failure::Reject(e)) && pos == q,
        Outcome::Stuck => r == Err::<T, Failure>(Failure::Stuck),
    }
}

/// Drops the `Stuck` case, which the caller has ruled out.
fn settle<T>(r: Result<T, Failure>) -> (s: Result<T, ParserError>)
    requires
        !(r matches Err(Failure::Stuck)),
    ensures
        r matches Ok(v) ==> (s matches Ok(w) && w == v),
        r matches Err(Failure::Reject(e)) ==> s == Err::<T, ParserError>(e),
{
    match r {
        Ok(v) => Ok(v),
        Err(Failure::Reject(e)) => Err(e),
        // Never taken: the caller has ruled `Stuck` out.
        Err(Failure::Stuck) => Err(ParserError::Generic),
    }
}

/// The identifier that the characters of `identifier` make.
fn identifier_from<'b>(identifier: String, mode: ParseModeMetadata) -> (r: Result<
    Identifier<'b>,
    ParserError,
>)
    ensures
        match identifier_of(identifier@, mode == ParseModeMetadata::PreRelease) {
            Ok(i) => r matches Ok(x) && x@ == i,
            Err(e) => r == Err::<Identifier<'b>, ParserError>(e),
        },
{
    if is_all_ascii_digits(identifier.as_str()) {
        if matches!(mode, ParseModeMetadata::PreRelease) && has_leading_zero(identifier.as_str()) {
            return Err(ParserError::NumericIdentifierLeadingZero);
        }
        match parse_decimal_u32(identifier.as_str()) {
            Some(n) => Ok(Identifier::Number(n)),
            None => Err(ParserError::InvalidNumericIdentifier),
        }
    } else {
        Ok(Identifier::Text(Cow::Owned(identifier)))
    }
}

/// Adds the identifier that the characters of `identifier` make, unless
/// there are none.
fn close_identifier<'b>(
    metadata: &mut Vec<Identifier<'b>>,
    identifier: String,
    mode: ParseModeMetadata,
) -> (r: Result<(), ParserError>)
    ensures
        match flush(identifier@, mode == ParseModeMetadata::PreRelease, identifier_views(old(metadata)@)) {
            Ok(acc) => r is Ok && identifier_views(final(metadata)@) == acc,
            Err(e) => r == Err::<(), ParserError>(e),
        },
{
    if identifier.as_str().is_empty() {
        return Ok(());
    }
    let ghost before = metadata@;
    let part = identifier_from(identifier, mode)?;
    metadata.push(part);
    assert(identifier_views(metadata@) =~= identifier_views(before).push(part@));
    Ok(())
}

/// Reads a sequence of tokens as versions and version ranges.
pub struct Parser<'a> {
    tokens: Vec<Token<'a>>,
    position: usize,
}

impl<'a> Parser<'a> {
    #[verifier::type_invariant]
    spec fn cursor_in_bounds(&self) -> bool {
        self.position <= self.tokens.len()
    }

    /// The tokens being read.
    pub closed spec fn tokens_view(&self) -> Seq<TokenView> {
        token_views(self.tokens@)
    }

    /// The index of the next token to read.
    pub closed spec fn cursor(&self) -> int {
        self.position as int
    }

    pub fn new(tokens: Vec<Token<'a>>) -> (r: Self)
        ensures
            r.tokens_view() == token_views(tokens@),
            r.cursor() == 0,
    {
        Self { tokens, position: 0 }
    }

    fn peek_n(&self, n: usize) -> (r: Option<&Token<'a>>)
        requires
            self.position + n <= usize::MAX,
        ensures
            match r {
                Some(t) => peek_at(self.tokens_view(), self.cursor() + n) == Some(t@),
                None => peek_at(self.tokens_view(), self.cursor() + n) is None,
            },
    {
        let i = self.position + n;
        if i < self.tokens.len() {
            Some(&self.tokens[i])
        } else {
            None
        }
    }

    fn peek(&self) -> (r: Option<&Token<'a>>)
        ensures
            match r {
                Some(t) => peek_at(self.tokens_view(), self.cursor()) == Some(t@),
                None => peek_at(self.tokens_view(), self.cursor()) is None,
            },
    {
        proof {
            use_type_invariant(self);
        }
        self.peek_n(0)
    }

    fn advance(&mut self) -> (r: Option<&Token<'a>>)
        ensures
            final(self).tokens_view() == old(self).tokens_view(),
            match peek_at(old(self).tokens_view(), old(self).cursor()) {
                Some(t) => r matches Some(x) && x@ == t && final(self).cursor() == old(self).cursor()
                    + 1,
                None => r is None && final(self).cursor() == old(self).cursor(),
            },
    {
        proof {
            use_type_invariant(&*self);
        }
        if self.position < self.tokens.len() {
            let token = &self.tokens[self.position];
            self.position = self.position + 1;
            Some(token)
        } else {
            None
        }
    }

    /// Resets to the first token and reads a version range.
    pub fn parse(&mut self) -> (r: Result<VersionRange<'a>, ParserError>)
        requires
            halts(version_range_at(old(self).tokens_view(), 0)),
        ensures
            final(self).tokens_view() == old(self).tokens_view(),
            settles(r, final(self).cursor(), version_range_at(old(self).tokens_view(), 0)),
    {
        self.position = 0;
        self.parse_version_range()
    }

    /// Consumes `||` with the white space around it; when no `||` follows,
    /// consumes only the white space.
    pub fn try_consume_version_range(&mut self) -> (r: bool)
        ensures
            final(self).tokens_view() == old(self).tokens_view(),
            (r, final(self).cursor()) == or_separator(old(self).tokens_view(), old(self).cursor()),
    {
        if let Some(Token::Whitespace(_)) = self.peek() {
            self.advance();
        }
        if !matches!(self.peek(), Some(Token::LogicalOr)) {
            return false;
        }
        self.advance();
        if let Some(Token::Whitespace(_)) = self.peek() {
            self.advance();
        }
        true
    }

    /// Comparator sets separated by `||`.
    pub fn parse_version_range(&mut self) -> (r: Result<VersionRange<'a>, ParserError>)
        requires
            halts(version_range_at(old(self).tokens_view(), old(self).cursor())),
        ensures
            final(self).tokens_view() == old(self).tokens_view(),
            settles(
                r,
                final(self).cursor(),
                version_range_at(old(self).tokens_view(), old(self).cursor()),
            ),
    {
        settle(self.version_range_outcome())
    }

    /// Like `parse_version_range`, for every input: `Failure::Stuck` where
    /// reading would not come to an end.
    pub fn version_range_outcome(&mut self) -> (r: Result<VersionRange<'a>, Failure>)
        ensures
            final(self).tokens_view() == old(self).tokens_view(),
            agrees(r, final(self).cursor(), version_range_at(old(self).tokens_view(), old(self).cursor())),
    {
        proof {
            use_type_invariant(&*self);
        }
        let ghost t = self.tokens_view();
        let ghost goal = version_range_at(t, self.cursor());
        let mut sets: Vec<ComparatorSet<'a>> = Vec::new();
        let comparator_set = match self.comparator_set_outcome() {
            Ok(s) => s,
            Err(f) => return Err(f),
        };
        sets.push(comparator_set);
        assert(set_views(sets@) =~= seq![comparator_set@]);
        proof {
            use_type_invariant(&*self);
        }
        loop
            invariant_except_break
                t == old(self).tokens_view(),
                goal == version_range_at(t, old(self).cursor()),
                self.tokens_view() == t,
                0 <= self.cursor() <= t.len(),
                version_range_from(t, self.cursor(), set_views(sets@)) == goal,
            ensures
                t == old(self).tokens_view(),
                goal == version_range_at(t, old(self).cursor()),
                self.tokens_view() == t,
                goal == Outcome::Accept(set_views(sets@), self.cursor()),
            decreases t.len() - self.cursor(),
        {
            proof {
                use_type_invariant(&*self);
            }
            let ghost p = self.cursor();
            let ghost before = sets@;
            if !self.try_consume_version_range() {
                break;
            }
            let ghost p1 = self.cursor();
            proof {
                lemma_comparator_set_within(t, p1);
            }
            let comparator_set = match self.comparator_set_outcome() {
                Ok(s) => s,
                Err(f) => return Err(f),
            };
            sets.push(comparator_set);
            assert(set_views(sets@) =~= set_views(before).push(comparator_set@));
        }
        Ok(VersionRange { sets })
    }

    /// Comparators separated by white space.
    pub fn parse_comparator_set(&mut self) -> (r: Result<ComparatorSet<'a>, ParserError>)
        requires
            halts(comparator_set_at(old(self).tokens_view(), old(self).cursor())),
        ensures
            final(self).tokens_view() == old(self).tokens_view(),
            settles(
                r,
                final(self).cursor(),
                comparator_set_at(old(self).tokens_view(), old(self).cursor()),
            ),
    {
        settle(self.comparator_set_outcome())
    }

    /// Desugars `pc`, failing with `Stuck` where desugaring would overflow.
    fn desugar_checked(&self, pc: PartialComparator<'a>) -> (r: Result<Vec<Comparator<'a>>, Failure>)
        ensures
            match desugar_into(pc@, 0, Seq::empty()) {
                Outcome::Accept(cs, _) => r matches Ok(v) && comparator_views(v@) == cs,
                Outcome::Reject(e, _) => r == Err::<Vec<Comparator<'a>>, Failure>(Failure::Reject(e)),
                Outcome::Stuck => r == Err::<Vec<Comparator<'a>>, Failure>(Failure::Stuck),
            },
    {
        if desugar_would_overflow(&pc) {
            return Err(Failure::Stuck);
        }
        let ghost pcv = pc@;
        match self.desugar_partial_comparator(pc) {
            Ok(v) => {
                assert(Seq::<ComparatorView>::empty() + comparator_views(v@) =~= comparator_views(v@));
                Ok(v)
            },
            Err(e) => Err(Failure::Reject(e)),
        }
    }

    /// Like `parse_comparator_set`, for every input: `Failure::Stuck` where
    /// reading would not come to an end.
    pub fn comparator_set_outcome(&mut self) -> (r: Result<ComparatorSet<'a>, Failure>)
        ensures
            final(self).tokens_view() == old(self).tokens_view(),
            agrees(r, final(self).cursor(), comparator_set_at(old(self).tokens_view(), old(self).cursor())),
    {
        proof {
            use_type_invariant(&*self);
        }
        let ghost t = self.tokens_view();
        let ghost goal = comparator_set_at(t, self.cursor());
        let mut comparators: Vec<Comparator<'a>> = Vec::new();
        let partial_comparator = match self.partial_comparator_outcome() {
            Ok(pc) => pc,
            Err(f) => return Err(f),
        };
        let mut desugared = match self.desugar_checked(partial_comparator) {
            Ok(d) => d,
            Err(f) => return Err(f),
        };
        comparators.append(&mut desugared);
        proof {
            use_type_invariant(&*self);
        }
        loop
            invariant_except_break
                t == old(self).tokens_view(),
                goal == comparator_set_at(t, old(self).cursor()),
                self.tokens_view() == t,
                0 <= self.cursor() <= t.len(),
                comparator_set_from(t, self.cursor(), comparator_views(comparators@)) == goal,
            ensures
                t == old(self).tokens_view(),
                goal == comparator_set_at(t, old(self).cursor()),
                self.tokens_view() == t,
                goal == Outcome::Accept(comparator_views(comparators@), self.cursor()),
            decreases t.len() - self.cursor(),
        {
            proof {
                use_type_invariant(&*self);
            }
            let ghost p = self.cursor();
            let ghost before = comparators@;
            let more = match self.peek() {
                Some(Token::Whitespace(_)) => !matches!(self.peek_n(1), Some(Token::LogicalOr)),
                _ => false,
            };
            if !more {
                break;
            }
            self.advance();
            proof {
                lemma_partial_comparator_within(t, p + 1);
            }
            let partial_comparator = match self.partial_comparator_outcome() {
                Ok(pc) => pc,
                Err(f) => return Err(f),
            };
            let mut desugared = match self.desugar_checked(partial_comparator) {
                Ok(d) => d,
                Err(f) => return Err(f),
            };
            let ghost added = desugared@;
            comparators.append(&mut desugared);
            assert(comparator_views(comparators@) =~= comparator_views(before) + comparator_views(
                added,
            ));
        }
        Ok(ComparatorSet { comparators })
    }

    /// Consumes `^`, `~` or a comparison, if one comes next.
    pub fn parse_partial_comparator_op(&mut self) -> (r: Option<PartialComparatorOp>)
        ensures
            final(self).tokens_view() == old(self).tokens_view(),
            (r, final(self).cursor()) == operator_at(old(self).tokens_view(), old(self).cursor()),
    {
        match self.peek() {
            Some(Token::Caret) => {
                self.advance();
                Some(PartialComparatorOp::Caret)
            },
            Some(Token::Tilde) => {
                self.advance();
                Some(PartialComparatorOp::Tilde)
            },
            Some(Token::Comparator(LexerComparator::Eq)) => {
                self.advance();
                Some(PartialComparatorOp::Eq)
            },
            Some(Token::Comparator(LexerComparator::Lt)) => {
                self.advance();
                Some(PartialComparatorOp::Lt)
            },
            Some(Token::Comparator(LexerComparator::Lte)) => {
                self.advance();
                Some(PartialComparatorOp::Lte)
            },
            Some(Token::Comparator(LexerComparator::Gt)) => {
                self.advance();
                Some(PartialComparatorOp::Gt)
            },
            Some(Token::Comparator(LexerComparator::Gte)) => {
                self.advance();
                Some(PartialComparatorOp::Gte)
            },
            _ => None,
        }
    }

    /// An optional operator (`=` when none is written) and a partial version.
    pub fn parse_partial_comparator(&mut self) -> (r: Result<PartialComparator<'a>, ParserError>)
        requires
            halts(partial_comparator_at(old(self).tokens_view(), old(self).cursor())),
        ensures
            final(self).tokens_view() == old(self).tokens_view(),
            settles(
                r,
                final(self).cursor(),
                partial_comparator_at(old(self).tokens_view(), old(self).cursor()),
            ),
    {
        settle(self.partial_comparator_outcome())
    }

    /// Like `parse_partial_comparator`, for every input: `Failure::Stuck`
    /// where reading would not come to an end.
    pub fn partial_comparator_outcome(&mut self) -> (r: Result<PartialComparator<'a>, Failure>)
        ensures
            final(self).tokens_view() == old(self).tokens_view(),
            agrees(
                r,
                final(self).cursor(),
                partial_comparator_at(old(self).tokens_view(), old(self).cursor()),
            ),
    {
        let partial_comparator_op = match self.parse_partial_comparator_op() {
            Some(op) => op,
            None => PartialComparatorOp::Eq,
        };
        let partial_version = match self.partial_version_outcome() {
            Ok(v) => v,
            Err(f) => return Err(f),
        };
        Ok(PartialComparator { op: partial_comparator_op, version: partial_version })
    }

    /// A version whose minor and patch may be missing or wildcards, with
    /// optional pre-release and build metadata.
    pub fn parse_partial_version(&mut self) -> (r: Result<PartialVersion<'a>, ParserError>)
        requires
            halts(partial_version_at(old(self).tokens_view(), old(self).cursor())),
        ensures
            final(self).tokens_view() == old(self).tokens_view(),
            settles(
                r,
                final(self).cursor(),
                partial_version_at(old(self).tokens_view(), old(self).cursor()),
            ),
    {
        settle(self.partial_version_outcome())
    }

    /// Like `parse_partial_version`, for every input.
    pub fn partial_version_outcome(&mut self) -> (r: Result<PartialVersion<'a>, Failure>)
        ensures
            final(self).tokens_view() == old(self).tokens_view(),
            agrees(r, final(self).cursor(), partial_version_at(old(self).tokens_view(), old(self).cursor())),
    {
        proof {
            use_type_invariant(&*self);
        }
        let ghost t = self.tokens_view();
        let ghost p = self.cursor();
        let major = match self.peek() {
            Some(Token::Number(_)) => match self.parse_number_token() {
                Some(m) => m,
                None => return Err(Failure::Reject(ParserError::Generic)),
            },
            Some(Token::Wildcard) => {
                self.advance();
                let v = PartialVersion {
                    major: VersionComponent::Wildcard,
                    minor: VersionComponent::Wildcard,
                    patch: VersionComponent::Wildcard,
                    pre_release: Vec::new(),
                    build: Vec::new(),
                };
                assert(v@.pre_release =~= Seq::empty());
                assert(v@.build =~= Seq::empty());
                return Ok(v);
            },
            _ => return Err(Failure::Reject(ParserError::ExpectedVersionComponent)),
        };
        let ghost p1 = self.cursor();
        proof {
            use_type_invariant(&*self);
        }
        let minor: Option<u32> = match self.peek() {
            Some(Token::Dot) => {
                self.advance();
                self.parse_number_token()
            },
            _ => None,
        };
        let ghost p2 = self.cursor();
        assert((minor, p2) == (if peek_at(t, p1) == Some(TokenView::Dot) {
            number_at(t, p1 + 1)
        } else {
            (None, p1)
        }));
        proof {
            use_type_invariant(&*self);
        }
        let patch: Option<u32> = match self.peek() {
            Some(Token::Dot) => {
                self.advance();
                self.parse_number_token()
            },
            _ => None,
        };
        let ghost p3 = self.cursor();
        assert((patch, p3) == (if peek_at(t, p2) == Some(TokenView::Dot) {
            number_at(t, p2 + 1)
        } else {
            (None, p2)
        }));
        let mut pre_release: Vec<Identifier<'a>> = Vec::new();
        let mut build: Vec<Identifier<'a>> = Vec::new();
        assert(identifier_views(pre_release@) =~= Seq::empty());
        assert(identifier_views(build@) =~= Seq::empty());
        if let Some(_) = patch {
            proof {
                use_type_invariant(&*self);
            }
            // A hyphen introduces pre-release identifiers.
            if let Some(Token::Dash) = self.peek() {
                self.advance();
                pre_release = match self.parse_metadata(ParseModeMetadata::PreRelease) {
                    Ok(ids) => ids,
                    Err(e) => return Err(Failure::Reject(e)),
                };
            }
            let ghost p4 = self.cursor();
            assert((if peek_at(t, p3) == Some(TokenView::Dash) {
                metadata_at(t, p3 + 1, true)
            } else {
                Outcome::Accept(Seq::empty(), p3)
            }) == Outcome::Accept(identifier_views(pre_release@), p4));
            proof {
                use_type_invariant(&*self);
            }
            // A plus sign introduces build metadata identifiers.
            if let Some(Token::Plus) = self.peek() {
                self.advance();
                build = match self.parse_metadata(ParseModeMetadata::Build) {
                    Ok(ids) => ids,
                    Err(e) => return Err(Failure::Reject(e)),
                };
            }
            assert((if peek_at(t, p4) == Some(TokenView::Plus) {
                metadata_at(t, p4 + 1, false)
            } else {
                Outcome::Accept(Seq::empty(), p4)
            }) == Outcome::Accept(identifier_views(build@), self.cursor()));
        }
        let v = PartialVersion {
            major: VersionComponent::Number(major),
            minor: match minor {
                Some(value) => VersionComponent::Number(value),
                None => VersionComponent::Wildcard,
            },
            patch: match patch {
                Some(value) => VersionComponent::Number(value),
                None => VersionComponent::Wildcard,
            },
            pre_release,
            build,
        };
        assert(v@.pre_release =~= identifier_views(pre_release@));
        Ok(v)
    }

    /// Pre-release or build identifiers, separated by dots.
    fn parse_metadata(&mut self, mode: ParseModeMetadata) -> (r: Result<
        Vec<Identifier<'a>>,
        ParserError,
    >)
        ensures
            final(self).tokens_view() == old(self).tokens_view(),
            match metadata_at(
                old(self).tokens_view(),
                old(self).cursor(),
                mode == ParseModeMetadata::PreRelease,
            ) {
                Outcome::Accept(ids, q) => r matches Ok(v) && identifier_views(v@) == ids
                    && final(self).cursor() == q,
                Outcome::Reject(e, q) => r == Err::<Vec<Identifier<'a>>, ParserError>(e)
                    && final(self).cursor() == q,
                Outcome::Stuck => false,
            },
    {
        proof {
            use_type_invariant(&*self);
        }
        let ghost t = self.tokens_view();
        let ghost pre = mode == ParseModeMetadata::PreRelease;
        let ghost goal = metadata_at(t, self.cursor(), pre);
        let mut metadata: Vec<Identifier<'a>> = Vec::new();
        let mut identifier = String::new();
        assert(identifier_views(metadata@) =~= Seq::empty());
        loop
            invariant
                t == old(self).tokens_view(),
                goal == metadata_at(t, old(self).cursor(), pre),
                self.tokens_view() == t,
                0 <= self.cursor() <= t.len(),
                pre == (mode == ParseModeMetadata::PreRelease),
                metadata_from(t, self.cursor(), pre, identifier@, identifier_views(metadata@))
                    == goal,
            decreases t.len() - self.cursor(),
        {
            match self.peek() {
                Some(Token::Number(text)) => {
                    let text: &'a str = *text;
                    self.advance();
                    identifier.append(text);
                },
                Some(Token::Text(text)) => {
                    let text: &'a str = *text;
                    self.advance();
                    identifier.append(text);
                },
                // A '+' closes pre-release metadata and starts build metadata;
                // inside build metadata it is an error.
                Some(Token::Plus) => {
                    if matches!(mode, ParseModeMetadata::Build) {
                        return Err(ParserError::InvalidMetadataIdentifier);
                    }
                    close_identifier(&mut metadata, identifier, mode)?;
                    return Ok(metadata);
                },
                // Dots separate identifiers.
                Some(Token::Dot) => {
                    let taken = identifier;
                    identifier = String::new();
                    close_identifier(&mut metadata, taken, mode)?;
                    assert(identifier@ =~= Seq::<char>::empty());
                    self.advance();
                },
                // Anything else, or the end, closes the last identifier.
                _ => {
                    close_identifier(&mut metadata, identifier, mode)?;
                    return Ok(metadata);
                },
            }
        }
    }

    /// Consumes a token and reads it as a `u32` if it is a number.
    fn parse_number_token(&mut self) -> (r: Option<u32>)
        ensures
            final(self).tokens_view() == old(self).tokens_view(),
            (r, final(self).cursor()) == number_at(old(self).tokens_view(), old(self).cursor()),
    {
        match self.advance() {
            Some(Token::Number(digit)) => parse_decimal_u32(*digit),
            _ => None,
        }
    }

    /// A version with major, minor and patch all given as numbers.
    pub fn parse_version(&mut self) -> (r: Result<Version<'a>, ParserError>)
        requires
            halts(version_at(old(self).tokens_view(), old(self).cursor())),
        ensures
            final(self).tokens_view() == old(self).tokens_view(),
            settles(r, final(self).cursor(), version_at(old(self).tokens_view(), old(self).cursor())),
    {
        settle(self.version_outcome())
    }

    /// Like `parse_version`, for every input.
    pub fn version_outcome(&mut self) -> (r: Result<Version<'a>, Failure>)
        ensures
            final(self).tokens_view() == old(self).tokens_view(),
            agrees(r, final(self).cursor(), version_at(old(self).tokens_view(), old(self).cursor())),
    {
        let partial = match self.partial_version_outcome() {
            Ok(p) => p,
            Err(f) => return Err(f),
        };
        match (partial.major, partial.minor, partial.patch) {
            (
                VersionComponent::Number(major),
                VersionComponent::Number(minor),
                VersionComponent::Number(patch),
            ) => Ok(
                Version {
                    major,
                    minor,
                    patch,
                    pre_release: partial.pre_release,
                    build: partial.build,
                },
            ),
            _ => Err(Failure::Reject(ParserError::ExpectedCompleteVersion)),
        }
    }
}

/// `parse` starts from the first token wherever the cursor stands and leaves
/// the tokens as they are, so a second call on the same parser gives the same
/// answer as the first.
pub proof fn lemma_parse_is_repeatable(before_first: Parser, before_second: Parser)
    requires
        before_second.tokens_view() == before_first.tokens_view(),
    ensures
        version_range_at(before_second.tokens_view(), 0) == version_range_at(
            before_first.tokens_view(),
            0,
        ),
{
}

} // verus!
