//! Parses semantic versions and version ranges (`^1.2.3`, `~1.2`, `1.x`,
//! `>=1.2.3 <2.0.0 || 3.x`) and decides whether a version satisfies a range.

pub mod desugar;
pub mod lexer;
pub mod parser;
pub mod ranges;
pub mod reading;
pub mod satisfies;
pub mod text;

use vstd::prelude::*;
use crate::desugar::desugar;
use crate::lexer::{is_lexable, lex, lexable, Lexer, TokenView};
use crate::parser::{
    comparator_set_at, partial_comparator_at, partial_version_at, version_at, version_range_at,
    ComparatorView, Failure, Outcome, Parser, ParserError, Version, VersionRange, VersionView,
};
use crate::satisfies::{holds, range_holds, set_holds};

verus! {

#[derive(Debug, PartialEq, Eq)]
pub enum Error {
    InvalidVersion(ParserError),
    InvalidRange(ParserError),
}

/// What the lexer and the parser make of a range string, or `None` where
/// they would panic or not return.
pub open spec fn range_answer(s: Seq<char>) -> Option<Result<Seq<Seq<ComparatorView>>, ParserError>> {
    if lexable(s) {
        match version_range_at(lex(s), 0) {
            Outcome::Accept(r, _) => Some(Ok(r)),
            Outcome::Reject(e, _) => Some(Err(e)),
            Outcome::Stuck => None,
        }
    } else {
        None
    }
}

/// What the lexer and the parser make of a version string, or `None` where
/// they would panic or not return.
pub open spec fn version_answer(s: Seq<char>) -> Option<Result<VersionView, ParserError>> {
    if lexable(s) {
        match version_at(lex(s), 0) {
            Outcome::Accept(v, _) => Some(Ok(v)),
            Outcome::Reject(e, _) => Some(Err(e)),
            Outcome::Stuck => None,
        }
    } else {
        None
    }
}

/// Whether `version` satisfies `range`, or the error that stops the answer
/// (the range is read first); `None` where reading would panic or not return.
pub open spec fn satisfies_answer(version: Seq<char>, range: Seq<char>) -> Option<
    Result<bool, Error>,
> {
    match range_answer(range) {
        Some(Ok(r)) => match version_answer(version) {
            Some(Ok(v)) => Some(Ok(range_holds(r, v))),
            Some(Err(e)) => Some(Err(Error::InvalidVersion(e))),
            None => None,
        },
        Some(Err(e)) => Some(Err(Error::InvalidRange(e))),
        None => None,
    }
}

/// A string that reads as a complete version with nothing after it, taken
/// as a range, is satisfied by that version: `satisfies(s, s)` is `Ok(true)`.
pub proof fn lemma_version_satisfies_itself(s: Seq<char>)
    requires
        version_answer(s) matches Some(Ok(_)),
        version_at(lex(s), 0) matches Outcome::Accept(_, q) && lex(s)[q] == TokenView::Eof,
    ensures
        satisfies_answer(s, s) == Some(Ok::<bool, Error>(true)),
{
    let t = lex(s);
    let v = version_at(t, 0)->Accept_0;
    let q = version_at(t, 0)->Accept_1;
    let pc = partial_comparator_at(t, 0)->Accept_0;
    assert(partial_comparator_at(t, 0) is Accept);
    let cs = desugar(pc)->Ok_0;
    assert(cs[0].version == v);
    assert(comparator_set_at(t, 0) == Outcome::Accept(Seq::empty() + cs, q));
    let r = seq![Seq::empty() + cs];
    assert(version_range_at(t, 0) == Outcome::Accept(r, q));
    assert(holds(cs[0], v));
    assert(set_holds(r[0], v));
    assert(range_holds(r, v));
}

/// `satisfies` reads the range first: a bad range is reported whatever the
/// version; with a good range, a bad version is reported; with both good, the
/// answer is whether the version satisfies the range.
pub proof fn lemma_satisfies_reads_range_first(version: Seq<char>, range: Seq<char>)
    ensures
        range_answer(range) matches Some(Err(e)) ==> satisfies_answer(version, range) == Some(
            Err::<bool, Error>(Error::InvalidRange(e)),
        ),
        range_answer(range) matches Some(Ok(r)) ==> (version_answer(version) matches Some(Err(e))
            ==> satisfies_answer(version, range) == Some(
            Err::<bool, Error>(Error::InvalidVersion(e)),
        )),
        range_answer(range) matches Some(Ok(r)) ==> (version_answer(version) matches Some(Ok(v))
            ==> satisfies_answer(version, range) == Some(Ok::<bool, Error>(range_holds(r, v)))),
{
}

/// Whether `version_str` satisfies the range `range_str`.
pub fn satisfies(version_str: &str, range_str: &str) -> (r: Result<bool, Error>)
    requires
        satisfies_answer(version_str@, range_str@) is Some,
    ensures
        satisfies_answer(version_str@, range_str@) == Some(r),
{
    let range = match parse_range(range_str) {
        Ok(range) => range,
        Err(e) => return Err(Error::InvalidRange(e)),
    };
    let version = match parse_version(version_str) {
        Ok(version) => version,
        Err(e) => return Err(Error::InvalidVersion(e)),
    };
    Ok(range.satisfies(&version))
}

/// Reads a version range.
pub fn parse_range(input: &str) -> (r: Result<VersionRange<'_>, ParserError>)
    requires
        range_answer(input@) is Some,
    ensures
        match range_answer(input@) {
            Some(Ok(v)) => r matches Ok(x) && x@ == v,
            Some(Err(e)) => r == Err::<VersionRange<'_>, ParserError>(e),
            None => false,
        },
{
    let mut lexer = Lexer::new();
    let tokens = lexer.parse(input);
    let mut parser = Parser::new(tokens);
    parser.parse()
}

/// Reads a complete version (`major.minor.patch` with optional metadata).
pub fn parse_version(input: &str) -> (r: Result<Version<'_>, ParserError>)
    requires
        version_answer(input@) is Some,
    ensures
        match version_answer(input@) {
            Some(Ok(v)) => r matches Ok(x) && x@ == v,
            Some(Err(e)) => r == Err::<Version<'_>, ParserError>(e),
            None => false,
        },
{
    let mut lexer = Lexer::new();
    let tokens = lexer.parse(input);
    let mut parser = Parser::new(tokens);
    parser.parse_version()
}

/// Whether the range reader comes to an end on `input` (`None` when it
/// does not), and if so whether it reads a range.
fn range_reading(input: &str) -> (r: Option<bool>)
    ensures
        r == match range_answer(input@) {
            Some(res) => Some(res is Ok),
            None => None::<bool>,
        },
{
    if !is_lexable(input) {
        return None;
    }
    let mut lexer = Lexer::new();
    let tokens = lexer.parse(input);
    let mut parser = Parser::new(tokens);
    match parser.version_range_outcome() {
        Ok(_) => Some(true),
        Err(Failure::Reject(_)) => Some(false),
        Err(Failure::Stuck) => None,
    }
}

/// Decides whether `version_answer(input@)` is `Some`.
fn version_input_handled(input: &str) -> (r: bool)
    ensures
        r == (version_answer(input@) is Some),
{
    if !is_lexable(input) {
        return false;
    }
    let mut lexer = Lexer::new();
    let tokens = lexer.parse(input);
    let mut parser = Parser::new(tokens);
    !matches!(parser.version_outcome(), Err(Failure::Stuck))
}

/// `parse_range` on the inputs it handles; `None` on those where it would
/// panic or not return.
pub fn try_parse_range(input: &str) -> (r: Option<Result<VersionRange<'_>, ParserError>>)
    ensures
        r is None <==> range_answer(input@) is None,
        r matches Some(res) ==> match range_answer(input@) {
            Some(Ok(v)) => res matches Ok(x) && x@ == v,
            Some(Err(e)) => res == Err::<VersionRange<'_>, ParserError>(e),
            None => false,
        },
{
    if range_reading(input).is_some() {
        Some(parse_range(input))
    } else {
        None
    }
}

/// `parse_version` on the inputs it handles; `None` on those where it would
/// panic or not return.
pub fn try_parse_version(input: &str) -> (r: Option<Result<Version<'_>, ParserError>>)
    ensures
        r is None <==> version_answer(input@) is None,
        r matches Some(res) ==> match version_answer(input@) {
            Some(Ok(v)) => res matches Ok(x) && x@ == v,
            Some(Err(e)) => res == Err::<Version<'_>, ParserError>(e),
            None => false,
        },
{
    if version_input_handled(input) {
        Some(parse_version(input))
    } else {
        None
    }
}

/// `satisfies` on the inputs it handles; `None` on those where it would
/// panic or not return.
pub fn try_satisfies(version_str: &str, range_str: &str) -> (r: Option<Result<bool, Error>>)
    ensures
        r == satisfies_answer(version_str@, range_str@),
{
    // The version is read only when the range is valid.
    match range_reading(range_str) {
        None => return None,
        Some(valid) => {
            if valid && !version_input_handled(version_str) {
                return None;
            }
        },
    }
    Some(satisfies(version_str, range_str))
}

} // verus!
