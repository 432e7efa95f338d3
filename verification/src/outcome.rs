//! What a parse returns for a given input: the diff, or the problems found, in order.
use vstd::prelude::*;
use std::ops::Range;
use crate::diff::DiffModel;
use crate::error::{Expected, ParseError};
use crate::grammar::{files_from, syntax_failure};
use crate::offsets::byte_offset;

verus! {

/// The byte span of the characters `[i, j)` of `s`.
pub open spec fn byte_span(s: Seq<char>, i: int, j: int) -> Range<usize> {
    Range { start: byte_offset(s, i) as usize, end: byte_offset(s, j) as usize }
}

/// The error for a number at the character span `sp` that does not fit in a `usize`.
pub open spec fn number_error(s: Seq<char>, sp: (int, int)) -> ParseError {
    ParseError::NumberTooLarge { span: byte_span(s, sp.0, sp.1) }
}

/// The error for a parse that fails at character position `p`, expecting `expected`:
/// it covers the character found there, or is empty at the end of the input.
pub open spec fn unexpected_error(s: Seq<char>, p: int, expected: Expected) -> ParseError {
    if p < s.len() {
        ParseError::Unexpected { span: byte_span(s, p, p + 1), found: Some(s[p]), expected }
    } else {
        ParseError::Unexpected { span: byte_span(s, p, p), found: None, expected }
    }
}

/// The problems found in `s`, in order: every number too large in the file patches
/// read, then where the input stops being a unified diff, if it does.
pub open spec fn diff_errors(s: Seq<char>) -> Seq<ParseError> {
    let numbers = files_from(s, 0).2.map_values(|sp: (int, int)| number_error(s, sp));
    match syntax_failure(s) {
        Some((p, expected)) => numbers.push(unexpected_error(s, p, expected)),
        None => numbers,
    }
}

/// The result of parsing `s`: the diff where no problem is found, else every problem.
pub open spec fn parse_result(s: Seq<char>) -> Result<DiffModel, Seq<ParseError>> {
    if diff_errors(s).len() == 0 {
        Ok(DiffModel { files: files_from(s, 0).0 })
    } else {
        Err(diff_errors(s))
    }
}

} // verus!
