//! A parser for unified diffs, such as `diff -u` and `git diff` write.
use vstd::prelude::*;

pub mod diff;
pub mod error;
pub mod grammar;
pub mod scan;
pub mod parser;
pub mod offsets;
pub mod outcome;
pub mod render;
pub mod diagnostic;
pub mod laws;
pub mod concat;
pub mod shape;
pub mod trailing;
pub mod header;
pub mod written;

pub use diff::{FilePatch, Hunk, HunkLine, LineRange, UnifiedDiff};
pub use diagnostic::Diagnostic;
pub use error::{Error, Expected, ParseError};

use std::ops::Range;
use vstd::utf8::encode_utf8;
use crate::diff::DiffModel;
use crate::grammar::spans_within;
use crate::offsets::byte_offset_of;
use crate::outcome::{number_error, parse_result};
use crate::parser::{char_spans, lemma_files_end, parse_file_patch, parse_file_patches};
use crate::scan::chars_of;

verus! {

/// Parses a unified diff: one or more file patches, each made of metadata lines, a
/// `--- old` and a `+++ new` line and one or more hunks, and nothing after them.
///
/// Returns the diff, or every problem found: the numbers too large for a `usize` in the
/// file patches read, and where the input stops being a unified diff, if it does. That
/// place is where the file patch that the input goes on with fails, not the furthest
/// position that any alternative reached (see `ParseError::Unexpected`).
pub fn parse(input: &str) -> (r: Result<UnifiedDiff, Vec<ParseError>>)
    ensures
        match r {
            Ok(d) => parse_result(input@) == Ok::<DiffModel, Seq<ParseError>>(d@),
            Err(errors) => parse_result(input@) == Err::<DiffModel, Seq<ParseError>>(errors@),
        },
{
    // The input's UTF-8 length is a `usize`, which bounds every byte offset below.
    let byte_count: usize = input.as_bytes().len();
    assert(byte_count == encode_utf8(input@).len());
    let s = chars_of(input);
    let (files, stop, big) = parse_file_patches(&s, 0);
    proof {
        lemma_files_end(s@, 0);
    }
    let mut errors: Vec<ParseError> = Vec::new();
    let mut k: usize = 0;
    while k < big.len()
        invariant
            0 <= k <= big@.len(),
            s@ == input@,
            encode_utf8(s@).len() <= usize::MAX,
            spans_within(char_spans(big@), 0, s@.len() as int),
            errors@ =~= char_spans(big@).take(k as int).map_values(
                |sp: (int, int)| number_error(s@, sp),
            ),
        decreases big@.len() - k,
    {
        let (a, b) = big[k];
        assert(char_spans(big@)[k as int] == (a as int, b as int));
        let start = byte_offset_of(&s, a);
        let end = byte_offset_of(&s, b);
        errors.push(ParseError::NumberTooLarge { span: Range { start, end } });
        k = k + 1;
        assert(char_spans(big@).take(k as int) =~= char_spans(big@).take(k - 1).push(
            char_spans(big@)[k - 1],
        ));
    }
    assert(char_spans(big@).take(big@.len() as int) =~= char_spans(big@));
    if !(files.len() > 0 && stop == s.len()) {
        match parse_file_patch(&s, stop) {
            Ok(_) => {
                proof {
                    assert(false);
                }
            },
            Err((p, expected)) => {
                let found = if p < s.len() {
                    Some(s[p])
                } else {
                    None
                };
                let start = byte_offset_of(&s, p);
                let end = if p < s.len() {
                    byte_offset_of(&s, p + 1)
                } else {
                    start
                };
                errors.push(ParseError::Unexpected { span: Range { start, end }, found, expected });
            },
        }
    }
    if errors.len() == 0 {
        Ok(UnifiedDiff { files })
    } else {
        Err(errors)
    }
}

} // verus!
