//! The unified diff grammar, as spec functions over the input's characters.
//!
//! Every function reads the input `s` from a character position and says what is
//! recognised there and where the next element starts. The grammar is a parsing
//! expression grammar: a repetition takes as many elements as match and never gives
//! one back, and the alternatives of a hunk line are tried in order.
use vstd::prelude::*;
use crate::diff::{FilePatchModel, HunkLineModel, HunkModel, LineRange};
use crate::error::Expected;

verus! {

/// The characters that end a line.
pub open spec fn is_newline_char(c: char) -> bool {
    ||| c == '\n'
    ||| c == '\r'
    ||| c == '\x0B'
    ||| c == '\x0C'
    ||| c == '\u{85}'
    ||| c == '\u{2028}'
    ||| c == '\u{2029}'
}

/// Where the text of a line that starts at `i` ends: the first line-ending character at
/// or after `i`, or the end of the input.
pub open spec fn line_text_end(s: Seq<char>, i: int) -> int
    decreases s.len() - i,
{
    if i < 0 || i >= s.len() || is_newline_char(s[i]) {
        i
    } else {
        line_text_end(s, i + 1)
    }
}

/// The length of the line ending at `i`: 2 for `\r\n`, 1 for another line-ending
/// character, 0 where there is none.
pub open spec fn newline_len(s: Seq<char>, i: int) -> int {
    if 0 <= i < s.len() && s[i] == '\r' {
        if i + 1 < s.len() && s[i + 1] == '\n' {
            2
        } else {
            1
        }
    } else if 0 <= i < s.len() && is_newline_char(s[i]) {
        1
    } else {
        0
    }
}

/// Where the next line starts, for a line whose text starts at `i`: past its line ending,
/// or at the end of the input.
pub open spec fn after_line(s: Seq<char>, i: int) -> int {
    line_text_end(s, i) + newline_len(s, line_text_end(s, i))
}

/// The text of the line that starts at `i`.
pub open spec fn line_text(s: Seq<char>, i: int) -> Seq<char> {
    s.subrange(i, line_text_end(s, i))
}

/// `lit` occurs in `s` at position `i`.
pub open spec fn has_literal(s: Seq<char>, i: int, lit: Seq<char>) -> bool {
    &&& 0 <= i
    &&& i + lit.len() <= s.len()
    &&& s.subrange(i, i + lit.len()) == lit
}

/// The first position, from `i + k` on, at which `s` stops following `lit`.
pub open spec fn literal_mismatch(s: Seq<char>, i: int, lit: Seq<char>, k: int) -> int
    decreases lit.len() - k,
{
    if k < 0 || k >= lit.len() || i + k < 0 || i + k >= s.len() || s[i + k] != lit[k] {
        i + k
    } else {
        literal_mismatch(s, i, lit, k + 1)
    }
}

/// `--- `, which starts the old file's header line.
pub open spec fn old_marker() -> Seq<char> {
    seq!['-', '-', '-', ' ']
}

/// `+++ `, which starts the new file's header line.
pub open spec fn new_marker() -> Seq<char> {
    seq!['+', '+', '+', ' ']
}

/// `@@ -`, which starts a hunk header.
pub open spec fn hunk_open() -> Seq<char> {
    seq!['@', '@', ' ', '-']
}

/// ` +`, between the two ranges of a hunk header.
pub open spec fn hunk_new_range() -> Seq<char> {
    seq![' ', '+']
}

/// ` @@`, which closes the ranges of a hunk header.
pub open spec fn hunk_close() -> Seq<char> {
    seq![' ', '@', '@']
}

/// `\ No newline at end of file`.
pub open spec fn no_newline_marker() -> Seq<char> {
    seq![
        '\\', ' ', 'N', 'o', ' ', 'n', 'e', 'w', 'l', 'i', 'n', 'e', ' ', 'a', 't', ' ',
        'e', 'n', 'd', ' ', 'o', 'f', ' ', 'f', 'i', 'l', 'e',
    ]
}

pub open spec fn is_digit(c: char) -> bool {
    '0' <= c <= '9'
}

pub open spec fn digit_value(c: char) -> nat {
    (c as int - '0' as int) as nat
}

/// The end of the run of decimal digits that starts at `i`.
pub open spec fn digits_end(s: Seq<char>, i: int) -> int
    decreases s.len() - i,
{
    if 0 <= i < s.len() && is_digit(s[i]) {
        digits_end(s, i + 1)
    } else {
        i
    }
}

/// The decimal value of `s[i..j]`.
pub open spec fn digits_value(s: Seq<char>, i: int, j: int) -> nat
    decreases j - i,
{
    if j <= i {
        0
    } else {
        digits_value(s, i, j - 1) * 10 + digit_value(s[j - 1])
    }
}

/// Where an integer that starts at `i` ends: `0`, or a non-zero digit and the digits
/// after it. It is `i` itself where no integer starts.
pub open spec fn int_end(s: Seq<char>, i: int) -> int {
    if 0 <= i < s.len() && s[i] == '0' {
        i + 1
    } else if 0 <= i < s.len() && '1' <= s[i] <= '9' {
        digits_end(s, i + 1)
    } else {
        i
    }
}

/// The value a number gets: itself where it fits in a `usize`, else 0 (and the number is
/// reported as too large).
pub open spec fn fit(v: nat) -> usize {
    if v <= usize::MAX {
        v as usize
    } else {
        0
    }
}

/// The character span `[i, j)` if the number `v` written there does not fit in a `usize`.
pub open spec fn oversized(i: int, j: int, v: nat) -> Seq<(int, int)> {
    if v > usize::MAX {
        seq![(i, j)]
    } else {
        seq![]
    }
}

/// A line range at `i`: `start` or `start,count`. Gives the range, its end and the spans
/// of the numbers in it that are too large.
pub open spec fn line_range_at(s: Seq<char>, i: int) -> Option<(LineRange, int, Seq<(int, int)>)> {
    let q = int_end(s, i);
    if q == i {
        None
    } else {
        let start = digits_value(s, i, q);
        if 0 <= q < s.len() && s[q] == ',' && int_end(s, q + 1) != q + 1 {
            let r = int_end(s, q + 1);
            let count = digits_value(s, q + 1, r);
            Some(
                (
                    LineRange { start: fit(start), count: fit(count) },
                    r,
                    oversized(i, q, start) + oversized(q + 1, r, count),
                ),
            )
        } else {
            Some((LineRange { start: fit(start), count: 1 }, q, oversized(i, q, start)))
        }
    }
}

/// Every span in `v` lies within `[lo, hi]`.
pub open spec fn spans_within(v: Seq<(int, int)>, lo: int, hi: int) -> bool {
    forall|k: int| 0 <= k < v.len() ==> lo <= #[trigger] v[k].0 && v[k].0 <= v[k].1 <= hi
}

/// The section heading after ` @@`: one leading space is dropped, and an empty heading
/// is none.
pub open spec fn section_of(t: Seq<char>) -> Option<Seq<char>> {
    let t2 = if t.len() > 0 && t[0] == ' ' {
        t.drop_first()
    } else {
        t
    };
    if t2.len() == 0 {
        None
    } else {
        Some(t2)
    }
}

/// What a hunk header yields: both ranges, the section, where the next line starts, and
/// the spans of numbers too large.
pub struct HeaderParse {
    pub old: LineRange,
    pub new: LineRange,
    pub section: Option<Seq<char>>,
    pub next: int,
    pub oversized: Seq<(int, int)>,
}

/// A hunk header line at `i`, or the position at which it fails and what was expected there.
pub open spec fn hunk_header_at(s: Seq<char>, i: int) -> Result<HeaderParse, (int, Expected)> {
    if !has_literal(s, i, hunk_open()) {
        Err((literal_mismatch(s, i, hunk_open(), 0), Expected::HunkHeader))
    } else {
        match line_range_at(s, i + 4) {
            None => Err((i + 4, Expected::Digit)),
            Some((old, p1, big1)) => if !has_literal(s, p1, hunk_new_range()) {
                Err((literal_mismatch(s, p1, hunk_new_range(), 0), Expected::NewRange))
            } else {
                match line_range_at(s, p1 + 2) {
                    None => Err((p1 + 2, Expected::Digit)),
                    Some((new, p2, big2)) => if !has_literal(s, p2, hunk_close()) {
                        Err((literal_mismatch(s, p2, hunk_close(), 0), Expected::HunkHeaderEnd))
                    } else {
                        Ok(
                            HeaderParse {
                                old,
                                new,
                                section: section_of(line_text(s, p2 + 3)),
                                next: after_line(s, p2 + 3),
                                oversized: big1 + big2,
                            },
                        )
                    },
                }
            },
        }
    }
}

/// The text of a hunk line whose marker is at `i`, and where the next line starts.
pub open spec fn marked_line(s: Seq<char>, i: int) -> (Seq<char>, int) {
    (line_text(s, i + 1), after_line(s, i + 1))
}

/// One hunk line at `i` and where the next line starts, if a hunk line starts there.
pub open spec fn hunk_line_at(s: Seq<char>, i: int) -> Option<(HunkLineModel, int)> {
    let m = i + no_newline_marker().len();
    if has_literal(s, i, no_newline_marker()) && (m == s.len() || newline_len(s, m) > 0) {
        Some((HunkLineModel::NoNewlineAtEndOfFile, m + newline_len(s, m)))
    } else if 0 <= i < s.len() && s[i] == ' ' {
        Some((HunkLineModel::Context(marked_line(s, i).0), marked_line(s, i).1))
    } else if 0 <= i < s.len() && s[i] == '+' {
        Some((HunkLineModel::Add(marked_line(s, i).0), marked_line(s, i).1))
    } else if 0 <= i < s.len() && s[i] == '-' {
        Some((HunkLineModel::Remove(marked_line(s, i).0), marked_line(s, i).1))
    } else {
        None
    }
}

/// All hunk lines from `i` on, and where they stop. (Every hunk line takes at least one
/// character, so the test `i < j` always holds; it makes the recursion visibly finite.)
pub open spec fn hunk_lines_from(s: Seq<char>, i: int) -> (Seq<HunkLineModel>, int)
    decreases s.len() - i,
{
    match hunk_line_at(s, i) {
        Some((l, j)) => if i < j <= s.len() {
            (seq![l] + hunk_lines_from(s, j).0, hunk_lines_from(s, j).1)
        } else {
            (seq![], i)
        },
        None => (seq![], i),
    }
}

/// A hunk at `i`: its header and the lines under it; where the next element starts and
/// the spans of numbers too large. On failure, where the header failed and what was
/// expected there.
pub open spec fn hunk_at(s: Seq<char>, i: int) -> Result<(HunkModel, int, Seq<(int, int)>), (int, Expected)> {
    match hunk_header_at(s, i) {
        Err(e) => Err(e),
        Ok(h) => Ok(
            (
                HunkModel {
                    old: h.old,
                    new: h.new,
                    section: h.section,
                    lines: hunk_lines_from(s, h.next).0,
                },
                hunk_lines_from(s, h.next).1,
                h.oversized,
            ),
        ),
    }
}

/// All hunks from `i` on, where they stop, and the spans of numbers too large in them.
pub open spec fn hunks_from(s: Seq<char>, i: int) -> (Seq<HunkModel>, int, Seq<(int, int)>)
    decreases s.len() - i,
{
    match hunk_at(s, i) {
        Ok((h, j, big)) => if i < j <= s.len() {
            let rest = hunks_from(s, j);
            (seq![h] + rest.0, rest.1, big + rest.2)
        } else {
            (seq![], i, seq![])
        },
        Err(_) => (seq![], i, seq![]),
    }
}

/// A metadata line starts at `i`: it does not start with `--- ` and it has a line ending.
pub open spec fn is_metadata_line(s: Seq<char>, i: int) -> bool {
    &&& 0 <= i
    &&& line_text_end(s, i) < s.len()
    &&& !has_literal(s, i, old_marker())
}

/// All metadata lines from `i` on, and where they stop.
pub open spec fn metadata_from(s: Seq<char>, i: int) -> (Seq<Seq<char>>, int)
    decreases s.len() - i,
{
    if is_metadata_line(s, i) && i < after_line(s, i) <= s.len() {
        (seq![line_text(s, i)] + metadata_from(s, after_line(s, i)).0, metadata_from(
            s,
            after_line(s, i),
        ).1)
    } else {
        (seq![], i)
    }
}

/// The first tab in `s[i..e]`, or `e`.
pub open spec fn tab_or_end(s: Seq<char>, i: int, e: int) -> int
    decreases e - i,
{
    if i < 0 || i >= e || i >= s.len() || s[i] == '\t' {
        i
    } else {
        tab_or_end(s, i + 1, e)
    }
}

/// The path of a file header line whose marker is at `i`: the text after the marker up
/// to a tab (which starts a timestamp) or the line's end.
pub open spec fn header_path(s: Seq<char>, i: int) -> Seq<char> {
    s.subrange(i + 4, tab_or_end(s, i + 4, line_text_end(s, i + 4)))
}

/// A file header line `marker path` at `i`: the path and where the next line starts.
pub open spec fn file_header_at(s: Seq<char>, i: int, marker: Seq<char>, expected: Expected) -> Result<
    (Seq<char>, int),
    (int, Expected),
> {
    if has_literal(s, i, marker) {
        Ok((header_path(s, i), after_line(s, i + 4)))
    } else {
        Err((literal_mismatch(s, i, marker, 0), expected))
    }
}

/// A file patch at `i`: metadata lines, the `--- ` and `+++ ` headers and at least one
/// hunk. Gives the patch, where it ends and the spans of numbers too large; on failure,
/// where it failed and what was expected there.
pub open spec fn file_patch_at(s: Seq<char>, i: int) -> Result<
    (FilePatchModel, int, Seq<(int, int)>),
    (int, Expected),
> {
    let (metadata, m) = metadata_from(s, i);
    match file_header_at(s, m, old_marker(), Expected::OldFileHeader) {
        Err(e) => Err(e),
        Ok((old, p1)) => match file_header_at(s, p1, new_marker(), Expected::NewFileHeader) {
            Err(e) => Err(e),
            Ok((new, p2)) => match hunk_at(s, p2) {
                Err(e) => Err(e),
                Ok((first, p3, big1)) => {
                    let rest = if p2 < p3 <= s.len() {
                        hunks_from(s, p3)
                    } else {
                        (seq![], p3, seq![])
                    };
                    Ok(
                        (
                            FilePatchModel { metadata, old, new, hunks: seq![first] + rest.0 },
                            rest.1,
                            big1 + rest.2,
                        ),
                    )
                },
            },
        },
    }
}

/// All file patches from `i` on, where they stop, and the spans of numbers too large.
pub open spec fn files_from(s: Seq<char>, i: int) -> (Seq<FilePatchModel>, int, Seq<(int, int)>)
    decreases s.len() - i,
{
    match file_patch_at(s, i) {
        Ok((f, j, big)) => if i < j <= s.len() {
            let rest = files_from(s, j);
            (seq![f] + rest.0, rest.1, big + rest.2)
        } else {
            (seq![], i, seq![])
        },
        Err(_) => (seq![], i, seq![]),
    }
}

/// The input is a unified diff: at least one file patch, and nothing after the last.
pub open spec fn is_complete_diff(s: Seq<char>) -> bool {
    files_from(s, 0).0.len() > 0 && files_from(s, 0).1 == s.len()
}

/// Where parsing fails and what was expected there, if the input is not a unified diff:
/// the failure of the file patch that the input continues with, where the file patches
/// stop.
pub open spec fn syntax_failure(s: Seq<char>) -> Option<(int, Expected)> {
    if is_complete_diff(s) {
        None
    } else {
        match file_patch_at(s, files_from(s, 0).1) {
            Err(e) => Some(e),
            Ok(_) => Some((files_from(s, 0).1, Expected::OldFileHeader)),
        }
    }
}

} // verus!
