//! Reading a diff written after another one: how the grammar reads `a + b`, first
//! inside `a`, then inside `b`.
use vstd::prelude::*;
use crate::diff::DiffModel;
use crate::error::Expected;
use crate::grammar::{
    after_line, digits_end, digits_value, file_header_at, file_patch_at, files_from,
    has_literal, header_path, hunk_at, hunk_close, hunk_header_at, hunk_line_at, hunk_lines_from,
    hunk_new_range, hunk_open, hunks_from, int_end, is_complete_diff, is_metadata_line,
    is_newline_char, line_range_at, line_text, line_text_end, literal_mismatch, metadata_from,
    new_marker, newline_len, no_newline_marker, old_marker, tab_or_end, HeaderParse,
};
use crate::outcome::parse_result;
use crate::parser::{
    lemma_file_patch_advances, lemma_header_advances, lemma_hunk_advances,
    lemma_hunk_line_advances, lemma_int_end, lemma_line_range_end,
    lemma_metadata_end,
};
use crate::scan::{lemma_after_line, lemma_line_text_end};

verus! {

/// The spans of `v`, moved `d` positions on.
pub open spec fn shift_spans(v: Seq<(int, int)>, d: int) -> Seq<(int, int)> {
    v.map_values(|p: (int, int)| (p.0 + d, p.1 + d))
}

proof fn lemma_shift_spans_add(v: Seq<(int, int)>, w: Seq<(int, int)>, d: int)
    ensures
        shift_spans(v + w, d) =~= shift_spans(v, d) + shift_spans(w, d),
{
}

// ---------------------------------------------------------------------------------
// Inside `b`: reading `a + b` from `a.len() + k` is reading `b` from `k`, `a.len()`
// positions on.

proof fn shift_line_text_end(a: Seq<char>, b: Seq<char>, k: int)
    requires
        0 <= k <= b.len(),
    ensures
        line_text_end(a + b, a.len() + k) == a.len() + line_text_end(b, k),
    decreases b.len() - k,
{
    if k < b.len() && !is_newline_char(b[k]) {
        shift_line_text_end(a, b, k + 1);
    }
}

proof fn shift_after_line(a: Seq<char>, b: Seq<char>, k: int)
    requires
        0 <= k <= b.len(),
    ensures
        line_text_end(a + b, a.len() + k) == a.len() + line_text_end(b, k),
        after_line(a + b, a.len() + k) == a.len() + after_line(b, k),
        line_text(a + b, a.len() + k) =~= line_text(b, k),
{
    shift_line_text_end(a, b, k);
    lemma_line_text_end(b, k);
    let e = line_text_end(b, k);
    assert(newline_len(a + b, a.len() + e) == newline_len(b, e));
}

proof fn shift_has_literal(a: Seq<char>, b: Seq<char>, k: int, lit: Seq<char>)
    requires
        0 <= k <= b.len(),
    ensures
        has_literal(a + b, a.len() + k, lit) == has_literal(b, k, lit),
{
    if k + lit.len() <= b.len() {
        assert((a + b).subrange(a.len() + k, a.len() + k + lit.len()) =~= b.subrange(
            k,
            k + lit.len(),
        ));
    }
}

proof fn shift_literal_mismatch(a: Seq<char>, b: Seq<char>, k: int, lit: Seq<char>, m: int)
    requires
        0 <= k <= b.len(),
        0 <= m,
    ensures
        literal_mismatch(a + b, a.len() + k, lit, m) == a.len() + literal_mismatch(b, k, lit, m),
    decreases lit.len() - m,
{
    if m < lit.len() && k + m < b.len() && b[k + m] == lit[m] {
        shift_literal_mismatch(a, b, k, lit, m + 1);
    }
}

proof fn shift_digits_end(a: Seq<char>, b: Seq<char>, k: int)
    requires
        0 <= k <= b.len(),
    ensures
        digits_end(a + b, a.len() + k) == a.len() + digits_end(b, k),
    decreases b.len() - k,
{
    if k < b.len() && crate::grammar::is_digit(b[k]) {
        shift_digits_end(a, b, k + 1);
    }
}

proof fn shift_digits_value(a: Seq<char>, b: Seq<char>, i: int, j: int)
    requires
        0 <= i,
        j <= b.len(),
    ensures
        digits_value(a + b, a.len() + i, a.len() + j) == digits_value(b, i, j),
    decreases j - i,
{
    if i < j {
        shift_digits_value(a, b, i, j - 1);
    }
}

proof fn shift_int_end(a: Seq<char>, b: Seq<char>, k: int)
    requires
        0 <= k <= b.len(),
    ensures
        int_end(a + b, a.len() + k) == a.len() + int_end(b, k),
{
    if k < b.len() {
        shift_digits_end(a, b, k + 1);
    }
}

proof fn shift_line_range(a: Seq<char>, b: Seq<char>, k: int)
    requires
        0 <= k <= b.len(),
    ensures
        line_range_at(a + b, a.len() + k) == match line_range_at(b, k) {
            None => None,
            Some((r, e, big)) => Some((r, a.len() + e, shift_spans(big, a.len() as int))),
        },
{
    let d = a.len() as int;
    shift_int_end(a, b, k);
    lemma_int_end(b, k);
    let q = int_end(b, k);
    if q != k {
        shift_digits_value(a, b, k, q);
        if q < b.len() {
            shift_int_end(a, b, q + 1);
            lemma_int_end(b, q + 1);
            let r = int_end(b, q + 1);
            if r != q + 1 {
                shift_digits_value(a, b, q + 1, r);
            }
        }
        if let Some((_, _, big)) = line_range_at(b, k) {
            assert(shift_spans(big, d) =~= line_range_at(a + b, d + k)->Some_0.2);
        }
    }
}

proof fn shift_hunk_header(a: Seq<char>, b: Seq<char>, k: int)
    requires
        0 <= k <= b.len(),
    ensures
        hunk_header_at(a + b, a.len() + k) == match hunk_header_at(b, k) {
            Ok(h) => Ok(
                HeaderParse {
                    next: a.len() + h.next,
                    oversized: shift_spans(h.oversized, a.len() as int),
                    ..h
                },
            ),
            Err((p, e)) => Err((a.len() + p, e)),
        },
{
    let d = a.len() as int;
    shift_has_literal(a, b, k, hunk_open());
    shift_literal_mismatch(a, b, k, hunk_open(), 0);
    if has_literal(b, k, hunk_open()) {
        shift_line_range(a, b, k + 4);
        lemma_line_range_end(b, k + 4);
        if let Some((_, p1, big1)) = line_range_at(b, k + 4) {
            shift_has_literal(a, b, p1, hunk_new_range());
            shift_literal_mismatch(a, b, p1, hunk_new_range(), 0);
            if has_literal(b, p1, hunk_new_range()) {
                shift_line_range(a, b, p1 + 2);
                lemma_line_range_end(b, p1 + 2);
                if let Some((_, p2, big2)) = line_range_at(b, p1 + 2) {
                    shift_has_literal(a, b, p2, hunk_close());
                    shift_literal_mismatch(a, b, p2, hunk_close(), 0);
                    if has_literal(b, p2, hunk_close()) {
                        shift_after_line(a, b, p2 + 3);
                        lemma_shift_spans_add(big1, big2, d);
                    }
                }
            }
        }
    }
}

proof fn shift_hunk_line(a: Seq<char>, b: Seq<char>, k: int)
    requires
        0 <= k <= b.len(),
    ensures
        hunk_line_at(a + b, a.len() + k) == match hunk_line_at(b, k) {
            None => None,
            Some((l, j)) => Some((l, a.len() + j)),
        },
{
    let m = k + no_newline_marker().len();
    shift_has_literal(a, b, k, no_newline_marker());
    if has_literal(b, k, no_newline_marker()) {
        assert(newline_len(a + b, a.len() + m) == newline_len(b, m));
    }
    if k < b.len() {
        shift_after_line(a, b, k + 1);
    }
}

proof fn shift_hunk_lines(a: Seq<char>, b: Seq<char>, k: int)
    requires
        0 <= k <= b.len(),
    ensures
        hunk_lines_from(a + b, a.len() + k).0 == hunk_lines_from(b, k).0,
        hunk_lines_from(a + b, a.len() + k).1 == a.len() + hunk_lines_from(b, k).1,
    decreases b.len() - k,
{
    shift_hunk_line(a, b, k);
    lemma_hunk_line_advances(b, k);
    if let Some((_, j)) = hunk_line_at(b, k) {
        shift_hunk_lines(a, b, j);
    }
}

proof fn shift_hunk(a: Seq<char>, b: Seq<char>, k: int)
    requires
        0 <= k <= b.len(),
    ensures
        hunk_at(a + b, a.len() + k) == match hunk_at(b, k) {
            Ok((h, j, big)) => Ok((h, a.len() + j, shift_spans(big, a.len() as int))),
            Err((p, e)) => Err((a.len() + p, e)),
        },
{
    shift_hunk_header(a, b, k);
    lemma_header_advances(b, k);
    if let Ok(h) = hunk_header_at(b, k) {
        shift_hunk_lines(a, b, h.next);
    }
}

proof fn shift_hunks(a: Seq<char>, b: Seq<char>, k: int)
    requires
        0 <= k <= b.len(),
    ensures
        hunks_from(a + b, a.len() + k).0 == hunks_from(b, k).0,
        hunks_from(a + b, a.len() + k).1 == a.len() + hunks_from(b, k).1,
        hunks_from(a + b, a.len() + k).2 == shift_spans(hunks_from(b, k).2, a.len() as int),
    decreases b.len() - k,
{
    shift_hunk(a, b, k);
    lemma_hunk_advances(b, k);
    if let Ok((_, j, big)) = hunk_at(b, k) {
        shift_hunks(a, b, j);
        lemma_shift_spans_add(big, hunks_from(b, j).2, a.len() as int);
    }
}

proof fn shift_metadata(a: Seq<char>, b: Seq<char>, k: int)
    requires
        0 <= k <= b.len(),
    ensures
        metadata_from(a + b, a.len() + k).0 == metadata_from(b, k).0,
        metadata_from(a + b, a.len() + k).1 == a.len() + metadata_from(b, k).1,
    decreases b.len() - k,
{
    shift_after_line(a, b, k);
    shift_has_literal(a, b, k, old_marker());
    lemma_after_line(b, k);
    if is_metadata_line(b, k) && k < after_line(b, k) <= b.len() {
        shift_metadata(a, b, after_line(b, k));
    }
}

proof fn shift_tab_or_end(a: Seq<char>, b: Seq<char>, k: int, e: int)
    requires
        0 <= k <= e <= b.len(),
    ensures
        tab_or_end(a + b, a.len() + k, a.len() + e) == a.len() + tab_or_end(b, k, e),
    decreases e - k,
{
    if k < e && b[k] != '\t' {
        shift_tab_or_end(a, b, k + 1, e);
    }
}

proof fn shift_file_header(a: Seq<char>, b: Seq<char>, k: int, marker: Seq<char>, expected: Expected)
    requires
        0 <= k <= b.len(),
        marker.len() == 4,
    ensures
        file_header_at(a + b, a.len() + k, marker, expected) == match file_header_at(
            b,
            k,
            marker,
            expected,
        ) {
            Ok((path, j)) => Ok((path, a.len() + j)),
            Err((p, e)) => Err((a.len() + p, e)),
        },
{
    shift_has_literal(a, b, k, marker);
    shift_literal_mismatch(a, b, k, marker, 0);
    if has_literal(b, k, marker) {
        shift_after_line(a, b, k + 4);
        lemma_line_text_end(b, k + 4);
        shift_tab_or_end(a, b, k + 4, line_text_end(b, k + 4));
        crate::laws::lemma_tab_or_end(b, k + 4, line_text_end(b, k + 4));
        assert(header_path(a + b, a.len() + k) =~= header_path(b, k));
    }
}

pub proof fn shift_file_patch(a: Seq<char>, b: Seq<char>, k: int)
    requires
        0 <= k <= b.len(),
    ensures
        file_patch_at(a + b, a.len() + k) == match file_patch_at(b, k) {
            Ok((f, j, big)) => Ok((f, a.len() + j, shift_spans(big, a.len() as int))),
            Err((p, e)) => Err((a.len() + p, e)),
        },
{
    let d = a.len() as int;
    shift_metadata(a, b, k);
    lemma_metadata_end(b, k);
    let m = metadata_from(b, k).1;
    shift_file_header(a, b, m, old_marker(), Expected::OldFileHeader);
    if let Ok((_, p1)) = file_header_at(b, m, old_marker(), Expected::OldFileHeader) {
        lemma_after_line(b, m + 4);
        shift_file_header(a, b, p1, new_marker(), Expected::NewFileHeader);
        if let Ok((_, p2)) = file_header_at(b, p1, new_marker(), Expected::NewFileHeader) {
            lemma_after_line(b, p1 + 4);
            shift_hunk(a, b, p2);
            lemma_hunk_advances(b, p2);
            if let Ok((_, p3, big1)) = hunk_at(b, p2) {
                shift_hunks(a, b, p3);
                lemma_shift_spans_add(big1, hunks_from(b, p3).2, d);
            }
        }
    }
}

pub proof fn shift_files(a: Seq<char>, b: Seq<char>, k: int)
    requires
        0 <= k <= b.len(),
    ensures
        files_from(a + b, a.len() + k).0 == files_from(b, k).0,
        files_from(a + b, a.len() + k).1 == a.len() + files_from(b, k).1,
        files_from(a + b, a.len() + k).2 == shift_spans(files_from(b, k).2, a.len() as int),
    decreases b.len() - k,
{
    shift_file_patch(a, b, k);
    lemma_file_patch_advances(b, k);
    if let Ok((_, j, big)) = file_patch_at(b, k) {
        shift_files(a, b, j);
        lemma_shift_spans_add(big, files_from(b, j).2, a.len() as int);
    }
}

// ---------------------------------------------------------------------------------
// Inside `a`: where `a` ends with a line ending, reading `a + b` from a position inside
// `a` reads the same lines as reading `a`.

/// `a` ends with a line ending that `b` does not lengthen: its last character ends a
/// line, and where that is `\r`, `b` does not start with `\n`.
pub open spec fn ends_with_break(a: Seq<char>, b: Seq<char>) -> bool {
    &&& a.len() > 0
    &&& is_newline_char(a[a.len() - 1])
    &&& a[a.len() - 1] == '\r' ==> b.len() == 0 || b[0] != '\n'
}

/// `lit` holds no line-ending character.
pub open spec fn newline_free(lit: Seq<char>) -> bool {
    forall|k: int| 0 <= k < lit.len() ==> !is_newline_char(#[trigger] lit[k])
}

/// `b` cannot continue the last hunk of a diff written before it: it starts with neither
/// a hunk line nor a hunk header.
pub open spec fn starts_apart(b: Seq<char>) -> bool {
    &&& hunk_line_at(b, 0) is None
    &&& hunk_header_at(b, 0) is Err
}

pub proof fn lemma_literals()
    ensures
        newline_free(old_marker()),
        newline_free(new_marker()),
        newline_free(hunk_open()),
        newline_free(hunk_new_range()),
        newline_free(hunk_close()),
        newline_free(no_newline_marker()),
        old_marker().len() == 4,
{
}

proof fn prefix_line_text_end(a: Seq<char>, b: Seq<char>, i: int)
    requires
        ends_with_break(a, b),
        0 <= i < a.len(),
    ensures
        line_text_end(a + b, i) == line_text_end(a, i),
        line_text_end(a, i) < a.len(),
    decreases a.len() - i,
{
    if !is_newline_char(a[i]) {
        prefix_line_text_end(a, b, i + 1);
    }
}

proof fn prefix_newline_len(a: Seq<char>, b: Seq<char>, i: int)
    requires
        ends_with_break(a, b),
        0 <= i < a.len(),
    ensures
        newline_len(a + b, i) == newline_len(a, i),
{
}

proof fn prefix_after_line(a: Seq<char>, b: Seq<char>, i: int)
    requires
        ends_with_break(a, b),
        0 <= i < a.len(),
    ensures
        line_text_end(a + b, i) == line_text_end(a, i),
        after_line(a + b, i) == after_line(a, i),
        after_line(a, i) <= a.len(),
        line_text(a + b, i) =~= line_text(a, i),
{
    prefix_line_text_end(a, b, i);
    lemma_line_text_end(a, i);
    prefix_newline_len(a, b, line_text_end(a, i));
    lemma_after_line(a, i);
}

proof fn prefix_has_literal(a: Seq<char>, b: Seq<char>, i: int, lit: Seq<char>)
    requires
        ends_with_break(a, b),
        0 <= i < a.len(),
        newline_free(lit),
        lit.len() > 0,
    ensures
        has_literal(a + b, i, lit) == has_literal(a, i, lit),
        has_literal(a, i, lit) ==> i + lit.len() < a.len(),
{
    let d = a.len() as int;
    let n = lit.len() as int;
    if i + n <= d {
        assert((a + b).subrange(i, i + n) =~= a.subrange(i, i + n));
        if has_literal(a, i, lit) && i + n == d {
            assert(a.subrange(i, i + n)[n - 1] == a[d - 1]);
        }
    } else if has_literal(a + b, i, lit) {
        assert((a + b).subrange(i, i + n)[d - 1 - i] == (a + b)[d - 1]);
    }
}

proof fn prefix_literal_mismatch(a: Seq<char>, b: Seq<char>, i: int, lit: Seq<char>, m: int)
    requires
        ends_with_break(a, b),
        0 <= i,
        0 <= m,
        i + m < a.len(),
        newline_free(lit),
    ensures
        literal_mismatch(a + b, i, lit, m) == literal_mismatch(a, i, lit, m),
    decreases lit.len() - m,
{
    if m < lit.len() && a[i + m] == lit[m] {
        prefix_literal_mismatch(a, b, i, lit, m + 1);
    }
}

proof fn prefix_digits_end(a: Seq<char>, b: Seq<char>, i: int)
    requires
        ends_with_break(a, b),
        0 <= i < a.len(),
    ensures
        digits_end(a + b, i) == digits_end(a, i),
        digits_end(a, i) < a.len(),
    decreases a.len() - i,
{
    if crate::grammar::is_digit(a[i]) {
        prefix_digits_end(a, b, i + 1);
    }
}

proof fn prefix_digits_value(a: Seq<char>, b: Seq<char>, i: int, j: int)
    requires
        0 <= i,
        j <= a.len(),
    ensures
        digits_value(a + b, i, j) == digits_value(a, i, j),
    decreases j - i,
{
    if i < j {
        prefix_digits_value(a, b, i, j - 1);
    }
}

proof fn prefix_int_end(a: Seq<char>, b: Seq<char>, i: int)
    requires
        ends_with_break(a, b),
        0 <= i < a.len(),
    ensures
        int_end(a + b, i) == int_end(a, i),
        int_end(a, i) < a.len(),
{
    if a[i] != '0' && '1' <= a[i] <= '9' {
        prefix_digits_end(a, b, i + 1);
    }
}

proof fn prefix_line_range(a: Seq<char>, b: Seq<char>, i: int)
    requires
        ends_with_break(a, b),
        0 <= i < a.len(),
    ensures
        line_range_at(a + b, i) == line_range_at(a, i),
        line_range_at(a, i) matches Some((_, e, _)) ==> i < e < a.len(),
{
    prefix_int_end(a, b, i);
    lemma_int_end(a, i);
    let q = int_end(a, i);
    if q != i {
        prefix_digits_value(a, b, i, q);
        if a[q] == ',' {
            assert(q + 1 < a.len());
            prefix_int_end(a, b, q + 1);
            lemma_int_end(a, q + 1);
            prefix_digits_value(a, b, q + 1, int_end(a, q + 1));
        }
    }
}

proof fn prefix_hunk_header(a: Seq<char>, b: Seq<char>, i: int)
    requires
        ends_with_break(a, b),
        0 <= i < a.len(),
    ensures
        hunk_header_at(a + b, i) == hunk_header_at(a, i),
        hunk_header_at(a, i) matches Ok(h) ==> h.next <= a.len(),
{
    lemma_literals();
    prefix_has_literal(a, b, i, hunk_open());
    prefix_literal_mismatch(a, b, i, hunk_open(), 0);
    if has_literal(a, i, hunk_open()) {
        prefix_line_range(a, b, i + 4);
        if let Some((_, p1, _)) = line_range_at(a, i + 4) {
            prefix_has_literal(a, b, p1, hunk_new_range());
            prefix_literal_mismatch(a, b, p1, hunk_new_range(), 0);
            if has_literal(a, p1, hunk_new_range()) {
                prefix_line_range(a, b, p1 + 2);
                if let Some((_, p2, _)) = line_range_at(a, p1 + 2) {
                    prefix_has_literal(a, b, p2, hunk_close());
                    prefix_literal_mismatch(a, b, p2, hunk_close(), 0);
                    if has_literal(a, p2, hunk_close()) {
                        prefix_after_line(a, b, p2 + 3);
                    }
                }
            }
        }
    }
}

proof fn prefix_hunk_line(a: Seq<char>, b: Seq<char>, i: int)
    requires
        ends_with_break(a, b),
        0 <= i < a.len(),
    ensures
        hunk_line_at(a + b, i) == hunk_line_at(a, i),
        hunk_line_at(a, i) matches Some((_, j)) ==> j <= a.len(),
{
    lemma_literals();
    prefix_has_literal(a, b, i, no_newline_marker());
    let m = i + no_newline_marker().len();
    if has_literal(a, i, no_newline_marker()) {
        prefix_newline_len(a, b, m);
    }
    if a[i] == ' ' || a[i] == '+' || a[i] == '-' {
        prefix_after_line(a, b, i + 1);
    }
}

proof fn prefix_hunk_lines(a: Seq<char>, b: Seq<char>, i: int)
    requires
        ends_with_break(a, b),
        starts_apart(b),
        0 <= i <= a.len(),
    ensures
        hunk_lines_from(a + b, i) == hunk_lines_from(a, i),
    decreases a.len() - i,
{
    lemma_literals();
    if i < a.len() {
        prefix_hunk_line(a, b, i);
        lemma_hunk_line_advances(a, i);
        if let Some((_, j)) = hunk_line_at(a, i) {
            prefix_hunk_lines(a, b, j);
        }
    } else {
        shift_hunk_line(a, b, 0);
    }
}

proof fn prefix_hunk(a: Seq<char>, b: Seq<char>, i: int)
    requires
        ends_with_break(a, b),
        starts_apart(b),
        0 <= i < a.len(),
    ensures
        hunk_at(a + b, i) == hunk_at(a, i),
        hunk_at(a, i) matches Ok((_, j, _)) ==> j <= a.len(),
{
    prefix_hunk_header(a, b, i);
    lemma_header_advances(a, i);
    if let Ok(h) = hunk_header_at(a, i) {
        prefix_hunk_lines(a, b, h.next);
        crate::parser::lemma_hunk_lines_end(a, h.next);
    }
}

proof fn prefix_hunks(a: Seq<char>, b: Seq<char>, i: int)
    requires
        ends_with_break(a, b),
        starts_apart(b),
        0 <= i <= a.len(),
    ensures
        hunks_from(a + b, i) == hunks_from(a, i),
    decreases a.len() - i,
{
    lemma_literals();
    if i < a.len() {
        prefix_hunk(a, b, i);
        lemma_hunk_advances(a, i);
        if let Ok((_, j, _)) = hunk_at(a, i) {
            prefix_hunks(a, b, j);
        }
    } else {
        shift_hunk_header(a, b, 0);
    }
}

proof fn prefix_metadata(a: Seq<char>, b: Seq<char>, i: int)
    requires
        ends_with_break(a, b),
        0 <= i < a.len(),
        metadata_from(a, i).1 < a.len(),
    ensures
        metadata_from(a + b, i) == metadata_from(a, i),
    decreases a.len() - i,
{
    lemma_literals();
    prefix_after_line(a, b, i);
    prefix_line_text_end(a, b, i);
    prefix_has_literal(a, b, i, old_marker());
    lemma_after_line(a, i);
    let s = a + b;
    assert(is_metadata_line(s, i) == is_metadata_line(a, i));
    if is_metadata_line(a, i) && i < after_line(a, i) <= a.len() {
        let j = after_line(a, i);
        lemma_metadata_end(a, j);
        if j == a.len() {
            assert(!is_metadata_line(a, j));
            assert(metadata_from(a, j).1 == j);
        }
        prefix_metadata(a, b, j);
        assert(metadata_from(s, i) == (
            seq![line_text(s, i)] + metadata_from(s, j).0,
            metadata_from(s, j).1,
        ));
    } else {
        assert(metadata_from(s, i) == (Seq::<Seq<char>>::empty(), i));
    }
}

proof fn prefix_tab_or_end(a: Seq<char>, b: Seq<char>, i: int, e: int)
    requires
        0 <= i <= e <= a.len(),
    ensures
        tab_or_end(a + b, i, e) == tab_or_end(a, i, e),
    decreases e - i,
{
    if i < e && a[i] != '\t' {
        prefix_tab_or_end(a, b, i + 1, e);
    }
}

proof fn prefix_file_header(a: Seq<char>, b: Seq<char>, i: int, marker: Seq<char>, expected: Expected)
    requires
        ends_with_break(a, b),
        0 <= i < a.len(),
        marker.len() == 4,
        newline_free(marker),
    ensures
        file_header_at(a + b, i, marker, expected) == file_header_at(a, i, marker, expected),
        file_header_at(a, i, marker, expected) matches Ok((_, j)) ==> j <= a.len(),
{
    prefix_has_literal(a, b, i, marker);
    prefix_literal_mismatch(a, b, i, marker, 0);
    if has_literal(a, i, marker) {
        prefix_after_line(a, b, i + 4);
        lemma_line_text_end(a, i + 4);
        prefix_tab_or_end(a, b, i + 4, line_text_end(a, i + 4));
        crate::laws::lemma_tab_or_end(a, i + 4, line_text_end(a, i + 4));
        assert(header_path(a + b, i) =~= header_path(a, i));
    }
}

proof fn prefix_file_patch(a: Seq<char>, b: Seq<char>, i: int)
    requires
        ends_with_break(a, b),
        starts_apart(b),
        0 <= i < a.len(),
        file_patch_at(a, i) is Ok,
    ensures
        file_patch_at(a + b, i) == file_patch_at(a, i),
{
    lemma_literals();
    lemma_metadata_end(a, i);
    let m = metadata_from(a, i).1;
    let (_, p1) = file_header_at(a, m, old_marker(), Expected::OldFileHeader)->Ok_0;
    prefix_has_literal(a, b, m, old_marker());
    prefix_metadata(a, b, i);
    prefix_file_header(a, b, m, old_marker(), Expected::OldFileHeader);
    let (_, p2) = file_header_at(a, p1, new_marker(), Expected::NewFileHeader)->Ok_0;
    lemma_after_line(a, m + 4);
    if p1 == a.len() {
        assert(!has_literal(a, p1, new_marker()));
    }
    prefix_file_header(a, b, p1, new_marker(), Expected::NewFileHeader);
    lemma_after_line(a, p1 + 4);
    if p2 == a.len() {
        assert(!has_literal(a, p2, hunk_open()));
    }
    prefix_hunk(a, b, p2);
    lemma_hunk_advances(a, p2);
    let (_, p3, _) = hunk_at(a, p2)->Ok_0;
    prefix_hunks(a, b, p3);
}

proof fn files_step(s: Seq<char>, i: int)
    requires
        file_patch_at(s, i) matches Ok((_, j, _)) && i < j <= s.len(),
    ensures
        ({
            let (f, j, big) = file_patch_at(s, i)->Ok_0;
            files_from(s, i) == (seq![f] + files_from(s, j).0, files_from(s, j).1, big + files_from(s, j).2)
        }),
{
}

pub proof fn files_at_end(a: Seq<char>)
    ensures
        files_from(a, a.len() as int) == (Seq::<crate::diff::FilePatchModel>::empty(), a.len() as int, Seq::<(int, int)>::empty()),
{
    let n = a.len() as int;
    lemma_literals();
    assert(metadata_from(a, n).1 == n);
    assert(!has_literal(a, n, old_marker()));
    assert(file_patch_at(a, n) is Err);
}

#[verifier::rlimit(30)]
proof fn prefix_files(a: Seq<char>, b: Seq<char>, i: int)
    requires
        ends_with_break(a, b),
        starts_apart(b),
        0 <= i <= a.len(),
        files_from(a, i).1 == a.len(),
    ensures
        files_from(a + b, i).0 == files_from(a, i).0 + files_from(b, 0).0,
        files_from(a + b, i).1 == a.len() + files_from(b, 0).1,
        files_from(a + b, i).2 == files_from(a, i).2 + shift_spans(files_from(b, 0).2, a.len() as int),
    decreases a.len() - i,
{
    let s = a + b;
    lemma_file_patch_advances(a, i);
    if i < a.len() {
        assert(file_patch_at(a, i) is Ok);
        let (f, j, big) = file_patch_at(a, i)->Ok_0;
        prefix_file_patch(a, b, i);
        files_step(a, i);
        files_step(s, i);
        prefix_files(a, b, j);
        assert(files_from(s, i).0 =~= files_from(a, i).0 + files_from(b, 0).0);
        assert(files_from(s, i).2 =~= files_from(a, i).2 + shift_spans(files_from(b, 0).2, a.len() as int));
    } else {
        shift_files(a, b, 0);
        files_at_end(a);
        assert(files_from(s, i).0 =~= files_from(a, i).0 + files_from(b, 0).0);
        assert(files_from(s, i).2 =~= files_from(a, i).2 + shift_spans(files_from(b, 0).2, a.len() as int));
    }
}

/// Two diffs written one after the other parse as one diff with the file patches of
/// both, in order, where the first ends with a line ending that the second does not
/// lengthen, and the second starts with neither a hunk line nor a hunk header, so that it
/// cannot continue the first's last hunk (it starts, say, with `diff --git ...`).
pub proof fn law_concatenated_diffs(a: Seq<char>, b: Seq<char>)
    requires
        parse_result(a) is Ok,
        parse_result(b) is Ok,
        ends_with_break(a, b),
        starts_apart(b),
    ensures
        parse_result(a + b) == Ok::<DiffModel, Seq<crate::error::ParseError>>(
            DiffModel { files: parse_result(a)->Ok_0.files + parse_result(b)->Ok_0.files },
        ),
{
    crate::laws::law_parse_succeeds_on_diffs(a);
    crate::laws::law_parse_succeeds_on_diffs(b);
    crate::laws::law_parse_succeeds_on_diffs(a + b);
    prefix_files(a, b, 0);
    let s = a + b;
    assert(files_from(s, 0).2 =~= Seq::<(int, int)>::empty());
    assert(is_complete_diff(s));
}

} // verus!
