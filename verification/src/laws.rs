//! Properties of every parse.
use vstd::prelude::*;
use vstd::utf8::encode_utf8;
use crate::diagnostic::error_span;
use crate::diff::{DiffModel, FilePatchModel, HunkLineModel, HunkModel};
use crate::error::Expected;
use crate::grammar::{
    after_line, file_header_at, file_patch_at, files_from, has_literal, header_path, hunk_at,
    hunk_close, hunk_header_at, hunk_line_at, hunk_lines_from, hunk_new_range, hunk_open,
    hunks_from, is_complete_diff, is_newline_char, line_range_at, line_text, line_text_end,
    literal_mismatch, metadata_from, new_marker, old_marker, syntax_failure, tab_or_end,
};
use crate::offsets::{byte_offset, lemma_encode_utf8_add};
use crate::outcome::{diff_errors, parse_result};
use crate::parser::{
    lemma_file_patch_advances, lemma_files_end, lemma_header_advances, lemma_hunk_advances,
    lemma_hunk_line_advances, lemma_line_range_end, lemma_metadata_end,
};
use crate::scan::{lemma_after_line, lemma_line_text_end};

verus! {

/// `t` holds no line-ending character.
pub open spec fn single_line(t: Seq<char>) -> bool {
    forall|k: int| 0 <= k < t.len() ==> !is_newline_char(#[trigger] t[k])
}

/// `t` holds no tab.
pub open spec fn tab_free(t: Seq<char>) -> bool {
    forall|k: int| 0 <= k < t.len() ==> #[trigger] t[k] != '\t'
}

/// `t` starts with `--- `.
pub open spec fn starts_with_old_marker(t: Seq<char>) -> bool {
    t.len() >= 4 && t.take(4) == old_marker()
}

pub open spec fn hunk_line_ok(l: HunkLineModel) -> bool {
    match l {
        HunkLineModel::Context(t) => single_line(t),
        HunkLineModel::Add(t) => single_line(t),
        HunkLineModel::Remove(t) => single_line(t),
        HunkLineModel::NoNewlineAtEndOfFile => true,
    }
}

pub open spec fn hunk_ok(h: HunkModel) -> bool {
    &&& h.section matches Some(t) ==> t.len() > 0 && single_line(t)
    &&& forall|k: int| 0 <= k < h.lines.len() ==> hunk_line_ok(#[trigger] h.lines[k])
}

pub open spec fn file_patch_ok(f: FilePatchModel) -> bool {
    &&& f.hunks.len() > 0
    &&& forall|k: int| 0 <= k < f.hunks.len() ==> hunk_ok(#[trigger] f.hunks[k])
    &&& forall|k: int|
        0 <= k < f.metadata.len() ==> single_line(#[trigger] f.metadata[k])
            && !starts_with_old_marker(f.metadata[k])
    &&& single_line(f.old) && tab_free(f.old)
    &&& single_line(f.new) && tab_free(f.new)
}

/// The shape every parsed diff has.
pub open spec fn diff_ok(d: DiffModel) -> bool {
    &&& d.files.len() > 0
    &&& forall|k: int| 0 <= k < d.files.len() ==> file_patch_ok(#[trigger] d.files[k])
}

proof fn lemma_line_text_single(s: Seq<char>, i: int)
    requires
        0 <= i <= s.len(),
    ensures
        single_line(line_text(s, i)),
        single_line(s.subrange(i, line_text_end(s, i))),
{
    lemma_line_text_end(s, i);
    let t = line_text(s, i);
    assert forall|k: int| 0 <= k < t.len() implies !is_newline_char(#[trigger] t[k]) by {
        assert(t[k] == s[i + k]);
    }
}

pub proof fn lemma_tab_or_end(s: Seq<char>, i: int, e: int)
    requires
        0 <= i <= e <= s.len(),
    ensures
        i <= tab_or_end(s, i, e) <= e,
        forall|k: int| i <= k < tab_or_end(s, i, e) ==> #[trigger] s[k] != '\t',
    decreases e - i,
{
    if i < e && s[i] != '\t' {
        lemma_tab_or_end(s, i + 1, e);
    }
}

proof fn lemma_header_path_ok(s: Seq<char>, i: int)
    requires
        0 <= i,
        i + 4 <= s.len(),
    ensures
        single_line(header_path(s, i)),
        tab_free(header_path(s, i)),
{
    lemma_line_text_end(s, i + 4);
    let e = line_text_end(s, i + 4);
    lemma_tab_or_end(s, i + 4, e);
    let t = header_path(s, i);
    assert forall|k: int| 0 <= k < t.len() implies !is_newline_char(#[trigger] t[k]) && t[k]
        != '\t' by {
        assert(t[k] == s[i + 4 + k]);
    }
}

proof fn lemma_hunk_lines_ok(s: Seq<char>, i: int)
    requires
        0 <= i <= s.len(),
    ensures
        forall|k: int|
            0 <= k < hunk_lines_from(s, i).0.len() ==> hunk_line_ok(
                #[trigger] hunk_lines_from(s, i).0[k],
            ),
    decreases s.len() - i,
{
    lemma_hunk_line_advances(s, i);
    if let Some((l, j)) = hunk_line_at(s, i) {
        lemma_hunk_lines_ok(s, j);
        if 0 <= i < s.len() && (s[i] == ' ' || s[i] == '+' || s[i] == '-') {
            lemma_line_text_single(s, i + 1);
        }
        let ls = hunk_lines_from(s, i).0;
        assert forall|k: int| 0 <= k < ls.len() implies hunk_line_ok(#[trigger] ls[k]) by {
            if k > 0 {
                assert(ls[k] == hunk_lines_from(s, j).0[k - 1]);
            }
        }
    }
}

proof fn lemma_hunk_ok(s: Seq<char>, i: int)
    requires
        0 <= i <= s.len(),
    ensures
        hunk_at(s, i) matches Ok((h, _, _)) ==> hunk_ok(h),
{
    if let Ok(hd) = hunk_header_at(s, i) {
        lemma_header_advances(s, i);
        lemma_hunk_lines_ok(s, hd.next);
        let (_, p1, _) = line_range_at(s, i + 4)->Some_0;
        let (_, p2, _) = line_range_at(s, p1 + 2)->Some_0;
        lemma_line_range_end(s, i + 4);
        lemma_line_range_end(s, p1 + 2);
        lemma_line_text_single(s, p2 + 3);
        let t = line_text(s, p2 + 3);
        if t.len() > 0 && t[0] == ' ' {
            assert forall|k: int| 0 <= k < t.drop_first().len() implies !is_newline_char(
                #[trigger] t.drop_first()[k],
            ) by {
                assert(t.drop_first()[k] == t[k + 1]);
            }
        }
    }
}

proof fn lemma_hunks_ok(s: Seq<char>, i: int)
    requires
        0 <= i <= s.len(),
    ensures
        forall|k: int|
            0 <= k < hunks_from(s, i).0.len() ==> hunk_ok(#[trigger] hunks_from(s, i).0[k]),
    decreases s.len() - i,
{
    lemma_hunk_advances(s, i);
    lemma_hunk_ok(s, i);
    if let Ok((h, j, _)) = hunk_at(s, i) {
        lemma_hunks_ok(s, j);
        let hs = hunks_from(s, i).0;
        assert forall|k: int| 0 <= k < hs.len() implies hunk_ok(#[trigger] hs[k]) by {
            if k > 0 {
                assert(hs[k] == hunks_from(s, j).0[k - 1]);
            }
        }
    }
}

pub proof fn lemma_metadata_ok(s: Seq<char>, i: int)
    requires
        0 <= i <= s.len(),
    ensures
        forall|k: int|
            0 <= k < metadata_from(s, i).0.len() ==> single_line(#[trigger] metadata_from(s, i).0[k])
                && !starts_with_old_marker(metadata_from(s, i).0[k]),
    decreases s.len() - i,
{
    lemma_after_line(s, i);
    if crate::grammar::is_metadata_line(s, i) && i < after_line(s, i) <= s.len() {
        let j = after_line(s, i);
        lemma_metadata_ok(s, j);
        lemma_line_text_single(s, i);
        let t = line_text(s, i);
        if starts_with_old_marker(t) {
            assert(s.subrange(i, i + 4) =~= t.take(4));
        }
        let ms = metadata_from(s, i).0;
        assert forall|k: int| 0 <= k < ms.len() implies single_line(#[trigger] ms[k])
            && !starts_with_old_marker(ms[k]) by {
            if k > 0 {
                assert(ms[k] == metadata_from(s, j).0[k - 1]);
            }
        }
    }
}

proof fn lemma_file_patch_ok(s: Seq<char>, i: int)
    requires
        0 <= i <= s.len(),
    ensures
        file_patch_at(s, i) matches Ok((f, _, _)) ==> file_patch_ok(f),
{
    lemma_metadata_end(s, i);
    lemma_metadata_ok(s, i);
    let m = metadata_from(s, i).1;
    if let Ok((_, p1)) = file_header_at(s, m, old_marker(), Expected::OldFileHeader) {
        lemma_header_path_ok(s, m);
        lemma_after_line(s, m + 4);
        if let Ok((_, p2)) = file_header_at(s, p1, new_marker(), Expected::NewFileHeader) {
            lemma_header_path_ok(s, p1);
            lemma_after_line(s, p1 + 4);
            lemma_hunk_advances(s, p2);
            lemma_hunk_ok(s, p2);
            if let Ok((first, p3, _)) = hunk_at(s, p2) {
                lemma_hunks_ok(s, p3);
                let f = file_patch_at(s, i)->Ok_0.0;
                assert forall|k: int| 0 <= k < f.hunks.len() implies hunk_ok(#[trigger] f.hunks[k]) by {
                    if k > 0 {
                        assert(f.hunks[k] == hunks_from(s, p3).0[k - 1]);
                    }
                }
            }
        }
    }
}

proof fn lemma_files_ok(s: Seq<char>, i: int)
    requires
        0 <= i <= s.len(),
    ensures
        forall|k: int|
            0 <= k < files_from(s, i).0.len() ==> file_patch_ok(#[trigger] files_from(s, i).0[k]),
    decreases s.len() - i,
{
    lemma_file_patch_advances(s, i);
    lemma_file_patch_ok(s, i);
    if let Ok((f, j, _)) = file_patch_at(s, i) {
        lemma_files_ok(s, j);
        let fs = files_from(s, i).0;
        assert forall|k: int| 0 <= k < fs.len() implies file_patch_ok(#[trigger] fs[k]) by {
            if k > 0 {
                assert(fs[k] == files_from(s, j).0[k - 1]);
            }
        }
    }
}

/// A parse succeeds exactly when the whole input is a unified diff and every number in
/// its line ranges fits in a `usize`. What it returns then has at least one file patch,
/// every file patch has at least one hunk, no metadata line starts with `--- `, no path
/// holds a tab, a section is never empty, and no text holds a line ending.
pub proof fn law_parse_succeeds_on_diffs(s: Seq<char>)
    ensures
        parse_result(s) is Ok <==> is_complete_diff(s) && files_from(s, 0).2.len() == 0,
        parse_result(s) matches Ok(d) ==> diff_ok(d),
{
    lemma_files_ok(s, 0);
}

/// Where a failed file patch stops, it stops within the input.
proof fn lemma_file_patch_failure_within(s: Seq<char>, i: int)
    requires
        0 <= i <= s.len(),
    ensures
        file_patch_at(s, i) matches Err((p, _)) ==> 0 <= p <= s.len(),
{
    lemma_metadata_end(s, i);
    let m = metadata_from(s, i).1;
    lemma_literal_mismatch_within(s, m, old_marker(), 0);
    if let Ok((_, p1)) = file_header_at(s, m, old_marker(), Expected::OldFileHeader) {
        lemma_after_line(s, m + 4);
        lemma_literal_mismatch_within(s, p1, new_marker(), 0);
        if let Ok((_, p2)) = file_header_at(s, p1, new_marker(), Expected::NewFileHeader) {
            lemma_after_line(s, p1 + 4);
            lemma_literal_mismatch_within(s, p2, hunk_open(), 0);
            if has_literal(s, p2, hunk_open()) {
                lemma_line_range_end(s, p2 + 4);
                if let Some((_, q1, _)) = line_range_at(s, p2 + 4) {
                    lemma_literal_mismatch_within(s, q1, hunk_new_range(), 0);
                    if has_literal(s, q1, hunk_new_range()) {
                        lemma_line_range_end(s, q1 + 2);
                        if let Some((_, q2, _)) = line_range_at(s, q1 + 2) {
                            lemma_literal_mismatch_within(s, q2, hunk_close(), 0);
                        }
                    }
                }
            }
        }
    }
}

proof fn lemma_literal_mismatch_within(s: Seq<char>, i: int, lit: Seq<char>, k: int)
    requires
        0 <= i,
        0 <= k,
        i + k <= s.len(),
    ensures
        i + k <= literal_mismatch(s, i, lit, k) <= s.len(),
    decreases lit.len() - k,
{
    if k < lit.len() && i + k < s.len() && s[i + k] == lit[k] {
        lemma_literal_mismatch_within(s, i, lit, k + 1);
    }
}

/// Byte offsets grow with character positions and stay within the encoded input.
pub proof fn lemma_byte_offset_mono(s: Seq<char>, i: int, j: int)
    requires
        0 <= i <= j <= s.len(),
    ensures
        0 <= byte_offset(s, i) <= byte_offset(s, j) <= encode_utf8(s).len(),
{
    assert(s.take(j) =~= s.take(i) + s.subrange(i, j));
    lemma_encode_utf8_add(s.take(i), s.subrange(i, j));
    assert(s =~= s.take(j) + s.skip(j));
    lemma_encode_utf8_add(s.take(j), s.skip(j));
}

/// A failed parse reports at least one problem, and every problem's byte span lies
/// within the input.
pub proof fn law_errors_lie_within_input(s: Seq<char>)
    requires
        encode_utf8(s).len() <= usize::MAX,
    ensures
        parse_result(s) matches Err(errors) ==> errors.len() > 0 && forall|k: int|
            0 <= k < errors.len() ==> error_span(#[trigger] errors[k]).start <= error_span(
                errors[k],
            ).end <= encode_utf8(s).len(),
{
    lemma_files_end(s, 0);
    let stop = files_from(s, 0).1;
    lemma_file_patch_failure_within(s, stop);
    let errors = diff_errors(s);
    let big = files_from(s, 0).2;
    assert forall|k: int| 0 <= k < errors.len() implies error_span(#[trigger] errors[k]).start
        <= error_span(errors[k]).end <= encode_utf8(s).len() by {
        if k < big.len() {
            lemma_byte_offset_mono(s, big[k].0, big[k].1);
            lemma_byte_offset_mono(s, big[k].1, s.len() as int);
        } else {
            let (p, _) = syntax_failure(s)->Some_0;
            if p < s.len() {
                lemma_byte_offset_mono(s, p, p + 1);
                lemma_byte_offset_mono(s, p + 1, s.len() as int);
            } else {
                lemma_byte_offset_mono(s, p, p);
            }
        }
    }
}

} // verus!
