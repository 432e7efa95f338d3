//! What a file patch is in terms of the input's lines.
use vstd::prelude::*;
use crate::error::Expected;
use crate::grammar::{
    after_line, file_header_at, file_patch_at, has_literal, header_path,
    is_metadata_line, is_newline_char, line_text, line_text_end, metadata_from, new_marker,
    old_marker, tab_or_end,
};
use crate::laws::{lemma_tab_or_end, starts_with_old_marker};
use crate::parser::lemma_metadata_end;
use crate::scan::{lemma_after_line, lemma_line_text_end};

verus! {

/// The texts of the lines of `s` that start at `i` and before `m`, in order.
pub open spec fn lines_between(s: Seq<char>, i: int, m: int) -> Seq<Seq<char>>
    decreases m - i,
{
    if 0 <= i < after_line(s, i) <= m {
        seq![line_text(s, i)] + lines_between(s, after_line(s, i), m)
    } else {
        seq![]
    }
}

/// `t` up to its first tab, or all of `t` where it holds none.
pub open spec fn before_tab(t: Seq<char>) -> Seq<char> {
    t.take(tab_or_end(t, 0, t.len() as int))
}

/// `t` starts with `+++ `.
pub open spec fn starts_with_new_marker(t: Seq<char>) -> bool {
    t.len() >= 4 && t.take(4) == new_marker()
}

proof fn lemma_metadata_lines(s: Seq<char>, i: int)
    requires
        0 <= i <= s.len(),
    ensures
        metadata_from(s, i).0 == lines_between(s, i, metadata_from(s, i).1),
    decreases s.len() - i,
{
    lemma_after_line(s, i);
    if is_metadata_line(s, i) && i < after_line(s, i) <= s.len() {
        let j = after_line(s, i);
        lemma_metadata_lines(s, j);
        lemma_metadata_end(s, j);
    }
}

/// Where `s[i..i + k]` holds no line ending, the line text that starts at `i` ends where
/// the one that starts at `i + k` does.
proof fn lemma_line_text_end_skip(s: Seq<char>, i: int, k: int)
    requires
        0 <= i,
        0 <= k,
        i + k <= s.len(),
        forall|j: int| i <= j < i + k ==> !is_newline_char(#[trigger] s[j]),
    ensures
        line_text_end(s, i) == line_text_end(s, i + k),
    decreases k,
{
    if k > 0 {
        lemma_line_text_end_skip(s, i + 1, k - 1);
    }
}

proof fn lemma_tab_or_end_shift(s: Seq<char>, a: int, e: int, k: int)
    requires
        0 <= a <= e <= s.len(),
        0 <= k <= e - a,
    ensures
        tab_or_end(s, a + k, e) == a + tab_or_end(s.subrange(a, e), k, e - a),
    decreases e - a - k,
{
    if k < e - a && s[a + k] != '\t' {
        lemma_tab_or_end_shift(s, a, e, k + 1);
    }
}

/// A header line `marker path` at `m`: the line starts with the marker, the next line
/// starts where reading the path's line ends, and the path is the rest of the line after
/// the marker, cut at its first tab.
proof fn lemma_header_line(s: Seq<char>, m: int, marker: Seq<char>)
    requires
        0 <= m,
        marker.len() == 4,
        forall|k: int| 0 <= k < 4 ==> !is_newline_char(#[trigger] marker[k]),
        has_literal(s, m, marker),
    ensures
        line_text(s, m).len() >= 4,
        line_text(s, m).take(4) == marker,
        after_line(s, m) == after_line(s, m + 4),
        header_path(s, m) == before_tab(line_text(s, m).skip(4)),
{
    assert forall|j: int| m <= j < m + 4 implies !is_newline_char(#[trigger] s[j]) by {
        assert(s[j] == s.subrange(m, m + 4)[j - m]);
    }
    lemma_line_text_end_skip(s, m, 4);
    lemma_line_text_end(s, m + 4);
    let e = line_text_end(s, m + 4);
    let t = line_text(s, m + 4);
    assert(line_text(s, m).take(4) =~= s.subrange(m, m + 4));
    assert(line_text(s, m).skip(4) =~= t);
    lemma_tab_or_end_shift(s, m + 4, e, 0);
    lemma_tab_or_end(s, m + 4, e);
    assert(header_path(s, m) =~= before_tab(t));
}

/// A file patch read at `i`: its metadata are the lines from `i` up to the first line that
/// starts with `--- `; its old path is the rest of that line after `--- `, cut at its
/// first tab; the next line starts with `+++ `, and its rest, cut at its first tab, is the
/// new path; and it has at least one hunk.
pub proof fn law_file_patch_lines(s: Seq<char>, i: int)
    requires
        0 <= i <= s.len(),
    ensures
        file_patch_at(s, i) matches Ok((f, _, _)) ==> {
            let m = metadata_from(s, i).1;
            let n = after_line(s, m);
            &&& f.metadata == lines_between(s, i, m)
            &&& forall|k: int|
                0 <= k < f.metadata.len() ==> !starts_with_old_marker(#[trigger] f.metadata[k])
            &&& starts_with_old_marker(line_text(s, m))
            &&& f.old == before_tab(line_text(s, m).skip(4))
            &&& starts_with_new_marker(line_text(s, n))
            &&& f.new == before_tab(line_text(s, n).skip(4))
            &&& f.hunks.len() >= 1
        },
{
    lemma_metadata_lines(s, i);
    lemma_metadata_end(s, i);
    crate::laws::lemma_metadata_ok(s, i);
    let m = metadata_from(s, i).1;
    if let Ok((_, p1)) = file_header_at(s, m, old_marker(), Expected::OldFileHeader) {
        lemma_header_line(s, m, old_marker());
        lemma_after_line(s, m + 4);
        if file_header_at(s, p1, new_marker(), Expected::NewFileHeader) is Ok {
            lemma_header_line(s, p1, new_marker());
        }
    }
}

} // verus!
