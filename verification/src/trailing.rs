//! Reading a diff with a line ending added at its end: a final line ending is optional.
use vstd::prelude::*;
use crate::concat::{lemma_literals, newline_free};
use crate::error::Expected;
use crate::grammar::{
    after_line, digits_end, digits_value, file_header_at, file_patch_at, files_from,
    has_literal, header_path, hunk_at, hunk_close, hunk_header_at, hunk_line_at,
    hunk_lines_from, hunk_new_range, hunk_open, hunks_from, int_end, is_complete_diff,
    is_metadata_line, is_newline_char, line_range_at, line_text, line_text_end, metadata_from,
    new_marker, newline_len, no_newline_marker, old_marker, tab_or_end,
    HeaderParse,
};
use crate::outcome::parse_result;
use crate::parser::{
    lemma_file_patch_advances, lemma_files_end, lemma_header_advances, lemma_hunk_advances,
    lemma_hunk_line_advances, lemma_int_end, lemma_line_range_end,
    lemma_metadata_end,
};
use crate::scan::{lemma_after_line, lemma_line_text_end};

verus! {

/// `s` is empty or its last character ends no line.
pub open spec fn unterminated(s: Seq<char>) -> bool {
    s.len() == 0 || !is_newline_char(s[s.len() - 1])
}

/// Where position `p` of `s` is in `s` followed by `\n`: the end of `s` moves past the
/// added line ending, every other position stays.
pub open spec fn moved(s: Seq<char>, p: int) -> int {
    if p == s.len() {
        p + 1
    } else {
        p
    }
}

proof fn nl_line_text_end(s: Seq<char>, i: int)
    requires
        0 <= i <= s.len(),
    ensures
        line_text_end(s.push('\n'), i) == line_text_end(s, i),
    decreases s.len() - i,
{
    if i < s.len() && !is_newline_char(s[i]) {
        nl_line_text_end(s, i + 1);
    }
}

proof fn nl_newline_len(s: Seq<char>, p: int)
    requires
        unterminated(s),
        0 <= p < s.len(),
    ensures
        newline_len(s.push('\n'), p) == newline_len(s, p),
        p + newline_len(s, p) < s.len() || newline_len(s, p) == 0,
{
}

proof fn nl_after_line(s: Seq<char>, i: int)
    requires
        unterminated(s),
        0 <= i <= s.len(),
    ensures
        line_text_end(s.push('\n'), i) == line_text_end(s, i),
        after_line(s.push('\n'), i) == moved(s, after_line(s, i)),
        line_text(s.push('\n'), i) == line_text(s, i),
        after_line(s, i) <= s.len(),
        line_text_end(s, i) < s.len() ==> after_line(s, i) < s.len(),
{
    nl_line_text_end(s, i);
    lemma_line_text_end(s, i);
    lemma_after_line(s, i);
    let e = line_text_end(s, i);
    if e < s.len() {
        nl_newline_len(s, e);
    }
    assert(line_text(s.push('\n'), i) =~= line_text(s, i));
}

proof fn nl_has_literal(s: Seq<char>, i: int, lit: Seq<char>)
    requires
        0 <= i <= s.len(),
        newline_free(lit),
        lit.len() > 0,
    ensures
        has_literal(s.push('\n'), i, lit) == has_literal(s, i, lit),
{
    let t = s.push('\n');
    let n = lit.len() as int;
    if i + n <= s.len() {
        assert(t.subrange(i, i + n) =~= s.subrange(i, i + n));
    } else if has_literal(t, i, lit) {
        assert(t.subrange(i, i + n)[n - 1] == t[s.len() as int]);
    }
}

proof fn nl_digits_end(s: Seq<char>, i: int)
    requires
        0 <= i <= s.len(),
    ensures
        digits_end(s.push('\n'), i) == digits_end(s, i),
    decreases s.len() - i,
{
    if i < s.len() && crate::grammar::is_digit(s[i]) {
        nl_digits_end(s, i + 1);
    }
}

proof fn nl_digits_value(s: Seq<char>, i: int, j: int)
    requires
        0 <= i,
        j <= s.len(),
    ensures
        digits_value(s.push('\n'), i, j) == digits_value(s, i, j),
    decreases j - i,
{
    if i < j {
        nl_digits_value(s, i, j - 1);
    }
}

proof fn nl_int_end(s: Seq<char>, i: int)
    requires
        0 <= i <= s.len(),
    ensures
        int_end(s.push('\n'), i) == int_end(s, i),
        i <= int_end(s, i) <= s.len(),
{
    lemma_int_end(s, i);
    if i < s.len() && s[i] != '0' && '1' <= s[i] <= '9' {
        nl_digits_end(s, i + 1);
    }
}

proof fn nl_line_range(s: Seq<char>, i: int)
    requires
        0 <= i <= s.len(),
    ensures
        line_range_at(s.push('\n'), i) == line_range_at(s, i),
{
    nl_int_end(s, i);
    let q = int_end(s, i);
    if q != i {
        nl_digits_value(s, i, q);
        if q < s.len() && s[q] == ',' {
            nl_int_end(s, q + 1);
            nl_digits_value(s, q + 1, int_end(s, q + 1));
        }
    }
}

proof fn nl_hunk_header(s: Seq<char>, i: int)
    requires
        unterminated(s),
        0 <= i <= s.len(),
    ensures
        (hunk_header_at(s.push('\n'), i) is Ok) == (hunk_header_at(s, i) is Ok),
        hunk_header_at(s, i) matches Ok(h) ==> hunk_header_at(s.push('\n'), i) == Ok::<
            HeaderParse,
            (int, Expected),
        >(HeaderParse { next: moved(s, h.next), ..h }),
{
    lemma_literals();
    nl_has_literal(s, i, hunk_open());
    if has_literal(s, i, hunk_open()) {
        nl_line_range(s, i + 4);
        lemma_line_range_end(s, i + 4);
        if let Some((_, p1, _)) = line_range_at(s, i + 4) {
            nl_has_literal(s, p1, hunk_new_range());
            if has_literal(s, p1, hunk_new_range()) {
                nl_line_range(s, p1 + 2);
                lemma_line_range_end(s, p1 + 2);
                if let Some((_, p2, _)) = line_range_at(s, p1 + 2) {
                    nl_has_literal(s, p2, hunk_close());
                    if has_literal(s, p2, hunk_close()) {
                        nl_after_line(s, p2 + 3);
                    }
                }
            }
        }
    }
}

proof fn nl_hunk_line(s: Seq<char>, i: int)
    requires
        unterminated(s),
        0 <= i <= s.len(),
    ensures
        hunk_line_at(s.push('\n'), i) == match hunk_line_at(s, i) {
            None => None,
            Some((l, j)) => Some((l, moved(s, j))),
        },
{
    lemma_literals();
    nl_has_literal(s, i, no_newline_marker());
    let m = i + no_newline_marker().len();
    if has_literal(s, i, no_newline_marker()) && m < s.len() {
        nl_newline_len(s, m);
    }
    if i < s.len() {
        nl_after_line(s, i + 1);
    }
}

proof fn nl_hunk_lines(s: Seq<char>, p: int)
    requires
        unterminated(s),
        0 <= p <= s.len(),
    ensures
        hunk_lines_from(s.push('\n'), moved(s, p)).0 == hunk_lines_from(s, p).0,
        hunk_lines_from(s.push('\n'), moved(s, p)).1 == moved(s, hunk_lines_from(s, p).1),
    decreases s.len() - p,
{
    lemma_literals();
    let t = s.push('\n');
    if p == s.len() {
        assert(hunk_line_at(s, p) is None);
        assert(hunk_line_at(t, p + 1) is None);
    } else {
        nl_hunk_line(s, p);
        lemma_hunk_line_advances(s, p);
        if let Some((_, j)) = hunk_line_at(s, p) {
            nl_hunk_lines(s, j);
        }
    }
}

proof fn nl_hunk(s: Seq<char>, p: int)
    requires
        unterminated(s),
        0 <= p <= s.len(),
    ensures
        (hunk_at(s.push('\n'), moved(s, p)) is Ok) == (hunk_at(s, p) is Ok),
        hunk_at(s, p) matches Ok((h, j, big)) ==> hunk_at(s.push('\n'), moved(s, p)) == Ok::<
            (crate::diff::HunkModel, int, Seq<(int, int)>),
            (int, Expected),
        >((h, moved(s, j), big)),
{
    lemma_literals();
    let t = s.push('\n');
    if p == s.len() {
        assert(!has_literal(s, p, hunk_open()));
        assert(!has_literal(t, p + 1, hunk_open()));
    } else {
        nl_hunk_header(s, p);
        lemma_header_advances(s, p);
        if let Ok(h) = hunk_header_at(s, p) {
            nl_hunk_lines(s, h.next);
        }
    }
}

proof fn nl_hunks(s: Seq<char>, p: int)
    requires
        unterminated(s),
        0 <= p <= s.len(),
    ensures
        hunks_from(s.push('\n'), moved(s, p)).0 == hunks_from(s, p).0,
        hunks_from(s.push('\n'), moved(s, p)).1 == moved(s, hunks_from(s, p).1),
        hunks_from(s.push('\n'), moved(s, p)).2 == hunks_from(s, p).2,
    decreases s.len() - p,
{
    nl_hunk(s, p);
    lemma_hunk_advances(s, p);
    if let Ok((_, j, _)) = hunk_at(s, p) {
        nl_hunks(s, j);
    }
}

proof fn nl_tab_or_end(s: Seq<char>, i: int, e: int)
    requires
        0 <= i <= e <= s.len(),
    ensures
        tab_or_end(s.push('\n'), i, e) == tab_or_end(s, i, e),
    decreases e - i,
{
    if i < e && s[i] != '\t' {
        nl_tab_or_end(s, i + 1, e);
    }
}

proof fn nl_file_header(s: Seq<char>, p: int, marker: Seq<char>, expected: Expected)
    requires
        unterminated(s),
        0 <= p <= s.len(),
        marker.len() == 4,
        newline_free(marker),
    ensures
        (file_header_at(s.push('\n'), moved(s, p), marker, expected) is Ok) == (file_header_at(
            s,
            p,
            marker,
            expected,
        ) is Ok),
        file_header_at(s, p, marker, expected) matches Ok((path, q)) ==> file_header_at(
            s.push('\n'),
            moved(s, p),
            marker,
            expected,
        ) == Ok::<(Seq<char>, int), (int, Expected)>((path, moved(s, q))),
{
    let t = s.push('\n');
    if p == s.len() {
        assert(!has_literal(s, p, marker));
        assert(!has_literal(t, p + 1, marker));
    } else {
        nl_has_literal(s, p, marker);
        if has_literal(s, p, marker) {
            nl_after_line(s, p + 4);
            lemma_line_text_end(s, p + 4);
            let e = line_text_end(s, p + 4);
            nl_tab_or_end(s, p + 4, e);
            crate::laws::lemma_tab_or_end(s, p + 4, e);
            assert(header_path(t, p) =~= header_path(s, p));
        }
    }
}

/// Metadata read from `i` inside `s`: where `s` goes on with `--- ` after them, the same
/// lines are read with `\n` added; where it does not, no `--- ` follows them there either.
proof fn nl_metadata(s: Seq<char>, i: int)
    requires
        unterminated(s),
        0 <= i < s.len(),
    ensures
        has_literal(s, metadata_from(s, i).1, old_marker()) ==> metadata_from(s.push('\n'), i)
            == metadata_from(s, i),
        !has_literal(s, metadata_from(s, i).1, old_marker()) ==> !has_literal(
            s.push('\n'),
            metadata_from(s.push('\n'), i).1,
            old_marker(),
        ),
    decreases s.len() - i,
{
    lemma_literals();
    let t = s.push('\n');
    let n = s.len() as int;
    nl_after_line(s, i);
    nl_has_literal(s, i, old_marker());
    lemma_after_line(s, i);
    let e = line_text_end(s, i);
    if e < n {
        assert(is_metadata_line(t, i) == is_metadata_line(s, i));
        if is_metadata_line(s, i) {
            let j = after_line(s, i);
            nl_metadata(s, j);
        }
    } else if !has_literal(s, i, old_marker()) {
        assert(is_metadata_line(t, i));
        assert(after_line(t, i) == n + 1);
        assert(!is_metadata_line(t, n + 1));
        assert(metadata_from(t, n + 1).1 == n + 1);
        assert(!has_literal(t, n + 1, old_marker()));
    }
}

proof fn nl_file_patch(s: Seq<char>, i: int)
    requires
        unterminated(s),
        0 <= i <= s.len(),
    ensures
        (file_patch_at(s.push('\n'), moved(s, i)) is Ok) == (file_patch_at(s, i) is Ok),
        file_patch_at(s, i) matches Ok((f, j, big)) ==> file_patch_at(s.push('\n'), moved(s, i))
            == Ok::<(crate::diff::FilePatchModel, int, Seq<(int, int)>), (int, Expected)>(
            (f, moved(s, j), big),
        ),
{
    lemma_literals();
    let t = s.push('\n');
    let n = s.len() as int;
    if i == n {
        assert(!is_metadata_line(s, n));
        assert(!is_metadata_line(t, n + 1));
        assert(!has_literal(s, n, old_marker()));
        assert(!has_literal(t, n + 1, old_marker()));
    } else {
        nl_metadata(s, i);
        lemma_metadata_end(s, i);
        let m = metadata_from(s, i).1;
        if has_literal(s, m, old_marker()) {
            nl_file_header(s, m, old_marker(), Expected::OldFileHeader);
            lemma_after_line(s, m + 4);
            let p1 = after_line(s, m + 4);
            nl_file_header(s, p1, new_marker(), Expected::NewFileHeader);
            if has_literal(s, p1, new_marker()) {
                lemma_after_line(s, p1 + 4);
                let p2 = after_line(s, p1 + 4);
                nl_hunk(s, p2);
                lemma_hunk_advances(s, p2);
                if let Ok((_, p3, _)) = hunk_at(s, p2) {
                    nl_hunks(s, p3);
                }
            }
        }
    }
}

proof fn nl_files(s: Seq<char>, i: int)
    requires
        unterminated(s),
        0 <= i <= s.len(),
    ensures
        files_from(s.push('\n'), moved(s, i)).0 == files_from(s, i).0,
        files_from(s.push('\n'), moved(s, i)).1 == moved(s, files_from(s, i).1),
        files_from(s.push('\n'), moved(s, i)).2 == files_from(s, i).2,
    decreases s.len() - i,
{
    nl_file_patch(s, i);
    lemma_file_patch_advances(s, i);
    if let Ok((_, j, _)) = file_patch_at(s, i) {
        nl_files(s, j);
    }
}

/// A final line ending is optional: where `s` does not end with one, `s` parses exactly
/// when `s` followed by `\n` does, and then both give the same diff.
pub proof fn law_final_line_ending_optional(s: Seq<char>)
    requires
        unterminated(s),
    ensures
        (parse_result(s) is Ok) == (parse_result(s.push('\n')) is Ok),
        parse_result(s) is Ok ==> parse_result(s.push('\n')) == parse_result(s),
{
    lemma_literals();
    let t = s.push('\n');
    let n = s.len() as int;
    if n == 0 {
        assert(!is_metadata_line(s, 0));
        assert(!has_literal(s, 0, old_marker()));
        assert(file_patch_at(s, 0) is Err);
        assert(!is_complete_diff(s));
        assert(is_metadata_line(t, 0));
        assert(after_line(t, 0) == 1);
        assert(!is_metadata_line(t, 1));
        assert(metadata_from(t, 1).1 == 1);
        assert(metadata_from(t, 0).1 == 1);
        assert(!has_literal(t, 1, old_marker()));
        assert(file_patch_at(t, 0) is Err);
        assert(!is_complete_diff(t));
    } else {
        nl_files(s, 0);
        lemma_files_end(s, 0);
        assert(is_complete_diff(t) == is_complete_diff(s));
    }
}

} // verus!
