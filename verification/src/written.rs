//! A diff written out from its parts reads back as those parts.
use vstd::prelude::*;
use crate::diff::{DiffModel, FilePatchModel, HunkLineModel, HunkModel};
use crate::error::Expected;
use crate::grammar::{
    after_line, file_header_at, file_patch_at, files_from, has_literal, header_path,
    hunk_at, hunk_header_at, hunk_line_at, hunk_lines_from, hunks_from, is_metadata_line,
    is_newline_char, line_text, line_text_end, metadata_from, new_marker, newline_len,
    no_newline_marker, old_marker, section_of, tab_or_end, HeaderParse,
};
use crate::header::{lemma_line_end_at, lemma_range_reads, range_text};
use crate::laws::{single_line, tab_free};
use crate::outcome::{diff_errors, parse_result};

verus! {

// ---------------------------------------------------------------------------------
// Writing a diff out.

/// A line ending.
pub open spec fn nl() -> Seq<char> {
    seq!['\n']
}

/// The text of the marker line that says the file has no final line ending.
pub open spec fn no_newline_text() -> Seq<char> {
    seq![
        '\\', ' ', 'N', 'o', ' ', 'n', 'e', 'w', 'l', 'i', 'n', 'e', ' ', 'a', 't', ' ',
        'e', 'n', 'd', ' ', 'o', 'f', ' ', 'f', 'i', 'l', 'e',
    ]
}

/// A hunk line written out: its marker, its text and a line ending.
pub open spec fn hunk_line_written(l: HunkLineModel) -> Seq<char> {
    match l {
        HunkLineModel::Context(t) => seq![' '] + t + nl(),
        HunkLineModel::Add(t) => seq!['+'] + t + nl(),
        HunkLineModel::Remove(t) => seq!['-'] + t + nl(),
        HunkLineModel::NoNewlineAtEndOfFile => no_newline_text() + nl(),
    }
}

/// Hunk lines written out one after the other.
pub open spec fn lines_written(ls: Seq<HunkLineModel>) -> Seq<char>
    decreases ls.len(),
{
    if ls.len() == 0 {
        seq![]
    } else {
        hunk_line_written(ls[0]) + lines_written(ls.drop_first())
    }
}

/// A hunk header line written out: both ranges with their counts, and the section after
/// one space.
pub open spec fn header_written(h: HunkModel) -> Seq<char> {
    seq!['@', '@', ' ', '-'] + range_text(h.old, true) + seq![' ', '+'] + range_text(h.new, true)
        + seq![' ', '@', '@'] + match h.section {
        None => Seq::<char>::empty(),
        Some(t) => seq![' '] + t,
    } + nl()
}

/// A hunk written out: its header line, then its lines.
pub open spec fn hunk_written(h: HunkModel) -> Seq<char> {
    header_written(h) + lines_written(h.lines)
}

/// Hunks written out one after the other.
pub open spec fn hunks_written(hs: Seq<HunkModel>) -> Seq<char>
    decreases hs.len(),
{
    if hs.len() == 0 {
        seq![]
    } else {
        hunk_written(hs[0]) + hunks_written(hs.drop_first())
    }
}

/// Metadata lines written out, each followed by a line ending.
pub open spec fn metadata_written(ms: Seq<Seq<char>>) -> Seq<char>
    decreases ms.len(),
{
    if ms.len() == 0 {
        seq![]
    } else {
        ms[0] + nl() + metadata_written(ms.drop_first())
    }
}

/// `--- `.
pub open spec fn old_header_mark() -> Seq<char> {
    seq!['-', '-', '-', ' ']
}

/// `+++ `.
pub open spec fn new_header_mark() -> Seq<char> {
    seq!['+', '+', '+', ' ']
}

/// A file patch written out: metadata lines, `--- old`, `+++ new`, then the hunks.
pub open spec fn file_patch_written(f: FilePatchModel) -> Seq<char> {
    metadata_written(f.metadata) + (old_header_mark() + f.old + nl()) + (new_header_mark() + f.new
        + nl()) + hunks_written(f.hunks)
}

/// File patches written out one after the other.
pub open spec fn diff_written(fs: Seq<FilePatchModel>) -> Seq<char>
    decreases fs.len(),
{
    if fs.len() == 0 {
        seq![]
    } else {
        file_patch_written(fs[0]) + diff_written(fs.drop_first())
    }
}

// ---------------------------------------------------------------------------------
// What can be written out so that it reads back.

/// `t` starts with `--- `.
pub open spec fn opens_with_old_mark(t: Seq<char>) -> bool {
    t.len() >= 4 && t[0] == '-' && t[1] == '-' && t[2] == '-' && t[3] == ' '
}

pub open spec fn hunk_line_writable(l: HunkLineModel) -> bool {
    match l {
        HunkLineModel::Context(t) => single_line(t),
        HunkLineModel::Add(t) => single_line(t),
        HunkLineModel::Remove(t) => single_line(t),
        HunkLineModel::NoNewlineAtEndOfFile => true,
    }
}

/// Hunk lines hold no line ending, and a section is not empty and holds none either.
pub open spec fn hunk_writable(h: HunkModel) -> bool {
    &&& h.section matches Some(t) ==> t.len() > 0 && single_line(t)
    &&& forall|k: int| 0 <= k < h.lines.len() ==> hunk_line_writable(#[trigger] h.lines[k])
}

/// Metadata lines hold no line ending and do not start with `--- `; paths hold no line
/// ending and no tab; there is at least one hunk.
pub open spec fn file_patch_writable(f: FilePatchModel) -> bool {
    &&& f.hunks.len() > 0
    &&& forall|k: int| 0 <= k < f.hunks.len() ==> hunk_writable(#[trigger] f.hunks[k])
    &&& forall|k: int|
        0 <= k < f.metadata.len() ==> single_line(#[trigger] f.metadata[k])
            && !opens_with_old_mark(f.metadata[k])
    &&& single_line(f.old) && tab_free(f.old)
    &&& single_line(f.new) && tab_free(f.new)
}

/// A line that cannot continue a hunk: it is empty or starts with none of ` `, `+`, `-`,
/// `\` and `@`.
pub open spec fn opens_apart(t: Seq<char>) -> bool {
    t.len() == 0 || (t[0] != ' ' && t[0] != '+' && t[0] != '-' && t[0] != '\\' && t[0] != '@')
}

/// Every file patch can be written out, and each after the first starts with a metadata
/// line that cannot continue the hunk before it.
pub open spec fn diff_writable(fs: Seq<FilePatchModel>) -> bool {
    &&& forall|k: int| 0 <= k < fs.len() ==> file_patch_writable(#[trigger] fs[k])
    &&& forall|k: int|
        1 <= k < fs.len() ==> (#[trigger] fs[k]).metadata.len() > 0 && opens_apart(
            fs[k].metadata[0],
        )
}

// ---------------------------------------------------------------------------------
// Reading it back, piece by piece.

/// `w` stands in `s` at `i`.
pub open spec fn written_at(s: Seq<char>, i: int, w: Seq<char>) -> bool {
    &&& 0 <= i
    &&& i + w.len() <= s.len()
    &&& s.subrange(i, i + w.len()) == w
}

proof fn lemma_written_split(s: Seq<char>, i: int, a: Seq<char>, b: Seq<char>)
    requires
        written_at(s, i, a + b),
    ensures
        written_at(s, i, a),
        written_at(s, i + a.len(), b),
{
    assert(s.subrange(i, i + a.len()) =~= a) by {
        assert forall|k: int| 0 <= k < a.len() implies s.subrange(i, i + a.len())[k] == a[k] by {
            assert(s[i + k] == s.subrange(i, i + (a + b).len())[k]);
        }
    }
    assert(s.subrange(i + a.len(), i + a.len() + b.len()) =~= b) by {
        assert forall|k: int| 0 <= k < b.len() implies s.subrange(
            i + a.len(),
            i + a.len() + b.len(),
        )[k] == b[k] by {
            assert(s[i + a.len() + k] == s.subrange(i, i + (a + b).len())[a.len() + k]);
        }
    }
}

proof fn lemma_written_char(s: Seq<char>, i: int, w: Seq<char>, k: int)
    requires
        written_at(s, i, w),
        0 <= k < w.len(),
    ensures
        s[i + k] == w[k],
{
    assert(s[i + k] == s.subrange(i, i + w.len())[k]);
}

/// A line `t` with a line ending at `i`.
proof fn lemma_line_reads(s: Seq<char>, i: int, t: Seq<char>)
    requires
        written_at(s, i, t + nl()),
        single_line(t),
    ensures
        line_text_end(s, i) == i + t.len(),
        newline_len(s, i + t.len()) == 1,
        after_line(s, i) == i + t.len() + 1,
        line_text(s, i) == t,
{
    lemma_written_split(s, i, t, nl());
    lemma_written_char(s, i + t.len(), nl(), 0);
    assert forall|x: int| i <= x < i + t.len() implies !is_newline_char(#[trigger] s[x]) by {
        lemma_written_char(s, i, t, x - i);
    }
    lemma_line_end_at(s, i, i + t.len());
    assert(line_text(s, i) =~= t) by {
        assert forall|k: int| 0 <= k < t.len() implies line_text(s, i)[k] == t[k] by {
            lemma_written_char(s, i, t, k);
        }
    }
}

/// No hunk line starts at `p` where the input ends or goes on with a character that
/// opens none.
proof fn lemma_no_hunk_line(s: Seq<char>, p: int)
    requires
        0 <= p <= s.len(),
        p < s.len() ==> s[p] != ' ' && s[p] != '+' && s[p] != '-' && s[p] != '\\',
    ensures
        hunk_line_at(s, p) is None,
{
    if has_literal(s, p, no_newline_marker()) {
        assert(s.subrange(p, p + 27)[0] == s[p]);
    }
}

/// No hunk header starts at `p` where the input ends or goes on with another character
/// than `@`.
proof fn lemma_no_hunk_header(s: Seq<char>, p: int)
    requires
        0 <= p <= s.len(),
        p < s.len() ==> s[p] != '@',
    ensures
        hunk_header_at(s, p) is Err,
        hunk_at(s, p) is Err,
{
    if has_literal(s, p, crate::grammar::hunk_open()) {
        assert(s.subrange(p, p + 4)[0] == s[p]);
    }
}

proof fn lemma_hunk_line_reads(s: Seq<char>, i: int, l: HunkLineModel)
    requires
        written_at(s, i, hunk_line_written(l)),
        hunk_line_writable(l),
    ensures
        hunk_line_at(s, i) == Some((l, i + hunk_line_written(l).len())),
{
    let w = hunk_line_written(l);
    match l {
        HunkLineModel::NoNewlineAtEndOfFile => {
            lemma_written_split(s, i, no_newline_text(), nl());
            assert(no_newline_text() =~= no_newline_marker());
            lemma_written_char(s, i + 27, nl(), 0);
            assert(newline_len(s, i + 27) == 1);
        },
        HunkLineModel::Context(t) => {
            assert(w =~= seq![' '] + (t + nl()));
            lemma_written_split(s, i, seq![' '], t + nl());
            lemma_written_char(s, i, seq![' '], 0);
            lemma_no_hunk_line_marker(s, i);
            lemma_line_reads(s, i + 1, t);
        },
        HunkLineModel::Add(t) => {
            assert(w =~= seq!['+'] + (t + nl()));
            lemma_written_split(s, i, seq!['+'], t + nl());
            lemma_written_char(s, i, seq!['+'], 0);
            lemma_no_hunk_line_marker(s, i);
            lemma_line_reads(s, i + 1, t);
        },
        HunkLineModel::Remove(t) => {
            assert(w =~= seq!['-'] + (t + nl()));
            lemma_written_split(s, i, seq!['-'], t + nl());
            lemma_written_char(s, i, seq!['-'], 0);
            lemma_no_hunk_line_marker(s, i);
            lemma_line_reads(s, i + 1, t);
        },
    }
}

/// The marker of a missing final line ending does not start where `s[p]` is not `\`.
proof fn lemma_no_hunk_line_marker(s: Seq<char>, p: int)
    requires
        0 <= p < s.len(),
        s[p] != '\\',
    ensures
        !has_literal(s, p, no_newline_marker()),
{
    if has_literal(s, p, no_newline_marker()) {
        assert(s.subrange(p, p + 27)[0] == s[p]);
    }
}

proof fn lemma_hunk_lines_read(s: Seq<char>, i: int, ls: Seq<HunkLineModel>)
    requires
        written_at(s, i, lines_written(ls)),
        forall|k: int| 0 <= k < ls.len() ==> hunk_line_writable(#[trigger] ls[k]),
        hunk_line_at(s, i + lines_written(ls).len()) is None,
    ensures
        hunk_lines_from(s, i) == (ls, i + lines_written(ls).len()),
    decreases ls.len(),
{
    if ls.len() > 0 {
        let w = hunk_line_written(ls[0]);
        lemma_written_split(s, i, w, lines_written(ls.drop_first()));
        assert(hunk_line_writable(ls[0]));
        lemma_hunk_line_reads(s, i, ls[0]);
        let rest = ls.drop_first();
        lemma_hunk_lines_read(s, i + w.len(), rest);
        assert(seq![ls[0]] + rest =~= ls);
    } else {
        assert(ls =~= Seq::<HunkLineModel>::empty());
    }
}

proof fn lemma_header_reads(s: Seq<char>, i: int, h: HunkModel)
    requires
        written_at(s, i, header_written(h)),
        hunk_writable(h),
    ensures
        hunk_header_at(s, i) == Ok::<HeaderParse, (int, Expected)>(
            HeaderParse {
                old: h.old,
                new: h.new,
                section: h.section,
                next: i + header_written(h).len(),
                oversized: Seq::<(int, int)>::empty(),
            },
        ),
{
    let ho = seq!['@', '@', ' ', '-'];
    let o = range_text(h.old, true);
    let nr = seq![' ', '+'];
    let nw = range_text(h.new, true);
    let hc = seq![' ', '@', '@'];
    let sec = match h.section {
        None => Seq::<char>::empty(),
        Some(t) => seq![' '] + t,
    };
    let a2 = ho + o;
    let a3 = a2 + nr;
    let a4 = a3 + nw;
    let a5 = a4 + hc;
    assert(header_written(h) =~= a5 + (sec + nl()));
    lemma_written_split(s, i, a5, sec + nl());
    lemma_written_split(s, i, a4, hc);
    lemma_written_split(s, i, a3, nw);
    lemma_written_split(s, i, a2, nr);
    lemma_written_split(s, i, ho, o);
    let p1 = i + 4 + o.len();
    let p2 = p1 + 2 + nw.len();
    let k = p2 + 3;
    lemma_written_char(s, p1, nr, 0);
    lemma_written_char(s, p2, hc, 0);
    assert(ho =~= crate::grammar::hunk_open());
    assert(nr =~= crate::grammar::hunk_new_range());
    assert(hc =~= crate::grammar::hunk_close());
    lemma_range_reads(s, i + 4, h.old, true);
    lemma_range_reads(s, p1 + 2, h.new, true);
    assert(single_line(sec)) by {
        if let Some(t) = h.section {
            assert forall|x: int| 0 <= x < sec.len() implies !is_newline_char(#[trigger] sec[x]) by {
                if x > 0 {
                    assert(sec[x] == t[x - 1]);
                }
            }
        }
    }
    lemma_line_reads(s, k, sec);
    if let Some(t) = h.section {
        assert(sec.drop_first() =~= t);
    }
    assert(section_of(sec) == h.section);
    assert(Seq::<(int, int)>::empty() + Seq::<(int, int)>::empty() =~= Seq::<(int, int)>::empty());
}

proof fn lemma_hunk_reads(s: Seq<char>, i: int, h: HunkModel)
    requires
        written_at(s, i, hunk_written(h)),
        hunk_writable(h),
        hunk_line_at(s, i + hunk_written(h).len()) is None,
    ensures
        hunk_at(s, i) == Ok::<(HunkModel, int, Seq<(int, int)>), (int, Expected)>(
            (h, i + hunk_written(h).len(), Seq::<(int, int)>::empty()),
        ),
{
    lemma_written_split(s, i, header_written(h), lines_written(h.lines));
    lemma_header_reads(s, i, h);
    lemma_hunk_lines_read(s, i + header_written(h).len(), h.lines);
}

/// Hunks written at `p` open with `@`, which opens no hunk line.
proof fn lemma_hunks_open(s: Seq<char>, p: int, hs: Seq<HunkModel>)
    requires
        written_at(s, p, hunks_written(hs)),
        hs.len() > 0,
    ensures
        hunk_line_at(s, p) is None,
{
    lemma_written_split(s, p, hunk_written(hs[0]), hunks_written(hs.drop_first()));
    lemma_written_split(s, p, header_written(hs[0]), lines_written(hs[0].lines));
    lemma_written_char(s, p, header_written(hs[0]), 0);
    lemma_no_hunk_line(s, p);
}

proof fn lemma_hunks_read(s: Seq<char>, i: int, hs: Seq<HunkModel>)
    requires
        written_at(s, i, hunks_written(hs)),
        forall|k: int| 0 <= k < hs.len() ==> hunk_writable(#[trigger] hs[k]),
        hunk_line_at(s, i + hunks_written(hs).len()) is None,
        hunk_header_at(s, i + hunks_written(hs).len()) is Err,
    ensures
        hunks_from(s, i) == (hs, i + hunks_written(hs).len(), Seq::<(int, int)>::empty()),
    decreases hs.len(),
{
    if hs.len() == 0 {
        assert(hs =~= Seq::<HunkModel>::empty());
    } else {
        let h = hs[0];
        let rest = hs.drop_first();
        let w = hunk_written(h);
        lemma_written_split(s, i, w, hunks_written(rest));
        let e0 = i + w.len();
        if rest.len() > 0 {
            lemma_hunks_open(s, e0, rest);
        }
        assert(hunk_writable(hs[0]));
        lemma_hunk_reads(s, i, h);
        assert forall|k: int| 0 <= k < rest.len() implies hunk_writable(#[trigger] rest[k]) by {
            assert(rest[k] == hs[k + 1]);
        }
        lemma_hunks_read(s, e0, rest);
        assert(seq![h] + rest =~= hs);
        assert(Seq::<(int, int)>::empty() + Seq::<(int, int)>::empty() =~= Seq::<(int, int)>::empty());
    }
}

proof fn lemma_metadata_read(s: Seq<char>, i: int, ms: Seq<Seq<char>>)
    requires
        written_at(s, i, metadata_written(ms)),
        forall|k: int|
            0 <= k < ms.len() ==> single_line(#[trigger] ms[k]) && !opens_with_old_mark(ms[k]),
        has_literal(s, i + metadata_written(ms).len(), old_marker()),
    ensures
        metadata_from(s, i) == (ms, i + metadata_written(ms).len()),
    decreases ms.len(),
{
    if ms.len() == 0 {
        assert(ms =~= Seq::<Seq<char>>::empty());
        assert(!is_metadata_line(s, i));
    } else {
        let t = ms[0];
        let rest = ms.drop_first();
        assert(single_line(ms[0]) && !opens_with_old_mark(ms[0]));
        lemma_written_split(s, i, t + nl(), metadata_written(rest));
        lemma_line_reads(s, i, t);
        lemma_written_split(s, i, t, nl());
        lemma_written_char(s, i + t.len(), nl(), 0);
        if has_literal(s, i, old_marker()) {
            assert forall|x: int| 0 <= x < 4 implies s[i + x] == #[trigger] old_marker()[x] by {
                assert(s[i + x] == s.subrange(i, i + 4)[x]);
            }
            if t.len() < 4 {
                assert(s[i + t.len()] == old_marker()[t.len() as int]);
            } else {
                assert forall|x: int| 0 <= x < 4 implies t[x] == #[trigger] old_marker()[x] by {
                    lemma_written_char(s, i, t, x);
                }
            }
        }
        assert(is_metadata_line(s, i));
        assert forall|k: int|
            0 <= k < rest.len() implies single_line(#[trigger] rest[k]) && !opens_with_old_mark(
            rest[k],
        ) by {
            assert(rest[k] == ms[k + 1]);
        }
        lemma_metadata_read(s, i + t.len() + 1, rest);
        assert(seq![t] + rest =~= ms);
    }
}

/// Where `s[k..e]` holds no tab, `tab_or_end(s, k, e)` is `e`.
proof fn lemma_tab_free_end(s: Seq<char>, k: int, e: int)
    requires
        0 <= k <= e <= s.len(),
        forall|x: int| k <= x < e ==> #[trigger] s[x] != '\t',
    ensures
        tab_or_end(s, k, e) == e,
    decreases e - k,
{
    if k < e {
        lemma_tab_free_end(s, k + 1, e);
    }
}

proof fn lemma_file_header_reads(
    s: Seq<char>,
    i: int,
    mark: Seq<char>,
    p: Seq<char>,
    expected: Expected,
)
    requires
        mark == old_marker() || mark == new_marker(),
        written_at(s, i, mark + p + nl()),
        single_line(p),
        tab_free(p),
    ensures
        file_header_at(s, i, mark, expected) == Ok::<(Seq<char>, int), (int, Expected)>(
            (p, i + 4 + p.len() + 1),
        ),
{
    assert(mark + p + nl() =~= mark + (p + nl()));
    lemma_written_split(s, i, mark, p + nl());
    lemma_line_reads(s, i + 4, p);
    lemma_written_split(s, i + 4, p, nl());
    let e = i + 4 + p.len();
    assert forall|x: int| i + 4 <= x < e implies #[trigger] s[x] != '\t' by {
        lemma_written_char(s, i + 4, p, x - i - 4);
    }
    lemma_tab_free_end(s, i + 4, e);
    assert(header_path(s, i) =~= p);
}

proof fn lemma_file_patch_read(s: Seq<char>, i: int, f: FilePatchModel)
    requires
        written_at(s, i, file_patch_written(f)),
        file_patch_writable(f),
        hunk_line_at(s, i + file_patch_written(f).len()) is None,
        hunk_header_at(s, i + file_patch_written(f).len()) is Err,
    ensures
        file_patch_at(s, i) == Ok::<(FilePatchModel, int, Seq<(int, int)>), (int, Expected)>(
            (f, i + file_patch_written(f).len(), Seq::<(int, int)>::empty()),
        ),
        file_patch_written(f).len() > 0,
{
    let m_text = metadata_written(f.metadata);
    let a = old_header_mark() + f.old + nl();
    let b = new_header_mark() + f.new + nl();
    let hs = hunks_written(f.hunks);
    lemma_written_split(s, i, m_text + a + b, hs);
    lemma_written_split(s, i, m_text + a, b);
    lemma_written_split(s, i, m_text, a);
    let m = i + m_text.len();
    let p1 = m + a.len();
    let p2 = p1 + b.len();
    assert(old_header_mark() =~= old_marker());
    assert(new_header_mark() =~= new_marker());
    lemma_written_split(s, m, old_header_mark() + f.old, nl());
    lemma_written_split(s, m, old_header_mark(), f.old);
    lemma_metadata_read(s, i, f.metadata);
    lemma_file_header_reads(s, m, old_marker(), f.old, Expected::OldFileHeader);
    lemma_file_header_reads(s, p1, new_marker(), f.new, Expected::NewFileHeader);
    lemma_hunks_read(s, p2, f.hunks);
    crate::parser::lemma_hunk_advances(s, p2);
    assert(hunk_at(s, p2) is Ok);
}

/// The first character of a file patch written out whose first metadata line cannot
/// continue a hunk opens neither a hunk line nor a hunk header.
proof fn lemma_file_patch_opens_apart(s: Seq<char>, i: int, f: FilePatchModel)
    requires
        written_at(s, i, file_patch_written(f)),
        f.metadata.len() > 0,
        opens_apart(f.metadata[0]),
    ensures
        i < s.len(),
        hunk_line_at(s, i) is None,
        hunk_header_at(s, i) is Err,
{
    let m_text = metadata_written(f.metadata);
    let a = old_header_mark() + f.old + nl();
    let b = new_header_mark() + f.new + nl();
    let t = f.metadata[0];
    lemma_written_split(s, i, m_text + a + b, hunks_written(f.hunks));
    lemma_written_split(s, i, m_text + a, b);
    lemma_written_split(s, i, m_text, a);
    lemma_written_split(s, i, t + nl(), metadata_written(f.metadata.drop_first()));
    lemma_written_split(s, i, t, nl());
    if t.len() > 0 {
        lemma_written_char(s, i, t, 0);
    } else {
        lemma_written_char(s, i, nl(), 0);
    }
    lemma_no_hunk_line(s, i);
    lemma_no_hunk_header(s, i);
}

proof fn lemma_writable_rest(fs: Seq<FilePatchModel>)
    requires
        fs.len() > 0,
        diff_writable(fs),
    ensures
        diff_writable(fs.drop_first()),
{
    let rest = fs.drop_first();
    assert forall|k: int| 0 <= k < rest.len() implies file_patch_writable(#[trigger] rest[k]) by {
        assert(rest[k] == fs[k + 1]);
    }
    assert forall|k: int| 1 <= k < rest.len() implies (#[trigger] rest[k]).metadata.len() > 0
        && opens_apart(rest[k].metadata[0]) by {
        assert(rest[k] == fs[k + 1]);
    }
}

#[verifier::rlimit(30)]
proof fn lemma_files_read(s: Seq<char>, i: int, fs: Seq<FilePatchModel>)
    requires
        written_at(s, i, diff_written(fs)),
        i + diff_written(fs).len() == s.len(),
        diff_writable(fs),
    ensures
        files_from(s, i) == (fs, s.len() as int, Seq::<(int, int)>::empty()),
    decreases fs.len(),
{
    if fs.len() == 0 {
        crate::concat::files_at_end(s);
        assert(fs =~= Seq::<FilePatchModel>::empty());
    } else {
        let f = fs[0];
        let rest = fs.drop_first();
        let w = file_patch_written(f);
        lemma_written_split(s, i, w, diff_written(rest));
        let e0 = i + w.len();
        if rest.len() > 0 {
            assert(rest[0] == fs[1]);
            assert(fs[1].metadata.len() > 0 && opens_apart(fs[1].metadata[0]));
            lemma_written_split(s, e0, file_patch_written(rest[0]), diff_written(rest.drop_first()));
            lemma_file_patch_opens_apart(s, e0, rest[0]);
        } else {
            lemma_no_hunk_line(s, e0);
            lemma_no_hunk_header(s, e0);
        }
        assert(file_patch_writable(fs[0]));
        lemma_file_patch_read(s, i, f);
        lemma_writable_rest(fs);
        lemma_files_read(s, e0, rest);
        assert(seq![f] + rest =~= fs);
        assert(Seq::<(int, int)>::empty() + Seq::<(int, int)>::empty() =~= Seq::<(int, int)>::empty());
    }
}

/// A diff written out from its parts reads back as exactly those parts: every file patch,
/// in order, with its metadata lines, its two paths and its hunks in order; every hunk
/// with the ranges written in its header, its whole section text and its lines in order;
/// every hunk line with its whole text. What may be written: no text holds a line ending,
/// no metadata line starts with `--- `, paths hold no tab, sections are not empty, every
/// file patch has a hunk, and each file patch after the first starts with a metadata line
/// that cannot continue the hunk before it.
pub proof fn law_written_diff_reads_back(d: DiffModel)
    requires
        d.files.len() > 0,
        diff_writable(d.files),
    ensures
        parse_result(diff_written(d.files)) == Ok::<DiffModel, Seq<crate::error::ParseError>>(d),
{
    let s = diff_written(d.files);
    assert(s.subrange(0, s.len() as int) =~= s);
    lemma_files_read(s, 0, d.files);
    assert(diff_errors(s) =~= Seq::<crate::error::ParseError>::empty());
}

/// Where `s[k..j]` holds no tab and `s[j]` is one, before `e`, `tab_or_end(s, k, e)` is `j`.
proof fn lemma_tab_at(s: Seq<char>, k: int, j: int, e: int)
    requires
        0 <= k <= j < e <= s.len(),
        forall|x: int| k <= x < j ==> #[trigger] s[x] != '\t',
        s[j] == '\t',
    ensures
        tab_or_end(s, k, e) == j,
    decreases j - k,
{
    if k < j {
        lemma_tab_at(s, k + 1, j, e);
    }
}

/// A header line `mark`, `path`, then `rest` (nothing, or a tab and a timestamp), then a
/// line ending, reads as `path`, and the next line starts after it.
proof fn lemma_path_reads(
    mark: Seq<char>,
    path: Seq<char>,
    rest: Seq<char>,
    ending: Seq<char>,
    expected: Expected,
)
    requires
        mark == old_marker() || mark == new_marker(),
        single_line(path),
        tab_free(path),
        single_line(rest),
        rest.len() == 0 || rest[0] == '\t',
        crate::header::line_ending(ending),
    ensures
        file_header_at(mark + path + rest + ending, 0, mark, expected) == Ok::<
            (Seq<char>, int),
            (int, Expected),
        >((path, (mark + path + rest + ending).len() as int)),
{
    let s = mark + path + rest + ending;
    let j: int = 4 + path.len() as int;
    let e: int = j + rest.len();
    assert(s.subrange(0, 4) =~= mark);
    assert forall|x: int| 4 <= x < e implies !is_newline_char(#[trigger] s[x]) by {
        if x < j {
            assert(s[x] == path[x - 4]);
        } else {
            assert(s[x] == rest[x - j]);
        }
    }
    lemma_line_end_at(s, 4, e);
    assert forall|x: int| 4 <= x < j implies #[trigger] s[x] != '\t' by {
        assert(s[x] == path[x - 4]);
    }
    if rest.len() == 0 {
        lemma_tab_free_end(s, 4, e);
    } else {
        lemma_tab_at(s, 4, j, e);
    }
    assert(header_path(s, 0) =~= path);
    assert(newline_len(s, e) == ending.len());
}

/// A `--- ` or `+++ ` line reads as its path: all of the text after the marker where it
/// holds no tab, spaces and all, and the text up to the first tab where a tab and a
/// timestamp follow; the next line starts after the line ending.
pub proof fn law_file_header_path(
    mark: Seq<char>,
    path: Seq<char>,
    stamp: Seq<char>,
    ending: Seq<char>,
    expected: Expected,
)
    requires
        mark == old_header_mark() || mark == new_header_mark(),
        single_line(path),
        tab_free(path),
        single_line(stamp),
        crate::header::line_ending(ending),
    ensures
        file_header_at(mark + path + ending, 0, mark, expected) == Ok::<(Seq<char>, int), (int, Expected)>(
            (path, (mark + path + ending).len() as int),
        ),
        file_header_at(mark + path + (seq!['\t'] + stamp) + ending, 0, mark, expected) == Ok::<
            (Seq<char>, int),
            (int, Expected),
        >((path, (mark + path + (seq!['\t'] + stamp) + ending).len() as int)),
{
    assert(old_header_mark() =~= old_marker());
    assert(new_header_mark() =~= new_marker());
    assert(mark + path + ending =~= mark + path + Seq::<char>::empty() + ending);
    lemma_path_reads(mark, path, Seq::<char>::empty(), ending, expected);
    let rest = seq!['\t'] + stamp;
    assert forall|x: int| 0 <= x < rest.len() implies !is_newline_char(#[trigger] rest[x]) by {
        if x > 0 {
            assert(rest[x] == stamp[x - 1]);
        }
    }
    lemma_path_reads(mark, path, rest, ending, expected);
}

/// Metadata lines written at `i` are read as metadata, and reading goes on after them.
proof fn lemma_metadata_then(s: Seq<char>, i: int, ms: Seq<Seq<char>>)
    requires
        written_at(s, i, metadata_written(ms)),
        forall|k: int|
            0 <= k < ms.len() ==> single_line(#[trigger] ms[k]) && !opens_with_old_mark(ms[k]),
    ensures
        metadata_from(s, i).0 == ms + metadata_from(s, i + metadata_written(ms).len()).0,
        metadata_from(s, i).1 == metadata_from(s, i + metadata_written(ms).len()).1,
    decreases ms.len(),
{
    if ms.len() == 0 {
        assert(ms + metadata_from(s, i).0 =~= metadata_from(s, i).0);
    } else {
        let t = ms[0];
        let rest = ms.drop_first();
        assert(single_line(ms[0]) && !opens_with_old_mark(ms[0]));
        lemma_written_split(s, i, t + nl(), metadata_written(rest));
        lemma_line_reads(s, i, t);
        lemma_written_split(s, i, t, nl());
        lemma_written_char(s, i + t.len(), nl(), 0);
        if has_literal(s, i, old_marker()) {
            assert forall|x: int| 0 <= x < 4 implies s[i + x] == #[trigger] old_marker()[x] by {
                assert(s[i + x] == s.subrange(i, i + 4)[x]);
            }
            if t.len() < 4 {
                assert(s[i + t.len()] == old_marker()[t.len() as int]);
            } else {
                assert forall|x: int| 0 <= x < 4 implies t[x] == #[trigger] old_marker()[x] by {
                    lemma_written_char(s, i, t, x);
                }
            }
        }
        assert(is_metadata_line(s, i));
        assert forall|k: int|
            0 <= k < rest.len() implies single_line(#[trigger] rest[k]) && !opens_with_old_mark(
            rest[k],
        ) by {
            assert(rest[k] == ms[k + 1]);
        }
        lemma_metadata_then(s, i + t.len() + 1, rest);
        assert(seq![t] + (rest + metadata_from(s, i + metadata_written(ms).len()).0) =~= ms
            + metadata_from(s, i + metadata_written(ms).len()).0);
    }
}

/// Lines that end with a line ending and do not start with `--- ` are metadata, whatever
/// else they hold: written before a diff that parses, they parse as further metadata lines
/// at the head of its first file patch, and nothing else changes.
pub proof fn law_metadata_prepended(ms: Seq<Seq<char>>, b: Seq<char>)
    requires
        forall|k: int|
            0 <= k < ms.len() ==> single_line(#[trigger] ms[k]) && !opens_with_old_mark(ms[k]),
        parse_result(b) is Ok,
    ensures
        ({
            let files = parse_result(b)->Ok_0.files;
            parse_result(metadata_written(ms) + b) == Ok::<DiffModel, Seq<crate::error::ParseError>>(
                DiffModel {
                    files: files.update(
                        0,
                        FilePatchModel { metadata: ms + files[0].metadata, ..files[0] },
                    ),
                },
            )
        }),
{
    let a = metadata_written(ms);
    let s = a + b;
    let d = a.len() as int;
    crate::laws::law_parse_succeeds_on_diffs(b);
    let fb = files_from(b, 0);
    assert(file_patch_at(b, 0) is Ok);
    let (f0, j0, big0) = file_patch_at(b, 0)->Ok_0;
    crate::parser::lemma_file_patch_advances(b, 0);
    assert(fb == (seq![f0] + files_from(b, j0).0, files_from(b, j0).1, big0 + files_from(b, j0).2));
    assert(big0 + files_from(b, j0).2 =~= Seq::<(int, int)>::empty());
    assert(files_from(b, j0).2 =~= Seq::<(int, int)>::empty());
    assert(s.subrange(0, d) =~= a);
    lemma_metadata_then(s, 0, ms);
    crate::concat::shift_file_patch(a, b, 0);
    crate::concat::shift_files(a, b, j0);
    assert(crate::concat::shift_spans(files_from(b, j0).2, d) =~= Seq::<(int, int)>::empty());
    let f1 = FilePatchModel { metadata: ms + f0.metadata, ..f0 };
    assert(metadata_from(s, d) == (f0.metadata, metadata_from(s, d).1));
    assert(file_patch_at(s, 0) == Ok::<(FilePatchModel, int, Seq<(int, int)>), (int, Expected)>(
        (f1, d + j0, crate::concat::shift_spans(big0, d)),
    ));
    assert(crate::concat::shift_spans(big0, d) =~= Seq::<(int, int)>::empty());
    assert(files_from(s, 0).0 =~= seq![f1] + files_from(b, j0).0);
    assert(files_from(s, 0).2 =~= Seq::<(int, int)>::empty());
    assert(fb.0.update(0, f1) =~= seq![f1] + files_from(b, j0).0);
    assert(diff_errors(s) =~= Seq::<crate::error::ParseError>::empty());
}

} // verus!
