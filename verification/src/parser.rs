//! The parser: one executable function per element of the grammar, each proved to read
//! exactly what the matching spec function of [`crate::grammar`] describes.
use vstd::prelude::*;
use crate::diff::{
    files_view, hunks_view, lines_view, option_text_view, texts_view, FilePatch, Hunk, HunkLine,
    LineRange,
};
use crate::error::Expected;
use crate::grammar::{
    after_line, digits_value, file_header_at, file_patch_at, files_from, fit, has_literal,
    header_path, hunk_at, hunk_close, hunk_header_at, hunk_line_at, hunk_lines_from,
    hunk_new_range, hunk_open, hunks_from, int_end, is_metadata_line, line_range_at, line_text,
    line_text_end, marked_line, metadata_from, new_marker, newline_len, no_newline_marker,
    old_marker, oversized, section_of, spans_within, tab_or_end, HeaderParse,
};
use crate::scan::{
    find_after_line, find_int_end, lemma_after_line, line_ending_len,
    match_literal, read_number, text_between,
};

verus! {

/// Character spans as pairs of integers.
pub open spec fn char_spans(v: Seq<(usize, usize)>) -> Seq<(int, int)> {
    v.map_values(|p: (usize, usize)| (p.0 as int, p.1 as int))
}

/// Spans within adjacent intervals lie within their union.
pub proof fn lemma_spans_concat(a: Seq<(int, int)>, b: Seq<(int, int)>, lo: int, mid: int, hi: int)
    requires
        spans_within(a, lo, mid),
        spans_within(b, mid, hi),
        lo <= mid <= hi,
    ensures
        spans_within(a + b, lo, hi),
{
    assert forall|k: int| 0 <= k < (a + b).len() implies lo <= #[trigger] (a + b)[k].0 && (a
        + b)[k].0 <= (a + b)[k].1 <= hi by {
        if k < a.len() {
            assert((a + b)[k] == a[k]);
        } else {
            assert((a + b)[k] == b[k - a.len()]);
        }
    }
}

proof fn lemma_char_spans_add(a: Seq<(usize, usize)>, b: Seq<(usize, usize)>)
    ensures
        char_spans(a + b) =~= char_spans(a) + char_spans(b),
{
}

fn old_marker_chars() -> (v: Vec<char>)
    ensures
        v@ == old_marker(),
{
    vec!['-', '-', '-', ' ']
}

fn new_marker_chars() -> (v: Vec<char>)
    ensures
        v@ == new_marker(),
{
    vec!['+', '+', '+', ' ']
}

fn hunk_open_chars() -> (v: Vec<char>)
    ensures
        v@ == hunk_open(),
{
    vec!['@', '@', ' ', '-']
}

fn hunk_new_range_chars() -> (v: Vec<char>)
    ensures
        v@ == hunk_new_range(),
{
    vec![' ', '+']
}

fn hunk_close_chars() -> (v: Vec<char>)
    ensures
        v@ == hunk_close(),
{
    vec![' ', '@', '@']
}

fn no_newline_marker_chars() -> (v: Vec<char>)
    ensures
        v@ == no_newline_marker(),
{
    vec![
        '\\', ' ', 'N', 'o', ' ', 'n', 'e', 'w', 'l', 'i', 'n', 'e', ' ', 'a', 't', ' ',
        'e', 'n', 'd', ' ', 'o', 'f', ' ', 'f', 'i', 'l', 'e',
    ]
}

/// The number written at `s[i..j]` as the parse keeps it, and its span if it is too large.
fn number_at(s: &Vec<char>, i: usize, j: usize) -> (r: (usize, Vec<(usize, usize)>))
    requires
        i <= j <= s@.len(),
        forall|k: int| i <= k < j ==> crate::grammar::is_digit(#[trigger] s@[k]),
    ensures
        r.0 == fit(digits_value(s@, i as int, j as int)),
        char_spans(r.1@) =~= oversized(i as int, j as int, digits_value(s@, i as int, j as int)),
{
    match read_number(s, i, j) {
        Some(v) => (v, Vec::new()),
        None => {
            let mut big = Vec::new();
            big.push((i, j));
            (0, big)
        },
    }
}

/// A line range `start` or `start,count` at `i`.
pub fn parse_line_range(s: &Vec<char>, i: usize) -> (r: Option<(LineRange, usize, Vec<(usize, usize)>)>)
    requires
        i <= s@.len(),
    ensures
        match r {
            None => line_range_at(s@, i as int) is None,
            Some((range, e, big)) => {
                &&& line_range_at(s@, i as int) == Some((range, e as int, char_spans(big@)))
                &&& i < e <= s@.len()
            },
        },
{
    let q = find_int_end(s, i);
    if q == i {
        return None;
    }
    let (start, mut big) = number_at(s, i, q);
    if q < s.len() && s[q] == ',' {
        let r = find_int_end(s, q + 1);
        if r != q + 1 {
            let (count, mut big2) = number_at(s, q + 1, r);
            let ghost b1 = big@;
            let ghost b2 = big2@;
            big.append(&mut big2);
            proof {
                lemma_char_spans_add(b1, b2);
            }
            return Some((LineRange { start, count }, r, big));
        }
    }
    Some((LineRange { start, count: 1 }, q, big))
}

/// What [`parse_hunk_header`] reads.
pub struct HeaderLine {
    pub old: LineRange,
    pub new: LineRange,
    pub section: Option<String>,
    pub next: usize,
    pub oversized: Vec<(usize, usize)>,
}

pub open spec fn header_view(h: HeaderLine) -> HeaderParse {
    HeaderParse {
        old: h.old,
        new: h.new,
        section: option_text_view(h.section),
        next: h.next as int,
        oversized: char_spans(h.oversized@),
    }
}

/// The section heading of a hunk header line whose text after ` @@` starts at `t0`, and
/// where the next line starts.
fn parse_section(s: &Vec<char>, t0: usize) -> (r: (Option<String>, usize))
    requires
        t0 <= s@.len(),
    ensures
        option_text_view(r.0) == section_of(line_text(s@, t0 as int)),
        r.1 == after_line(s@, t0 as int),
        t0 <= r.1 <= s@.len(),
{
    let (e, next) = find_after_line(s, t0);
    let ghost t = line_text(s@, t0 as int);
    let start = if t0 < e && s[t0] == ' ' {
        assert(t.drop_first() =~= s@.subrange(t0 + 1, e as int));
        t0 + 1
    } else {
        assert(t =~= s@.subrange(t0 as int, e as int));
        t0
    };
    if start == e {
        (None, next)
    } else {
        (Some(text_between(s, start, e)), next)
    }
}

/// A hunk header line `@@ -old +new @@ section` at `i`.
pub fn parse_hunk_header(s: &Vec<char>, i: usize) -> (r: Result<HeaderLine, (usize, Expected)>)
    requires
        i <= s@.len(),
    ensures
        match r {
            Ok(h) => hunk_header_at(s@, i as int) == Ok::<HeaderParse, (int, Expected)>(
                header_view(h),
            ) && i < h.next <= s@.len(),
            Err((p, e)) => hunk_header_at(s@, i as int) == Err::<HeaderParse, (int, Expected)>(
                (p as int, e),
            ) && p <= s@.len(),
        },
{
    let open = hunk_open_chars();
    let p0 = match match_literal(s, i, open.as_slice()) {
        Ok(p0) => p0,
        Err(p) => return Err((p, Expected::HunkHeader)),
    };
    let (old, p1, mut big) = match parse_line_range(s, p0) {
        Some(x) => x,
        None => return Err((p0, Expected::Digit)),
    };
    let plus = hunk_new_range_chars();
    let p1b = match match_literal(s, p1, plus.as_slice()) {
        Ok(q) => q,
        Err(p) => return Err((p, Expected::NewRange)),
    };
    let (new, p2, mut big2) = match parse_line_range(s, p1b) {
        Some(x) => x,
        None => return Err((p1b, Expected::Digit)),
    };
    let close = hunk_close_chars();
    let t0 = match match_literal(s, p2, close.as_slice()) {
        Ok(q) => q,
        Err(p) => return Err((p, Expected::HunkHeaderEnd)),
    };
    let (section, next) = parse_section(s, t0);
    let ghost b1 = big@;
    let ghost b2 = big2@;
    big.append(&mut big2);
    proof {
        lemma_char_spans_add(b1, b2);
    }
    Ok(HeaderLine { old, new, section, next, oversized: big })
}

/// The text of a hunk line whose marker is at `i`, and where the next line starts.
fn parse_marked_line(s: &Vec<char>, i: usize) -> (r: (String, usize))
    requires
        i < s@.len(),
    ensures
        r.0@ == marked_line(s@, i as int).0,
        r.1 == marked_line(s@, i as int).1,
        i < r.1 <= s@.len(),
{
    let total = s.len();
    assert(i + 1 <= total);
    let (e, next) = find_after_line(s, i + 1);
    (text_between(s, i + 1, e), next)
}

/// One hunk line at `i`: `\ No newline at end of file`, or a line marked ` `, `+` or `-`.
pub fn parse_hunk_line(s: &Vec<char>, i: usize) -> (r: Option<(HunkLine, usize)>)
    requires
        i <= s@.len(),
    ensures
        match r {
            None => hunk_line_at(s@, i as int) is None,
            Some((l, j)) => hunk_line_at(s@, i as int) == Some((l@, j as int)) && i < j <= s@.len(),
        },
{
    let marker = no_newline_marker_chars();
    if let Ok(m) = match_literal(s, i, marker.as_slice()) {
        let n = line_ending_len(s, m);
        if m == s.len() || n > 0 {
            return Some((HunkLine::NoNewlineAtEndOfFile, m + n));
        }
    }
    if i < s.len() {
        let c = s[i];
        if c == ' ' {
            let (t, j) = parse_marked_line(s, i);
            return Some((HunkLine::Context(t), j));
        } else if c == '+' {
            let (t, j) = parse_marked_line(s, i);
            return Some((HunkLine::Add(t), j));
        } else if c == '-' {
            let (t, j) = parse_marked_line(s, i);
            return Some((HunkLine::Remove(t), j));
        }
    }
    None
}

/// A hunk line, where one starts, takes at least one character.
pub proof fn lemma_hunk_line_advances(s: Seq<char>, i: int)
    requires
        0 <= i <= s.len(),
    ensures
        hunk_line_at(s, i) matches Some((_, j)) ==> i < j <= s.len(),
{
    let m = i + no_newline_marker().len();
    if has_literal(s, i, no_newline_marker()) && (m == s.len() || newline_len(s, m) > 0) {
    } else if 0 <= i < s.len() && (s[i] == ' ' || s[i] == '+' || s[i] == '-') {
        lemma_after_line(s, i + 1);
    }
}

/// The hunk lines from `i` on stop within `[i, s.len()]`.
pub proof fn lemma_hunk_lines_end(s: Seq<char>, i: int)
    requires
        0 <= i <= s.len(),
    ensures
        i <= hunk_lines_from(s, i).1 <= s.len(),
    decreases s.len() - i,
{
    lemma_hunk_line_advances(s, i);
    if let Some((_, j)) = hunk_line_at(s, i) {
        lemma_hunk_lines_end(s, j);
    }
}

/// All hunk lines from `i` on.
pub fn parse_hunk_lines(s: &Vec<char>, i: usize) -> (r: (Vec<HunkLine>, usize))
    requires
        i <= s@.len(),
    ensures
        lines_view(r.0@) == hunk_lines_from(s@, i as int).0,
        r.1 == hunk_lines_from(s@, i as int).1,
        i <= r.1 <= s@.len(),
{
    let mut lines: Vec<HunkLine> = Vec::new();
    let mut j = i;
    loop
        invariant
            i <= j <= s@.len(),
            hunk_lines_from(s@, i as int).0 =~= lines_view(lines@) + hunk_lines_from(s@, j as int).0,
            hunk_lines_from(s@, i as int).1 == hunk_lines_from(s@, j as int).1,
        decreases s@.len() - j,
    {
        match parse_hunk_line(s, j) {
            Some((l, k)) => {
                let ghost before = lines@;
                lines.push(l);
                proof {
                    assert(lines_view(lines@) =~= lines_view(before) + seq![l@]);
                    assert(hunk_lines_from(s@, j as int).0 =~= seq![l@] + hunk_lines_from(s@, k as int).0);
                }
                j = k;
            },
            None => {
                assert(hunk_lines_from(s@, j as int).0 =~= Seq::<crate::diff::HunkLineModel>::empty());
                assert(lines_view(lines@) + Seq::<crate::diff::HunkLineModel>::empty() =~= lines_view(lines@));
                return (lines, j);
            },
        }
    }
}

/// A hunk at `i`: its header and its lines.
pub fn parse_hunk(s: &Vec<char>, i: usize) -> (r: Result<(Hunk, usize, Vec<(usize, usize)>), (usize, Expected)>)
    requires
        i <= s@.len(),
    ensures
        match r {
            Ok((h, j, big)) => hunk_at(s@, i as int) == Ok::<_, (int, Expected)>(
                (h@, j as int, char_spans(big@)),
            ) && i < j <= s@.len(),
            Err((p, e)) => hunk_at(s@, i as int) == Err::<(crate::diff::HunkModel, int, Seq<(int, int)>), _>(
                (p as int, e),
            ) && p <= s@.len(),
        },
{
    match parse_hunk_header(s, i) {
        Err(e) => Err(e),
        Ok(h) => {
            let (lines, j) = parse_hunk_lines(s, h.next);
            let hunk = Hunk { old: h.old, new: h.new, section: h.section, lines };
            Ok((hunk, j, h.oversized))
        },
    }
}

/// A hunk, where one starts, takes at least one character.
pub proof fn lemma_hunk_advances(s: Seq<char>, i: int)
    requires
        0 <= i <= s.len(),
    ensures
        hunk_at(s, i) matches Ok((_, j, big)) ==> i < j <= s.len() && spans_within(big, i, j),
{
    if let Ok(h) = hunk_header_at(s, i) {
        lemma_header_advances(s, i);
        lemma_hunk_lines_end(s, h.next);
    }
}

/// A hunk header, where one starts, ends within the input, after its start.
pub proof fn lemma_header_advances(s: Seq<char>, i: int)
    requires
        0 <= i <= s.len(),
    ensures
        hunk_header_at(s, i) matches Ok(h) ==> i < h.next <= s.len() && spans_within(
            h.oversized,
            i,
            h.next,
        ),
{
    if let Ok(h) = hunk_header_at(s, i) {
        let (_, p1, b1) = line_range_at(s, i + 4)->Some_0;
        let (_, p2, b2) = line_range_at(s, p1 + 2)->Some_0;
        lemma_line_range_end(s, i + 4);
        lemma_line_range_end(s, p1 + 2);
        lemma_after_line(s, p2 + 3);
        lemma_spans_concat(b1, b2, i, p1 + 2, h.next);
    }
}

/// A line range, where one starts, ends after its start and within the input.
pub proof fn lemma_line_range_end(s: Seq<char>, i: int)
    requires
        0 <= i,
    ensures
        line_range_at(s, i) matches Some((_, e, big)) ==> i < e <= s.len() && spans_within(big, i, e),
{
    if line_range_at(s, i) is Some {
        lemma_int_end(s, i);
        let q = int_end(s, i);
        if 0 <= q < s.len() && s[q] == ',' {
            lemma_int_end(s, q + 1);
        }
    }
}

pub proof fn lemma_int_end(s: Seq<char>, i: int)
    requires
        0 <= i,
    ensures
        i <= int_end(s, i),
        int_end(s, i) != i ==> int_end(s, i) <= s.len(),
{
    if 0 <= i < s.len() && '1' <= s[i] <= '9' {
        crate::scan::lemma_digits_end(s, i + 1);
    }
}

/// All hunks from `i` on stop within `[i, s.len()]`.
pub proof fn lemma_hunks_end(s: Seq<char>, i: int)
    requires
        0 <= i <= s.len(),
    ensures
        i <= hunks_from(s, i).1 <= s.len(),
        spans_within(hunks_from(s, i).2, i, hunks_from(s, i).1),
    decreases s.len() - i,
{
    lemma_hunk_advances(s, i);
    if let Ok((_, j, big)) = hunk_at(s, i) {
        lemma_hunks_end(s, j);
        lemma_spans_concat(big, hunks_from(s, j).2, i, j, hunks_from(s, j).1);
    }
}

/// All hunks from `i` on.
pub fn parse_hunks(s: &Vec<char>, i: usize) -> (r: (Vec<Hunk>, usize, Vec<(usize, usize)>))
    requires
        i <= s@.len(),
    ensures
        hunks_view(r.0@) == hunks_from(s@, i as int).0,
        r.1 == hunks_from(s@, i as int).1,
        char_spans(r.2@) == hunks_from(s@, i as int).2,
        i <= r.1 <= s@.len(),
{
    let mut hunks: Vec<Hunk> = Vec::new();
    let mut big: Vec<(usize, usize)> = Vec::new();
    let mut j = i;
    loop
        invariant
            i <= j <= s@.len(),
            hunks_from(s@, i as int).0 =~= hunks_view(hunks@) + hunks_from(s@, j as int).0,
            hunks_from(s@, i as int).1 == hunks_from(s@, j as int).1,
            hunks_from(s@, i as int).2 =~= char_spans(big@) + hunks_from(s@, j as int).2,
        decreases s@.len() - j,
    {
        match parse_hunk(s, j) {
            Ok((h, k, mut b)) => {
                let ghost before = hunks@;
                let ghost big_before = big@;
                let ghost b_seq = b@;
                hunks.push(h);
                big.append(&mut b);
                proof {
                    assert(hunks_view(hunks@) =~= hunks_view(before) + seq![h@]);
                    lemma_char_spans_add(big_before, b_seq);
                    assert(hunks_from(s@, j as int).0 =~= seq![h@] + hunks_from(s@, k as int).0);
                    assert(hunks_from(s@, j as int).2 =~= char_spans(b_seq) + hunks_from(s@, k as int).2);
                }
                j = k;
            },
            Err(_) => {
                assert(hunks_view(hunks@) + hunks_from(s@, j as int).0 =~= hunks_view(hunks@));
                assert(char_spans(big@) + hunks_from(s@, j as int).2 =~= char_spans(big@));
                return (hunks, j, big);
            },
        }
    }
}

/// Metadata lines, where they start, take at least one character.
pub proof fn lemma_metadata_end(s: Seq<char>, i: int)
    requires
        0 <= i <= s.len(),
    ensures
        i <= metadata_from(s, i).1 <= s.len(),
    decreases s.len() - i,
{
    lemma_after_line(s, i);
    if is_metadata_line(s, i) && i < after_line(s, i) <= s.len() {
        lemma_metadata_end(s, after_line(s, i));
    }
}

/// The metadata lines from `i` on: lines that end with a line ending and do not start
/// with `--- `.
pub fn parse_metadata(s: &Vec<char>, i: usize) -> (r: (Vec<String>, usize))
    requires
        i <= s@.len(),
    ensures
        texts_view(r.0@) == metadata_from(s@, i as int).0,
        r.1 == metadata_from(s@, i as int).1,
        i <= r.1 <= s@.len(),
{
    let marker = old_marker_chars();
    let mut lines: Vec<String> = Vec::new();
    let mut j = i;
    loop
        invariant
            i <= j <= s@.len(),
            marker@ == old_marker(),
            metadata_from(s@, i as int).0 =~= texts_view(lines@) + metadata_from(s@, j as int).0,
            metadata_from(s@, i as int).1 == metadata_from(s@, j as int).1,
        decreases s@.len() - j,
    {
        proof {
            lemma_after_line(s@, j as int);
        }
        let (e, next) = find_after_line(s, j);
        if e < s.len() && match_literal(s, j, marker.as_slice()).is_err() {
            let t = text_between(s, j, e);
            let ghost before = lines@;
            lines.push(t);
            proof {
                assert(texts_view(lines@) =~= texts_view(before) + seq![line_text(s@, j as int)]);
                assert(metadata_from(s@, j as int).0 =~= seq![line_text(s@, j as int)]
                    + metadata_from(s@, next as int).0);
            }
            j = next;
        } else {
            assert(texts_view(lines@) + metadata_from(s@, j as int).0 =~= texts_view(lines@));
            return (lines, j);
        }
    }
}

/// The path of a file header line whose text after the marker starts at `t0` and ends
/// at `e`: everything before the first tab.
fn header_path_text(s: &Vec<char>, t0: usize, e: usize) -> (p: String)
    requires
        t0 <= e <= s@.len(),
        e == line_text_end(s@, t0 as int),
    ensures
        p@ == s@.subrange(t0 as int, tab_or_end(s@, t0 as int, e as int)),
{
    let mut k = t0;
    while k < e && s[k] != '\t'
        invariant
            t0 <= k <= e <= s@.len(),
            tab_or_end(s@, t0 as int, e as int) == tab_or_end(s@, k as int, e as int),
        decreases e - k,
    {
        k = k + 1;
    }
    text_between(s, t0, k)
}

/// A file header line `marker path` at `i`, where `marker` is `--- ` or `+++ `.
pub fn parse_file_header(s: &Vec<char>, i: usize, marker: &[char], expected: Expected) -> (r: Result<
    (String, usize),
    (usize, Expected),
>)
    requires
        i <= s@.len(),
        marker@.len() == 4,
    ensures
        match r {
            Ok((path, j)) => file_header_at(s@, i as int, marker@, expected) == Ok::<_, (int, Expected)>(
                (path@, j as int),
            ) && i < j <= s@.len(),
            Err((p, e)) => file_header_at(s@, i as int, marker@, expected) == Err::<(Seq<char>, int), _>(
                (p as int, e),
            ) && p <= s@.len(),
        },
{
    match match_literal(s, i, marker) {
        Err(p) => Err((p, expected)),
        Ok(t0) => {
            let (e, next) = find_after_line(s, t0);
            let path = header_path_text(s, t0, e);
            assert(path@ == header_path(s@, i as int));
            Ok((path, next))
        },
    }
}

/// A file patch at `i`: metadata, the two file headers and at least one hunk.
pub fn parse_file_patch(s: &Vec<char>, i: usize) -> (r: Result<
    (FilePatch, usize, Vec<(usize, usize)>),
    (usize, Expected),
>)
    requires
        i <= s@.len(),
    ensures
        match r {
            Ok((f, j, big)) => file_patch_at(s@, i as int) == Ok::<_, (int, Expected)>(
                (f@, j as int, char_spans(big@)),
            ) && i < j <= s@.len(),
            Err((p, e)) => file_patch_at(s@, i as int) == Err::<
                (crate::diff::FilePatchModel, int, Seq<(int, int)>),
                _,
            >((p as int, e)) && p <= s@.len(),
        },
{
    let (metadata, m) = parse_metadata(s, i);
    let old_marker = old_marker_chars();
    let (old, p1) = match parse_file_header(s, m, old_marker.as_slice(), Expected::OldFileHeader) {
        Ok(x) => x,
        Err(e) => return Err(e),
    };
    let new_marker = new_marker_chars();
    let (new, p2) = match parse_file_header(s, p1, new_marker.as_slice(), Expected::NewFileHeader) {
        Ok(x) => x,
        Err(e) => return Err(e),
    };
    let (first, p3, mut big) = match parse_hunk(s, p2) {
        Ok(x) => x,
        Err(e) => return Err(e),
    };
    let (rest, end, mut big2) = parse_hunks(s, p3);
    let ghost first_view = first@;
    let ghost rest_view = rest@;
    let ghost b1 = big@;
    let ghost b2 = big2@;
    let mut hunks: Vec<Hunk> = Vec::new();
    hunks.push(first);
    let mut rest = rest;
    hunks.append(&mut rest);
    big.append(&mut big2);
    proof {
        lemma_char_spans_add(b1, b2);
        assert(hunks_view(hunks@) =~= seq![first_view] + hunks_view(rest_view));
    }
    Ok((FilePatch { metadata, old, new, hunks }, end, big))
}

/// A file patch, where one starts, takes at least one character.
pub proof fn lemma_file_patch_advances(s: Seq<char>, i: int)
    requires
        0 <= i <= s.len(),
    ensures
        file_patch_at(s, i) matches Ok((_, j, big)) ==> i < j <= s.len() && spans_within(big, i, j),
{
    lemma_metadata_end(s, i);
    let m = metadata_from(s, i).1;
    if let Ok((_, p1)) = file_header_at(s, m, old_marker(), Expected::OldFileHeader) {
        lemma_after_line(s, m + 4);
        if let Ok((_, p2)) = file_header_at(s, p1, new_marker(), Expected::NewFileHeader) {
            lemma_after_line(s, p1 + 4);
            lemma_hunk_advances(s, p2);
            if let Ok((_, p3, big1)) = hunk_at(s, p2) {
                lemma_hunks_end(s, p3);
                lemma_spans_concat(big1, hunks_from(s, p3).2, i, p3, hunks_from(s, p3).1);
            }
        }
    }
}

/// All file patches from `i` on stop within `[i, s.len()]`.
pub proof fn lemma_files_end(s: Seq<char>, i: int)
    requires
        0 <= i <= s.len(),
    ensures
        i <= files_from(s, i).1 <= s.len(),
        spans_within(files_from(s, i).2, i, files_from(s, i).1),
        file_patch_at(s, files_from(s, i).1) is Err,
    decreases s.len() - i,
{
    lemma_file_patch_advances(s, i);
    if let Ok((_, j, big)) = file_patch_at(s, i) {
        lemma_files_end(s, j);
        lemma_spans_concat(big, files_from(s, j).2, i, j, files_from(s, j).1);
    }
}

/// All file patches from `i` on.
pub fn parse_file_patches(s: &Vec<char>, i: usize) -> (r: (Vec<FilePatch>, usize, Vec<(usize, usize)>))
    requires
        i <= s@.len(),
    ensures
        files_view(r.0@) == files_from(s@, i as int).0,
        r.1 == files_from(s@, i as int).1,
        char_spans(r.2@) == files_from(s@, i as int).2,
        i <= r.1 <= s@.len(),
{
    let mut files: Vec<FilePatch> = Vec::new();
    let mut big: Vec<(usize, usize)> = Vec::new();
    let mut j = i;
    loop
        invariant
            i <= j <= s@.len(),
            files_from(s@, i as int).0 =~= files_view(files@) + files_from(s@, j as int).0,
            files_from(s@, i as int).1 == files_from(s@, j as int).1,
            files_from(s@, i as int).2 =~= char_spans(big@) + files_from(s@, j as int).2,
        decreases s@.len() - j,
    {
        match parse_file_patch(s, j) {
            Ok((f, k, mut b)) => {
                let ghost before = files@;
                let ghost big_before = big@;
                let ghost b_seq = b@;
                files.push(f);
                big.append(&mut b);
                proof {
                    assert(files_view(files@) =~= files_view(before) + seq![f@]);
                    lemma_char_spans_add(big_before, b_seq);
                    assert(files_from(s@, j as int).0 =~= seq![f@] + files_from(s@, k as int).0);
                    assert(files_from(s@, j as int).2 =~= char_spans(b_seq) + files_from(s@, k as int).2);
                }
                j = k;
            },
            Err(_) => {
                assert(files_view(files@) + files_from(s@, j as int).0 =~= files_view(files@));
                assert(char_spans(big@) + files_from(s@, j as int).2 =~= char_spans(big@));
                return (files, j, big);
            },
        }
    }
}

} // verus!
