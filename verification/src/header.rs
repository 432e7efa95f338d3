//! How a hunk header written out in full reads: `@@ -start[,count] +start[,count] @@text`.
use vstd::prelude::*;
use crate::diff::LineRange;
use crate::error::Expected;
use crate::grammar::{
    after_line, digit_value, digits_end, digits_value, fit, has_literal, hunk_close,
    hunk_header_at, hunk_new_range, hunk_open, int_end, is_digit, is_newline_char,
    line_range_at, line_text, line_text_end, newline_len, oversized, section_of, HeaderParse,
};
use crate::laws::single_line;
use crate::render::{decimal, digit_char};

verus! {

/// A line range written out: its start, and `,count` where the count is written.
pub open spec fn range_text(r: LineRange, with_count: bool) -> Seq<char> {
    if with_count {
        decimal(r.start as nat) + seq![','] + decimal(r.count as nat)
    } else {
        decimal(r.start as nat)
    }
}

/// A hunk header line written out, without its line ending.
pub open spec fn hunk_header_text(
    old: LineRange,
    old_count: bool,
    new: LineRange,
    new_count: bool,
    text: Seq<char>,
) -> Seq<char> {
    hunk_open() + range_text(old, old_count) + hunk_new_range() + range_text(new, new_count)
        + hunk_close() + text
}

/// What may end a line: nothing (at the end of the input), one line-ending character, or
/// `\r\n`.
pub open spec fn line_ending(e: Seq<char>) -> bool {
    ||| e.len() == 0
    ||| e.len() == 1 && is_newline_char(e[0])
    ||| e == seq!['\r', '\n']
}

proof fn lemma_digit_char(d: nat)
    requires
        d < 10,
    ensures
        is_digit(digit_char(d)),
        digit_value(digit_char(d)) == d,
        d > 0 ==> '1' <= digit_char(d) <= '9',
{
}

proof fn lemma_decimal(n: nat)
    ensures
        decimal(n).len() >= 1,
        forall|k: int| 0 <= k < decimal(n).len() ==> is_digit(#[trigger] decimal(n)[k]),
        n > 0 ==> '1' <= decimal(n)[0] <= '9',
        n == 0 ==> decimal(n) == seq!['0'],
    decreases n,
{
    lemma_digit_char(n % 10);
    if n >= 10 {
        let m = n / 10;
        lemma_decimal(m);
        assert forall|k: int| 0 <= k < decimal(n).len() implies is_digit(
            #[trigger] decimal(n)[k],
        ) by {
            if k < decimal(m).len() {
                assert(decimal(n)[k] == decimal(m)[k]);
            }
        }
        assert(decimal(n)[0] == decimal(m)[0]);
    } else {
        lemma_digit_char(n);
    }
}

proof fn lemma_decimal_value(s: Seq<char>, i: int, n: nat)
    requires
        0 <= i,
        i + decimal(n).len() <= s.len(),
        s.subrange(i, i + decimal(n).len()) == decimal(n),
    ensures
        digits_value(s, i, i + decimal(n).len()) == n,
    decreases n,
{
    let l = decimal(n).len() as int;
    lemma_digit_char(n % 10);
    if n >= 10 {
        let m = n / 10;
        assert(decimal(n) == decimal(m).push(digit_char(n % 10)));
        assert(s.subrange(i, i + l - 1) =~= decimal(m)) by {
            assert forall|k: int| 0 <= k < l - 1 implies s.subrange(i, i + l - 1)[k]
                == decimal(m)[k] by {
                assert(s[i + k] == s.subrange(i, i + l)[k]);
            }
        }
        lemma_decimal_value(s, i, m);
        assert(decimal(m).len() == l - 1);
        assert(s[i + l - 1] == s.subrange(i, i + l)[l - 1]);
        assert(digits_value(s, i, i + l) == digits_value(s, i, i + l - 1) * 10 + digit_value(
            s[i + l - 1],
        ));
        assert(m * 10 + n % 10 == n);
    } else {
        assert(l == 1);
        assert(s[i] == s.subrange(i, i + l)[0]);
        assert(digits_value(s, i, i) == 0);
        assert(digits_value(s, i, i + 1) == digits_value(s, i, i) * 10 + digit_value(s[i]));
    }
}

proof fn lemma_digits_end_at(s: Seq<char>, k: int, j: int)
    requires
        0 <= k <= j <= s.len(),
        forall|x: int| k <= x < j ==> is_digit(#[trigger] s[x]),
        j == s.len() || !is_digit(s[j]),
    ensures
        digits_end(s, k) == j,
    decreases j - k,
{
    if k < j {
        lemma_digits_end_at(s, k + 1, j);
    }
}

/// `n` written in decimal at `i`, followed by no digit, reads as `n` and ends after it.
proof fn lemma_decimal_reads(s: Seq<char>, i: int, n: nat)
    requires
        0 <= i,
        i + decimal(n).len() <= s.len(),
        s.subrange(i, i + decimal(n).len()) == decimal(n),
        i + decimal(n).len() == s.len() || !is_digit(s[i + decimal(n).len()]),
    ensures
        int_end(s, i) == i + decimal(n).len(),
        digits_value(s, i, i + decimal(n).len()) == n,
{
    let l = decimal(n).len() as int;
    lemma_decimal(n);
    lemma_decimal_value(s, i, n);
    assert forall|x: int| i <= x < i + l implies is_digit(#[trigger] s[x]) by {
        assert(s[x] == s.subrange(i, i + l)[x - i]);
    }
    assert(s[i] == s.subrange(i, i + l)[0]);
    if n > 0 {
        lemma_digits_end_at(s, i + 1, i + l);
    }
}

pub proof fn lemma_range_reads(s: Seq<char>, i: int, r: LineRange, with_count: bool)
    requires
        0 <= i,
        i + range_text(r, with_count).len() < s.len(),
        s.subrange(i, i + range_text(r, with_count).len()) == range_text(r, with_count),
        !is_digit(s[i + range_text(r, with_count).len()]),
        s[i + range_text(r, with_count).len()] != ',',
        !with_count ==> r.count == 1,
    ensures
        line_range_at(s, i) == Some((r, i + range_text(r, with_count).len(), Seq::<(int, int)>::empty())),
{
    let t = range_text(r, with_count);
    let a = decimal(r.start as nat);
    let la = a.len() as int;
    let e: int = i + t.len();
    lemma_decimal(r.start as nat);
    assert(fit(r.start as nat) == r.start);
    assert(oversized(i, i + la, r.start as nat) =~= Seq::<(int, int)>::empty());
    if with_count {
        let b = decimal(r.count as nat);
        lemma_decimal(r.count as nat);
        assert(s.subrange(i, i + la) =~= a) by {
            assert forall|k: int| 0 <= k < la implies s.subrange(i, i + la)[k] == a[k] by {
                assert(s[i + k] == s.subrange(i, e)[k]);
            }
        }
        assert(s[i + la] == s.subrange(i, e)[la]);
        lemma_decimal_reads(s, i, r.start as nat);
        let q = i + la;
        assert(s.subrange(q + 1, e) =~= b) by {
            assert forall|k: int| 0 <= k < b.len() implies s.subrange(q + 1, e)[k] == b[k] by {
                assert(s[q + 1 + k] == s.subrange(i, e)[la + 1 + k]);
            }
        }
        lemma_decimal_reads(s, q + 1, r.count as nat);
        assert(fit(r.count as nat) == r.count);
        assert(oversized(q + 1, e, r.count as nat) =~= Seq::<(int, int)>::empty());
        assert(oversized(i, q, r.start as nat) + oversized(q + 1, e, r.count as nat)
            =~= Seq::<(int, int)>::empty());
    } else {
        lemma_decimal_reads(s, i, r.start as nat);
    }
}

pub proof fn lemma_line_end_at(s: Seq<char>, i: int, e: int)
    requires
        0 <= i <= e <= s.len(),
        forall|x: int| i <= x < e ==> !is_newline_char(#[trigger] s[x]),
        e == s.len() || is_newline_char(s[e]),
    ensures
        line_text_end(s, i) == e,
    decreases e - i,
{
    if i < e {
        lemma_line_end_at(s, i + 1, e);
    }
}

/// A hunk header line written out, followed by a line ending.
pub open spec fn header_input(
    old: LineRange,
    old_count: bool,
    new: LineRange,
    new_count: bool,
    text: Seq<char>,
    ending: Seq<char>,
) -> Seq<char> {
    hunk_header_text(old, old_count, new, new_count, text) + ending
}

/// The hunk header line written out reads as its parts, section by `section_of`.
#[verifier::rlimit(40)]
proof fn lemma_header_input_reads(
    old: LineRange,
    old_count: bool,
    new: LineRange,
    new_count: bool,
    text: Seq<char>,
    ending: Seq<char>,
)
    requires
        single_line(text),
        line_ending(ending),
        !old_count ==> old.count == 1,
        !new_count ==> new.count == 1,
    ensures
        hunk_header_at(header_input(old, old_count, new, new_count, text, ending), 0)
            == Ok::<HeaderParse, (int, Expected)>(
            HeaderParse {
                old,
                new,
                section: section_of(text),
                next: header_input(old, old_count, new, new_count, text, ending).len() as int,
                oversized: Seq::<(int, int)>::empty(),
            },
        ),
{
    let ho = hunk_open();
    let o = range_text(old, old_count);
    let nr = hunk_new_range();
    let nw = range_text(new, new_count);
    let hc = hunk_close();
    let h = hunk_header_text(old, old_count, new, new_count, text);
    let s = h + ending;
    let p1: int = 4 + o.len() as int;
    let p2: int = p1 + 2 + nw.len();
    let k: int = p2 + 3;
    let e: int = k + text.len();
    assert(s =~= ho + o + nr + nw + hc + text + ending);
    assert(s.len() == e + ending.len());
    assert(s.subrange(0, 4) =~= ho);
    assert(s.subrange(4, p1) =~= o);
    assert(s[p1] == ' ');
    lemma_range_reads(s, 4, old, old_count);
    assert(s.subrange(p1, p1 + 2) =~= nr);
    assert(s.subrange(p1 + 2, p2) =~= nw);
    assert(s[p2] == ' ');
    lemma_range_reads(s, p1 + 2, new, new_count);
    assert(s.subrange(p2, p2 + 3) =~= hc);
    assert forall|x: int| k <= x < e implies !is_newline_char(#[trigger] s[x]) by {
        assert(s[x] == text[x - k]);
    }
    lemma_line_end_at(s, k, e);
    assert(line_text(s, k) =~= text);
    assert(newline_len(s, e) == ending.len());
    assert(has_literal(s, 0, hunk_open()));
    assert(has_literal(s, p1, hunk_new_range()));
    assert(has_literal(s, p2, hunk_close()));
    assert(after_line(s, k) == s.len());
    assert(Seq::<(int, int)>::empty() + Seq::<(int, int)>::empty() =~= Seq::<(int, int)>::empty());
}

/// A hunk header written out in full, with decimal numbers and text that holds no line
/// ending, reads as the ranges written, where an omitted count is 1; its section is the
/// whole text after ` @@`, with one leading space dropped, and none where that leaves
/// nothing; the next line starts after the line ending.
pub proof fn law_hunk_header_reads(
    old: LineRange,
    old_count: bool,
    new: LineRange,
    new_count: bool,
    text: Seq<char>,
    ending: Seq<char>,
)
    requires
        single_line(text),
        line_ending(ending),
        !old_count ==> old.count == 1,
        !new_count ==> new.count == 1,
    ensures
        hunk_header_at(header_input(old, old_count, new, new_count, text, ending), 0)
            == Ok::<HeaderParse, (int, Expected)>(
            HeaderParse {
                old,
                new,
                section: section_of(text),
                next: header_input(old, old_count, new, new_count, text, ending).len() as int,
                oversized: Seq::<(int, int)>::empty(),
            },
        ),
        hunk_header_at(header_input(old, old_count, new, new_count, text, ending), 0) is Ok,
        ({
            let s = header_input(old, old_count, new, new_count, text, ending);
            let h = hunk_header_at(s, 0)->Ok_0;
            &&& h.old == old
            &&& h.new == new
            &&& h.next == s.len()
            &&& h.oversized == Seq::<(int, int)>::empty()
            &&& text.len() == 0 || text == seq![' '] ==> h.section is None
            &&& text.len() > 0 && text[0] != ' ' ==> h.section == Some(text)
            &&& text.len() > 1 && text[0] == ' ' ==> h.section == Some(text.drop_first())
        }),
{
    lemma_header_input_reads(old, old_count, new, new_count, text, ending);
    if text =~= seq![' '] {
        assert(text.drop_first() =~= Seq::<char>::empty());
    }
}

} // verus!
