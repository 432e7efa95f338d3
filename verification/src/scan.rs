//! Character-level reading of the input: line text and line endings, literals and numbers.
use vstd::prelude::*;
use crate::grammar::{
    digit_value, digits_end, digits_value, has_literal, int_end, is_digit, is_newline_char,
    line_text_end, literal_mismatch, newline_len, after_line,
};

verus! {

/// The characters of `input`, in order.
pub fn chars_of(input: &str) -> (v: Vec<char>)
    ensures
        v@ == input@,
{
    broadcast use vstd::string::group_string_axioms;

    let mut v: Vec<char> = Vec::new();
    for c in it: input.chars()
        invariant
            v@ == it.seq().take(it.index()),
    {
        v.push(c);
    }
    v
}

/// Appends one character to a string (std's `String::push`).
#[verifier::external_body]
pub(crate) fn push_char(t: &mut String, c: char)
    ensures
        final(t)@ == old(t)@.push(c),
{
    t.push(c);
}

/// The characters `s[i..j]` as a string.
pub fn text_between(s: &Vec<char>, i: usize, j: usize) -> (t: String)
    requires
        i <= j <= s@.len(),
    ensures
        t@ == s@.subrange(i as int, j as int),
{
    let mut t = String::new();
    let mut k = i;
    while k < j
        invariant
            i <= k <= j <= s@.len(),
            t@ == s@.subrange(i as int, k as int),
        decreases j - k,
    {
        push_char(&mut t, s[k]);
        k = k + 1;
        assert(t@ =~= s@.subrange(i as int, k as int));
    }
    t
}

pub fn is_newline(c: char) -> (b: bool)
    ensures
        b == is_newline_char(c),
{
    c == '\n' || c == '\r' || c == '\x0B' || c == '\x0C' || c == '\u{85}' || c == '\u{2028}'
        || c == '\u{2029}'
}

/// `line_text_end` stays within `[i, s.len()]`; no line ending lies before it, and one
/// lies at it unless it is the end of the input.
pub proof fn lemma_line_text_end(s: Seq<char>, i: int)
    requires
        0 <= i <= s.len(),
    ensures
        i <= line_text_end(s, i) <= s.len(),
        forall|k: int| i <= k < line_text_end(s, i) ==> !is_newline_char(#[trigger] s[k]),
        line_text_end(s, i) < s.len() ==> is_newline_char(s[line_text_end(s, i)]),
    decreases s.len() - i,
{
    if i < s.len() && !is_newline_char(s[i]) {
        lemma_line_text_end(s, i + 1);
    }
}

/// The next line starts after the current line's text, within the input, and strictly
/// after it where the text stops at a line ending.
pub proof fn lemma_after_line(s: Seq<char>, i: int)
    requires
        0 <= i <= s.len(),
    ensures
        i <= line_text_end(s, i) <= after_line(s, i) <= s.len(),
        line_text_end(s, i) < s.len() ==> line_text_end(s, i) < after_line(s, i),
        line_text_end(s, i) == s.len() ==> after_line(s, i) == s.len(),
{
    lemma_line_text_end(s, i);
}

/// The end of the text of the line that starts at `i`.
pub fn find_line_text_end(s: &Vec<char>, i: usize) -> (e: usize)
    requires
        i <= s@.len(),
    ensures
        e == line_text_end(s@, i as int),
        i <= e <= s@.len(),
{
    proof {
        lemma_line_text_end(s@, i as int);
    }
    let mut j = i;
    while j < s.len() && !is_newline(s[j])
        invariant
            i <= j <= s@.len(),
            line_text_end(s@, i as int) == line_text_end(s@, j as int),
        decreases s@.len() - j,
    {
        j = j + 1;
    }
    j
}

/// The length of the line ending at `i` (0 where there is none).
pub fn line_ending_len(s: &Vec<char>, i: usize) -> (n: usize)
    requires
        i <= s@.len(),
    ensures
        n == newline_len(s@, i as int),
        n <= 2,
        i + n <= s@.len(),
{
    if i < s.len() && s[i] == '\r' {
        if i + 1 < s.len() && s[i + 1] == '\n' {
            2
        } else {
            1
        }
    } else if i < s.len() && is_newline(s[i]) {
        1
    } else {
        0
    }
}

/// Matches the literal `lit` at `i`: `Ok` with the position after it, or `Err` with the
/// position where the input departs from it.
pub fn match_literal(s: &Vec<char>, i: usize, lit: &[char]) -> (r: Result<usize, usize>)
    requires
        i <= s@.len(),
    ensures
        match r {
            Ok(e) => has_literal(s@, i as int, lit@) && e == i + lit@.len(),
            Err(p) => !has_literal(s@, i as int, lit@) && p == literal_mismatch(
                s@,
                i as int,
                lit@,
                0,
            ) && i <= p <= s@.len(),
        },
{
    let n = s.len();
    let mut k: usize = 0;
    while k < lit.len()
        invariant
            n == s@.len(),
            i <= s@.len(),
            0 <= k <= lit@.len(),
            i + k <= s@.len(),
            s@.subrange(i as int, i + k) =~= lit@.take(k as int),
            literal_mismatch(s@, i as int, lit@, 0) == literal_mismatch(s@, i as int, lit@, k as int),
        decreases lit@.len() - k,
    {
        if k >= n - i || s[i + k] != lit[k] {
            proof {
                if has_literal(s@, i as int, lit@) {
                    assert(s@.subrange(i as int, i + lit@.len())[k as int] == s@[i + k]);
                }
            }
            return Err(i + k);
        }
        k = k + 1;
        assert(s@.subrange(i as int, i + k) =~= lit@.take(k as int)) by {
            assert(s@.subrange(i as int, i + k) =~= s@.subrange(i as int, i + k - 1).push(s@[i + k - 1]));
            assert(lit@.take(k as int) =~= lit@.take(k - 1).push(lit@[k - 1]));
        }
    }
    assert(lit@.take(k as int) =~= lit@);
    Ok(i + k)
}

pub fn is_decimal_digit(c: char) -> (b: bool)
    ensures
        b == is_digit(c),
{
    '0' <= c && c <= '9'
}

/// `digits_end` stays within `[i, s.len()]` and only digits lie before it.
pub proof fn lemma_digits_end(s: Seq<char>, i: int)
    requires
        0 <= i <= s.len(),
    ensures
        i <= digits_end(s, i) <= s.len(),
        forall|k: int| i <= k < digits_end(s, i) ==> is_digit(#[trigger] s[k]),
    decreases s.len() - i,
{
    if i < s.len() && is_digit(s[i]) {
        lemma_digits_end(s, i + 1);
    }
}

/// Where an integer that starts at `i` ends (`i` where none starts).
pub fn find_int_end(s: &Vec<char>, i: usize) -> (e: usize)
    requires
        i <= s@.len(),
    ensures
        e == int_end(s@, i as int),
        i <= e <= s@.len(),
        forall|k: int| i <= k < e ==> is_digit(#[trigger] s@[k]),
{
    if i < s.len() && s[i] == '0' {
        i + 1
    } else if i < s.len() && '1' <= s[i] && s[i] <= '9' {
        proof {
            lemma_digits_end(s@, i + 1);
        }
        let mut j = i + 1;
        while j < s.len() && is_decimal_digit(s[j])
            invariant
                i < j <= s@.len(),
                digits_end(s@, i + 1) == digits_end(s@, j as int),
            decreases s@.len() - j,
        {
            j = j + 1;
        }
        j
    } else {
        i
    }
}

/// The value of the digits `s[i..j]`, or `None` where it does not fit in a `usize`.
pub fn read_number(s: &Vec<char>, i: usize, j: usize) -> (v: Option<usize>)
    requires
        i <= j <= s@.len(),
        forall|k: int| i <= k < j ==> is_digit(#[trigger] s@[k]),
    ensures
        match v {
            Some(v) => v == digits_value(s@, i as int, j as int),
            None => digits_value(s@, i as int, j as int) > usize::MAX,
        },
{
    let mut acc: Option<usize> = Some(0);
    let mut k = i;
    while k < j
        invariant
            i <= k <= j <= s@.len(),
            forall|m: int| i <= m < j ==> is_digit(#[trigger] s@[m]),
            match acc {
                Some(v) => v == digits_value(s@, i as int, k as int),
                None => digits_value(s@, i as int, k as int) > usize::MAX,
            },
        decreases j - k,
    {
        let c = s[k];
        assert(is_digit(s@[k as int]));
        let d = ((c as u32) - ('0' as u32)) as usize;
        assert(d == digit_value(c) && d <= 9);
        assert(digits_value(s@, i as int, k + 1) == digits_value(s@, i as int, k as int) * 10 + d);
        acc = match acc {
            Some(v) => match v.checked_mul(10) {
                Some(w) => w.checked_add(d),
                None => None,
            },
            None => None,
        };
        k = k + 1;
    }
    acc
}

/// Where the line whose text starts at `i` ends and the next one starts.
pub fn find_after_line(s: &Vec<char>, i: usize) -> (r: (usize, usize))
    requires
        i <= s@.len(),
    ensures
        r.0 == line_text_end(s@, i as int),
        r.1 == after_line(s@, i as int),
        i <= r.0 <= r.1 <= s@.len(),
{
    proof {
        lemma_after_line(s@, i as int);
    }
    let e = find_line_text_end(s, i);
    let n = line_ending_len(s, e);
    let total = s.len();
    assert(e + n <= total);
    (e, e + n)
}

} // verus!
