//! Byte offsets of character positions in a UTF-8 string.
use vstd::prelude::*;
use vstd::utf8::{char_is_scalar, encode_scalar, encode_utf8};

verus! {

/// The byte offset of character position `i`: the length of the UTF-8 encoding of the
/// characters before it.
pub open spec fn byte_offset(s: Seq<char>, i: int) -> int {
    encode_utf8(s.take(i)).len() as int
}

/// The number of bytes UTF-8 takes for `c`.
pub open spec fn char_width(c: char) -> nat {
    if c as u32 <= 0x7F {
        1
    } else if c as u32 <= 0x7FF {
        2
    } else if c as u32 <= 0xFFFF {
        3
    } else {
        4
    }
}

/// Encoding distributes over concatenation.
pub proof fn lemma_encode_utf8_add(a: Seq<char>, b: Seq<char>)
    ensures
        encode_utf8(a + b) =~= encode_utf8(a) + encode_utf8(b),
    decreases a.len(),
{
    if a.len() > 0 {
        assert((a + b).drop_first() =~= a.drop_first() + b);
        lemma_encode_utf8_add(a.drop_first(), b);
    } else {
        assert(a + b =~= b);
    }
}

/// One character takes `char_width` bytes.
pub proof fn lemma_encode_char(c: char)
    ensures
        encode_utf8(seq![c]).len() == char_width(c),
{
    char_is_scalar(c);
    assert(seq![c].drop_first() =~= Seq::<char>::empty());
    assert(encode_utf8(seq![c]) =~= encode_scalar(c as u32) + encode_utf8(Seq::<char>::empty()));
}

/// Byte offsets grow by the width of each character.
pub proof fn lemma_byte_offset_step(s: Seq<char>, i: int)
    requires
        0 <= i < s.len(),
    ensures
        byte_offset(s, i + 1) == byte_offset(s, i) + char_width(s[i]),
        byte_offset(s, i) <= byte_offset(s, i + 1) <= byte_offset(s, s.len() as int),
{
    assert(s.take(i + 1) =~= s.take(i) + seq![s[i]]);
    lemma_encode_utf8_add(s.take(i), seq![s[i]]);
    lemma_encode_char(s[i]);
    assert(s.take(s.len() as int) =~= s.take(i + 1) + s.skip(i + 1));
    lemma_encode_utf8_add(s.take(i + 1), s.skip(i + 1));
}

/// The UTF-8 width of `c`.
pub fn utf8_width(c: char) -> (w: usize)
    ensures
        w == char_width(c),
{
    let v = c as u32;
    if v <= 0x7F {
        1
    } else if v <= 0x7FF {
        2
    } else if v <= 0xFFFF {
        3
    } else {
        4
    }
}

/// The byte offset of character position `i` of `s`.
pub fn byte_offset_of(s: &Vec<char>, i: usize) -> (b: usize)
    requires
        i <= s@.len(),
        encode_utf8(s@).len() <= usize::MAX,
    ensures
        b == byte_offset(s@, i as int),
{
    let mut k: usize = 0;
    let mut b: usize = 0;
    assert(s@.take(0) =~= Seq::<char>::empty());
    assert(s@.take(s@.len() as int) =~= s@);
    while k < i
        invariant
            k <= i <= s@.len(),
            encode_utf8(s@).len() <= usize::MAX,
            s@.take(s@.len() as int) == s@,
            b == byte_offset(s@, k as int),
        decreases i - k,
    {
        proof {
            lemma_byte_offset_step(s@, k as int);
        }
        b = b + utf8_width(s[k]);
        k = k + 1;
    }
    b
}

} // verus!
