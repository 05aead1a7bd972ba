//! Byte offsets of the char positions of a UTF-8 text.
//!
//! A `str` is viewed as its sequence of `char`, while slicing it takes byte offsets.
//! The functions here carry a char index over into the byte offset at which that char
//! begins, and cut a `str` at such an offset.

use vstd::prelude::*;
use vstd::utf8::*;

verus! {

/// The number of bytes that encode the char `c`.
pub open spec fn char_width(c: char) -> nat {
    encode_scalar(c as u32).len()
}

/// The number of bytes that encode the text `s`.
pub open spec fn byte_len(s: Seq<char>) -> nat {
    encode_utf8(s).len()
}

/// The byte offset at which the char at index `i` of `s` begins; for `i == s.len()`, the
/// byte length of `s`.
pub open spec fn byte_offset(s: Seq<char>, i: int) -> nat {
    byte_len(s.take(i))
}

/// The encoding of a text is the encoding of its parts, one after the other.
pub proof fn lemma_encode_concat(a: Seq<char>, b: Seq<char>)
    ensures
        encode_utf8(a + b) == encode_utf8(a) + encode_utf8(b),
    decreases a.len(),
{
    if a.len() == 0 {
        assert(a + b =~= b);
        assert(encode_utf8(a) + encode_utf8(b) =~= encode_utf8(b));
    } else {
        lemma_encode_concat(a.drop_first(), b);
        assert((a + b).drop_first() =~= a.drop_first() + b);
        assert(encode_utf8(a + b) =~= encode_utf8(a) + encode_utf8(b));
    }
}

/// Texts with the same encoding are the same text.
pub proof fn lemma_encode_injective(a: Seq<char>, b: Seq<char>)
    requires
        encode_utf8(a) == encode_utf8(b),
    ensures
        a == b,
{
    encode_utf8_decode_utf8(a);
    encode_utf8_decode_utf8(b);
}

/// The encoding of a text with one char is the encoding of that char.
pub proof fn lemma_encode_single(c: char)
    ensures
        encode_utf8(seq![c]) == encode_scalar(c as u32),
        1 <= char_width(c) <= 4,
{
    let s = seq![c];
    assert(s.drop_first() =~= Seq::<char>::empty());
    assert(encode_utf8(s.drop_first()) =~= Seq::<u8>::empty());
    assert(encode_utf8(s) =~= encode_scalar(c as u32));
}

/// Offsets begin at zero, end at the byte length and never decrease.
pub proof fn lemma_byte_offset_bounds(s: Seq<char>, i: int, j: int)
    requires
        0 <= i <= j <= s.len(),
    ensures
        byte_offset(s, 0) == 0,
        byte_offset(s, s.len() as int) == byte_len(s),
        byte_offset(s, i) <= byte_offset(s, j) <= byte_len(s),
{
    assert(s.take(0) =~= Seq::<char>::empty());
    assert(s.take(s.len() as int) =~= s);
    lemma_encode_concat(s.take(i), s.subrange(i, j));
    assert(s.take(i) + s.subrange(i, j) =~= s.take(j));
    lemma_encode_concat(s.take(j), s.skip(j));
    assert(s.take(j) + s.skip(j) =~= s);
}

/// The next char begins as many bytes further as the char before it is wide.
pub proof fn lemma_byte_offset_step(s: Seq<char>, i: int)
    requires
        0 <= i < s.len(),
    ensures
        byte_offset(s, i + 1) == byte_offset(s, i) + char_width(s[i]),
{
    lemma_encode_concat(s.take(i), seq![s[i]]);
    lemma_encode_single(s[i]);
    assert(s.take(i) + seq![s[i]] =~= s.take(i + 1));
}

/// The offset of every char index is a char boundary of the encoded text.
pub proof fn lemma_byte_offset_is_boundary(s: Seq<char>, i: int)
    requires
        0 <= i <= s.len(),
    ensures
        is_char_boundary(encode_utf8(s), byte_offset(s, i) as int),
    decreases i,
{
    let bytes = encode_utf8(s);
    encode_utf8_valid_utf8(s);
    if i == 0 {
        lemma_byte_offset_bounds(s, 0, 0);
    } else {
        let tail = s.drop_first();
        lemma_byte_offset_is_boundary(tail, i - 1);
        encode_utf8_first_scalar(s);
        lemma_encode_single(s[0]);
        lemma_encode_concat(seq![s[0]], tail.take(i - 1));
        assert(seq![s[0]] + tail.take(i - 1) =~= s.take(i));
        lemma_byte_offset_bounds(s, i, i);
        assert(pop_first_scalar(bytes) =~= encode_utf8(tail));
    }
}

/// The number of bytes that encode `c`.
pub fn width(c: char) -> (w: usize)
    ensures
        w == char_width(c),
        1 <= w <= 4,
{
    let code: u32 = c as u32;
    if code < 0x80 {
        1
    } else if code < 0x800 {
        2
    } else if code < 0x1_0000 {
        3
    } else {
        4
    }
}

/// The number of bytes that encode `s`.
pub fn byte_length(s: &str) -> (n: usize)
    ensures
        n == byte_len(s@),
{
    s.as_bytes().len()
}

/// Cuts `s` in two at the byte offset `at`, where the char with index `i` begins.
pub(crate) fn split_at_char<'a>(s: &'a str, at: usize, Ghost(i): Ghost<int>) -> (r: (
    &'a str,
    &'a str,
))
    requires
        0 <= i <= s@.len(),
        at == byte_offset(s@, i),
    ensures
        r.0@ == s@.take(i),
        r.1@ == s@.skip(i),
{
    proof {
        lemma_byte_offset_is_boundary(s@, i);
    }
    let r = s.split_at(at);
    proof {
        lemma_encode_concat(s@.take(i), s@.skip(i));
        assert(s@.take(i) + s@.skip(i) =~= s@);
        let bytes = encode_utf8(s@);
        assert(bytes.subrange(0, at as int) =~= encode_utf8(s@.take(i)));
        assert(bytes.subrange(at as int, bytes.len() as int) =~= encode_utf8(s@.skip(i)));
        lemma_encode_injective(r.0@, s@.take(i));
        lemma_encode_injective(r.1@, s@.skip(i));
    }
    r
}

/// The stretch of `s` from the byte offset `from` up to the byte offset `to`, where the
/// chars with the indices `i` and `j` begin.
pub(crate) fn slice_chars<'a>(
    s: &'a str,
    from: usize,
    to: usize,
    Ghost(i): Ghost<int>,
    Ghost(j): Ghost<int>,
) -> (r: &'a str)
    requires
        0 <= i <= j <= s@.len(),
        from == byte_offset(s@, i),
        to == byte_offset(s@, j),
    ensures
        r@ == s@.subrange(i, j),
{
    let (head, _) = split_at_char(s, to, Ghost(j));
    proof {
        assert(s@.take(j).take(i) =~= s@.take(i));
    }
    let (_, r) = split_at_char(head, from, Ghost(i));
    proof {
        assert(s@.take(j).skip(i) =~= s@.subrange(i, j));
    }
    r
}

} // verus!
