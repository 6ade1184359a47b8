//! Cutting string slices at character positions.
//!
//! Positions in the contracts of this crate count characters, while a `str`
//! can only be cut at a byte offset. This module relates the two through the
//! UTF-8 encoding and offers the cuts that the rest of the crate needs.

use vstd::prelude::*;
use vstd::std_specs::iter::IteratorSpec;
use vstd::utf8::*;

verus! {

/// Number of bytes that `c` takes in UTF-8.
pub open spec fn utf8_width(c: char) -> int {
    encode_scalar(c as u32).len() as int
}

/// Number of bytes that `s` takes in UTF-8: its length in code units.
pub open spec fn utf8_len(s: Seq<char>) -> int {
    encode_utf8(s).len() as int
}

/// Byte offset at which the character with index `i` starts in the encoding
/// of `s` (for `i == s.len()`, the offset of the end).
pub open spec fn byte_offset(s: Seq<char>, i: int) -> int {
    utf8_len(s.take(i))
}

/// The encoding of a concatenation is the concatenation of the encodings.
pub proof fn lemma_encode_concat(a: Seq<char>, b: Seq<char>)
    ensures
        encode_utf8(a + b) == encode_utf8(a) + encode_utf8(b),
    decreases a.len(),
{
    if a.len() > 0 {
        lemma_encode_concat(a.drop_first(), b);
        assert((a + b).drop_first() =~= a.drop_first() + b);
    }
}

/// Code units add up over a concatenation.
pub proof fn lemma_utf8_len_concat(a: Seq<char>, b: Seq<char>)
    ensures
        utf8_len(a + b) == utf8_len(a) + utf8_len(b),
{
    lemma_encode_concat(a, b);
}

/// Adding a character to a string adds its width to the length.
pub proof fn lemma_utf8_len_push(s: Seq<char>, c: char)
    ensures
        utf8_len(s.push(c)) == utf8_len(s) + utf8_width(c),
{
    lemma_encode_concat(s, seq![c]);
    assert(s.push(c) =~= s + seq![c]);
    assert(encode_utf8(seq![c]) =~= encode_scalar(c as u32)) by {
        reveal_with_fuel(encode_utf8, 2);
    }
}

/// Byte offsets grow with the character index, by the length of what lies
/// between.
pub proof fn lemma_byte_offset_step(s: Seq<char>, i: int, j: int)
    requires
        0 <= i <= j <= s.len(),
    ensures
        byte_offset(s, j) == byte_offset(s, i) + utf8_len(s.subrange(i, j)),
        byte_offset(s, i) <= byte_offset(s, j),
{
    assert(s.take(j) =~= s.take(i) + s.subrange(i, j));
    lemma_utf8_len_concat(s.take(i), s.subrange(i, j));
}

/// The offset of the end is the length of the whole encoding.
pub proof fn lemma_byte_offset_end(s: Seq<char>)
    ensures
        byte_offset(s, s.len() as int) == utf8_len(s),
        byte_offset(s, 0) == 0,
{
    assert(s.take(s.len() as int) =~= s);
}

/// Every character starts on a character boundary of the encoding.
pub proof fn lemma_byte_offset_is_boundary(s: Seq<char>, i: int)
    requires
        0 <= i <= s.len(),
    ensures
        is_char_boundary(encode_utf8(s), byte_offset(s, i)),
    decreases s.len(),
{
    let bytes = encode_utf8(s);
    encode_utf8_valid_utf8(s);
    if i > 0 {
        // After the first character, the offset is that of character `i - 1`
        // in the rest of the string.
        let rest = s.drop_first();
        encode_utf8_first_scalar(s);
        assert(pop_first_scalar(bytes) =~= encode_utf8(rest));
        assert(s.take(i) =~= seq![s[0]] + rest.take(i - 1));
        lemma_encode_concat(seq![s[0]], rest.take(i - 1));
        assert(encode_utf8(seq![s[0]]) =~= encode_scalar(s[0] as u32)) by {
            reveal_with_fuel(encode_utf8, 2);
        }
        lemma_byte_offset_step(s, i, s.len() as int);
        lemma_byte_offset_end(s);
        lemma_byte_offset_is_boundary(rest, i - 1);
    }
}

/// Two strings with the same encoding are the same string.
pub proof fn lemma_encode_injective(a: Seq<char>, b: Seq<char>)
    requires
        encode_utf8(a) == encode_utf8(b),
    ensures
        a == b,
{
    encode_utf8_decode_utf8(a);
    encode_utf8_decode_utf8(b);
}

/// Number of bytes that `c` takes in UTF-8.
pub fn char_width(c: char) -> (w: usize)
    ensures
        w == utf8_width(c),
        1 <= w <= 4,
{
    let u: u32 = c as u32;
    if u < 0x80 {
        1
    } else if u < 0x800 {
        2
    } else if u < 0x10000 {
        3
    } else {
        4
    }
}

/// Length of `s` in bytes, which are its UTF-8 code units.
pub fn byte_len(s: &str) -> (n: usize)
    ensures
        n == utf8_len(s@),
{
    s.as_bytes().len()
}

/// The characters of `s`, one by one.
pub fn chars_of(s: &str) -> (chars: Vec<char>)
    ensures
        chars@ == s@,
{
    let mut chars: Vec<char> = Vec::new();
    for c in it: s.chars()
        invariant
            chars@ == s@.take(it.index()),
            it.seq() == s@,
    {
        chars.push(c);
    }
    chars
}

/// Cuts `s` in two after its first `k` characters.
pub fn split_at_char<'a>(s: &'a str, k: usize) -> (parts: (&'a str, &'a str))
    requires
        k <= s@.len(),
    ensures
        parts.0@ == s@.take(k as int),
        parts.1@ == s@.skip(k as int),
{
    broadcast use vstd::string::group_string_axioms;

    let total = byte_len(s);
    let mut offset: usize = 0;
    let mut i: usize = 0;
    let mut it = s.chars();
    proof {
        lemma_byte_offset_end(s@);
    }
    while i < k
        invariant
            i <= k <= s@.len(),
            it.obeys_prophetic_iter_laws(),
            it.remaining() == s@.skip(i as int),
            offset == byte_offset(s@, i as int),
            total == utf8_len(s@),
        decreases k - i,
    {
        // The iterator still holds the characters from index `i` on.
        let next = it.next();
        if let Some(c) = next {
            proof {
                assert(s@.subrange(i as int, i + 1) =~= Seq::<char>::empty().push(c));
                lemma_byte_offset_step(s@, i as int, i + 1);
                lemma_utf8_len_push(Seq::<char>::empty(), c);
                lemma_byte_offset_step(s@, i + 1, s@.len() as int);
                lemma_byte_offset_end(s@);
            }
            offset = offset + char_width(c);
        }
        i = i + 1;
    }
    proof {
        let left = s@.take(k as int);
        let right = s@.skip(k as int);
        lemma_byte_offset_is_boundary(s@, k as int);
        assert(s@ =~= left + right);
        lemma_encode_concat(left, right);
    }
    let parts = s.split_at(offset);
    proof {
        let left = s@.take(k as int);
        let right = s@.skip(k as int);
        assert(encode_utf8(s@).subrange(0, offset as int) =~= encode_utf8(left));
        assert(encode_utf8(s@).subrange(offset as int, encode_utf8(s@).len() as int)
            =~= encode_utf8(right));
        lemma_encode_injective(parts.0@, left);
        lemma_encode_injective(parts.1@, right);
    }
    parts
}

} // verus!
