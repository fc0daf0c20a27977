//! Facts that connect the characters of a string with the bytes that store it.
//!
//! Strings are held as UTF-8. The search works on the bytes, because they can be
//! indexed in constant time, while its contracts speak of characters. The lemmas
//! of this module carry a statement from one side to the other.

use vstd::prelude::*;
use vstd::utf8::*;

verus! {

/// No character lies below U+0000.
pub proof fn lemma_char_not_negative(c: char)
    ensures
        '\0' <= c,
{
}

/// Encoding distributes over concatenation.
pub proof fn lemma_encode_concat(a: Seq<char>, b: Seq<char>)
    ensures
        encode_utf8(a + b) == encode_utf8(a) + encode_utf8(b),
    decreases a.len(),
{
    if a.len() == 0 {
        assert(a + b =~= b);
        assert(encode_utf8(a) + encode_utf8(b) =~= encode_utf8(b));
    } else {
        lemma_encode_concat(a.drop_first(), b);
        assert((a + b).drop_first() =~= a.drop_first() + b);
        assert(encode_utf8(a + b) =~= encode_utf8(a) + encode_utf8(b));
    }
}

/// Two character sequences with the same encoding are the same sequence.
pub proof fn lemma_encode_injective(a: Seq<char>, b: Seq<char>)
    requires
        encode_utf8(a) == encode_utf8(b),
    ensures
        a == b,
{
    encode_utf8_decode_utf8(a);
    encode_utf8_decode_utf8(b);
}

/// Only the empty sequence has an empty encoding.
pub proof fn lemma_encode_empty(a: Seq<char>)
    ensures
        encode_utf8(a).len() == 0 <==> a.len() == 0,
{
    if a.len() > 0 {
        char_is_scalar(a[0]);
    }
}

/// A byte below 0x80 inside a well-formed encoding stands for one character by
/// itself: the encoding can be cut before and after it, and the characters are
/// those before the cut, the character with the byte's value, and those after.
pub proof fn lemma_ascii_byte_is_char(bytes: Seq<u8>, k: int)
    requires
        valid_utf8(bytes),
        0 <= k < bytes.len(),
        bytes[k] < 0x80,
    ensures
        is_char_boundary(bytes, k),
        is_char_boundary(bytes.subrange(k, bytes.len() as int), 1),
        valid_utf8(bytes.subrange(0, k)),
        valid_utf8(bytes.subrange(k + 1, bytes.len() as int)),
        decode_utf8(bytes) == decode_utf8(bytes.subrange(0, k)).push(bytes[k] as char)
            + decode_utf8(bytes.subrange(k + 1, bytes.len() as int)),
{
    let tail = bytes.subrange(k, bytes.len() as int);
    let after = bytes.subrange(k + 1, bytes.len() as int);
    is_char_boundary_iff_not_is_continuation_byte(bytes, k);
    valid_utf8_split(bytes, k);
    decode_utf8_split(bytes, k);
    assert(is_leading_byte_width_1(tail[0]));
    assert(pop_first_scalar(tail) =~= after);
    let b = bytes[k];
    assert((b & 0x7F) as u32 == b as u32) by (bit_vector)
        requires
            b < 0x80,
    ;
    assert(decode_first_scalar(tail) == b as u32);
    assert(decode_utf8(tail) =~= seq![b as char] + decode_utf8(after));
    assert(decode_utf8(bytes) =~= decode_utf8(bytes.subrange(0, k)).push(b as char) + decode_utf8(
        after,
    ));
    reveal_with_fuel(is_char_boundary, 2);
}

/// A character below U+0080 is stored as the one byte with its value, after the
/// encoding of the characters before it and before that of the characters after.
pub proof fn lemma_ascii_char_is_byte(chars: Seq<char>, j: int)
    requires
        0 <= j < chars.len(),
        chars[j] <= '\u{7f}',
    ensures
        encode_utf8(chars) == encode_utf8(chars.take(j)).push(chars[j] as u8) + encode_utf8(
            chars.skip(j + 1),
        ),
{
    lemma_char_not_negative(chars[j]);
    let c = chars[j] as u32;
    let b = chars[j] as u8;
    let rest = chars.skip(j);
    assert(chars =~= chars.take(j) + rest);
    lemma_encode_concat(chars.take(j), rest);
    assert(rest.drop_first() =~= chars.skip(j + 1));
    assert((c & 0x7F) as u8 == b) by (bit_vector)
        requires
            c < 0x80,
            b == c,
    ;
    assert(encode_scalar(c) =~= seq![b]);
    assert(encode_utf8(chars) =~= encode_utf8(chars.take(j)).push(chars[j] as u8) + encode_utf8(
        chars.skip(j + 1),
    ));
}

/// Where one well-formed encoding begins with another, the longer one can be cut
/// at the end of the shorter.
pub proof fn lemma_prefix_ends_at_boundary(bytes: Seq<u8>, prefix: Seq<u8>)
    requires
        valid_utf8(bytes),
        valid_utf8(prefix),
        prefix.len() <= bytes.len(),
        bytes.subrange(0, prefix.len() as int) == prefix,
    ensures
        is_char_boundary(bytes, prefix.len() as int),
    decreases prefix.len(),
{
    if prefix.len() > 0 {
        let width = length_of_first_scalar(prefix);
        assert(forall|i: int| 0 <= i < prefix.len() ==> bytes[i] == bytes.subrange(
            0,
            prefix.len() as int,
        )[i]);
        assert(width == length_of_first_scalar(bytes));
        assert(pop_first_scalar(bytes).subrange(0, prefix.len() - width) =~= pop_first_scalar(
            prefix,
        ));
        lemma_prefix_ends_at_boundary(pop_first_scalar(bytes), pop_first_scalar(prefix));
    }
}

} // verus!
