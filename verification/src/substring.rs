//! Substring search over the bytes of two strings, stated over their characters.

use vstd::prelude::*;
use vstd::utf8::*;
use vstd::string::StringSliceAdditionalSpecFns;
use crate::encoding::{
    lemma_encode_concat,
    lemma_encode_empty,
    lemma_encode_injective,
    lemma_prefix_ends_at_boundary,
};

verus! {

/// `pattern` stands in `text`, element for element, from index `at` on.
pub open spec fn occurs_at<T>(text: Seq<T>, pattern: Seq<T>, at: int) -> bool {
    &&& 0 <= at
    &&& at + pattern.len() <= text.len()
    &&& text.subrange(at, at + pattern.len()) == pattern
}

/// `pattern` stands somewhere in `text` as one unbroken run.
pub open spec fn has_substring<T>(text: Seq<T>, pattern: Seq<T>) -> bool {
    exists|at: int| occurs_at(text, pattern, at)
}

/// The empty pattern stands in every text.
pub proof fn lemma_empty_pattern_occurs<T>(text: Seq<T>, pattern: Seq<T>)
    requires
        pattern.len() == 0,
    ensures
        has_substring(text, pattern),
{
    assert(text.subrange(0, 0) =~= pattern);
    assert(occurs_at(text, pattern, 0));
}

/// An occurrence among the characters is an occurrence among the bytes.
proof fn lemma_occurrence_in_bytes(text: Seq<char>, pattern: Seq<char>, at: int)
    requires
        occurs_at(text, pattern, at),
    ensures
        has_substring(encode_utf8(text), encode_utf8(pattern)),
{
    let before = text.take(at);
    let after = text.skip(at + pattern.len());
    assert(text =~= before + (pattern + after));
    lemma_encode_concat(pattern, after);
    lemma_encode_concat(before, pattern + after);
    let start = encode_utf8(before).len() as int;
    assert(encode_utf8(text).subrange(start, start + encode_utf8(pattern).len()) =~= encode_utf8(
        pattern,
    ));
    assert(occurs_at(encode_utf8(text), encode_utf8(pattern), start));
}

/// An occurrence among the bytes is an occurrence among the characters: an
/// encoded pattern can only begin where a character begins, and it ends where
/// one ends.
proof fn lemma_occurrence_in_chars(text: Seq<char>, pattern: Seq<char>, at: int)
    requires
        occurs_at(encode_utf8(text), encode_utf8(pattern), at),
    ensures
        has_substring(text, pattern),
{
    let bytes = encode_utf8(text);
    let wanted = encode_utf8(pattern);
    let width = wanted.len() as int;
    lemma_encode_empty(pattern);
    if pattern.len() == 0 {
        lemma_empty_pattern_occurs(text, pattern);
    } else {
        encode_utf8_valid_utf8(text);
        encode_utf8_valid_utf8(pattern);
        encode_utf8_decode_utf8(text);
        encode_utf8_decode_utf8(pattern);
        assert(bytes[at] == bytes.subrange(at, at + width)[0]);
        assert(!is_continuation_byte(wanted[0]));
        is_char_boundary_iff_not_is_continuation_byte(bytes, at);
        valid_utf8_split(bytes, at);
        decode_utf8_split(bytes, at);
        let tail = bytes.subrange(at, bytes.len() as int);
        assert(tail.subrange(0, width) =~= wanted);
        lemma_prefix_ends_at_boundary(tail, wanted);
        valid_utf8_split(tail, width);
        decode_utf8_split(tail, width);
        let before = decode_utf8(bytes.subrange(0, at));
        let after = decode_utf8(tail.subrange(width, tail.len() as int));
        assert(text =~= before + (pattern + after));
        let start = before.len() as int;
        assert(text.subrange(start, start + pattern.len()) =~= pattern);
        assert(occurs_at(text, pattern, start));
    }
}

/// A pattern stands in a text exactly if its encoding stands in the text's
/// encoding.
pub proof fn lemma_substring_of_encoding(text: Seq<char>, pattern: Seq<char>)
    ensures
        has_substring(encode_utf8(text), encode_utf8(pattern)) == has_substring(text, pattern),
{
    if has_substring(text, pattern) {
        let at = choose|at: int| occurs_at(text, pattern, at);
        lemma_occurrence_in_bytes(text, pattern, at);
    }
    if has_substring(encode_utf8(text), encode_utf8(pattern)) {
        let at = choose|at: int| occurs_at(encode_utf8(text), encode_utf8(pattern), at);
        lemma_occurrence_in_chars(text, pattern, at);
    }
}

/// Compares `pattern` with the bytes of `text` that start at `at`.
fn starts_at(text: &[u8], pattern: &[u8], at: usize) -> (found: bool)
    requires
        at + pattern@.len() <= text@.len(),
    ensures
        found == occurs_at(text@, pattern@, at as int),
{
    let width: usize = pattern.len();
    let end: usize = text.len();
    let mut i: usize = 0;
    while i < width
        invariant
            i <= width,
            width == pattern@.len(),
            end == text@.len(),
            at + width <= end,
            forall|j: int| 0 <= j < i ==> text@[at + j] == pattern@[j],
        decreases width - i,
    {
        if text[at + i] != pattern[i] {
            assert(text@.subrange(at as int, at + pattern@.len())[i as int] != pattern@[i as int]);
            return false;
        }
        i += 1;
    }
    assert(text@.subrange(at as int, at + pattern@.len()) =~= pattern@);
    true
}

/// Whether `pattern` stands in `text` as a substring.
pub fn contains(text: &str, pattern: &str) -> (found: bool)
    ensures
        found == has_substring(text@, pattern@),
{
    let bytes = text.as_bytes();
    let wanted = pattern.as_bytes();
    proof {
        lemma_substring_of_encoding(text@, pattern@);
    }
    if wanted.len() > bytes.len() {
        return false;
    }
    let last: usize = bytes.len() - wanted.len();
    let mut at: usize = 0;
    while at < last
        invariant
            at <= last,
            last == bytes@.len() - wanted@.len(),
            has_substring(bytes@, wanted@) == has_substring(text@, pattern@),
            forall|k: int| 0 <= k < at ==> !occurs_at(bytes@, wanted@, k),
        decreases last - at,
    {
        if starts_at(bytes, wanted, at) {
            assert(occurs_at(bytes@, wanted@, at as int));
            return true;
        }
        at += 1;
    }
    let found = starts_at(bytes, wanted, last);
    proof {
        if found {
            assert(occurs_at(bytes@, wanted@, last as int));
        }
    }
    found
}

/// Whether two strings hold the same characters.
pub fn same_text(left: &str, right: &str) -> (same: bool)
    ensures
        same == (left@ == right@),
{
    let a = left.as_bytes();
    let b = right.as_bytes();
    if a.len() != b.len() {
        return false;
    }
    let same = starts_at(a, b, 0);
    proof {
        assert(a@.subrange(0, a@.len() as int) =~= a@);
        if same {
            lemma_encode_injective(left@, right@);
        }
    }
    same
}

} // verus!
