//! Splitting a text into its lines.
//!
//! A line ends at a line feed, or at a carriage return directly followed by a
//! line feed. The terminator is not part of the line. The last line needs no
//! terminator, and a text that ends with one has no empty line after it. A
//! carriage return that no line feed follows is an ordinary character.

use vstd::prelude::*;
use vstd::utf8::*;
use vstd::string::StringSliceAdditionalSpecFns;
use crate::encoding::{lemma_ascii_byte_is_char, lemma_ascii_char_is_byte, lemma_encode_empty};

verus! {

/// The number of characters of `text` before its first line feed; the length
/// of `text` where it has none.
pub open spec fn line_end(text: Seq<char>) -> nat
    decreases text.len(),
{
    if text.len() == 0 || text[0] == '\n' {
        0
    } else {
        1 + line_end(text.drop_first())
    }
}

/// `line` without the carriage return at its end, if it has one there.
pub open spec fn without_carriage_return(line: Seq<char>) -> Seq<char> {
    if line.len() > 0 && line.last() == '\r' {
        line.drop_last()
    } else {
        line
    }
}

/// The first line of a text that is not empty.
pub open spec fn first_line(text: Seq<char>) -> Seq<char> {
    let end = line_end(text) as int;
    if end < text.len() {
        without_carriage_return(text.take(end))
    } else {
        text
    }
}

/// What follows the first line and its terminator.
pub open spec fn after_first_line(text: Seq<char>) -> Seq<char> {
    let end = line_end(text) as int;
    if end < text.len() {
        text.skip(end + 1)
    } else {
        Seq::empty()
    }
}

/// The lines of `text`, in order.
pub open spec fn split_lines(text: Seq<char>) -> Seq<Seq<char>>
    decreases text.len(),
{
    if text.len() == 0 {
        Seq::empty()
    } else {
        seq![first_line(text)] + split_lines(after_first_line(text))
    }
}

/// `line_end` is the one index that no line feed precedes and that is either
/// the text's length or the place of a line feed.
pub proof fn lemma_line_end(text: Seq<char>, end: int)
    requires
        0 <= end <= text.len(),
        forall|j: int| 0 <= j < end ==> text[j] != '\n',
        end < text.len() ==> text[end] == '\n',
    ensures
        line_end(text) == end,
    decreases text.len(),
{
    if end > 0 {
        assert(text[0] != '\n');
        let rest = text.drop_first();
        assert forall|j: int| 0 <= j < end - 1 implies rest[j] != '\n' by {
            assert(rest[j] == text[j + 1]);
        }
        lemma_line_end(rest, end - 1);
    }
}

/// `line_end` lies within the text, no line feed stands before it, and one
/// stands at it unless it is the text's length.
pub proof fn lemma_line_end_in_range(text: Seq<char>)
    ensures
        line_end(text) <= text.len(),
        forall|j: int| 0 <= j < line_end(text) ==> text[j] != '\n',
        line_end(text) < text.len() ==> text[line_end(text) as int] == '\n',
    decreases text.len(),
{
    if !(text.len() == 0 || text[0] == '\n') {
        let rest = text.drop_first();
        lemma_line_end_in_range(rest);
        assert forall|j: int| 0 <= j < line_end(text) implies text[j] != '\n' by {
            if j > 0 {
                assert(text[j] == rest[j - 1]);
            }
        }
    }
}

/// What follows the first line of a text that is not empty is shorter than the
/// text.
pub proof fn lemma_rest_is_shorter(text: Seq<char>)
    requires
        text.len() > 0,
    ensures
        after_first_line(text).len() < text.len(),
{
    lemma_line_end_in_range(text);
}

/// No line holds a line feed.
pub proof fn lemma_lines_hold_no_line_feed(text: Seq<char>)
    ensures
        forall|i: int, j: int|
            0 <= i < split_lines(text).len() && 0 <= j < split_lines(text)[i].len()
                ==> split_lines(text)[i][j] != '\n',
    decreases text.len(),
{
    if text.len() > 0 {
        lemma_line_end_in_range(text);
        lemma_rest_is_shorter(text);
        lemma_lines_hold_no_line_feed(after_first_line(text));
        let first = first_line(text);
        let others = split_lines(after_first_line(text));
        assert forall|j: int| 0 <= j < first.len() implies first[j] != '\n' by {
            assert(first[j] == text[j]);
        }
        assert forall|i: int, j: int|
            0 <= i < split_lines(text).len() && 0 <= j < split_lines(text)[i].len() implies split_lines(
            text,
        )[i][j] != '\n' by {
            if i > 0 {
                assert(split_lines(text)[i] == others[i - 1]);
            }
        }
    }
}

/// The last line ending is optional: a text that ends in neither a line feed
/// nor a carriage return has the same lines with a line feed after it.
pub proof fn lemma_final_line_feed_is_optional(text: Seq<char>)
    requires
        text.len() > 0,
        text.last() != '\n',
        text.last() != '\r',
    ensures
        split_lines(text.push('\n')) == split_lines(text),
    decreases text.len(),
{
    let longer = text.push('\n');
    let end = line_end(text) as int;
    lemma_line_end_in_range(text);
    assert forall|j: int| 0 <= j < end implies longer[j] != '\n' by {
        assert(longer[j] == text[j]);
    }
    lemma_line_end(longer, end);
    assert(longer.take(end) =~= text.take(end));
    if end == text.len() {
        assert(text.take(end) =~= text);
        assert(after_first_line(longer) =~= Seq::<char>::empty());
        assert(split_lines(longer) =~= split_lines(text));
    } else {
        let rest = after_first_line(text);
        assert(rest.len() > 0);
        assert(rest.last() == text.last());
        assert(after_first_line(longer) =~= rest.push('\n'));
        lemma_final_line_feed_is_optional(rest);
    }
}

/// Cuts `text` at the byte with index `at`, which holds a character by itself:
/// returns the text before that character and the text after it.
fn cut_at_ascii<'a>(text: &'a str, at: usize) -> (parts: (&'a str, &'a str))
    requires
        at < text.spec_bytes().len(),
        text.spec_bytes()[at as int] < 0x80,
    ensures
        text@ == parts.0@.push(text.spec_bytes()[at as int] as char) + parts.1@,
        parts.0.spec_bytes() == text.spec_bytes().subrange(0, at as int),
        parts.1.spec_bytes() == text.spec_bytes().subrange(
            at + 1,
            text.spec_bytes().len() as int,
        ),
{
    proof {
        encode_utf8_valid_utf8(text@);
        encode_utf8_decode_utf8(text@);
        lemma_ascii_byte_is_char(text.spec_bytes(), at as int);
    }
    let (before, tail) = text.split_at(at);
    let (_, after) = tail.split_at(1);
    proof {
        let bytes = text.spec_bytes();
        assert(after.spec_bytes() =~= bytes.subrange(at + 1, bytes.len() as int));
        encode_utf8_decode_utf8(before@);
        encode_utf8_decode_utf8(after@);
    }
    (before, after)
}

/// Splits the first line off `text`: the line without its terminator, and what
/// follows the terminator. `None` where `text` is empty and so has no line.
pub fn next_line<'a>(text: &'a str) -> (next: Option<(&'a str, &'a str)>)
    ensures
        text@.len() == 0 <==> next is None,
        next matches Some(parts) ==> parts.0@ == first_line(text@) && parts.1@ == after_first_line(
            text@,
        ),
{
    let bytes = text.as_bytes();
    let len: usize = bytes.len();
    proof {
        lemma_encode_empty(text@);
    }
    if len == 0 {
        return None;
    }
    let mut end: usize = 0;
    while end < len && bytes[end] != 0x0A
        invariant
            end <= len,
            len == bytes@.len(),
            forall|k: int| 0 <= k < end ==> bytes@[k] != 0x0A,
        decreases len - end,
    {
        end += 1;
    }
    if end == len {
        let nothing: &'a str = "";
        proof {
            reveal_strlit("");
            lemma_no_line_feed(text@);
            lemma_line_end(text@, text@.len() as int);
            assert(nothing@ =~= Seq::<char>::empty());
        }
        return Some((text, nothing));
    }
    let (raw, rest) = cut_at_ascii(text, end);
    proof {
        lemma_no_line_feed(raw@);
        let cut = raw@.len() as int;
        assert(text@[cut] == '\n');
        assert forall|j: int| 0 <= j < cut implies text@[j] != '\n' by {
            assert(text@[j] == raw@[j]);
        }
        lemma_line_end(text@, cut);
        assert(text@.take(cut) =~= raw@);
        assert(text@.skip(cut + 1) =~= rest@);
    }
    let raw_bytes = raw.as_bytes();
    let raw_len: usize = raw_bytes.len();
    proof {
        lemma_encode_empty(raw@);
        if raw@.len() > 0 {
            lemma_last_is_carriage_return(raw@);
        }
    }
    if raw_len > 0 && raw_bytes[raw_len - 1] == 0x0D {
        let (line, tail) = cut_at_ascii(raw, raw_len - 1);
        proof {
            lemma_encode_empty(tail@);
            assert(raw@.drop_last() =~= line@);
        }
        Some((line, rest))
    } else {
        Some((raw, rest))
    }
}

/// A text whose bytes hold no line feed holds no line feed character.
proof fn lemma_no_line_feed(text: Seq<char>)
    requires
        forall|k: int| 0 <= k < encode_utf8(text).len() ==> encode_utf8(text)[k] != 0x0A,
    ensures
        forall|j: int| 0 <= j < text.len() ==> text[j] != '\n',
{
    assert forall|j: int| 0 <= j < text.len() implies text[j] != '\n' by {
        if text[j] == '\n' {
            lemma_ascii_char_is_byte(text, j);
            let at = encode_utf8(text.take(j)).len() as int;
            assert(encode_utf8(text)[at] == 0x0A);
        }
    }
}

/// A text that is not empty ends with a carriage return exactly if its last
/// byte is 0x0D.
proof fn lemma_last_is_carriage_return(text: Seq<char>)
    requires
        text.len() > 0,
    ensures
        text.last() == '\r' <==> encode_utf8(text).last() == 0x0D,
{
    lemma_encode_empty(text);
    {
        let bytes = encode_utf8(text);
        let last = text.len() - 1;
        if text.last() == '\r' {
            lemma_ascii_char_is_byte(text, last);
            assert(text.skip(last + 1) =~= Seq::<char>::empty());
            assert(encode_utf8(text.skip(last + 1)) =~= Seq::<u8>::empty());
            assert(bytes =~= encode_utf8(text.take(last)).push(0x0D));
        }
        if bytes.last() == 0x0D {
            encode_utf8_valid_utf8(text);
            encode_utf8_decode_utf8(text);
            let at = bytes.len() - 1;
            lemma_ascii_byte_is_char(bytes, at);
            assert(bytes.subrange(at + 1, bytes.len() as int) =~= Seq::<u8>::empty());
            assert(decode_utf8(Seq::<u8>::empty()) =~= Seq::<char>::empty());
            assert(text =~= decode_utf8(bytes.subrange(0, at)).push('\r'));
        }
    }
}

} // verus!
