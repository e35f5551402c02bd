//! How positions in a text relate to positions in its UTF-8 encoding.
//!
//! The executable code scans bytes, because that is what a `&str` can be
//! indexed and split by; the contracts speak of characters. The lemmas here
//! carry a fact found among the bytes over to the characters and back.

use crate::text::{after_first_line, contains, lemma_line_end_is, line_end, occurs_at};
use vstd::prelude::*;
use vstd::utf8::*;

verus! {

/// The byte of the line feed character.
pub const LINE_FEED: u8 = 0x0a;

/// The byte of the carriage return character.
pub const CARRIAGE_RETURN: u8 = 0x0d;

/// Encoding goes through concatenation.
pub proof fn lemma_encode_concat(a: Seq<char>, b: Seq<char>)
    ensures
        encode_utf8(a + b) == encode_utf8(a) + encode_utf8(b),
    decreases a.len(),
{
    if a.len() == 0 {
        assert(a + b =~= b);
        assert(encode_utf8(a) + encode_utf8(b) =~= encode_utf8(b));
    } else {
        assert((a + b).drop_first() =~= a.drop_first() + b);
        lemma_encode_concat(a.drop_first(), b);
        assert(encode_utf8(a + b) =~= encode_utf8(a) + encode_utf8(b));
    }
}

/// A text is what its encoding decodes to, so two texts with one encoding are
/// one text.
pub proof fn lemma_encode_injective(a: Seq<char>, b: Seq<char>)
    requires
        encode_utf8(a) == encode_utf8(b),
    ensures
        a == b,
{
    encode_utf8_decode_utf8(a);
    encode_utf8_decode_utf8(b);
}

/// Where a valid encoding starts with another valid encoding, the second
/// ends on a character boundary of the first.
pub proof fn lemma_prefix_ends_on_boundary(whole: Seq<u8>, part: Seq<u8>)
    requires
        valid_utf8(whole),
        valid_utf8(part),
        part.is_prefix_of(whole),
    ensures
        is_char_boundary(whole, part.len() as int),
    decreases part.len(),
{
    if part.len() != 0 {
        assert(part[0] == whole.subrange(0, part.len() as int)[0]);
        let step = length_of_first_scalar(part);
        assert(step == length_of_first_scalar(whole));
        assert(1 <= step <= part.len());
        let part_rest = pop_first_scalar(part);
        let whole_rest = pop_first_scalar(whole);
        assert(part_rest =~= whole_rest.subrange(0, part_rest.len() as int)) by {
            assert forall|k: int| 0 <= k < part_rest.len() implies part_rest[k] == whole_rest[k] by {
                assert(part[k + step] == whole.subrange(0, part.len() as int)[k + step]);
            }
        }
        lemma_prefix_ends_on_boundary(whole_rest, part_rest);
    }
}

/// The character that a byte below 0x80 stands for.
pub open spec fn ascii_char(byte: u8) -> char {
    byte as char
}

/// A byte below 0x80 in the encoding of `chars` is one whole character of
/// `chars`: the encoding splits before and behind it, and the two parts are
/// the encodings of what stands before and behind that character.
pub proof fn lemma_ascii_byte_is_char(chars: Seq<char>, i: int)
    requires
        0 <= i < encode_utf8(chars).len(),
        encode_utf8(chars)[i] < 0x80,
    ensures
        ({
            let bytes = encode_utf8(chars);
            let before = decode_utf8(bytes.subrange(0, i));
            let behind = decode_utf8(bytes.subrange(i + 1, bytes.len() as int));
            &&& is_char_boundary(bytes, i)
            &&& is_char_boundary(bytes.subrange(i, bytes.len() as int), 1)
            &&& chars == before.push(ascii_char(bytes[i])) + behind
            &&& encode_utf8(before) == bytes.subrange(0, i)
            &&& encode_utf8(behind) == bytes.subrange(i + 1, bytes.len() as int)
        }),
{
    let bytes = encode_utf8(chars);
    let len = bytes.len() as int;
    encode_utf8_valid_utf8(chars);
    encode_utf8_decode_utf8(chars);
    is_char_boundary_iff_not_is_continuation_byte(bytes, i);
    valid_utf8_split(bytes, i);
    decode_utf8_split(bytes, i);
    let head = bytes.subrange(0, i);
    let rest = bytes.subrange(i, len);
    let tail = bytes.subrange(i + 1, len);
    assert(rest[0] == bytes[i]);
    assert(is_leading_byte_width_1(rest[0]));
    assert(pop_first_scalar(rest) =~= tail);
    assert(valid_utf8(tail));
    let b = bytes[i];
    assert((b & 0x7f) as u32 == b as u32) by (bit_vector)
        requires
            b < 0x80,
    ;
    assert(decode_first_scalar(rest) == b as u32);
    assert(decode_utf8(rest) =~= seq![ascii_char(b)] + decode_utf8(tail));
    assert(is_char_boundary(rest, 1)) by {
        reveal_with_fuel(is_char_boundary, 2);
    }
    decode_utf8_encode_utf8(head);
    decode_utf8_encode_utf8(tail);
    assert(chars =~= decode_utf8(head).push(ascii_char(b)) + decode_utf8(tail));
}

/// The encoding of a character below U+0080 is the one byte of the same
/// number, and it stands where the encoding of the characters before it ends.
pub proof fn lemma_ascii_char_is_byte(chars: Seq<char>, at: int)
    requires
        0 <= at < chars.len(),
        (chars[at] as u32) < 0x80,
    ensures
        ({
            let bytes = encode_utf8(chars);
            let i = encode_utf8(chars.subrange(0, at)).len() as int;
            &&& i < bytes.len()
            &&& bytes[i] as u32 == chars[at] as u32
            &&& bytes.subrange(0, i) == encode_utf8(chars.subrange(0, at))
            &&& bytes.subrange(i + 1, bytes.len() as int) == encode_utf8(
                chars.subrange(at + 1, chars.len() as int),
            )
        }),
{
    let before = chars.subrange(0, at);
    let from = chars.subrange(at, chars.len() as int);
    let behind = chars.subrange(at + 1, chars.len() as int);
    assert(chars =~= before + from);
    lemma_encode_concat(before, from);
    assert(from.drop_first() =~= behind);
    let c = chars[at] as u32;
    assert(from[0] == chars[at]);
    assert((c & 0x7f) as u8 as u32 == c) by (bit_vector)
        requires
            c < 0x80,
    ;
    assert(encode_scalar(c) =~= seq![leading_byte_width_1(c)]);
    let bytes = encode_utf8(chars);
    let i = encode_utf8(before).len() as int;
    assert(encode_utf8(from) =~= seq![leading_byte_width_1(c)] + encode_utf8(behind));
    assert(bytes.subrange(0, i) =~= encode_utf8(before));
    assert(bytes.subrange(i + 1, bytes.len() as int) =~= encode_utf8(behind));
}

/// An occurrence among characters is an occurrence among the bytes of the
/// encodings, at the byte where the characters in front of it end.
pub proof fn lemma_occurrence_encodes(text: Seq<char>, needle: Seq<char>, at: int)
    requires
        occurs_at(text, needle, at),
    ensures
        occurs_at(
            encode_utf8(text),
            encode_utf8(needle),
            encode_utf8(text.subrange(0, at)).len() as int,
        ),
{
    let before = text.subrange(0, at);
    let behind = text.subrange(at + needle.len(), text.len() as int);
    assert(text =~= before + (needle + behind));
    lemma_encode_concat(needle, behind);
    lemma_encode_concat(before, needle + behind);
    let i = encode_utf8(before).len() as int;
    assert(encode_utf8(text).subrange(i, i + encode_utf8(needle).len()) =~= encode_utf8(needle));
}

/// An occurrence of one encoding inside another is an occurrence among the
/// characters: UTF-8 never lets the bytes of one text match across the
/// character boundaries of another.
pub proof fn lemma_occurrence_decodes(text: Seq<char>, needle: Seq<char>, i: int)
    requires
        occurs_at(encode_utf8(text), encode_utf8(needle), i),
    ensures
        contains(text, needle),
{
    if needle.len() == 0 {
        assert(text.subrange(0, 0) =~= needle);
        assert(occurs_at(text, needle, 0));
    } else {
        let bytes = encode_utf8(text);
        let part = encode_utf8(needle);
        let len = bytes.len() as int;
        encode_utf8_valid_utf8(text);
        encode_utf8_valid_utf8(needle);
        encode_utf8_decode_utf8(text);
        encode_utf8_decode_utf8(needle);
        encode_utf8_first_scalar(needle);
        assert(part.len() > 0);
        assert(bytes[i] == bytes.subrange(i, i + part.len())[0]);
        assert(!is_continuation_byte(part[0]));
        is_char_boundary_iff_not_is_continuation_byte(bytes, i);
        valid_utf8_split(bytes, i);
        decode_utf8_split(bytes, i);
        let rest = bytes.subrange(i, len);
        assert(rest.subrange(0, part.len() as int) =~= part);
        lemma_prefix_ends_on_boundary(rest, part);
        decode_utf8_split(rest, part.len() as int);
        let before = decode_utf8(bytes.subrange(0, i));
        let behind = decode_utf8(rest.subrange(part.len() as int, rest.len() as int));
        assert(text =~= before + (needle + behind));
        assert(text.subrange(before.len() as int, (before.len() + needle.len()) as int) =~= needle);
        assert(occurs_at(text, needle, before.len() as int));
    }
}

/// One text holds another exactly where its encoding holds the other's
/// encoding.
pub proof fn lemma_contains_encoded(text: Seq<char>, needle: Seq<char>)
    ensures
        contains(text, needle) == contains(encode_utf8(text), encode_utf8(needle)),
{
    if contains(text, needle) {
        let at = choose|at: int| occurs_at(text, needle, at);
        lemma_occurrence_encodes(text, needle, at);
    }
    if contains(encode_utf8(text), encode_utf8(needle)) {
        let i = choose|i: int| occurs_at(encode_utf8(text), encode_utf8(needle), i);
        lemma_occurrence_decodes(text, needle, i);
    }
}

/// A text without a line feed byte in its encoding has no line feed.
proof fn lemma_no_line_feed(chars: Seq<char>)
    requires
        forall|k: int| 0 <= k < encode_utf8(chars).len() ==> encode_utf8(chars)[k] != LINE_FEED,
    ensures
        forall|k: int| 0 <= k < chars.len() ==> chars[k] != '\n',
{
    assert forall|k: int| 0 <= k < chars.len() implies chars[k] != '\n' by {
        if chars[k] == '\n' {
            lemma_ascii_char_is_byte(chars, k);
        }
    }
}

/// What the first line feed byte of an encoding says of the text: with `i`
/// the position of that byte, or the length of the encoding where it holds
/// none, the bytes in front of `i` encode the text up to the end of its first
/// line, and those behind `i` encode what follows that line.
pub proof fn lemma_first_line_feed(chars: Seq<char>, i: int)
    requires
        0 <= i <= encode_utf8(chars).len(),
        forall|k: int| 0 <= k < i ==> encode_utf8(chars)[k] != LINE_FEED,
        i < encode_utf8(chars).len() ==> encode_utf8(chars)[i] == LINE_FEED,
    ensures
        ({
            let bytes = encode_utf8(chars);
            let head = chars.subrange(0, line_end(chars) as int);
            &&& line_end(chars) <= chars.len()
            &&& is_char_boundary(bytes, i)
            &&& encode_utf8(head) == bytes.subrange(0, i)
            &&& i == bytes.len() ==> head == chars
            &&& i < bytes.len() ==> {
                &&& line_end(chars) < chars.len()
                &&& is_char_boundary(bytes.subrange(i, bytes.len() as int), 1)
                &&& encode_utf8(after_first_line(chars)) == bytes.subrange(
                    i + 1,
                    bytes.len() as int,
                )
            }
        }),
{
    let bytes = encode_utf8(chars);
    encode_utf8_valid_utf8(chars);
    if i == bytes.len() {
        lemma_no_line_feed(chars);
        lemma_line_end_is(chars, chars.len() as int);
        assert(chars.subrange(0, chars.len() as int) =~= chars);
        assert(bytes.subrange(0, i) =~= bytes);
        is_char_boundary_start_end_of_seq(bytes);
    } else {
        lemma_ascii_byte_is_char(chars, i);
        let before = decode_utf8(bytes.subrange(0, i));
        let behind = decode_utf8(bytes.subrange(i + 1, bytes.len() as int));
        assert(ascii_char(bytes[i]) == '\n');
        assert(chars[before.len() as int] == '\n');
        assert(chars.subrange(0, before.len() as int) =~= before);
        assert(chars.subrange((before.len() + 1) as int, chars.len() as int) =~= behind);
        assert forall|k: int| 0 <= k < before.len() implies chars[k] != '\n' by {
            assert(chars[k] == before[k]);
            lemma_no_line_feed(before);
        }
        lemma_line_end_is(chars, before.len() as int);
    }
}

/// A non-empty text ends in a carriage return exactly where its encoding
/// ends in the carriage return byte, and the encoding then splits in front
/// of that byte.
pub proof fn lemma_last_carriage_return(chars: Seq<char>)
    requires
        chars.len() > 0,
    ensures
        ({
            let bytes = encode_utf8(chars);
            &&& bytes.len() > 0
            &&& (bytes.last() == CARRIAGE_RETURN) == (chars.last() == '\r')
            &&& chars.last() == '\r' ==> {
                &&& is_char_boundary(bytes, bytes.len() - 1)
                &&& encode_utf8(chars.drop_last()) == bytes.subrange(0, bytes.len() - 1)
            }
        }),
{
    let bytes = encode_utf8(chars);
    encode_utf8_valid_utf8(chars);
    encode_utf8_first_scalar(chars);
    assert(bytes.len() > 0);
    if chars.last() == '\r' {
        let at = chars.len() - 1;
        lemma_ascii_char_is_byte(chars, at);
        let i = encode_utf8(chars.subrange(0, at)).len() as int;
        assert(chars.subrange(at + 1, chars.len() as int) =~= Seq::<char>::empty());
        assert(encode_utf8(Seq::<char>::empty()).len() == 0);
        assert(i == bytes.len() - 1);
        is_char_boundary_iff_not_is_continuation_byte(bytes, i);
    }
    if bytes.last() == CARRIAGE_RETURN {
        let i = bytes.len() - 1;
        lemma_ascii_byte_is_char(chars, i);
        let behind = decode_utf8(bytes.subrange(i + 1, bytes.len() as int));
        assert(encode_utf8(behind).len() == 0);
        lemma_encode_injective(behind, Seq::<char>::empty());
        assert(ascii_char(bytes[i]) == '\r');
    }
}

} // verus!
