//! Conversion of byte offsets into character offsets.

use crate::span::MessageSpan;
use vstd::prelude::*;
use vstd::string::*;
use vstd::utf8::*;

verus! {

/// The number of characters of `text` whose UTF-8 encoding lies within the
/// first `byte` bytes of the encoding of `text`.
pub open spec fn char_offset(text: Seq<char>, byte: int) -> nat {
    decode_utf8(encode_utf8(text).subrange(0, byte)).len()
}

/// Whether `byte` is an offset into the UTF-8 encoding of `text` at which
/// a character starts, or the length of that encoding.
pub open spec fn on_char_boundary(text: Seq<char>, byte: int) -> bool {
    is_char_boundary(encode_utf8(text), byte)
}

proof fn lemma_boundary_in_prefix(bytes: Seq<u8>, a: int, b: int)
    requires
        valid_utf8(bytes),
        is_char_boundary(bytes, a),
        is_char_boundary(bytes, b),
        a <= b,
    ensures
        0 <= a <= b <= bytes.len(),
        valid_utf8(bytes.subrange(0, b)),
        is_char_boundary(bytes.subrange(0, b), a),
{
    lemma_boundary_in_range(bytes, a);
    lemma_boundary_in_range(bytes, b);
    valid_utf8_split(bytes, b);
    let prefix = bytes.subrange(0, b);
    if a < b {
        is_char_boundary_iff_not_is_continuation_byte(bytes, a);
        is_char_boundary_iff_not_is_continuation_byte(prefix, a);
    } else {
        is_char_boundary_start_end_of_seq(prefix);
    }
}

proof fn lemma_boundary_in_range(bytes: Seq<u8>, a: int)
    requires
        valid_utf8(bytes),
        is_char_boundary(bytes, a),
    ensures
        0 <= a <= bytes.len(),
{
    reveal_with_fuel(is_char_boundary, 2);
}

/// Character offsets never run backwards: of two character boundaries the
/// later one has at least as many characters before it.
pub proof fn lemma_char_offset_monotonic(text: Seq<char>, a: int, b: int)
    requires
        on_char_boundary(text, a),
        on_char_boundary(text, b),
        a <= b,
    ensures
        char_offset(text, a) <= char_offset(text, b) <= text.len(),
{
    let bytes = encode_utf8(text);
    encode_utf8_valid_utf8(text);
    encode_utf8_decode_utf8(text);
    lemma_boundary_in_prefix(bytes, a, b);
    let prefix = bytes.subrange(0, b);
    decode_utf8_split(prefix, a);
    assert(prefix.subrange(0, a) =~= bytes.subrange(0, a));
    decode_utf8_split(bytes, b);
}

/// In text made of ASCII characters only, every offset up to the length of
/// the text is a character boundary, and the character offset of a byte
/// offset is that same number.
pub proof fn lemma_char_offset_ascii(text: Seq<char>, byte: int)
    requires
        is_ascii_chars(text),
        0 <= byte <= text.len(),
    ensures
        on_char_boundary(text, byte),
        char_offset(text, byte) == byte,
{
    let bytes = encode_utf8(text);
    let head = text.subrange(0, byte);
    encode_utf8_valid_utf8(text);
    is_ascii_chars_encode_utf8(text);
    is_ascii_chars_encode_utf8(head);
    assert(bytes.subrange(0, byte) =~= encode_utf8(head));
    encode_utf8_decode_utf8(head);
    if byte < bytes.len() {
        is_char_boundary_iff_is_leading_byte(bytes, byte);
        let c = text[byte] as u32;
        let b = bytes[byte];
        assert(b == c as u8);
        assert(c <= 0x7f);
        assert(is_leading_byte_width_1(b)) by (bit_vector)
            requires
                b == c as u8,
                c <= 0x7f,
        ;
    } else {
        is_char_boundary_start_end_of_seq(bytes);
    }
}

/// In text made of ASCII characters only, the character boundaries are
/// exactly the offsets from 0 up to the length of the text.
pub proof fn lemma_ascii_boundaries(text: Seq<char>, byte: int)
    requires
        is_ascii_chars(text),
    ensures
        on_char_boundary(text, byte) <==> 0 <= byte <= text.len(),
{
    if 0 <= byte <= text.len() {
        lemma_char_offset_ascii(text, byte);
    }
    if on_char_boundary(text, byte) {
        encode_utf8_valid_utf8(text);
        is_ascii_chars_encode_utf8(text);
        lemma_boundary_in_range(encode_utf8(text), byte);
    }
}

/// Turns a span of byte offsets into `text` into the span of character
/// offsets that covers the same characters.
pub fn byte_span_to_char_span<S: MessageSpan>(text: &str, byte_span: S) -> (char_span: S)
    requires
        byte_span.spec_start() <= byte_span.spec_end(),
        on_char_boundary(text@, byte_span.spec_start() as int),
        on_char_boundary(text@, byte_span.spec_end() as int),
    ensures
        char_span.spec_start() == char_offset(text@, byte_span.spec_start() as int),
        char_span.spec_end() == char_offset(text@, byte_span.spec_end() as int),
        char_span.spec_start() <= char_span.spec_end() <= text@.len(),
        is_ascii_chars(text@) ==> char_span.spec_start() == byte_span.spec_start()
            && char_span.spec_end() == byte_span.spec_end(),
{
    let (before_start, _) = text.split_at(byte_span.start());
    let (before_end, _) = text.split_at(byte_span.end());
    proof {
        encode_utf8_decode_utf8(before_start@);
        encode_utf8_decode_utf8(before_end@);
        lemma_char_offset_monotonic(
            text@,
            byte_span.spec_start() as int,
            byte_span.spec_end() as int,
        );
        if is_ascii_chars(text@) {
            is_ascii_chars_encode_utf8(text@);
            encode_utf8_valid_utf8(text@);
            lemma_boundary_in_range(encode_utf8(text@), byte_span.spec_end() as int);
            lemma_char_offset_ascii(text@, byte_span.spec_start() as int);
            lemma_char_offset_ascii(text@, byte_span.spec_end() as int);
        }
    }
    let start = before_start.unicode_len();
    let end = before_end.unicode_len();
    S::from_range(start..end)
}

} // verus!
