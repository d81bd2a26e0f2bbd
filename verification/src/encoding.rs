//! Facts that relate a string's characters to the bytes of its UTF-8 form.
//!
//! The executable code scans and cuts strings by byte offset. The contracts
//! speak of characters. The lemmas here carry a fact from one side to the
//! other.

use vstd::prelude::*;
use vstd::utf8::*;

verus! {

/// Encoding distributes over concatenation.
pub(crate) proof fn lemma_encode_concat(a: Seq<char>, b: Seq<char>)
    ensures
        encode_utf8(a + b) == encode_utf8(a) + encode_utf8(b),
    decreases a.len(),
{
    if a.len() == 0 {
        assert(a + b =~= b);
        assert(encode_utf8(a) + encode_utf8(b) =~= encode_utf8(b));
    } else {
        lemma_encode_concat(a.drop_first(), b);
        assert((a + b).drop_first() =~= a.drop_first() + b);
        assert(encode_utf8(a + b) =~= encode_utf8(a) + encode_utf8(b));
    }
}

/// Every character takes at least one byte.
pub(crate) proof fn lemma_encode_len(chars: Seq<char>)
    ensures
        chars.len() <= encode_utf8(chars).len(),
    decreases chars.len(),
{
    if chars.len() > 0 {
        lemma_encode_len(chars.drop_first());
    }
}

/// The bytes of a string are valid UTF-8, and decoding them gives back its
/// characters.
pub(crate) proof fn lemma_bytes_of_chars(chars: Seq<char>)
    ensures
        valid_utf8(encode_utf8(chars)),
        decode_utf8(encode_utf8(chars)) == chars,
{
    encode_utf8_valid_utf8(chars);
    encode_utf8_decode_utf8(chars);
}

/// Cutting valid UTF-8 at a character boundary gives two valid pieces whose
/// characters, one after the other, are those of the whole.
pub(crate) proof fn lemma_cut_at_boundary(bytes: Seq<u8>, at: int)
    requires
        valid_utf8(bytes),
        is_char_boundary(bytes, at),
    ensures
        0 <= at <= bytes.len(),
        valid_utf8(bytes.subrange(0, at)),
        valid_utf8(bytes.subrange(at, bytes.len() as int)),
        decode_utf8(bytes) == decode_utf8(bytes.subrange(0, at)) + decode_utf8(
            bytes.subrange(at, bytes.len() as int),
        ),
{
    valid_utf8_split(bytes, at);
    decode_utf8_split(bytes, at);
}

/// Where valid UTF-8 begins with another valid UTF-8 sequence, that
/// sequence ends on a character boundary of the whole.
pub(crate) proof fn lemma_valid_prefix_ends_on_boundary(bytes: Seq<u8>, prefix: Seq<u8>)
    requires
        valid_utf8(bytes),
        valid_utf8(prefix),
        prefix.len() <= bytes.len(),
        bytes.subrange(0, prefix.len() as int) == prefix,
    ensures
        is_char_boundary(bytes, prefix.len() as int),
    decreases prefix.len(),
{
    if prefix.len() > 0 {
        let width = length_of_first_scalar(prefix);
        assert(bytes[0] == bytes.subrange(0, prefix.len() as int)[0]);
        assert(length_of_first_scalar(bytes) == width);
        assert(width <= prefix.len());
        let bytes_rest = pop_first_scalar(bytes);
        let prefix_rest = pop_first_scalar(prefix);
        assert(bytes_rest.subrange(0, prefix_rest.len() as int) =~= prefix_rest) by {
            assert forall|k: int| 0 <= k < prefix_rest.len() implies bytes_rest[k]
                == prefix_rest[k] by {
                assert(bytes[k + width] == bytes.subrange(0, prefix.len() as int)[k + width]);
            }
        }
        lemma_valid_prefix_ends_on_boundary(bytes_rest, prefix_rest);
    }
}

/// An ASCII byte inside valid UTF-8 is a character of its own: the bytes
/// before it and the bytes after it are valid, and the characters of the
/// whole are those before it, the byte itself, and those after it.
pub(crate) proof fn lemma_cut_at_ascii_byte(bytes: Seq<u8>, at: int)
    requires
        valid_utf8(bytes),
        0 <= at < bytes.len(),
        bytes[at] <= 0x7f,
    ensures
        is_char_boundary(bytes, at),
        is_char_boundary(bytes.subrange(at, bytes.len() as int), 1),
        valid_utf8(bytes.subrange(0, at)),
        valid_utf8(bytes.subrange(at, bytes.len() as int)),
        valid_utf8(bytes.subrange(at + 1, bytes.len() as int)),
        decode_utf8(bytes.subrange(at, bytes.len() as int)) == seq![bytes[at] as char]
            + decode_utf8(bytes.subrange(at + 1, bytes.len() as int)),
        decode_utf8(bytes) == decode_utf8(bytes.subrange(0, at)).push(bytes[at] as char)
            + decode_utf8(bytes.subrange(at + 1, bytes.len() as int)),
{
    let byte = bytes[at];
    assert(is_leading_byte_width_1(byte));
    is_char_boundary_iff_is_leading_byte(bytes, at);
    lemma_cut_at_boundary(bytes, at);
    let tail = bytes.subrange(at, bytes.len() as int);
    assert(tail[0] == byte);
    assert(length_of_first_scalar(tail) == 1);
    assert(pop_first_scalar(tail) =~= bytes.subrange(at + 1, bytes.len() as int));
    assert(codepoint_width_1(byte) == byte as u32) by (bit_vector)
        requires
            byte <= 0x7f,
    ;
    assert(decode_first_scalar(tail) == byte as u32);
    assert((byte as u32) as char == byte as char);
    assert(is_char_boundary(tail, 1)) by {
        reveal_with_fuel(is_char_boundary, 2);
    }
    assert(decode_utf8(bytes.subrange(0, at)) + (seq![byte as char] + decode_utf8(
        bytes.subrange(at + 1, bytes.len() as int),
    )) =~= decode_utf8(bytes.subrange(0, at)).push(byte as char) + decode_utf8(
        bytes.subrange(at + 1, bytes.len() as int),
    ));
}

/// An ASCII character is encoded as the single byte of the same value.
pub(crate) proof fn lemma_encode_ascii_char(c: char)
    requires
        c as u32 <= 0x7f,
    ensures
        encode_scalar(c as u32) == seq![c as u8],
{
    let v = c as u32;
    assert(leading_byte_width_1(v) == v as u8) by (bit_vector)
        requires
            v <= 0x7f,
    ;
}

/// A sequence that holds an ASCII character holds, in its encoding, the
/// byte of the same value.
pub(crate) proof fn lemma_ascii_char_has_byte(chars: Seq<char>, at: int) -> (offset: int)
    requires
        0 <= at < chars.len(),
        chars[at] as u32 <= 0x7f,
    ensures
        0 <= offset < encode_utf8(chars).len(),
        encode_utf8(chars)[offset] == chars[at] as u8,
{
    let before = chars.subrange(0, at);
    let one = seq![chars[at]];
    let after = chars.subrange(at + 1, chars.len() as int);
    assert(chars =~= before + (one + after));
    lemma_encode_concat(before, one + after);
    lemma_encode_concat(one, after);
    lemma_encode_ascii_char(chars[at]);
    assert(one.drop_first() =~= Seq::<char>::empty());
    assert(encode_utf8(one) =~= seq![chars[at] as u8]) by {
        reveal_with_fuel(encode_utf8, 2);
    }
    encode_utf8(before).len() as int
}

/// A sequence whose encoding lacks an ASCII byte lacks the character of the
/// same value.
pub(crate) proof fn lemma_absent_byte_absent_char(chars: Seq<char>, byte: u8)
    requires
        byte <= 0x7f,
        forall|j: int| 0 <= j < encode_utf8(chars).len() ==> encode_utf8(chars)[j] != byte,
    ensures
        forall|k: int| 0 <= k < chars.len() ==> chars[k] != byte as char,
{
    assert forall|k: int| 0 <= k < chars.len() implies chars[k] != byte as char by {
        if chars[k] == byte as char {
            let offset = lemma_ascii_char_has_byte(chars, k);
            assert(encode_utf8(chars)[offset] == byte);
        }
    }
}

/// A sequence that ends in an ASCII character ends, in its encoding, in
/// the byte of the same value.
pub(crate) proof fn lemma_last_ascii_char_is_last_byte(chars: Seq<char>)
    requires
        chars.len() > 0,
        chars.last() as u32 <= 0x7f,
    ensures
        encode_utf8(chars).len() > 0,
        encode_utf8(chars).last() == chars.last() as u8,
{
    let one = seq![chars.last()];
    assert(chars =~= chars.drop_last() + one);
    lemma_encode_concat(chars.drop_last(), one);
    lemma_encode_ascii_char(chars.last());
    assert(one.drop_first() =~= Seq::<char>::empty());
    assert(encode_utf8(one) =~= seq![chars.last() as u8]) by {
        reveal_with_fuel(encode_utf8, 2);
    }
}

} // verus!
