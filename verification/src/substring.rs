//! Presence of one string inside another.

use crate::encoding::{
    lemma_bytes_of_chars, lemma_cut_at_boundary, lemma_encode_concat, lemma_encode_len,
    lemma_valid_prefix_ends_on_boundary,
};
use vstd::prelude::*;
use vstd::utf8::*;

verus! {

/// `needle` stands in `haystack` at position `at`, element for element.
pub open spec fn occurs_at<T>(haystack: Seq<T>, needle: Seq<T>, at: int) -> bool {
    &&& 0 <= at
    &&& at + needle.len() <= haystack.len()
    &&& haystack.subrange(at, at + needle.len()) == needle
}

/// `needle` stands somewhere in `haystack` as a contiguous run. The empty
/// sequence stands in every sequence.
pub open spec fn has_substring<T>(haystack: Seq<T>, needle: Seq<T>) -> bool {
    exists|at: int| occurs_at(haystack, needle, at)
}

/// An occurrence among the characters is an occurrence among the bytes.
proof fn lemma_occurrence_in_bytes(haystack: Seq<char>, needle: Seq<char>, at: int)
    requires
        occurs_at(haystack, needle, at),
    ensures
        has_substring(encode_utf8(haystack), encode_utf8(needle)),
{
    let before = haystack.subrange(0, at);
    let after = haystack.subrange(at + needle.len(), haystack.len() as int);
    assert(haystack =~= before + (needle + after));
    lemma_encode_concat(before, needle + after);
    lemma_encode_concat(needle, after);
    let offset = encode_utf8(before).len() as int;
    assert(encode_utf8(haystack).subrange(offset, offset + encode_utf8(needle).len())
        =~= encode_utf8(needle));
    assert(occurs_at(encode_utf8(haystack), encode_utf8(needle), offset));
}

/// An occurrence among the bytes is an occurrence among the characters:
/// an encoded needle can only start and end where characters of the
/// haystack start and end.
proof fn lemma_occurrence_in_chars(haystack: Seq<char>, needle: Seq<char>, offset: int)
    requires
        occurs_at(encode_utf8(haystack), encode_utf8(needle), offset),
    ensures
        has_substring(haystack, needle),
{
    let hay = encode_utf8(haystack);
    let pin = encode_utf8(needle);
    lemma_bytes_of_chars(haystack);
    lemma_bytes_of_chars(needle);
    if needle.len() == 0 {
        assert(haystack.subrange(0, 0) =~= needle);
        assert(occurs_at(haystack, needle, 0));
    } else {
        lemma_encode_len(needle);
        assert(hay[offset] == hay.subrange(offset, offset + pin.len())[0]);
        is_char_boundary_iff_not_is_continuation_byte(pin, 0);
        is_char_boundary_iff_not_is_continuation_byte(hay, offset);
        lemma_cut_at_boundary(hay, offset);
        let head = hay.subrange(0, offset);
        let tail = hay.subrange(offset, hay.len() as int);
        assert(tail.subrange(0, pin.len() as int) =~= pin);
        lemma_valid_prefix_ends_on_boundary(tail, pin);
        lemma_cut_at_boundary(tail, pin.len() as int);
        let rest = tail.subrange(pin.len() as int, tail.len() as int);
        let before = decode_utf8(head);
        let after = decode_utf8(rest);
        let at = before.len() as int;
        assert(haystack == before + (needle + after));
        assert(haystack.subrange(at, at + needle.len()) =~= needle);
        assert(occurs_at(haystack, needle, at));
    }
}

/// Searching the bytes of two strings and searching their characters come
/// to the same: one holds the other byte for byte exactly when it holds it
/// character for character.
pub proof fn lemma_substring_bytes_iff_chars(haystack: Seq<char>, needle: Seq<char>)
    ensures
        has_substring(encode_utf8(haystack), encode_utf8(needle)) == has_substring(
            haystack,
            needle,
        ),
{
    if has_substring(haystack, needle) {
        let at = choose|at: int| occurs_at(haystack, needle, at);
        lemma_occurrence_in_bytes(haystack, needle, at);
    }
    if has_substring(encode_utf8(haystack), encode_utf8(needle)) {
        let offset = choose|offset: int|
            occurs_at(encode_utf8(haystack), encode_utf8(needle), offset);
        lemma_occurrence_in_chars(haystack, needle, offset);
    }
}

/// Whether `needle` stands in `haystack` at offset `at`.
fn bytes_match_at(haystack: &[u8], needle: &[u8], at: usize) -> (same: bool)
    requires
        at + needle@.len() <= haystack@.len(),
    ensures
        same == occurs_at(haystack@, needle@, at as int),
{
    let len: usize = haystack.len();
    let mut k: usize = 0;
    while k < needle.len()
        invariant
            k <= needle@.len(),
            at + needle@.len() <= haystack@.len() == len,
            forall|j: int| 0 <= j < k ==> haystack@[at + j] == needle@[j],
        decreases needle@.len() - k,
    {
        if haystack[at + k] != needle[k] {
            assert(haystack@.subrange(at as int, at + needle@.len())[k as int] != needle@[k as int]);
            return false;
        }
        k += 1;
    }
    assert(haystack@.subrange(at as int, at + needle@.len()) =~= needle@);
    true
}

/// Whether `haystack` contains `needle` as a contiguous run of characters.
/// The empty needle is contained in every haystack.
pub fn contains(haystack: &str, needle: &str) -> (found: bool)
    ensures
        found == has_substring(haystack@, needle@),
{
    let hay = haystack.as_bytes();
    let pin = needle.as_bytes();
    proof {
        lemma_substring_bytes_iff_chars(haystack@, needle@);
    }
    if pin.len() > hay.len() {
        return false;
    }
    let last: usize = hay.len() - pin.len();
    let mut at: usize = 0;
    loop
        invariant
            at <= last,
            last + pin@.len() == hay@.len(),
            forall|k: int| 0 <= k < at ==> !occurs_at(hay@, pin@, k),
            has_substring(hay@, pin@) == has_substring(haystack@, needle@),
        decreases last - at,
    {
        if bytes_match_at(hay, pin, at) {
            return true;
        }
        if at == last {
            return false;
        }
        at += 1;
    }
}

} // verus!
