//! Lowercasing, as the standard library does it.

use vstd::prelude::*;

verus! {

/// The lowercase form of `text`: what `str::to_lowercase` returns for a
/// string with these characters. It follows the Unicode tables of the
/// standard library, is the same under every locale, and may differ from
/// `text` in length.
pub uninterp spec fn lowercase(text: Seq<char>) -> Seq<char>;

/// Calls `str::to_lowercase`. Trusted: the result is the lowercase form of
/// `text`, and depends on the characters of `text` alone.
#[verifier::external_body]
pub(crate) fn to_lowercase(text: &str) -> (folded: String)
    ensures
        folded@ == lowercase(text@),
{
    text.to_lowercase()
}

} // verus!
