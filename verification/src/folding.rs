//! Lower-casing, which the standard library does and this crate only names.

use vstd::prelude::*;

verus! {

/// The lower-case form of `text` as `str::to_lowercase` computes it from the
/// Unicode tables compiled into the standard library. It may be longer or
/// shorter than `text`, and what becomes of a character can depend on its
/// neighbours, so nothing but the call itself says what it is.
pub uninterp spec fn lowercase(text: Seq<char>) -> Seq<char>;

/// Calls `str::to_lowercase`. Trusted: the result depends on the characters
/// of `text` alone, which is all that the contract claims by naming it.
#[verifier::external_body]
pub(crate) fn to_lowercase(text: &str) -> (lowered: String)
    ensures
        lowered@ == lowercase(text@),
{
    text.to_lowercase()
}

} // verus!
