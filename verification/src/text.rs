//! What the library needs of text: lower case, and whether one text occurs
//! in another.

use vstd::prelude::*;

verus! {

/// The lower-case form of a text, as the standard library computes it from
/// the Unicode case tables. It is a function of the text alone; nothing more
/// is said of it here.
pub uninterp spec fn lowercase_of(text: Seq<char>) -> Seq<char>;

/// Whether `needle` occurs in `text` as a run of consecutive characters.
/// The empty text occurs in every text.
pub open spec fn has_infix(text: Seq<char>, needle: Seq<char>) -> bool {
    exists|at: int|
        0 <= at && at + needle.len() <= text.len() && #[trigger] text.subrange(
            at,
            at + needle.len(),
        ) == needle
}

/// Calls `str::to_lowercase`. Trusted: the result is the lower-case form of
/// the argument, which is given the name [`lowercase_of`] and left
/// unspecified beyond depending on the text alone.
#[verifier::external_body]
pub(crate) fn to_lowercase(text: &str) -> (lower: String)
    ensures
        lower@ == lowercase_of(text@),
{
    text.to_lowercase()
}

/// Calls `str::contains` with a string slice as the pattern. Trusted: the
/// result is `true` exactly when the pattern matches a sub-slice of the text,
/// that is, when its characters occur in the text consecutively.
#[verifier::external_body]
pub(crate) fn contains(text: &str, needle: &str) -> (found: bool)
    ensures
        found == has_infix(text@, needle@),
{
    text.contains(needle)
}

} // verus!
