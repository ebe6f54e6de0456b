//! Character-level facts supplied by the standard library's Unicode tables.
//!
//! Which characters count as alphabetic, and what a string lowercases to,
//! are decided by the Unicode tables behind `char::is_alphabetic` and
//! `str::to_lowercase`. Both are functions of their argument alone, so they
//! are given abstract names here and everything else is proved against
//! those names.

use vstd::prelude::*;

verus! {

/// Whether a character counts as alphabetic, as `char::is_alphabetic`
/// classifies it.
pub uninterp spec fn is_alpha(c: char) -> bool;

/// The full Unicode lowercasing of a character sequence, as
/// `str::to_lowercase` computes it.
pub uninterp spec fn lower_of(s: Seq<char>) -> Seq<char>;

/// Relies on char::is_alphabetic: one fixed classification per character.
#[verifier::external_body]
pub(crate) fn char_is_alphabetic(c: char) -> (r: bool)
    ensures
        r == is_alpha(c),
{
    c.is_alphabetic()
}

/// Relies on str::to_lowercase: the result depends on the characters alone,
/// and each character lowercases to one or more characters, so a non-empty
/// string never lowercases to an empty one.
#[verifier::external_body]
pub(crate) fn lowercase(s: &str) -> (r: String)
    ensures
        r@ == lower_of(s@),
        s@.len() > 0 ==> r@.len() > 0,
{
    s.to_lowercase()
}

} // verus!
