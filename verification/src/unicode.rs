//! Case and classes of characters, as Unicode has them.

use vstd::prelude::*;

verus! {

/// The upper case of a character, which can be several characters.
pub uninterp spec fn uppercase_of(c: char) -> Seq<char>;

/// Whether a character is a lower case letter.
pub uninterp spec fn is_lowercase_letter(c: char) -> bool;

/// The lower case of a text.
pub uninterp spec fn lowercase_of(s: Seq<char>) -> Seq<char>;

/// `char::to_uppercase`: the upper case of `c`, one character or more. One that
/// is a capital from A to Z is its own upper case; of other capitals that is
/// not said.
#[verifier::external_body]
pub(crate) fn to_uppercase(c: char) -> (r: Vec<char>)
    ensures
        r@ == uppercase_of(c),
        r@.len() >= 1,
        r@.len() == 1 && 'A' <= r@[0] <= 'Z' ==> uppercase_of(r@[0]) == r@,
{
    c.to_uppercase().collect()
}

/// `char::is_lowercase`.
#[verifier::external_body]
pub(crate) fn is_lowercase(c: char) -> (r: bool)
    ensures
        r == is_lowercase_letter(c),
{
    c.is_lowercase()
}

/// `str::to_lowercase`: the lower case of the whole text, which depends on
/// where in a word a letter stands.
#[verifier::external_body]
pub(crate) fn to_lowercase(s: &str) -> (r: String)
    ensures
        r@ == lowercase_of(s@),
{
    s.to_lowercase()
}

/// Whether a character is a letter or a digit.
pub uninterp spec fn is_letter_or_digit(c: char) -> bool;

/// `char::is_alphanumeric`.
#[verifier::external_body]
pub(crate) fn is_alphanumeric(c: char) -> (r: bool)
    ensures
        r == is_letter_or_digit(c),
{
    c.is_alphanumeric()
}

} // verus!
