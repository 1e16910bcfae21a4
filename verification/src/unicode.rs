//! Unicode case mapping and character classes, which std computes from the
//! Unicode tables. Their results are named here rather than restated.

use vstd::prelude::*;

verus! {

/// The full Unicode lowercase mapping of a text, as `str::to_lowercase`
/// computes it.
pub uninterp spec fn lowercase(s: Seq<char>) -> Seq<char>;

/// Whether a character is Unicode `Alphabetic` or `Numeric`, as
/// `char::is_alphanumeric` decides it.
pub uninterp spec fn alphanumeric(c: char) -> bool;

/// Calls `str::to_lowercase`. Trusted: the result is the lowercase mapping of
/// the input, which maps each character to one or more characters, so the
/// result is empty exactly when the input is.
#[verifier::external_body]
pub(crate) fn to_lowercase(v: &Vec<char>) -> (r: Vec<char>)
    ensures
        r@ == lowercase(v@),
        r@.len() == 0 <==> v@.len() == 0,
{
    v.iter().collect::<String>().to_lowercase().chars().collect()
}

/// Calls `char::is_alphanumeric`. Trusted: the result is the named class.
#[verifier::external_body]
pub(crate) fn is_alphanumeric(c: char) -> (b: bool)
    ensures
        b == alphanumeric(c),
{
    c.is_alphanumeric()
}

} // verus!
