//! What `std` does with characters and strings.
//!
//! The Unicode classes and case mappings are tables inside `std`; this module
//! gives each of them a name so that contracts can speak of them, and states
//! nothing about which characters they hold.

use vstd::prelude::*;

verus! {

/// Whether `c` has the Unicode `White_Space` property, as
/// `char::is_whitespace` reports it.
pub uninterp spec fn is_whitespace_char(c: char) -> bool;

/// Whether `c` is in one of the Unicode number categories, as
/// `char::is_numeric` reports it.
pub uninterp spec fn is_numeric_char(c: char) -> bool;

/// Whether `c` has the Unicode `Alphabetic` property, as
/// `char::is_alphabetic` reports it.
pub uninterp spec fn is_alphabetic_char(c: char) -> bool;

/// A character is alphanumeric when it is alphabetic or numeric.
pub open spec fn is_alphanumeric_char(c: char) -> bool {
    is_alphabetic_char(c) || is_numeric_char(c)
}

/// The ASCII upper-case form of `c`: `'a'..='z'` move to `'A'..='Z'`, every
/// other character stays as it is.
pub open spec fn ascii_uppercase(c: char) -> char {
    if 0x61 <= c as u32 && c as u32 <= 0x7a {
        ((c as u32 - 0x20) as u32) as char
    } else {
        c
    }
}

/// The lower-case form of a text, as `str::to_lowercase` gives it by the
/// Unicode property `Lowercase`.
pub uninterp spec fn lowercase_of(text: Seq<char>) -> Seq<char>;

/// `str::to_lowercase`: trusted to be a fixed function of the text.
pub assume_specification[ str::to_lowercase ](text: &str) -> (lower: String)
    ensures
        lower@ == lowercase_of(text@),
;

/// `char::is_whitespace`: trusted to be a fixed function of the character.
pub assume_specification[ char::is_whitespace ](c: char) -> (b: bool)
    ensures
        b == is_whitespace_char(c),
;

/// `char::is_numeric`: trusted to be a fixed function of the character.
pub assume_specification[ char::is_numeric ](c: char) -> (b: bool)
    ensures
        b == is_numeric_char(c),
;

/// `char::is_alphabetic`: trusted to be a fixed function of the character.
pub assume_specification[ char::is_alphabetic ](c: char) -> (b: bool)
    ensures
        b == is_alphabetic_char(c),
;

/// `char::is_alphanumeric`: documented to hold exactly when one of
/// `is_alphabetic` and `is_numeric` does.
pub assume_specification[ char::is_alphanumeric ](c: char) -> (b: bool)
    ensures
        b == is_alphanumeric_char(c),
;

/// `char::to_ascii_uppercase`: documented to map the ASCII letters `a` to `z`
/// onto `A` to `Z` and to leave every other character unchanged.
pub assume_specification[ char::to_ascii_uppercase ](c: &char) -> (upper: char)
    ensures
        upper == ascii_uppercase(*c),
;

/// `String::push`: appends one character to the end of the string.
pub assume_specification[ String::push ](s: &mut String, c: char)
    ensures
        final(s)@ == old(s)@.push(c),
;

/// Equality of string slices, which `std` decides by comparing their bytes:
/// two slices are equal exactly when they hold the same characters.
#[verifier::external_body]
pub(crate) fn same_text(a: &str, b: &str) -> (same: bool)
    ensures
        same == (a@ == b@),
{
    a == b
}

} // verus!
