//! Character classes, case mappings and string building from the standard
//! library, taken on trust. Each class or mapping is a fixed function of the
//! character alone, so it gets a name that contracts elsewhere can speak of.

use vstd::prelude::*;

verus! {

/// The character class that char::is_alphanumeric accepts: the letters and
/// digits that make up the inside of a word.
pub uninterp spec fn is_word_char(c: char) -> bool;

/// The character class that char::is_whitespace accepts.
pub uninterp spec fn is_space_char(c: char) -> bool;

/// The character class that char::is_lowercase accepts.
pub uninterp spec fn is_lower_char(c: char) -> bool;

/// The character class that char::is_uppercase accepts.
pub uninterp spec fn is_upper_char(c: char) -> bool;

/// The first character of the lowercase mapping of `c`.
pub uninterp spec fn lower_char_of(c: char) -> char;

/// The first character of the uppercase mapping of `c`.
pub uninterp spec fn upper_char_of(c: char) -> char;

/// The lowercase mapping of a whole string.
pub uninterp spec fn lower_of(s: Seq<char>) -> Seq<char>;

/// Relies on char::is_alphanumeric: a fixed character class.
#[verifier::external_body]
pub(crate) fn is_alphanumeric_char(c: char) -> (r: bool)
    ensures
        r == is_word_char(c),
{
    c.is_alphanumeric()
}

/// Relies on char::is_whitespace: a fixed character class.
#[verifier::external_body]
pub(crate) fn is_whitespace_char(c: char) -> (r: bool)
    ensures
        r == is_space_char(c),
{
    c.is_whitespace()
}

/// Relies on char::is_lowercase: a fixed character class.
#[verifier::external_body]
pub(crate) fn is_lowercase_char(c: char) -> (r: bool)
    ensures
        r == is_lower_char(c),
{
    c.is_lowercase()
}

/// Relies on char::is_uppercase: a fixed character class.
#[verifier::external_body]
pub(crate) fn is_uppercase_char(c: char) -> (r: bool)
    ensures
        r == is_upper_char(c),
{
    c.is_uppercase()
}

/// Relies on char::to_lowercase: its first mapped character depends on the
/// character alone (the iterator is never empty).
#[verifier::external_body]
pub(crate) fn to_lowercase_char(c: char) -> (r: char)
    ensures
        r == lower_char_of(c),
{
    c.to_lowercase().next().unwrap()
}

/// Relies on char::to_uppercase: its first mapped character depends on the
/// character alone (the iterator is never empty).
#[verifier::external_body]
pub(crate) fn to_uppercase_char(c: char) -> (r: char)
    ensures
        r == upper_char_of(c),
{
    c.to_uppercase().next().unwrap()
}

/// Relies on str::to_lowercase: the result depends on the characters alone,
/// and an empty string stays empty.
#[verifier::external_body]
pub(crate) fn to_lowercase_str(s: &str) -> (r: String)
    ensures
        r@ == lower_of(s@),
        s@.len() == 0 ==> r@.len() == 0,
{
    s.to_lowercase()
}

/// Relies on String::from_iter (through Iterator::collect): building a string
/// from characters yields exactly those characters.
#[verifier::external_body]
pub(crate) fn chars_to_string(v: &Vec<char>) -> (r: String)
    ensures
        r@ == v@,
{
    v.iter().collect()
}

} // verus!
