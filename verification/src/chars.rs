//! Character classification and string building.
//!
//! The lexer classifies characters with std's Unicode tables
//! (`char::is_alphabetic`, `char::is_numeric`, `char::is_whitespace`).
//! Those tables are far too large to restate, so each classification is
//! given a name that the rest of the crate's contracts use, and a thin
//! wrapper ties the name to the std call.

use vstd::prelude::*;

verus! {

/// What `char::is_alphabetic` returns for `c`.
pub uninterp spec fn is_alphabetic_char(c: char) -> bool;

/// What `char::is_numeric` returns for `c`.
pub uninterp spec fn is_numeric_char(c: char) -> bool;

/// What `char::is_whitespace` returns for `c`.
pub uninterp spec fn is_whitespace_char(c: char) -> bool;

/// Relies on `char::is_alphabetic`: a pure lookup of the Unicode
/// `Alphabetic` property, depending on the character alone.
#[verifier::external_body]
pub(crate) fn char_is_alphabetic(c: char) -> (r: bool)
    ensures
        r == is_alphabetic_char(c),
{
    c.is_alphabetic()
}

/// Relies on `char::is_numeric`: a pure lookup of the Unicode number
/// general categories, depending on the character alone.
#[verifier::external_body]
pub(crate) fn char_is_numeric(c: char) -> (r: bool)
    ensures
        r == is_numeric_char(c),
{
    c.is_numeric()
}

/// Relies on `char::is_whitespace`: a pure lookup of the Unicode
/// `White_Space` property, depending on the character alone.
#[verifier::external_body]
pub(crate) fn char_is_whitespace(c: char) -> (r: bool)
    ensures
        r == is_whitespace_char(c),
{
    c.is_whitespace()
}

/// Relies on `String::push`: appends the given character at the end of the
/// string.
#[verifier::external_body]
pub(crate) fn push_char(s: &mut String, c: char)
    ensures
        final(s)@ == old(s)@.push(c),
{
    s.push(c);
}

} // verus!
