//! Classes of characters. Beyond ASCII they are those of the Unicode tables that
//! the standard library carries.

use vstd::prelude::*;

verus! {

/// Whether `c` is an ASCII character.
pub open spec fn ascii(c: char) -> bool {
    '\u{0}' <= c <= '\u{7f}'
}

/// Whether a character beyond ASCII is a letter or a digit.
pub uninterp spec fn unicode_alphanumeric(c: char) -> bool;

/// Whether the character is a letter or a digit.
pub open spec fn alphanumeric(c: char) -> bool {
    if ascii(c) {
        ascii_letter(c) || ascii_digit(c)
    } else {
        unicode_alphanumeric(c)
    }
}

/// Whether a character beyond ASCII is a letter.
pub uninterp spec fn unicode_alphabetic(c: char) -> bool;

/// Whether the character is a letter.
pub open spec fn alphabetic(c: char) -> bool {
    if ascii(c) {
        ascii_letter(c)
    } else {
        unicode_alphabetic(c)
    }
}

/// Whether a character beyond ASCII is a digit or another sign for a number.
pub uninterp spec fn unicode_numeric(c: char) -> bool;

/// Whether the character is a digit or another sign for a number.
pub open spec fn numeric(c: char) -> bool {
    if ascii(c) {
        ascii_digit(c)
    } else {
        unicode_numeric(c)
    }
}

/// Whether a character beyond ASCII is white space.
pub uninterp spec fn unicode_white_space(c: char) -> bool;

/// Whether the character is white space. No letter or digit is.
pub open spec fn white_space(c: char) -> bool {
    if ascii(c) {
        c == ' ' || '\u{9}' <= c <= '\u{d}'
    } else {
        unicode_white_space(c) && !unicode_alphanumeric(c)
    }
}

/// Whether a character beyond ASCII is an upper-case letter.
pub uninterp spec fn unicode_uppercase(c: char) -> bool;

/// Whether the character is an upper-case letter.
pub open spec fn uppercase(c: char) -> bool {
    if ascii(c) {
        'A' <= c <= 'Z'
    } else {
        unicode_uppercase(c)
    }
}

/// The text in lower case.
pub uninterp spec fn lowercase(s: Seq<char>) -> Seq<char>;

/// Whether `c` is one of `0` to `9`.
pub open spec fn ascii_digit(c: char) -> bool {
    '0' <= c <= '9'
}

/// Whether `c` is one of `a` to `z` or `A` to `Z`.
pub open spec fn ascii_letter(c: char) -> bool {
    'a' <= c <= 'z' || 'A' <= c <= 'Z'
}

/// Whether `c` is a hexadecimal digit.
pub open spec fn ascii_hexdigit(c: char) -> bool {
    ascii_digit(c) || 'a' <= c <= 'f' || 'A' <= c <= 'F'
}

/// `char::is_alphanumeric`. Among the ASCII characters these are the letters and
/// the digits.
#[verifier::external_body]
pub(crate) fn is_alphanumeric(c: char) -> (r: bool)
    ensures
        ascii(c) ==> r == alphanumeric(c),
        !ascii(c) ==> r == unicode_alphanumeric(c),
{
    c.is_alphanumeric()
}

/// `char::is_alphabetic`. Among the ASCII characters these are the letters.
#[verifier::external_body]
pub(crate) fn is_alphabetic(c: char) -> (r: bool)
    ensures
        ascii(c) ==> r == alphabetic(c),
        !ascii(c) ==> r == unicode_alphabetic(c),
{
    c.is_alphabetic()
}

/// `char::is_numeric`. Among the ASCII characters these are the digits.
#[verifier::external_body]
pub(crate) fn is_numeric(c: char) -> (r: bool)
    ensures
        ascii(c) ==> r == numeric(c),
        !ascii(c) ==> r == unicode_numeric(c),
{
    c.is_numeric()
}

/// `char::is_whitespace`. Among the ASCII characters these are the space and the
/// controls from tab to carriage return. Beyond them these are separators and controls,
/// which `char::is_alphanumeric` says are no letters and no digits.
#[verifier::external_body]
pub(crate) fn is_whitespace(c: char) -> (r: bool)
    ensures
        ascii(c) ==> r == white_space(c),
        !ascii(c) ==> r == unicode_white_space(c),
        !ascii(c) && r ==> !unicode_alphanumeric(c),
{
    c.is_whitespace()
}

/// `char::is_uppercase`. Among the ASCII characters these are `A` to `Z`.
#[verifier::external_body]
pub(crate) fn is_uppercase(c: char) -> (r: bool)
    ensures
        ascii(c) ==> r == uppercase(c),
        !ascii(c) ==> r == unicode_uppercase(c),
{
    c.is_uppercase()
}

/// `str::to_lowercase`.
#[verifier::external_body]
pub(crate) fn to_lowercase(s: &str) -> (r: String)
    ensures
        r@ == lowercase(s@),
{
    s.to_lowercase()
}

/// Whether `c` is one of `a` to `z` or `A` to `Z`.
pub fn is_ascii_letter(c: char) -> (r: bool)
    ensures
        r == ascii_letter(c),
{
    ('a' <= c && c <= 'z') || ('A' <= c && c <= 'Z')
}

/// Whether `c` is one of `0` to `9`.
pub fn is_ascii_digit(c: char) -> (r: bool)
    ensures
        r == ascii_digit(c),
{
    '0' <= c && c <= '9'
}

/// Whether `c` is a hexadecimal digit.
pub fn is_ascii_hexdigit(c: char) -> (r: bool)
    ensures
        r == ascii_hexdigit(c),
{
    is_ascii_digit(c) || ('a' <= c && c <= 'f') || ('A' <= c && c <= 'F')
}

}
