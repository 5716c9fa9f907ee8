//! Byte and character classes used by the frame grammar.

use vstd::prelude::*;

verus! {

/// True if `ch` is ascii and "visible"/"printable": in the range `'!'..='~'`.
pub fn is_ascii_vchar(ch: char) -> (res: bool)
    ensures
        res == (33 <= (ch as u32) && (ch as u32) <= 126),
{
    ch > ' ' && ch <= '~'
}

/// True if the byte `ch` is an ascii visible character (33..=126).
pub fn is_ascii_vchar2(ch: u8) -> (res: bool)
    ensures
        res == (33 <= ch && ch <= 126),
{
    ch > 32 && ch <= 126
}

/// True if `ch` is the line feed byte.
pub fn is_newline(ch: u8) -> (res: bool)
    ensures
        res == (ch == 10),
{
    ch == 10
}

/// True if `ch` is the colon byte.
pub fn is_colon(ch: u8) -> (res: bool)
    ensures
        res == (ch == 58),
{
    ch == 58
}

/// True if `ch` is any byte but the colon.
pub fn is_not_colon(ch: u8) -> (res: bool)
    ensures
        res == (ch != 58),
{
    ch != 58
}

/// An ASCII digit or letter: `0-9a-zA-Z`.
pub open spec fn is_alnum(b: u8) -> bool {
    (48 <= b && b <= 57) || (65 <= b && b <= 90) || (97 <= b && b <= 122)
}

/// True if `ch` is not an ASCII digit or letter.
pub fn is_not_alphanumeric(ch: u8) -> (res: bool)
    ensures
        res == !is_alnum(ch),
{
    !((48 <= ch && ch <= 57) || (65 <= ch && ch <= 90) || (97 <= ch && ch <= 122))
}

} // verus!
