//! Character-level helpers shared across the crate: ASCII classification
//! and case mapping, whitespace, and the small trusted bridge to `std`'s
//! string primitives that `vstd` does not specify.

use vstd::prelude::*;

verus! {

/// The Unicode `White_Space` characters, the set `str::trim` and
/// `char::is_whitespace` use.
pub open spec fn is_space_char(c: char) -> bool {
    ||| c == ' '
    ||| c == '\t'
    ||| c == '\n'
    ||| c == '\u{0b}'
    ||| c == '\u{0c}'
    ||| c == '\r'
    ||| c == '\u{85}'
    ||| c == '\u{a0}'
    ||| c == '\u{1680}'
    ||| ('\u{2000}' <= c && c <= '\u{200a}')
    ||| c == '\u{2028}'
    ||| c == '\u{2029}'
    ||| c == '\u{202f}'
    ||| c == '\u{205f}'
    ||| c == '\u{3000}'
}

/// Executable test matching `is_space_char`.
pub fn is_space(c: char) -> (r: bool)
    ensures
        r == is_space_char(c),
{
    let u = c as u32;
    (u == 0x20) || (0x09 <= u && u <= 0x0d) || (u == 0x85) || (u == 0xa0) || (u == 0x1680) || (
    0x2000 <= u && u <= 0x200a) || (u == 0x2028) || (u == 0x2029) || (u == 0x202f) || (u == 0x205f)
        || (u == 0x3000)
}

pub open spec fn is_digit_char(c: char) -> bool {
    '0' <= c && c <= '9'
}

/// Executable test matching `is_digit_char`.
pub fn is_digit(c: char) -> (r: bool)
    ensures
        r == is_digit_char(c),
{
    let u = c as u32;
    0x30 <= u && u <= 0x39
}

pub open spec fn is_ascii_upper_char(c: char) -> bool {
    'A' <= c && c <= 'Z'
}

pub open spec fn is_ascii_lower_char(c: char) -> bool {
    'a' <= c && c <= 'z'
}

pub open spec fn ascii_lower_char_spec(c: char) -> char {
    if is_ascii_upper_char(c) {
        ((c as u32) + 32) as char
    } else {
        c
    }
}

pub open spec fn ascii_upper_char_spec(c: char) -> char {
    if is_ascii_lower_char(c) {
        ((c as u32) - 32) as char
    } else {
        c
    }
}

/// ASCII lowercasing of one character; other characters are unchanged.
pub fn ascii_lower_char(c: char) -> (r: char)
    ensures
        r == ascii_lower_char_spec(c),
{
    let u = c as u32;
    if 0x41 <= u && u <= 0x5a {
        char_from_u32(u + 32)
    } else {
        c
    }
}

/// ASCII uppercasing of one character; other characters are unchanged.
pub fn ascii_upper_char(c: char) -> (r: char)
    ensures
        r == ascii_upper_char_spec(c),
{
    let u = c as u32;
    if 0x61 <= u && u <= 0x7a {
        char_from_u32(u - 32)
    } else {
        c
    }
}

/// Relies on `char::from_u32`: returns the scalar value `u` as a `char`.
#[verifier::external_body]
pub fn char_from_u32(u: u32) -> (c: char)
    requires
        u < 0xd800 || (0xe000 <= u && u <= 0x10ffff),
    ensures
        c == (u as char),
{
    char::from_u32(u).unwrap()
}

/// Relies on `String::push`: appends one character at the end.
#[verifier::external_body]
pub fn push_char(s: &mut String, c: char)
    ensures
        final(s)@ == old(s)@.push(c),
{
    s.push(c);
}

} // verus!
