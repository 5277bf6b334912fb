//! The character classes of the grammar.

use vstd::prelude::*;

verus! {

/// ASCII whitespace: space, tab, line feed, form feed, carriage return.
pub open spec fn spec_is_space(c: char) -> bool {
    c == ' ' || c == '\t' || c == '\n' || c == '\x0C' || c == '\r'
}

/// Whether `c` is ASCII whitespace.
#[verifier::when_used_as_spec(spec_is_space)]
pub fn is_space(c: char) -> (b: bool)
    ensures
        b == spec_is_space(c),
{
    c == ' ' || c == '\t' || c == '\n' || c == '\x0C' || c == '\r'
}

/// An ASCII letter or digit, or one of `_ . - / $`.
pub open spec fn spec_is_name_char(c: char) -> bool {
    ||| '0' <= c <= '9'
    ||| 'a' <= c <= 'z'
    ||| 'A' <= c <= 'Z'
    ||| c == '_'
    ||| c == '.'
    ||| c == '-'
    ||| c == '/'
    ||| c == '$'
}

/// Whether `c` may stand in a name.
#[verifier::when_used_as_spec(spec_is_name_char)]
pub fn is_name_char(c: char) -> (b: bool)
    ensures
        b == spec_is_name_char(c),
{
    ('0' <= c && c <= '9') || ('a' <= c && c <= 'z') || ('A' <= c && c <= 'Z') || c == '_' || c
        == '.' || c == '-' || c == '/' || c == '$'
}

/// The value of `c` as a digit: `0` to `9`, then the letters of either case
/// from ten on. `None` for any other character.
pub open spec fn digit_value(c: char) -> Option<nat> {
    if '0' <= c <= '9' {
        Some((c as u32 - '0' as u32) as nat)
    } else if 'a' <= c <= 'z' {
        Some((c as u32 - 'a' as u32 + 10) as nat)
    } else if 'A' <= c <= 'Z' {
        Some((c as u32 - 'A' as u32 + 10) as nat)
    } else {
        None
    }
}

/// `c` is a digit of the number system with base `radix`.
pub open spec fn spec_is_digit(c: char, radix: u32) -> bool {
    digit_value(c) matches Some(v) && v < radix
}

/// Whether `c` is a digit in base `radix`.
#[verifier::when_used_as_spec(spec_is_digit)]
pub fn is_digit(c: char, radix: u32) -> (b: bool)
    ensures
        b == spec_is_digit(c, radix),
{
    let v = c as u32;
    if '0' <= c && c <= '9' {
        v - 0x30 < radix
    } else if 'a' <= c && c <= 'z' {
        v - 0x61 + 10 < radix
    } else if 'A' <= c && c <= 'Z' {
        v - 0x41 + 10 < radix
    } else {
        false
    }
}

/// A digit in base `radix`, or the separator `_`.
pub open spec fn spec_is_number_char(c: char, radix: u32) -> bool {
    spec_is_digit(c, radix) || c == '_'
}

/// Whether `c` may stand in a number written in base `radix`.
#[verifier::when_used_as_spec(spec_is_number_char)]
pub fn is_number_char(c: char, radix: u32) -> (b: bool)
    ensures
        b == spec_is_number_char(c, radix),
{
    is_digit(c, radix) || c == '_'
}

} // verus!
