//! Decoding of single ASCII digits.

use vstd::prelude::*;

verus! {

/// ASCII `0`.
pub const DIGIT_ZERO: u8 = 0x30;

/// ASCII `9`.
pub const DIGIT_NINE: u8 = 0x39;

/// ASCII `a`.
pub const LOWER_A: u8 = 0x61;

/// ASCII `f`.
pub const LOWER_F: u8 = 0x66;

/// The value of `ch` read as a decimal digit, if it is one.
pub open spec fn dec_digit(ch: u8) -> Option<u8> {
    if DIGIT_ZERO <= ch <= DIGIT_NINE {
        Some((ch - DIGIT_ZERO) as u8)
    } else {
        None
    }
}

/// The value of `ch` read as a hexadecimal digit, if it is one.
/// Only the lower-case letters `a` to `f` count as digits above nine.
pub open spec fn hex_digit(ch: u8) -> Option<u8> {
    if DIGIT_ZERO <= ch <= DIGIT_NINE {
        Some((ch - DIGIT_ZERO) as u8)
    } else if LOWER_A <= ch <= LOWER_F {
        Some((ch - LOWER_A + 10) as u8)
    } else {
        None
    }
}

/// Decodes one decimal digit.
pub fn dec_value(ch: u8) -> (r: Option<u8>)
    ensures
        r == dec_digit(ch),
{
    if ch >= DIGIT_ZERO && ch <= DIGIT_NINE {
        Some(ch - DIGIT_ZERO)
    } else {
        None
    }
}

/// Decodes one lower-case hexadecimal digit.
pub fn hex_value(ch: u8) -> (r: Option<u8>)
    ensures
        r == hex_digit(ch),
{
    if ch >= DIGIT_ZERO && ch <= DIGIT_NINE {
        Some(ch - DIGIT_ZERO)
    } else if ch >= LOWER_A && ch <= LOWER_F {
        Some(ch - LOWER_A + 10)
    } else {
        None
    }
}

} // verus!
