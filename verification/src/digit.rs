//! Digits and their numeric values in an arbitrary radix.
//!
//! A "digit" is an ASCII byte: `0`-`9` carry the values 0-9 and the
//! letters `a`-`z` / `A`-`Z` carry the values 10-35, exactly as
//! `char::to_digit` reads them.  A byte is a digit *in* a radix when its
//! value is below the radix.

use vstd::prelude::*;

verus! {

/// ASCII `0`.
pub const CH_ZERO: u8 = 48;

/// ASCII `9`.
pub const CH_NINE: u8 = 57;

/// ASCII `a`.
pub const CH_LOWER_A: u8 = 97;

/// ASCII `z`.
pub const CH_LOWER_Z: u8 = 122;

/// ASCII `A`.
pub const CH_UPPER_A: u8 = 65;

/// ASCII `Z`.
pub const CH_UPPER_Z: u8 = 90;

/// The numeric value a byte carries when read as a digit; 36 for bytes
/// that are a digit in no radix.
pub open spec fn digit_value(b: u8) -> int {
    if CH_ZERO <= b && b <= CH_NINE {
        b - CH_ZERO
    } else if CH_LOWER_A <= b && b <= CH_LOWER_Z {
        b - CH_LOWER_A + 10
    } else if CH_UPPER_A <= b && b <= CH_UPPER_Z {
        b - CH_UPPER_A + 10
    } else {
        36
    }
}

/// Whether the byte is a valid digit in the given radix.
pub open spec fn is_digit(b: u8, radix: u32) -> bool {
    digit_value(b) < radix
}

/// Read a byte as a digit in the given radix.
pub fn byte_to_digit(b: u8, radix: u32) -> (r: Option<u32>)
    requires
        2 <= radix <= 36,
    ensures
        r == (if is_digit(b, radix) {
            Some(digit_value(b) as u32)
        } else {
            None::<u32>
        }),
{
    let value: u32 = if CH_ZERO <= b && b <= CH_NINE {
        (b - CH_ZERO) as u32
    } else if CH_LOWER_A <= b && b <= CH_LOWER_Z {
        (b - CH_LOWER_A) as u32 + 10
    } else if CH_UPPER_A <= b && b <= CH_UPPER_Z {
        (b - CH_UPPER_A) as u32 + 10
    } else {
        36
    };
    if value < radix {
        Some(value)
    } else {
        None
    }
}

/// The byte that denotes the given digit value: `0`-`9`, then `a`-`z`.
pub open spec fn digit_byte(v: int) -> u8 {
    if v < 10 {
        (CH_ZERO + v) as u8
    } else {
        (CH_LOWER_A + (v - 10)) as u8
    }
}

/// Write a digit value as its byte, lowercase for values above 9.
pub fn digit_to_byte(v: u32) -> (r: u8)
    requires
        v < 36,
    ensures
        r == digit_byte(v as int),
        is_digit(r, 36),
        digit_value(r) == v,
{
    if v < 10 {
        CH_ZERO + (v as u8)
    } else {
        CH_LOWER_A + ((v - 10) as u8)
    }
}

} // verus!
