//! Binary floating-point values, handled through their IEEE-754 bit
//! patterns.
//!
//! [`Float32`] and [`Float64`] wrap the raw bits of a 32- or 64-bit
//! float.  Every attribute the conversion engine consumes — sign,
//! mantissa, unbiased exponent, classification — is read out of the bits
//! with plain integer arithmetic, so the whole engine works on exact
//! values.  A finite non-zero float stands for the rational number
//! `mantissa * 2^exponent`.

use vstd::prelude::*;
use vstd::arithmetic::power2::pow2;

verus! {

/// A 32-bit IEEE-754 float, as its raw bits.
#[derive(Clone, Copy, PartialEq, Eq, Structural, Debug)]
pub struct Float32 {
    bits: u32,
}

/// A 64-bit IEEE-754 float, as its raw bits.
#[derive(Clone, Copy, PartialEq, Eq, Structural, Debug)]
pub struct Float64 {
    bits: u64,
}

// Field extraction from the 32-bit pattern: 1 sign bit, 8 exponent
// bits, 23 mantissa bits.

/// The sign bit of a 32-bit pattern: 0 or 1.
pub open spec fn f32_sign_field(bits: u32) -> int {
    (bits as int) / 0x8000_0000
}

/// The biased exponent field of a 32-bit pattern: 0 to 255.
pub open spec fn f32_exp_field(bits: u32) -> int {
    ((bits as int) / 0x80_0000) % 0x100
}

/// The mantissa field of a 32-bit pattern: 23 bits.
pub open spec fn f32_man_field(bits: u32) -> int {
    (bits as int) % 0x80_0000
}

/// The sign bit of a 64-bit pattern: 0 or 1.
pub open spec fn f64_sign_field(bits: u64) -> int {
    (bits as int) / 0x8000_0000_0000_0000
}

/// The biased exponent field of a 64-bit pattern: 0 to 2047.
pub open spec fn f64_exp_field(bits: u64) -> int {
    ((bits as int) / 0x10_0000_0000_0000) % 0x800
}

/// The mantissa field of a 64-bit pattern: 52 bits.
pub open spec fn f64_man_field(bits: u64) -> int {
    (bits as int) % 0x10_0000_0000_0000
}

// Classification.

pub open spec fn f32_is_negative(bits: u32) -> bool {
    f32_sign_field(bits) == 1
}

pub open spec fn f32_is_zero(bits: u32) -> bool {
    f32_exp_field(bits) == 0 && f32_man_field(bits) == 0
}

pub open spec fn f32_is_nan(bits: u32) -> bool {
    f32_exp_field(bits) == 0xFF && f32_man_field(bits) != 0
}

pub open spec fn f32_is_infinite(bits: u32) -> bool {
    f32_exp_field(bits) == 0xFF && f32_man_field(bits) == 0
}

pub open spec fn f32_is_finite_nonzero(bits: u32) -> bool {
    f32_exp_field(bits) != 0xFF && !f32_is_zero(bits)
}

pub open spec fn f64_is_negative(bits: u64) -> bool {
    f64_sign_field(bits) == 1
}

pub open spec fn f64_is_zero(bits: u64) -> bool {
    f64_exp_field(bits) == 0 && f64_man_field(bits) == 0
}

pub open spec fn f64_is_nan(bits: u64) -> bool {
    f64_exp_field(bits) == 0x7FF && f64_man_field(bits) != 0
}

pub open spec fn f64_is_infinite(bits: u64) -> bool {
    f64_exp_field(bits) == 0x7FF && f64_man_field(bits) == 0
}

pub open spec fn f64_is_finite_nonzero(bits: u64) -> bool {
    f64_exp_field(bits) != 0x7FF && !f64_is_zero(bits)
}

// The rational a finite float stands for, as mantissa * 2^exponent.

/// The full mantissa of a finite 32-bit float, hidden bit included.
pub open spec fn f32_mantissa(bits: u32) -> int {
    if f32_exp_field(bits) == 0 {
        f32_man_field(bits)
    } else {
        f32_man_field(bits) + 0x80_0000
    }
}

/// The binary exponent of a finite 32-bit float, scaled so the value is
/// `f32_mantissa * 2^f32_exponent`.
pub open spec fn f32_exponent(bits: u32) -> int {
    if f32_exp_field(bits) == 0 {
        -149
    } else {
        f32_exp_field(bits) - 150
    }
}

/// The full mantissa of a finite 64-bit float, hidden bit included.
pub open spec fn f64_mantissa(bits: u64) -> int {
    if f64_exp_field(bits) == 0 {
        f64_man_field(bits)
    } else {
        f64_man_field(bits) + 0x10_0000_0000_0000
    }
}

/// The binary exponent of a finite 64-bit float, scaled so the value is
/// `f64_mantissa * 2^f64_exponent`.
pub open spec fn f64_exponent(bits: u64) -> int {
    if f64_exp_field(bits) == 0 {
        -1074
    } else {
        f64_exp_field(bits) - 1075
    }
}

/// The value of a finite 32-bit float, scaled by 2^149 so that it is an
/// integer; the sign is not applied.
pub open spec fn f32_scaled_value(bits: u32) -> int {
    f32_mantissa(bits) * pow2((f32_exponent(bits) + 149) as nat)
}

/// The value of a finite 64-bit float, scaled by 2^1074 so that it is an
/// integer; the sign is not applied.
pub open spec fn f64_scaled_value(bits: u64) -> int {
    f64_mantissa(bits) * pow2((f64_exponent(bits) + 1074) as nat)
}

impl Float32 {
    /// Wrap a raw 32-bit pattern.
    pub fn from_bits(bits: u32) -> (r: Float32)
        ensures
            r.spec_bits() == bits,
    {
        Float32 { bits }
    }

    /// The raw bit pattern.
    pub fn to_bits(self) -> (r: u32)
        ensures
            r == self.spec_bits(),
    {
        self.bits
    }

    /// The raw bit pattern, at the spec level.
    pub closed spec fn spec_bits(self) -> u32 {
        self.bits
    }
}

impl Float64 {
    /// Wrap a raw 64-bit pattern.
    pub fn from_bits(bits: u64) -> (r: Float64)
        ensures
            r.spec_bits() == bits,
    {
        Float64 { bits }
    }

    /// The raw bit pattern.
    pub fn to_bits(self) -> (r: u64)
        ensures
            r == self.spec_bits(),
    {
        self.bits
    }

    /// The raw bit pattern, at the spec level.
    pub closed spec fn spec_bits(self) -> u64 {
        self.bits
    }
}

/// Classification of a float before any numeric algorithm runs.
#[derive(Clone, Copy, PartialEq, Eq, Structural, Debug)]
pub enum FloatKind {
    /// Positive or negative zero.
    Zero,
    /// Finite and non-zero.
    Finite,
    /// Positive or negative infinity.
    Infinite,
    /// Not a number.
    Nan,
}

/// A float taken apart: sign, classification, and for finite non-zero
/// values the exact pair `mantissa * 2^exponent`, together with the
/// boundary shape the digit generator needs.
#[derive(Clone, Copy, PartialEq, Eq, Structural, Debug)]
pub struct FloatParts {
    /// The sign bit.
    pub negative: bool,
    /// The classification.
    pub kind: FloatKind,
    /// The full mantissa, hidden bit included; 0 unless finite non-zero.
    pub mantissa: u64,
    /// The binary exponent; 0 unless finite non-zero.
    pub exponent: i32,
    /// Whether the gap to the previous representable float is half the
    /// gap to the next one (an exact power of two above the smallest
    /// normal exponent).
    pub lower_is_half: bool,
}

/// The parts a 32-bit pattern decodes to.
pub open spec fn f32_parts_spec(bits: u32) -> FloatParts {
    FloatParts {
        negative: f32_is_negative(bits),
        kind: if f32_is_nan(bits) {
            FloatKind::Nan
        } else if f32_is_infinite(bits) {
            FloatKind::Infinite
        } else if f32_is_zero(bits) {
            FloatKind::Zero
        } else {
            FloatKind::Finite
        },
        mantissa: if f32_is_finite_nonzero(bits) {
            f32_mantissa(bits) as u64
        } else {
            0
        },
        exponent: if f32_is_finite_nonzero(bits) {
            f32_exponent(bits) as i32
        } else {
            0
        },
        lower_is_half: f32_is_finite_nonzero(bits) && f32_man_field(bits) == 0 && f32_exp_field(
            bits,
        ) > 1,
    }
}

/// The parts a 64-bit pattern decodes to.
pub open spec fn f64_parts_spec(bits: u64) -> FloatParts {
    FloatParts {
        negative: f64_is_negative(bits),
        kind: if f64_is_nan(bits) {
            FloatKind::Nan
        } else if f64_is_infinite(bits) {
            FloatKind::Infinite
        } else if f64_is_zero(bits) {
            FloatKind::Zero
        } else {
            FloatKind::Finite
        },
        mantissa: if f64_is_finite_nonzero(bits) {
            f64_mantissa(bits) as u64
        } else {
            0
        },
        exponent: if f64_is_finite_nonzero(bits) {
            f64_exponent(bits) as i32
        } else {
            0
        },
        lower_is_half: f64_is_finite_nonzero(bits) && f64_man_field(bits) == 0 && f64_exp_field(
            bits,
        ) > 1,
    }
}

/// What `FloatParts` must look like when read out of a 32-bit pattern.
pub open spec fn f32_parts_ok(bits: u32, p: FloatParts) -> bool {
    &&& p.negative == f32_is_negative(bits)
    &&& p.kind == (if f32_is_nan(bits) {
        FloatKind::Nan
    } else if f32_is_infinite(bits) {
        FloatKind::Infinite
    } else if f32_is_zero(bits) {
        FloatKind::Zero
    } else {
        FloatKind::Finite
    })
    &&& f32_is_finite_nonzero(bits) ==> {
        &&& p.mantissa == f32_mantissa(bits)
        &&& p.exponent == f32_exponent(bits)
        &&& 0 < p.mantissa < 0x100_0000
        &&& -149 <= p.exponent <= 104
        &&& p.lower_is_half == (f32_man_field(bits) == 0 && f32_exp_field(bits) > 1)
    }
}

/// What `FloatParts` must look like when read out of a 64-bit pattern.
pub open spec fn f64_parts_ok(bits: u64, p: FloatParts) -> bool {
    &&& p.negative == f64_is_negative(bits)
    &&& p.kind == (if f64_is_nan(bits) {
        FloatKind::Nan
    } else if f64_is_infinite(bits) {
        FloatKind::Infinite
    } else if f64_is_zero(bits) {
        FloatKind::Zero
    } else {
        FloatKind::Finite
    })
    &&& f64_is_finite_nonzero(bits) ==> {
        &&& p.mantissa == f64_mantissa(bits)
        &&& p.exponent == f64_exponent(bits)
        &&& 0 < p.mantissa < 0x20_0000_0000_0000
        &&& -1074 <= p.exponent <= 971
        &&& p.lower_is_half == (f64_man_field(bits) == 0 && f64_exp_field(bits) > 1)
    }
}

/// Take a 32-bit float apart.
pub fn decode32(f: Float32) -> (p: FloatParts)
    ensures
        f32_parts_ok(f.spec_bits(), p),
        p == f32_parts_spec(f.spec_bits()),
{
    let bits = f.to_bits();
    let sign = bits / 0x8000_0000;
    let exp_field = (bits / 0x80_0000) % 0x100;
    let man_field = bits % 0x80_0000;
    let negative = sign == 1;
    if exp_field == 0xFF {
        if man_field != 0 {
            FloatParts {
                negative,
                kind: FloatKind::Nan,
                mantissa: 0,
                exponent: 0,
                lower_is_half: false,
            }
        } else {
            FloatParts {
                negative,
                kind: FloatKind::Infinite,
                mantissa: 0,
                exponent: 0,
                lower_is_half: false,
            }
        }
    } else if exp_field == 0 && man_field == 0 {
        FloatParts {
            negative,
            kind: FloatKind::Zero,
            mantissa: 0,
            exponent: 0,
            lower_is_half: false,
        }
    } else if exp_field == 0 {
        FloatParts {
            negative,
            kind: FloatKind::Finite,
            mantissa: man_field as u64,
            exponent: -149,
            lower_is_half: false,
        }
    } else {
        FloatParts {
            negative,
            kind: FloatKind::Finite,
            mantissa: (man_field + 0x80_0000) as u64,
            exponent: exp_field as i32 - 150,
            lower_is_half: man_field == 0 && exp_field > 1,
        }
    }
}

/// Take a 64-bit float apart.
pub fn decode64(f: Float64) -> (p: FloatParts)
    ensures
        f64_parts_ok(f.spec_bits(), p),
        p == f64_parts_spec(f.spec_bits()),
{
    let bits = f.to_bits();
    let sign = bits / 0x8000_0000_0000_0000;
    let exp_field = (bits / 0x10_0000_0000_0000) % 0x800;
    let man_field = bits % 0x10_0000_0000_0000;
    let negative = sign == 1;
    if exp_field == 0x7FF {
        if man_field != 0 {
            FloatParts {
                negative,
                kind: FloatKind::Nan,
                mantissa: 0,
                exponent: 0,
                lower_is_half: false,
            }
        } else {
            FloatParts {
                negative,
                kind: FloatKind::Infinite,
                mantissa: 0,
                exponent: 0,
                lower_is_half: false,
            }
        }
    } else if exp_field == 0 && man_field == 0 {
        FloatParts {
            negative,
            kind: FloatKind::Zero,
            mantissa: 0,
            exponent: 0,
            lower_is_half: false,
        }
    } else if exp_field == 0 {
        FloatParts {
            negative,
            kind: FloatKind::Finite,
            mantissa: man_field,
            exponent: -1074,
            lower_is_half: false,
        }
    } else {
        FloatParts {
            negative,
            kind: FloatKind::Finite,
            mantissa: man_field + 0x10_0000_0000_0000,
            exponent: exp_field as i32 - 1075,
            lower_is_half: man_field == 0 && exp_field > 1,
        }
    }
}

/// Put together a 32-bit pattern from sign and fields.
pub fn assemble32(negative: bool, exp_field: u32, man_field: u32) -> (r: Float32)
    requires
        exp_field < 0x100,
        man_field < 0x80_0000,
    ensures
        f32_sign_field(r.spec_bits()) == (if negative {
            1int
        } else {
            0int
        }),
        f32_exp_field(r.spec_bits()) == exp_field,
        f32_man_field(r.spec_bits()) == man_field,
{
    let sign: u32 = if negative {
        1
    } else {
        0
    };
    let bits: u32 = sign * 0x8000_0000 + exp_field * 0x80_0000 + man_field;
    proof {
        assert(f32_sign_field(bits) == sign && f32_exp_field(bits) == exp_field
            && f32_man_field(bits) == man_field) by (nonlinear_arith)
            requires
                bits == sign * 0x8000_0000 + exp_field * 0x80_0000 + man_field,
                sign <= 1,
                exp_field < 0x100,
                man_field < 0x80_0000,
        ;
    }
    Float32 { bits }
}

/// Put together a 64-bit pattern from sign and fields.
pub fn assemble64(negative: bool, exp_field: u64, man_field: u64) -> (r: Float64)
    requires
        exp_field < 0x800,
        man_field < 0x10_0000_0000_0000,
    ensures
        f64_sign_field(r.spec_bits()) == (if negative {
            1int
        } else {
            0int
        }),
        f64_exp_field(r.spec_bits()) == exp_field,
        f64_man_field(r.spec_bits()) == man_field,
{
    let sign: u64 = if negative {
        1
    } else {
        0
    };
    let bits: u64 = sign * 0x8000_0000_0000_0000 + exp_field * 0x10_0000_0000_0000 + man_field;
    proof {
        assert(f64_sign_field(bits) == sign && f64_exp_field(bits) == exp_field
            && f64_man_field(bits) == man_field) by (nonlinear_arith)
            requires
                bits == sign * 0x8000_0000_0000_0000 + exp_field * 0x10_0000_0000_0000
                    + man_field,
                sign <= 1,
                exp_field < 0x800,
                man_field < 0x10_0000_0000_0000,
        ;
    }
    Float64 { bits }
}

} // verus!
