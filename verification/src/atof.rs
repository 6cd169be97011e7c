//! The string-to-float parse path.
//!
//! The front of the input is first matched against the configured
//! special spellings; otherwise the digits, the optional fraction and
//! the optional exponent are scanned, and the digit string is turned
//! into the nearest representable binary float.  The conversion is
//! exact: the digit string and the power of the radix become one big
//! rational, the quotient is developed bit by bit to the width's
//! precision, and the remainder decides the final round-to-nearest,
//! ties-to-even step.  No approximation path is taken, so the result is
//! the correctly rounded float for every input.

use vstd::prelude::*;
use vstd::arithmetic::power2::pow2;
use crate::bignum::Bigint;
use crate::digit::byte_to_digit;
use crate::digit::is_digit;
use crate::float::Float32;
use crate::float::Float64;
use crate::ftoa::CH_DOT;
use crate::ftoa::CH_MINUS;

verus! {

/// ASCII `+`.
pub const CH_PLUS: u8 = 43;

/// The most significant digits the conversion keeps exactly; anything
/// further from the point only sets the sticky flag, which can only
/// matter on an exact rounding tie.
pub const MAX_SIG_DIGITS: usize = 800;

/// What the front of the input turned out to be.
#[derive(Clone, Copy, PartialEq, Eq, Structural, Debug)]
pub enum ScanKind {
    /// The configured NaN spelling.
    Nan,
    /// One of the configured infinity spellings.
    Infinite,
    /// A digit string, possibly empty.
    Number,
}

/// The scanned front of the input: sign, classification, significant
/// digits and scaled exponent.
pub struct ScanResult {
    /// A leading minus sign was consumed.
    pub negative: bool,
    /// Special spelling or number.
    pub kind: ScanKind,
    /// Significant digit values, leading and trailing zeros stripped;
    /// empty means the value is zero (or certainly underflows).
    pub digits: Vec<u8>,
    /// The power of the radix the digit string is scaled by.
    pub exponent: i32,
    /// Dropped digits held a non-zero value.
    pub sticky: bool,
    /// The value certainly overflows every supported width.
    pub huge: bool,
    /// At least one digit byte was consumed.
    pub any_digits: bool,
    /// How many input bytes were consumed.
    pub consumed: usize,
}

/// The scan's structural promises.
pub open spec fn scan_ok(r: ScanResult, bytes: Seq<u8>, radix: u32) -> bool {
    &&& r.consumed <= bytes.len()
    &&& forall|i: int| 0 <= i < r.digits@.len() ==> (r.digits@[i] as u32) < radix
    &&& r.digits@.len() <= MAX_SIG_DIGITS
    &&& r.digits@.len() > 0 ==> r.digits@[0] != 0 && r.digits@[r.digits@.len() - 1] != 0
    &&& -1880 <= r.exponent <= 1026
    &&& (!r.huge ==> r.exponent <= 1025)
}

/// The input is one or more digit bytes and none of the configured
/// special spellings opens with a digit, so the whole input must be
/// consumed as one plain number.
pub open spec fn all_digit_input(
    bytes: Seq<u8>,
    radix: u32,
    nan: Seq<u8>,
    inf: Seq<u8>,
    infinity: Seq<u8>,
) -> bool {
    &&& bytes.len() > 0
    &&& forall|i: int| 0 <= i < bytes.len() ==> is_digit(#[trigger] bytes[i], radix)
    &&& nan.len() > 0 && !is_digit(nan[0], radix)
    &&& inf.len() > 0 && !is_digit(inf[0], radix)
    &&& infinity.len() > 0 && !is_digit(infinity[0], radix)
}

/// The numeric value of a string of digit bytes in the given radix.
pub open spec fn bytes_digit_value(s: Seq<u8>, radix: u32) -> nat
    decreases s.len(),
{
    if s.len() == 0 {
        0
    } else {
        bytes_digit_value(s.drop_last(), radix) * (radix as nat) + (crate::digit::digit_value(
            s.last(),
        ) as nat)
    }
}

/// Reading one more digit byte multiplies the value and adds it.
proof fn lemma_bytes_digit_value_step(s: Seq<u8>, radix: u32, i: int)
    requires
        0 <= i < s.len(),
    ensures
        bytes_digit_value(s.take(i + 1), radix) == bytes_digit_value(s.take(i), radix) * (
        radix as nat) + (crate::digit::digit_value(s[i]) as nat),
{
    assert(s.take(i + 1).drop_last() =~= s.take(i));
    assert(s.take(i + 1).last() == s[i]);
}

/// Whether the input continues with the given spelling at a position.
fn matches_at(bytes: &[u8], at: usize, pat: &Vec<u8>) -> (r: bool)
    requires
        at <= bytes@.len(),
    ensures
        r == (at + pat@.len() <= bytes@.len() && bytes@.subrange(
            at as int,
            at + pat@.len(),
        ) == pat@),
{
    let blen = bytes.len();
    if pat.len() > blen - at {
        return false;
    }
    let mut i: usize = 0;
    while i < pat.len()
        invariant
            i <= pat@.len(),
            blen == bytes@.len(),
            at + pat@.len() <= blen,
            forall|j: int| 0 <= j < i ==> bytes@[at + j] == pat@[j],
        decreases pat@.len() - i,
    {
        if bytes[at + i] != pat[i] {
            proof {
                assert(bytes@.subrange(at as int, at + pat@.len())[i as int] != pat@[i as int]);
            }
            return false;
        }
        i = i + 1;
    }
    proof {
        assert(bytes@.subrange(at as int, at + pat@.len()) =~= pat@);
    }
    true
}

/// Scan sign, special spellings, digits, fraction and exponent from
/// the front of the input.  A non-zero `digit_separator` byte is
/// skipped wherever it stands strictly between two digits; anywhere
/// else it ends the number, so a malformed placement surfaces as a
/// parse failure at that offset.
#[verifier::rlimit(60)]
pub fn scan_float(
    bytes: &[u8],
    radix: u32,
    exponent_char: u8,
    digit_separator: u8,
    nan_string: &Vec<u8>,
    inf_string: &Vec<u8>,
    infinity_string: &Vec<u8>,
) -> (r: ScanResult)
    requires
        2 <= radix <= 36,
    ensures
        scan_ok(r, bytes@, radix),
        (bytes@.len() > 0 && bytes@ == nan_string@ && bytes@[0] != CH_MINUS && bytes@[0]
            != CH_PLUS) ==> r.kind == ScanKind::Nan,
        all_digit_input(bytes@, radix, nan_string@, inf_string@, infinity_string@) ==> r.kind
            == ScanKind::Number && r.any_digits && r.consumed == bytes@.len(),
        (all_digit_input(bytes@, radix, nan_string@, inf_string@, infinity_string@) && bytes@.len()
            <= MAX_SIG_DIGITS) ==> !r.sticky && !r.huge && r.exponent >= 0 && digits_value(
            r.digits@,
            radix,
        ) * vstd::arithmetic::power::pow(radix as int, r.exponent as nat) == bytes_digit_value(
            bytes@,
            radix,
        ),
        (bytes@.len() == 0 && nan_string@.len() > 0 && inf_string@.len() > 0
            && infinity_string@.len() > 0) ==> r.kind == ScanKind::Number && !r.any_digits
            && r.consumed == 0 && r.digits@.len() == 0 && !r.huge && !r.negative,
        r.negative == (bytes@.len() > 0 && bytes@[0] == CH_MINUS),
{
    let ghost hh = all_digit_input(bytes@, radix, nan_string@, inf_string@, infinity_string@)
        && bytes@.len() <= MAX_SIG_DIGITS;
    proof {
        if all_digit_input(bytes@, radix, nan_string@, inf_string@, infinity_string@) {
            assert(is_digit(bytes@[0], radix));
            assert(bytes@[0] != CH_MINUS && bytes@[0] != CH_PLUS);
        }
    }
    let len = bytes.len();
    let mut idx: usize = 0;
    let mut negative = false;
    if idx < len && (bytes[idx] == CH_MINUS || bytes[idx] == CH_PLUS) {
        negative = bytes[idx] == CH_MINUS;
        idx = idx + 1;
    }
    // Special spellings, the longer infinity first.
    proof {
        if bytes@.len() > 0 && bytes@ == nan_string@ && bytes@[0] != CH_MINUS && bytes@[0]
            != CH_PLUS {
            assert(idx == 0);
            assert(bytes@.subrange(0, nan_string@.len() as int) =~= nan_string@);
        }
    }
    if matches_at(bytes, idx, nan_string) {
        return ScanResult {
            negative,
            kind: ScanKind::Nan,
            digits: Vec::new(),
            exponent: 0,
            sticky: false,
            huge: false,
            any_digits: false,
            consumed: idx + nan_string.len(),
        };
    }
    if matches_at(bytes, idx, infinity_string) {
        return ScanResult {
            negative,
            kind: ScanKind::Infinite,
            digits: Vec::new(),
            exponent: 0,
            sticky: false,
            huge: false,
            any_digits: false,
            consumed: idx + infinity_string.len(),
        };
    }
    if matches_at(bytes, idx, inf_string) {
        return ScanResult {
            negative,
            kind: ScanKind::Infinite,
            digits: Vec::new(),
            exponent: 0,
            sticky: false,
            huge: false,
            any_digits: false,
            consumed: idx + inf_string.len(),
        };
    }
    // Integer digits.
    let mut digits: Vec<u8> = Vec::new();
    let mut dropped_int: usize = 0;
    let mut sticky = false;
    let mut any_digits = false;
    let digit_start = idx;
    proof {
        assert(bytes@.take(0) =~= Seq::<u8>::empty());
    }
    while idx < len && (byte_to_digit(bytes[idx], radix).is_some() || (digit_separator != 0
        && bytes[idx] == digit_separator && any_digits && idx + 1 < len && byte_to_digit(
        bytes[idx + 1],
        radix,
    ).is_some()))
        invariant
            digit_start <= idx <= len,
            len == bytes@.len(),
            2 <= radix <= 36,
            digits@.len() <= MAX_SIG_DIGITS,
            forall|i: int| 0 <= i < digits@.len() ==> (digits@[i] as u32) < radix,
            digits@.len() > 0 ==> digits@[0] != 0,
            dropped_int <= idx,
            any_digits ==> idx > digit_start,
            idx > digit_start ==> any_digits,
            digits@.len() <= idx,
            hh == (all_digit_input(bytes@, radix, nan_string@, inf_string@, infinity_string@)
                && bytes@.len() <= MAX_SIG_DIGITS),
            hh ==> !sticky && dropped_int == 0 && digits_value(digits@, radix)
                == bytes_digit_value(bytes@.take(idx as int), radix),
        decreases len - idx,
    {
        let ghost digits0 = digits@;
        match byte_to_digit(bytes[idx], radix) {
            Some(d) => {
                any_digits = true;
                if digits.len() == 0 && d == 0 {
                    // skip leading zeros
                    proof {
                        if hh {
                            lemma_bytes_digit_value_step(bytes@, radix, idx as int);
                            assert(digits_value(digits@, radix) == 0);
                            assert((0 as nat) * (radix as nat) == 0) by (nonlinear_arith);
                        }
                    }
                } else if digits.len() < MAX_SIG_DIGITS {
                    digits.push(d as u8);
                    proof {
                        if hh {
                            lemma_bytes_digit_value_step(bytes@, radix, idx as int);
                            assert(digits@.drop_last() =~= digits0);
                            assert(digits@.last() == d as u8);
                        }
                    }
                } else {
                    proof {
                        if hh {
                            assert(bytes@.len() <= MAX_SIG_DIGITS);
                            assert(len <= MAX_SIG_DIGITS);
                            assert(digits0.len() >= MAX_SIG_DIGITS);
                            assert(digits0.len() <= idx);
                            assert(idx < len);
                            assert(false);
                        }
                    }
                    dropped_int = dropped_int + 1;
                    if d != 0 {
                        sticky = true;
                    }
                }
            },
            None => {
                // an enabled separator between two digits: skipped
                proof {
                    if hh {
                        assert(all_digit_input(
                            bytes@,
                            radix,
                            nan_string@,
                            inf_string@,
                            infinity_string@,
                        ));
                        assert(0 <= idx < bytes@.len());
                        assert(is_digit(bytes@[idx as int], radix));
                        assert(false);
                    }
                }
            },
        }
        idx = idx + 1;
    }
    proof {
        if hh {
            if idx < len {
                assert(is_digit(bytes@[idx as int], radix));
            }
            assert(idx == len);
            assert(bytes@.take(idx as int) =~= bytes@);
        }
    }
    // Fraction digits, only when the point is followed by a digit.
    let mut frac_sig: usize = 0;
    let mut frac_zeros: usize = 0;
    if idx < len && bytes[idx] == CH_DOT && idx + 1 < len && byte_to_digit(
        bytes[idx + 1],
        radix,
    ).is_some() {
        proof {
            if hh {
                assert(false);
            }
        }
        idx = idx + 1;
        any_digits = true;
        let mut frac_seen = false;
        while idx < len && (byte_to_digit(bytes[idx], radix).is_some() || (digit_separator != 0
            && bytes[idx] == digit_separator && frac_seen && idx + 1 < len && byte_to_digit(
            bytes[idx + 1],
            radix,
        ).is_some()))
            invariant
                idx <= len,
                len == bytes@.len(),
                2 <= radix <= 36,
                digits@.len() <= MAX_SIG_DIGITS,
                forall|i: int| 0 <= i < digits@.len() ==> (digits@[i] as u32) < radix,
                digits@.len() > 0 ==> digits@[0] != 0,
                digits@.len() <= idx,
                frac_sig <= idx,
                frac_zeros <= idx,
                any_digits,
                !hh,
            decreases len - idx,
        {
            match byte_to_digit(bytes[idx], radix) {
                Some(d) => {
                    frac_seen = true;
                    if digits.len() == 0 && d == 0 {
                        if frac_zeros < 100000 {
                            frac_zeros = frac_zeros + 1;
                        }
                    } else if digits.len() < MAX_SIG_DIGITS {
                        digits.push(d as u8);
                        frac_sig = frac_sig + 1;
                    } else {
                        if d != 0 {
                            sticky = true;
                        }
                    }
                },
                None => {
                    // an enabled separator between two digits: skipped
                },
            }
            idx = idx + 1;
        }
    }
    // Exponent, only when its marker is followed by digits.
    let mut exp_val: i64 = 0;
    if any_digits && idx < len && bytes[idx] == exponent_char {
        let mut j = idx + 1;
        let mut exp_neg = false;
        if j < len && (bytes[j] == CH_MINUS || bytes[j] == CH_PLUS) {
            exp_neg = bytes[j] == CH_MINUS;
            j = j + 1;
        }
        if j < len && byte_to_digit(bytes[j], radix).is_some() {
            let mut mag: i64 = 0;
            let mut exp_seen = false;
            while j < len && (byte_to_digit(bytes[j], radix).is_some() || (digit_separator != 0
                && bytes[j] == digit_separator && exp_seen && j + 1 < len && byte_to_digit(
                bytes[j + 1],
                radix,
            ).is_some()))
                invariant
                    idx < j <= len,
                    len == bytes@.len(),
                    2 <= radix <= 36,
                    0 <= mag < 0x40_0000_0000,
                decreases len - j,
            {
                match byte_to_digit(bytes[j], radix) {
                    Some(d) => {
                        exp_seen = true;
                        if mag < 0x1_0000_0000 {
                            proof {
                                assert(mag * (radix as i64) + (d as i64) < 0x40_0000_0000i64)
                                    by (nonlinear_arith)
                                    requires
                                        0 <= mag < 0x1_0000_0000i64,
                                        2 <= radix <= 36u32,
                                        d < 36u32,
                                ;
                                assert(mag * (radix as i64) >= 0) by (nonlinear_arith)
                                    requires
                                        0 <= mag,
                                        2 <= radix <= 36u32,
                                ;
                            }
                            mag = mag * (radix as i64) + (d as i64);
                        }
                    },
                    None => {
                        // an enabled separator between two digits: skipped
                    },
                }
                j = j + 1;
            }
            exp_val = if exp_neg {
                -mag
            } else {
                mag
            };
            idx = j;
        }
    }
    // Strip trailing zero digits into the exponent.
    let mut stripped: usize = 0;
    proof {
        if hh {
            vstd::arithmetic::power::lemma_pow0(radix as int);
            assert(digits_value(digits@, radix) * vstd::arithmetic::power::pow(radix as int, 0)
                == digits_value(digits@, radix)) by (nonlinear_arith)
                requires
                    vstd::arithmetic::power::pow(radix as int, 0) == 1,
            ;
        }
    }
    while digits.len() > 0 && digits[digits.len() - 1] == 0
        invariant
            digits@.len() <= MAX_SIG_DIGITS,
            forall|i: int| 0 <= i < digits@.len() ==> (digits@[i] as u32) < radix,
            digits@.len() > 0 ==> digits@[0] != 0,
            digits@.len() <= idx,
            stripped <= MAX_SIG_DIGITS,
            2 <= radix <= 36,
            hh == (all_digit_input(bytes@, radix, nan_string@, inf_string@, infinity_string@)
                && bytes@.len() <= MAX_SIG_DIGITS),
            hh ==> !sticky && dropped_int == 0 && frac_sig == 0 && frac_zeros == 0 && exp_val == 0
                && stripped + digits@.len() <= MAX_SIG_DIGITS && digits_value(digits@, radix)
                * vstd::arithmetic::power::pow(radix as int, stripped as nat)
                == bytes_digit_value(bytes@, radix),
        decreases digits@.len(),
    {
        let ghost dpre = digits@;
        digits.pop();
        proof {
            if hh {
                assert(digits@ =~= dpre.drop_last());
                assert(digits_value(dpre, radix) == digits_value(digits@, radix) * (radix as nat)
                    + 0);
                vstd::arithmetic::power::lemma_pow_adds(radix as int, stripped as nat, 1);
                vstd::arithmetic::power::lemma_pow1(radix as int);
                assert(digits_value(digits@, radix) * vstd::arithmetic::power::pow(
                    radix as int,
                    (stripped + 1) as nat,
                ) == (digits_value(digits@, radix) * (radix as nat))
                    * vstd::arithmetic::power::pow(radix as int, stripped as nat))
                    by (nonlinear_arith)
                    requires
                        vstd::arithmetic::power::pow(radix as int, (stripped + 1) as nat)
                            == vstd::arithmetic::power::pow(radix as int, stripped as nat) * (
                        radix as int),
                ;
                assert(stripped < MAX_SIG_DIGITS);
            }
        }
        if stripped < MAX_SIG_DIGITS {
            stripped = stripped + 1;
        }
    }
    // The exponent of the radix the digit string is scaled by, then
    // clamped to the band where the exact conversion must run.
    let n = digits.len();
    if n == 0 {
        proof {
            if hh {
                vstd::arithmetic::power::lemma_pow0(radix as int);
                assert(bytes_digit_value(bytes@, radix) == 0) by (nonlinear_arith)
                    requires
                        digits_value(digits@, radix) == 0,
                        digits_value(digits@, radix) * vstd::arithmetic::power::pow(
                            radix as int,
                            stripped as nat,
                        ) == bytes_digit_value(bytes@, radix),
                ;
                assert(digits_value(digits@, radix) * vstd::arithmetic::power::pow(
                    radix as int,
                    0,
                ) == 0) by (nonlinear_arith)
                    requires
                        digits_value(digits@, radix) == 0,
                ;
            }
        }
        return ScanResult {
            negative,
            kind: ScanKind::Number,
            digits,
            exponent: 0,
            sticky: false,
            huge: false,
            any_digits,
            consumed: idx,
        };
    }
    let e_wide: i128 = (exp_val as i128) + (dropped_int as i128) + (stripped as i128) - (
    frac_zeros as i128) - (frac_sig as i128);
    let total: i128 = e_wide + (n as i128);
    proof {
        if hh {
            assert(e_wide == stripped);
            assert(total <= 2 * MAX_SIG_DIGITS && total >= 1);
        }
    }
    if total >= 1026 {
        return ScanResult {
            negative,
            kind: ScanKind::Number,
            digits,
            exponent: 1026,
            sticky,
            huge: true,
            any_digits,
            consumed: idx,
        };
    }
    if total <= -1076 {
        return ScanResult {
            negative,
            kind: ScanKind::Number,
            digits: Vec::new(),
            exponent: 0,
            sticky: true,
            huge: false,
            any_digits,
            consumed: idx,
        };
    }
    let e_small: i32 = (e_wide) as i32;
    proof {
        assert(-1076 - 800 < e_wide < 1026);
    }
    ScanResult {
        negative,
        kind: ScanKind::Number,
        digits,
        exponent: e_small,
        sticky,
        huge: false,
        any_digits,
        consumed: idx,
    }
}

/// The plain value of a run of digit values in the given radix.
pub open spec fn digits_value(s: Seq<u8>, radix: u32) -> nat
    decreases s.len(),
{
    if s.len() == 0 {
        0
    } else {
        digits_value(s.drop_last(), radix) * (radix as nat) + (s.last() as nat)
    }
}

/// Reading one more digit multiplies the value and adds the digit.
proof fn lemma_digits_value_step(s: Seq<u8>, radix: u32, i: int)
    requires
        0 <= i < s.len(),
    ensures
        digits_value(s.take(i + 1), radix) == digits_value(s.take(i), radix) * (radix as nat) + (
        s[i] as nat),
{
    assert(s.take(i + 1).drop_last() =~= s.take(i));
    assert(s.take(i + 1).last() == s[i]);
}

/// The pair `m * 2^e2` is the round-to-nearest, ties-to-even reading
/// of the exact value `digits * radix^e10`, everything scaled by
/// `2^(-min_exp)` so the comparison is pure integer arithmetic: the
/// candidate sits within half of its own unit in the last place of the
/// value, and an exact tie keeps an even mantissa unless dropped
/// digits (`sticky`) broke the tie upward.
pub open spec fn nearest_fit(
    digits: Seq<u8>,
    e10: int,
    radix: u32,
    sticky: bool,
    m: u64,
    e2: int,
    min_exp: int,
) -> bool {
    let d = digits_value(digits, radix) as int;
    let num = d * vstd::arithmetic::power::pow(
        radix as int,
        (if e10 >= 0 {
            e10
        } else {
            0
        }) as nat,
    );
    let den = vstd::arithmetic::power::pow(
        radix as int,
        (if e10 >= 0 {
            0
        } else {
            -e10
        }) as nat,
    );
    let lhs = num * pow2((-min_exp) as nat);
    let ulp = den * pow2((e2 - min_exp) as nat);
    let rhs = (m as int) * ulp;
    &&& e2 >= min_exp
    &&& 2 * lhs <= 2 * rhs + ulp
    &&& 2 * rhs <= 2 * lhs + ulp
    &&& (2 * lhs == 2 * rhs + ulp && !sticky ==> m % 2 == 0)
    &&& (2 * rhs == 2 * lhs + ulp && !sticky ==> m % 2 == 0)
}

/// The value-level reading of the rounding claim: `m * 2^e2` is the
/// round-to-nearest, ties-to-even reading of the plain integer `v`,
/// stated over integers scaled by `2^(-min_exp)`.
pub open spec fn nearest_value_fit(v: int, m: u64, e2: int, min_exp: int) -> bool {
    let lhs = v * pow2((-min_exp) as nat);
    let ulp = pow2((e2 - min_exp) as nat);
    let rhs = (m as int) * ulp;
    &&& e2 >= min_exp
    &&& 2 * lhs <= 2 * rhs + ulp
    &&& 2 * rhs <= 2 * lhs + ulp
    &&& (2 * lhs == 2 * rhs + ulp ==> m % 2 == 0)
    &&& (2 * rhs == 2 * lhs + ulp ==> m % 2 == 0)
}

/// A rounding claim over a digit string with a non-negative scale and
/// no dropped digits is the same claim over the plain value the digit
/// string denotes.
pub proof fn lemma_fit_of_value(
    digits: Seq<u8>,
    e10: int,
    radix: u32,
    m: u64,
    e2: int,
    min_exp: int,
    v: int,
)
    requires
        2 <= radix <= 36,
        e10 >= 0,
        nearest_fit(digits, e10, radix, false, m, e2, min_exp),
        (digits_value(digits, radix) as int) * vstd::arithmetic::power::pow(
            radix as int,
            e10 as nat,
        ) == v,
    ensures
        nearest_value_fit(v, m, e2, min_exp),
{
    vstd::arithmetic::power::lemma_pow0(radix as int);
    let d = digits_value(digits, radix) as int;
    let pn = vstd::arithmetic::power::pow(radix as int, e10 as nat);
    assert(d * pn * pow2((-min_exp) as nat) == v * pow2((-min_exp) as nat));
    assert((1 as int) * pow2((e2 - min_exp) as nat) == pow2((e2 - min_exp) as nat))
        by (nonlinear_arith);
    assert((m as int) * ((1 as int) * pow2((e2 - min_exp) as nat)) == (m as int) * pow2(
        (e2 - min_exp) as nat,
    )) by (nonlinear_arith);
}

/// The outcome of rounding a positive decimal value into a binary
/// width.
pub enum Rounded {
    /// The value rounds to zero.
    Zero,
    /// The value rounds above the largest finite float.
    Overflow,
    /// The nearest float is `mantissa * 2^exponent`.
    Finite { mantissa: u64, exponent: i32 },
}

/// The rounded mantissa fits the width, and only the lowest exponent
/// may carry an unnormalized mantissa.
pub open spec fn rounded_ok(r: Rounded, prec: u32, min_exp: i32, max_exp: i32) -> bool {
    r matches Rounded::Finite { mantissa, exponent } ==> {
        &&& 1 <= mantissa < (1u64 << prec)
        &&& min_exp <= exponent <= max_exp
        &&& (mantissa < (1u64 << (prec - 1) as u32) ==> exponent == min_exp)
    }
}

/// Round the positive value `digits * radix^exponent` to the nearest
/// float of the given precision, ties to even, exactly.
#[verifier::rlimit(90)]
pub fn round_to_float(
    digits: &Vec<u8>,
    exponent: i32,
    radix: u32,
    sticky: bool,
    prec: u32,
    min_exp: i32,
    max_exp: i32,
) -> (r: Rounded)
    requires
        2 <= radix <= 36,
        1 <= digits@.len() <= MAX_SIG_DIGITS,
        forall|i: int| 0 <= i < digits@.len() ==> (digits@[i] as u32) < radix,
        -1880 <= exponent <= 1025,
        24 <= prec <= 53,
        -1074 <= min_exp <= -149,
        min_exp + 2100 >= max_exp >= 1,
    ensures
        rounded_ok(r, prec, min_exp, max_exp),
        r matches Rounded::Finite { mantissa: m2, exponent: e2 } ==> nearest_fit(
            digits@,
            exponent as int,
            radix,
            sticky,
            m2,
            e2 as int,
            min_exp as int,
        ),
        r is Zero ==> nearest_fit(
            digits@,
            exponent as int,
            radix,
            sticky,
            0u64,
            min_exp as int,
            min_exp as int,
        ),
{
    // The value as one exact fraction num / den.
    let mut num = Bigint::zero();
    let mut i: usize = 0;
    proof {
        assert(digits@.take(0) =~= Seq::<u8>::empty());
    }
    while i < digits.len()
        invariant
            i <= digits@.len(),
            num.wf(),
            2 <= radix <= 36,
            num.value() == digits_value(digits@.take(i as int), radix),
            forall|j: int| 0 <= j < digits@.len() ==> (digits@[j] as u32) < radix,
        decreases digits@.len() - i,
    {
        num.mul_small(radix);
        let d = Bigint::from_u64(digits[i] as u64);
        num.add(&d);
        proof {
            lemma_digits_value_step(digits@, radix, i as int);
        }
        i = i + 1;
    }
    let ghost dv = digits_value(digits@, radix);
    proof {
        assert(digits@.take(digits@.len() as int) =~= digits@);
        assert(num.value() == dv);
    }
    let mut den = Bigint::from_u64(1);
    proof {
        vstd::arithmetic::power::lemma_pow0(radix as int);
        assert(num.value() * vstd::arithmetic::power::pow(radix as int, 0) == num.value())
            by (nonlinear_arith)
            requires
                vstd::arithmetic::power::pow(radix as int, 0) == 1,
        ;
    }
    if exponent >= 0 {
        let mut left = exponent as u32;
        while left > 0
            invariant
                num.wf(),
                2 <= radix <= 36,
                left <= exponent,
                num.value() == dv * vstd::arithmetic::power::pow(
                    radix as int,
                    (exponent - left) as nat,
                ),
            decreases left,
        {
            let ghost nv0 = num.value();
            num.mul_small(radix);
            proof {
                vstd::arithmetic::power::lemma_pow_adds(
                    radix as int,
                    (exponent - left) as nat,
                    1,
                );
                vstd::arithmetic::power::lemma_pow1(radix as int);
                assert((dv * vstd::arithmetic::power::pow(radix as int, (exponent - left) as nat))
                    * radix == dv * vstd::arithmetic::power::pow(
                    radix as int,
                    (exponent - left + 1) as nat,
                )) by (nonlinear_arith)
                    requires
                        vstd::arithmetic::power::pow(radix as int, (exponent - left + 1) as nat)
                            == vstd::arithmetic::power::pow(
                            radix as int,
                            (exponent - left) as nat,
                        ) * radix,
                ;
            }
            left = left - 1;
        }
    } else {
        let mut left = ((-(exponent as i64)) as u64) as u32;
        let ghost ne0 = left as int;
        proof {
            vstd::arithmetic::power::lemma_pow0(radix as int);
        }
        while left > 0
            invariant
                den.wf(),
                den.value() >= 1,
                2 <= radix <= 36,
                left <= ne0,
                den.value() == vstd::arithmetic::power::pow(radix as int, (ne0 - left) as nat),
            decreases left,
        {
            let ghost dnv = den.value();
            den.mul_small(radix);
            proof {
                assert(dnv * radix >= 1) by (nonlinear_arith)
                    requires
                        dnv >= 1,
                        radix >= 2,
                ;
                vstd::arithmetic::power::lemma_pow_adds(radix as int, (ne0 - left) as nat, 1);
                vstd::arithmetic::power::lemma_pow1(radix as int);
            }
            left = left - 1;
        }
    }
    // The exact pieces the rounding claim is stated over.
    let ghost pnum = vstd::arithmetic::power::pow(
        radix as int,
        (if exponent >= 0 {
            exponent as int
        } else {
            0
        }) as nat,
    );
    let ghost pden = vstd::arithmetic::power::pow(
        radix as int,
        (if exponent >= 0 {
            0
        } else {
            -(exponent as int)
        }) as nat,
    );
    proof {
        assert(num.value() == dv * pnum);
        assert(den.value() == pden);
    }
    if num.is_zero() {
        proof {
            vstd::arithmetic::power::lemma_pow_positive(radix as int, (if exponent >= 0 {
                0
            } else {
                -(exponent as int)
            }) as nat);
            vstd::arithmetic::power2::lemma_pow2_pos(0);
            vstd::arithmetic::power2::lemma_pow2_pos((-(min_exp as int)) as nat);
            assert(((dv as int) * pnum) * pow2((-(min_exp as int)) as nat) == 0)
                by (nonlinear_arith)
                requires
                    dv * pnum == 0,
            ;
            assert(pden * pow2(0) >= 1) by (nonlinear_arith)
                requires
                    pden >= 1,
                    pow2(0) >= 1,
            ;
        }
        return Rounded::Zero;
    }
    // Scale the frame to the bottom of the exponent range: the value
    // as scaled / full, with full = den * 2^(e - min_exp).
    let mut scaled = num;
    scaled.mul_pow2(((-(min_exp as i64)) as u64) as u32);
    proof {
        assert(scaled.value() == (dv * pnum) * pow2((-(min_exp as int)) as nat));
    }
    let mut full = den;
    let mut top = full.clone_bn();
    top.mul_pow2(prec);
    let mut e: i32 = min_exp;
    let mut guard: u32 = 0;
    proof {
        vstd::arithmetic::power2::lemma2_to64();
        assert(pden * pow2(0) == pden) by (nonlinear_arith)
            requires
                pow2(0) == 1,
        ;
    }
    // Raise the exponent while the quotient still needs more than
    // `prec` bits.
    while guard < 25000
        invariant
            scaled.wf(),
            full.wf(),
            top.wf(),
            full.value() >= 1,
            top.value() == full.value() * pow2(prec as nat),
            full.value() == pden * pow2((e - min_exp) as nat),
            e > min_exp ==> 2 * scaled.value() >= top.value(),
            min_exp <= e,
            e <= min_exp + guard,
            guard <= 25000,
            max_exp <= min_exp + 2100,
            -1074 <= min_exp <= -149,
        decreases 25000 - guard,
    {
        if !scaled.lt(&top) {
            if e > max_exp {
                return Rounded::Overflow;
            }
            let ghost fv0 = full.value();
            let ghost tv0 = top.value();
            full.mul_small(2);
            top.mul_small(2);
            proof {
                assert(-1074 <= min_exp);
                assert(e <= min_exp + guard);
                assert(guard < 25000);
                assert(e < 0x10000);
                assert(tv0 * 2 == (fv0 * 2) * pow2(prec as nat)) by (nonlinear_arith)
                    requires
                        tv0 == fv0 * pow2(prec as nat),
                ;
                assert(fv0 * 2 >= 1) by (nonlinear_arith)
                    requires
                        fv0 >= 1,
                ;
                vstd::arithmetic::power2::lemma_pow2_adds((e - min_exp) as nat, 1);
                vstd::arithmetic::power2::lemma2_to64();
                assert(fv0 * 2 == pden * pow2((e - min_exp + 1) as nat)) by (nonlinear_arith)
                    requires
                        fv0 == pden * pow2((e - min_exp) as nat),
                        pow2((e - min_exp + 1) as nat) == pow2((e - min_exp) as nat) * 2,
                ;
            }
            e = e + 1;
            guard = guard + 1;
        } else {
            break ;
        }
    }
    if !scaled.lt(&top) {
        // The guarded loop can only stop early beyond every finite
        // exponent.
        return Rounded::Overflow;
    }
    if e > max_exp {
        return Rounded::Overflow;
    }
    let ghost scaled_v = scaled.value();
    let ghost fv = full.value();
    proof {
        assert(scaled_v < fv * pow2(prec as nat));
        assert(e > min_exp ==> 2 * scaled_v >= fv * pow2(prec as nat));
        assert(scaled_v == (dv * pnum) * pow2((-(min_exp as int)) as nat));
        assert(fv == pden * pow2((e - min_exp) as nat));
    }
    // Develop the quotient scaled / full bit by bit, highest first.
    let mut pows: Vec<Bigint> = Vec::new();
    let mut j: usize = 0;
    pows.push(full.clone_bn());
    proof {
        vstd::arithmetic::power2::lemma2_to64();
        assert(fv * pow2(0) == fv) by (nonlinear_arith)
            requires
                pow2(0) == 1,
        ;
    }
    while j + 1 < prec as usize
        invariant
            pows@.len() == j + 1,
            j + 1 <= prec,
            forall|t: int| 0 <= t < pows@.len() ==> (#[trigger] pows@[t]).wf(),
            forall|t: int|
                0 <= t < pows@.len() ==> (#[trigger] pows@[t]).value() == fv * pow2(t as nat),
        decreases prec - j,
    {
        let mut nx = pows[j].clone_bn();
        nx.mul_small(2);
        proof {
            vstd::arithmetic::power2::lemma_pow2_adds(j as nat, 1);
            vstd::arithmetic::power2::lemma2_to64();
            assert((fv * pow2(j as nat)) * 2 == fv * pow2((j + 1) as nat)) by (nonlinear_arith)
                requires
                    pow2((j + 1) as nat) == pow2(j as nat) * 2,
            ;
        }
        pows.push(nx);
        j = j + 1;
    }
    let mut rem = scaled;
    let mut q: u64 = 0;
    // The bit weight 2^j, built by doubling.
    let mut w: u64 = 1;
    let mut t: u32 = 0;
    proof {
        assert((1u64 << 0u32) == 1u64 && (1u64 << 0u32) < 0x20_0000_0000_0000u64) by (bit_vector);
        vstd::arithmetic::power2::lemma2_to64();
    }
    while t + 1 < prec
        invariant
            t + 1 <= prec,
            prec <= 53,
            w == (1u64 << t),
            w as nat == pow2(t as nat),
            (1u64 << t) < 0x20_0000_0000_0000u64,
        decreases prec - t,
    {
        proof {
            assert((1u64 << (t + 1) as u32) == (1u64 << t) * 2 && (1u64 << (t + 1) as u32)
                < 0x20_0000_0000_0000u64) by (bit_vector)
                requires
                    t + 1 < 53u32,
                    (1u64 << t) < 0x20_0000_0000_0000u64,
            ;
            vstd::arithmetic::power2::lemma_pow2_adds(t as nat, 1);
            vstd::arithmetic::power2::lemma2_to64();
        }
        w = w * 2;
        t = t + 1;
    }
    proof {
        assert(w == (1u64 << (prec - 1) as u32)) by (bit_vector)
            requires
                w == (1u64 << t),
                t + 1 == prec || (t == 0 && prec == t + 1),
                t < 53u32,
                prec <= 53u32,
                t + 1 >= prec,
        ;
        assert(w as nat == pow2((prec - 1) as nat));
    }
    let mut bit: usize = prec as usize;
    proof {
        assert(q + (1u64 << (prec as usize) as u32) <= (1u64 << prec)) by (bit_vector)
            requires
                q == 0u64,
                prec <= 53u32,
        ;
    }
    proof {
        vstd::arithmetic::power2::lemma2_to64();
        assert((q as nat) * fv == 0) by (nonlinear_arith)
            requires
                q == 0u64,
        ;
    }
    while bit > 0
        invariant
            bit <= prec,
            24 <= prec <= 53,
            rem.wf(),
            pows@.len() == prec,
            forall|x: int| 0 <= x < pows@.len() ==> (#[trigger] pows@[x]).wf(),
            forall|x: int|
                0 <= x < pows@.len() ==> (#[trigger] pows@[x]).value() == fv * pow2(x as nat),
            bit >= 1 ==> w == (1u64 << (bit - 1) as u32),
            bit >= 1 ==> w as nat == pow2((bit - 1) as nat),
            q + (1u64 << bit as u32) <= (1u64 << prec),
            (q as nat) * fv + rem.value() == scaled_v,
            rem.value() < fv * pow2(bit as nat),
        decreases bit,
    {
        let p = bit - 1;
        proof {
            assert((1u64 << (bit - 1) as u32) <= (1u64 << bit as u32) && (1u64 << bit as u32)
                <= (1u64 << prec) && (1u64 << prec) <= 0x20_0000_0000_0000u64 && (1u64 << (bit
                - 1) as u32) * 2 == (1u64 << bit as u32)) by (bit_vector)
                requires
                    1 <= bit <= prec,
                    prec <= 53u32,
            ;
            if bit >= 2 {
                assert((1u64 << (bit - 1) as u32) / 2 == (1u64 << (bit - 2) as u32))
                    by (bit_vector)
                    requires
                        2 <= bit <= 53usize,
                ;
            }
            vstd::arithmetic::power2::lemma_pow2_adds(p as nat, 1);
            vstd::arithmetic::power2::lemma2_to64();
            assert(pow2(bit as nat) == pow2(p as nat) * 2);
        }
        let ghost fp = pows@[p as int].value();
        if !rem.lt(&pows[p]) {
            let ghost q0 = q as nat;
            let ghost rem0 = rem.value();
            rem.sub(&pows[p]);
            q = q + w;
            proof {
                assert((q0 + pow2(p as nat)) * fv + (rem0 - fp) == q0 * fv + rem0)
                    by (nonlinear_arith)
                    requires
                        fp == fv * pow2(p as nat),
                ;
                assert(rem0 - fp < fv * pow2(p as nat)) by (nonlinear_arith)
                    requires
                        rem0 < fv * pow2(bit as nat),
                        pow2(bit as nat) == pow2(p as nat) * 2,
                        fp == fv * pow2(p as nat),
                ;
            }
        } else {
            proof {
                assert(rem.value() < fv * pow2(p as nat));
            }
        }
        w = w / 2;
        bit = p;
        proof {
            if bit >= 1 {
                vstd::arithmetic::power2::lemma_pow2_adds((bit - 1) as nat, 1);
                assert(pow2(bit as nat) == pow2((bit - 1) as nat) * 2);
                assert((pow2((bit - 1) as nat) * 2) / 2 == pow2((bit - 1) as nat)) by {
                    vstd::arithmetic::div_mod::lemma_div_multiples_vanish(
                        pow2((bit - 1) as nat) as int,
                        2,
                    );
                }
            }
        }
    }
    let ghost rem_v = rem.value();
    proof {
        vstd::arithmetic::power2::lemma2_to64();
        assert(rem_v < fv) by (nonlinear_arith)
            requires
                rem_v < fv * pow2(0),
                pow2(0) == 1,
        ;
    }
    proof {
        assert(q < (1u64 << prec) && (1u64 << 0u32) == 1u64) by (bit_vector)
            requires
                q + (1u64 << 0u32) <= (1u64 << prec),
        ;
    }
    // Round to nearest, ties to even; dropped digits act as an extra
    // speck beyond the remainder.
    let mut twice = rem.clone_bn();
    twice.mul_small(2);
    let c = twice.cmp_bn(&pows[0]);
    let round_up = if c == 1 {
        true
    } else if c == 0 {
        sticky || q % 2 == 1
    } else {
        false
    };
    let mut m = if round_up {
        q + 1
    } else {
        q
    };
    proof {
        assert((1u64 << prec) <= 0x20_0000_0000_0000u64) by (bit_vector)
            requires
                24 <= prec <= 53u32,
        ;
        assert((1u64 << (prec - 1) as u32) * 2 == (1u64 << prec)) by (bit_vector)
            requires
                24 <= prec <= 53u32,
        ;
    }
    if m == 0 {
        proof {
            assert(q == 0 && !round_up);
            assert(2 * rem_v <= fv);
            if e > min_exp {
                vstd::arithmetic::power2::lemma_pow2_strictly_increases(0, prec as nat);
                vstd::arithmetic::power2::lemma2_to64();
                assert(false) by (nonlinear_arith)
                    requires
                        2 * scaled_v >= fv * pow2(prec as nat),
                        (q as nat) * fv + rem_v == scaled_v,
                        q == 0u64,
                        2 * rem_v <= fv,
                        fv >= 1,
                        pow2(prec as nat) >= 2,
                ;
            }
            let lhs = ((dv as int) * pnum) * pow2((-(min_exp as int)) as nat);
            let ulp = pden * pow2((e as int - min_exp) as nat);
            assert(lhs == scaled_v);
            assert(ulp == fv);
            assert(2 * lhs <= 2 * ((0u64 as int) * ulp) + ulp && 2 * ((0u64 as int) * ulp) <= 2
                * lhs + ulp) by (nonlinear_arith)
                requires
                    lhs == scaled_v,
                    (q as nat) * fv + rem_v == scaled_v,
                    q == 0u64,
                    2 * rem_v <= fv,
                    ulp == fv,
            ;
            if 2 * lhs == 2 * ((0u64 as int) * ulp) + ulp {
            }
        }
        return Rounded::Zero;
    }
    // A carry out of the top bit moves up one exponent.
    let limit: u64 = {
        let mut l: u64 = 1;
        let mut t2: u32 = 0;
        while t2 < prec
            invariant
                t2 <= prec,
                prec <= 53,
                l == (1u64 << t2),
                (1u64 << t2) <= 0x20_0000_0000_0000u64,
            decreases prec - t2,
        {
            proof {
                assert((1u64 << t2) <= 0x10_0000_0000_0000u64) by (bit_vector)
                    requires
                        t2 < 53u32,
                ;
                assert((1u64 << (t2 + 1) as u32) == (1u64 << t2) * 2 && (1u64 << (t2 + 1) as u32)
                    <= 0x20_0000_0000_0000u64) by (bit_vector)
                    requires
                        t2 + 1 <= 53u32,
                        (1u64 << t2) <= 0x10_0000_0000_0000u64,
                ;
            }
            l = l * 2;
            t2 = t2 + 1;
        }
        l
    };
    if m >= limit {
        let ghost e_old = e as int;
        m = limit / 2;
        e = e + 1;
        if e > max_exp {
            return Rounded::Overflow;
        }
        proof {
            assert((1u64 << prec) / 2 == (1u64 << (prec - 1) as u32)) by (bit_vector)
                requires
                    24 <= prec <= 53u32,
            ;
            assert((1u64 << (prec - 1) as u32) >= 1) by (bit_vector)
                requires
                    24 <= prec <= 53u32,
            ;
            assert((1u64 << (prec - 1) as u32) * 2 == (1u64 << prec)) by (bit_vector)
                requires
                    24 <= prec <= 53u32,
            ;
            // the carried mantissa names the same value with a doubled
            // unit in the last place
            assert(round_up && q + 1 == limit);
            assert(2 * rem_v >= fv);
            vstd::arithmetic::power2::lemma_pow2_adds((e_old - min_exp) as nat, 1);
            let ulp2 = pden * pow2((e as int - min_exp) as nat);
            assert(ulp2 == 2 * fv) by (nonlinear_arith)
                requires
                    fv == pden * pow2((e_old - min_exp) as nat),
                    pow2((e_old - min_exp + 1) as nat) == pow2((e_old - min_exp) as nat) * 2,
                    ulp2 == pden * pow2((e_old - min_exp + 1) as nat),
            ;
            let lhs = ((dv as int) * pnum) * pow2((-(min_exp as int)) as nat);
            assert(lhs == scaled_v);
            assert(2 * lhs <= 2 * ((m as int) * ulp2) + ulp2 && 2 * ((m as int) * ulp2) <= 2 * lhs
                + ulp2 && 2 * lhs != 2 * ((m as int) * ulp2) + ulp2 && (2 * ((m as int) * ulp2)
                == 2 * lhs + ulp2 ==> rem_v == 0)) by (nonlinear_arith)
                requires
                    lhs == scaled_v,
                    (q as nat) * fv + rem_v == scaled_v,
                    rem_v < fv,
                    2 * rem_v >= fv,
                    fv >= 1,
                    ulp2 == 2 * fv,
                    (m as int) * 2 == limit,
                    q + 1 == limit,
            ;
            if 2 * ((m as int) * ulp2) == 2 * lhs + ulp2 {
                assert(rem_v == 0);
                assert(twice.value() == 0);
                assert(c == -1);
            }
        }
        return Rounded::Finite { mantissa: m, exponent: e };
    }
    proof {
        // Below the top of the range the quotient still fills `prec`
        // bits whenever the exponent was raised above the floor: the
        // scaled value then reaches half of `full * 2^prec`, and the
        // division left a remainder below `full`.
        assert((1u64 << prec) / 2 == (1u64 << (prec - 1) as u32)) by (bit_vector)
            requires
                24 <= prec <= 53u32,
        ;
        if e > min_exp {
            vstd::arithmetic::power2::lemma_pow2_adds((prec - 1) as nat, 1);
            vstd::arithmetic::power2::lemma2_to64();
            assert(q as nat >= pow2((prec - 1) as nat)) by (nonlinear_arith)
                requires
                    2 * scaled_v >= fv * pow2(prec as nat),
                    (q as nat) * fv + rem_v == scaled_v,
                    rem_v < fv,
                    fv >= 1,
                    pow2(prec as nat) == pow2((prec - 1) as nat) * 2,
            ;
            assert(m as nat >= pow2((prec - 1) as nat));
            assert((limit / 2) as nat == pow2((prec - 1) as nat)) by {
                assert(limit == (1u64 << prec));
                assert(limit / 2 == (1u64 << (prec - 1) as u32));
                assert((1u64 << (prec - 1) as u32) as nat == pow2((prec - 1) as nat)) by {
                    lemma_shift_is_pow2((prec - 1) as u32);
                }
            }
            assert(m >= limit / 2);
        }
    }
    proof {
        // The rounding step keeps the candidate within half a unit in
        // the last place of the value, ties to even.
        let lhs = ((dv as int) * pnum) * pow2((-(min_exp as int)) as nat);
        let ulp = pden * pow2((e as int - min_exp) as nat);
        assert(lhs == scaled_v);
        assert(ulp == fv);
        if round_up {
            assert(m == q + 1);
            assert(2 * rem_v >= fv);
            assert(2 * lhs <= 2 * ((m as int) * ulp) + ulp && 2 * ((m as int) * ulp) <= 2 * lhs
                + ulp && 2 * lhs != 2 * ((m as int) * ulp) + ulp && (2 * ((m as int) * ulp) == 2
                * lhs + ulp ==> 2 * rem_v == fv)) by (nonlinear_arith)
                requires
                    lhs == scaled_v,
                    (q as nat) * fv + rem_v == scaled_v,
                    rem_v < fv,
                    2 * rem_v >= fv,
                    fv >= 1,
                    ulp == fv,
                    m == q + 1,
            ;
            if 2 * ((m as int) * ulp) == 2 * lhs + ulp && !sticky {
                assert(2 * rem_v == fv);
                assert(twice.value() == fv);
                assert(c == 0);
                assert(q % 2 == 1);
                assert(m % 2 == 0);
            }
        } else {
            assert(m == q);
            assert(2 * rem_v <= fv);
            assert(2 * lhs <= 2 * ((m as int) * ulp) + ulp && 2 * ((m as int) * ulp) <= 2 * lhs
                + ulp && 2 * ((m as int) * ulp) != 2 * lhs + ulp && (2 * lhs == 2 * ((m as int)
                * ulp) + ulp ==> 2 * rem_v == fv)) by (nonlinear_arith)
                requires
                    lhs == scaled_v,
                    (q as nat) * fv + rem_v == scaled_v,
                    rem_v < fv,
                    2 * rem_v <= fv,
                    fv >= 1,
                    ulp == fv,
                    m == q,
            ;
            if 2 * lhs == 2 * ((m as int) * ulp) + ulp && !sticky {
                assert(2 * rem_v == fv);
                assert(twice.value() == fv);
                assert(c == 0);
                assert(q % 2 == 0);
            }
        }
    }
    Rounded::Finite { mantissa: m, exponent: e }
}

/// Shifting one left by a small amount lands on the same power of two.
proof fn lemma_shift_is_pow2(t: u32)
    requires
        t < 53,
    ensures
        (1u64 << t) as nat == pow2(t as nat),
    decreases t,
{
    vstd::arithmetic::power2::lemma2_to64();
    if t == 0 {
        assert((1u64 << 0u32) == 1u64) by (bit_vector);
    } else {
        lemma_shift_is_pow2((t - 1) as u32);
        assert((1u64 << t) == (1u64 << (t - 1) as u32) * 2 && (1u64 << (t - 1) as u32)
            < 0x20_0000_0000_0000u64) by (bit_vector)
            requires
                1 <= t < 53u32,
        ;
        vstd::arithmetic::power2::lemma_pow2_adds((t - 1) as nat, 1);
    }
}

/// Assemble a 32-bit float from a scan outcome.
fn finish32(scan: ScanResult, radix: u32) -> (r: Float32)
    requires
        2 <= radix <= 36,
        forall|i: int| 0 <= i < scan.digits@.len() ==> (scan.digits@[i] as u32) < radix,
        scan.digits@.len() <= MAX_SIG_DIGITS,
        -1880 <= scan.exponent <= 1026,
        !scan.huge ==> scan.exponent <= 1025,
    ensures
        scan.kind == ScanKind::Nan ==> crate::float::f32_is_nan(r.spec_bits()),
        scan.kind == ScanKind::Infinite ==> crate::float::f32_is_infinite(r.spec_bits())
            && crate::float::f32_is_negative(r.spec_bits()) == scan.negative,
        scan.kind == ScanKind::Number && scan.digits@.len() == 0 && !scan.huge
            ==> crate::float::f32_is_zero(r.spec_bits()) && crate::float::f32_is_negative(
            r.spec_bits(),
        ) == scan.negative,
        scan.kind == ScanKind::Number && !scan.huge ==> {
            &&& crate::float::f32_is_negative(r.spec_bits()) == scan.negative
            &&& (crate::float::f32_is_zero(r.spec_bits()) ==> nearest_fit(
                scan.digits@,
                scan.exponent as int,
                radix,
                scan.sticky,
                0u64,
                -149,
                -149,
            ))
            &&& (crate::float::f32_is_finite_nonzero(r.spec_bits()) ==> nearest_fit(
                scan.digits@,
                scan.exponent as int,
                radix,
                scan.sticky,
                crate::float::f32_mantissa(r.spec_bits()) as u64,
                crate::float::f32_exponent(r.spec_bits()),
                -149,
            ))
        },
{
    match scan.kind {
        ScanKind::Nan => crate::float::assemble32(scan.negative, 0xFF, 0x40_0000),
        ScanKind::Infinite => crate::float::assemble32(scan.negative, 0xFF, 0),
        ScanKind::Number => {
            if scan.digits.len() == 0 {
                if scan.huge {
                    crate::float::assemble32(scan.negative, 0xFF, 0)
                } else {
                    let out = crate::float::assemble32(scan.negative, 0, 0);
                    proof {
                        lemma_empty_digits_zero_fit(
                            scan.digits@,
                            scan.exponent as int,
                            radix,
                            scan.sticky,
                            -149,
                        );
                    }
                    out
                }
            } else if scan.huge {
                crate::float::assemble32(scan.negative, 0xFF, 0)
            } else {
                let rounded = round_to_float(
                    &scan.digits,
                    scan.exponent,
                    radix,
                    scan.sticky,
                    24,
                    -149,
                    104,
                );
                match rounded {
                    Rounded::Zero => crate::float::assemble32(scan.negative, 0, 0),
                    Rounded::Overflow => crate::float::assemble32(scan.negative, 0xFF, 0),
                    Rounded::Finite { mantissa, exponent } => {
                        proof {
                            assert((1u64 << 24u32) == 0x100_0000u64 && (1u64 << 23u32)
                                == 0x80_0000u64) by (bit_vector);
                        }
                        if mantissa >= 0x80_0000 {
                            crate::float::assemble32(
                                scan.negative,
                                (exponent + 150) as u32,
                                (mantissa - 0x80_0000) as u32,
                            )
                        } else {
                            crate::float::assemble32(scan.negative, 0, mantissa as u32)
                        }
                    },
                }
            }
        },
    }
}

/// Assemble a 64-bit float from a scan outcome.
fn finish64(scan: ScanResult, radix: u32) -> (r: Float64)
    requires
        2 <= radix <= 36,
        forall|i: int| 0 <= i < scan.digits@.len() ==> (scan.digits@[i] as u32) < radix,
        scan.digits@.len() <= MAX_SIG_DIGITS,
        -1880 <= scan.exponent <= 1026,
        !scan.huge ==> scan.exponent <= 1025,
    ensures
        scan.kind == ScanKind::Nan ==> crate::float::f64_is_nan(r.spec_bits()),
        scan.kind == ScanKind::Infinite ==> crate::float::f64_is_infinite(r.spec_bits())
            && crate::float::f64_is_negative(r.spec_bits()) == scan.negative,
        scan.kind == ScanKind::Number && scan.digits@.len() == 0 && !scan.huge
            ==> crate::float::f64_is_zero(r.spec_bits()) && crate::float::f64_is_negative(
            r.spec_bits(),
        ) == scan.negative,
        scan.kind == ScanKind::Number && !scan.huge ==> {
            &&& crate::float::f64_is_negative(r.spec_bits()) == scan.negative
            &&& (crate::float::f64_is_zero(r.spec_bits()) ==> nearest_fit(
                scan.digits@,
                scan.exponent as int,
                radix,
                scan.sticky,
                0u64,
                -1074,
                -1074,
            ))
            &&& (crate::float::f64_is_finite_nonzero(r.spec_bits()) ==> nearest_fit(
                scan.digits@,
                scan.exponent as int,
                radix,
                scan.sticky,
                crate::float::f64_mantissa(r.spec_bits()) as u64,
                crate::float::f64_exponent(r.spec_bits()),
                -1074,
            ))
        },
{
    match scan.kind {
        ScanKind::Nan => crate::float::assemble64(scan.negative, 0x7FF, 0x8_0000_0000_0000),
        ScanKind::Infinite => crate::float::assemble64(scan.negative, 0x7FF, 0),
        ScanKind::Number => {
            if scan.digits.len() == 0 {
                if scan.huge {
                    crate::float::assemble64(scan.negative, 0x7FF, 0)
                } else {
                    let out = crate::float::assemble64(scan.negative, 0, 0);
                    proof {
                        lemma_empty_digits_zero_fit(
                            scan.digits@,
                            scan.exponent as int,
                            radix,
                            scan.sticky,
                            -1074,
                        );
                    }
                    out
                }
            } else if scan.huge {
                crate::float::assemble64(scan.negative, 0x7FF, 0)
            } else {
                let rounded = round_to_float(
                    &scan.digits,
                    scan.exponent,
                    radix,
                    scan.sticky,
                    53,
                    -1074,
                    971,
                );
                match rounded {
                    Rounded::Zero => crate::float::assemble64(scan.negative, 0, 0),
                    Rounded::Overflow => crate::float::assemble64(scan.negative, 0x7FF, 0),
                    Rounded::Finite { mantissa, exponent } => {
                        proof {
                            assert((1u64 << 53u32) == 0x20_0000_0000_0000u64 && (1u64 << 52u32)
                                == 0x10_0000_0000_0000u64) by (bit_vector);
                        }
                        if mantissa >= 0x10_0000_0000_0000 {
                            crate::float::assemble64(
                                scan.negative,
                                (exponent + 1075) as u64,
                                mantissa - 0x10_0000_0000_0000,
                            )
                        } else {
                            crate::float::assemble64(scan.negative, 0, mantissa)
                        }
                    },
                }
            }
        },
    }
}

/// An empty digit string names the value zero, which the zero mantissa
/// fits exactly.
proof fn lemma_empty_digits_zero_fit(
    digits: Seq<u8>,
    e10: int,
    radix: u32,
    sticky: bool,
    min_exp: int,
)
    requires
        digits.len() == 0,
        2 <= radix <= 36,
    ensures
        nearest_fit(digits, e10, radix, sticky, 0u64, min_exp, min_exp),
{
    vstd::arithmetic::power::lemma_pow_positive(radix as int, (if e10 >= 0 {
        e10
    } else {
        0
    }) as nat);
    vstd::arithmetic::power::lemma_pow_positive(radix as int, (if e10 >= 0 {
        0
    } else {
        -e10
    }) as nat);
    vstd::arithmetic::power2::lemma_pow2_pos((-min_exp) as nat);
    vstd::arithmetic::power2::lemma_pow2_pos((min_exp - min_exp) as nat);
    assert(digits_value(digits, radix) == 0);
    let pn = vstd::arithmetic::power::pow(radix as int, (if e10 >= 0 {
        e10
    } else {
        0
    }) as nat);
    let pd = vstd::arithmetic::power::pow(radix as int, (if e10 >= 0 {
        0
    } else {
        -e10
    }) as nat);
    assert((0 as int) * pn * pow2((-min_exp) as nat) == 0) by (nonlinear_arith);
    assert((0u64 as int) * (pd * pow2((min_exp - min_exp) as nat)) == 0) by (nonlinear_arith);
    assert(pd * pow2((min_exp - min_exp) as nat) >= 1) by (nonlinear_arith)
        requires
            pd >= 1,
            pow2((min_exp - min_exp) as nat) >= 1,
    ;
}

/// Parse the longest valid prefix of the input as a 32-bit float with
/// the default spellings and exponent character; an entirely invalid
/// input reads as zero.
pub fn atof32_slice(radix: u8, bytes: &[u8]) -> (r: Float32)
    requires
        crate::options::valid_radix(radix),
    ensures
        bytes@ == crate::options::default_nan() ==> crate::float::f32_is_nan(r.spec_bits()),
        bytes@.len() == 0 ==> crate::float::f32_is_zero(r.spec_bits()),
        (all_digit_input(
            bytes@,
            radix as u32,
            crate::options::default_nan(),
            crate::options::default_inf(),
            crate::options::default_infinity(),
        ) && bytes@.len() <= MAX_SIG_DIGITS) ==> (!crate::float::f32_is_negative(r.spec_bits()) && (
        crate::float::f32_is_zero(r.spec_bits()) ==> nearest_value_fit(
            bytes_digit_value(bytes@, radix as u32) as int,
            0u64,
            -149,
            -149,
        )) && (crate::float::f32_is_finite_nonzero(r.spec_bits()) ==> nearest_value_fit(
            bytes_digit_value(bytes@, radix as u32) as int,
            crate::float::f32_mantissa(r.spec_bits()) as u64,
            crate::float::f32_exponent(r.spec_bits()),
            -149,
        ))),
{
    let nan: Vec<u8> = vec![crate::options::CH_UPPER_N, 97, crate::options::CH_UPPER_N];
    let inf: Vec<u8> = vec![crate::options::CH_LOWER_I, crate::options::CH_LOWER_N, 102];
    let infinity: Vec<u8> = vec![
        crate::options::CH_LOWER_I,
        crate::options::CH_LOWER_N,
        102,
        crate::options::CH_LOWER_I,
        crate::options::CH_LOWER_N,
        crate::options::CH_LOWER_I,
        116,
        121,
    ];
    proof {
        assert(nan@ =~= crate::options::default_nan());
        assert(inf@ =~= crate::options::default_inf());
        assert(infinity@ =~= crate::options::default_infinity());
    }
    let exponent_char = crate::options::exponent_notation_char(radix as u32);
    let scan = scan_float(bytes, radix as u32, exponent_char, 0, &nan, &inf, &infinity);
    let out = finish32(scan, radix as u32);
    proof {
        if all_digit_input(
            bytes@,
            radix as u32,
            crate::options::default_nan(),
            crate::options::default_inf(),
            crate::options::default_infinity(),
        ) && bytes@.len() <= MAX_SIG_DIGITS {
            let v = bytes_digit_value(bytes@, radix as u32) as int;
            if crate::float::f32_is_zero(out.spec_bits()) {
                lemma_fit_of_value(
                    scan.digits@,
                    scan.exponent as int,
                    radix as u32,
                    0u64,
                    -149,
                    -149,
                    v,
                );
            }
            if crate::float::f32_is_finite_nonzero(out.spec_bits()) {
                lemma_fit_of_value(
                    scan.digits@,
                    scan.exponent as int,
                    radix as u32,
                    crate::float::f32_mantissa(out.spec_bits()) as u64,
                    crate::float::f32_exponent(out.spec_bits()),
                    -149,
                    v,
                );
            }
        }
    }
    out
}

/// Parse the whole input as a 32-bit float, or report the offset of
/// the first byte that stopped the parse.
pub fn try_atof32_slice(radix: u8, bytes: &[u8]) -> (r: Result<Float32, usize>)
    requires
        crate::options::valid_radix(radix),
    ensures
        r matches Err(i) ==> i <= bytes@.len(),
        all_digit_input(
            bytes@,
            radix as u32,
            crate::options::default_nan(),
            crate::options::default_inf(),
            crate::options::default_infinity(),
        ) ==> r is Ok,
        bytes@.len() == 0 ==> r == Err::<Float32, usize>(0usize),
        (all_digit_input(
            bytes@,
            radix as u32,
            crate::options::default_nan(),
            crate::options::default_inf(),
            crate::options::default_infinity(),
        ) && bytes@.len() <= MAX_SIG_DIGITS) ==> (r matches Ok(v) && !crate::float::f32_is_negative(
            v.spec_bits(),
        ) && (crate::float::f32_is_zero(v.spec_bits()) ==> nearest_value_fit(
            bytes_digit_value(bytes@, radix as u32) as int,
            0u64,
            -149,
            -149,
        )) && (crate::float::f32_is_finite_nonzero(v.spec_bits()) ==> nearest_value_fit(
            bytes_digit_value(bytes@, radix as u32) as int,
            crate::float::f32_mantissa(v.spec_bits()) as u64,
            crate::float::f32_exponent(v.spec_bits()),
            -149,
        ))),
{
    let nan: Vec<u8> = vec![crate::options::CH_UPPER_N, 97, crate::options::CH_UPPER_N];
    let inf: Vec<u8> = vec![crate::options::CH_LOWER_I, crate::options::CH_LOWER_N, 102];
    let infinity: Vec<u8> = vec![
        crate::options::CH_LOWER_I,
        crate::options::CH_LOWER_N,
        102,
        crate::options::CH_LOWER_I,
        crate::options::CH_LOWER_N,
        crate::options::CH_LOWER_I,
        116,
        121,
    ];
    proof {
        assert(nan@ =~= crate::options::default_nan());
        assert(inf@ =~= crate::options::default_inf());
        assert(infinity@ =~= crate::options::default_infinity());
    }
    let exponent_char = crate::options::exponent_notation_char(radix as u32);
    let scan = scan_float(bytes, radix as u32, exponent_char, 0, &nan, &inf, &infinity);
    if matches!(scan.kind, ScanKind::Number) && !scan.any_digits {
        return Err(0);
    }
    if scan.consumed != bytes.len() {
        return Err(scan.consumed);
    }
    let out = finish32(scan, radix as u32);
    proof {
        if all_digit_input(
            bytes@,
            radix as u32,
            crate::options::default_nan(),
            crate::options::default_inf(),
            crate::options::default_infinity(),
        ) && bytes@.len() <= MAX_SIG_DIGITS {
            let v = bytes_digit_value(bytes@, radix as u32) as int;
            if crate::float::f32_is_zero(out.spec_bits()) {
                lemma_fit_of_value(
                    scan.digits@,
                    scan.exponent as int,
                    radix as u32,
                    0u64,
                    -149,
                    -149,
                    v,
                );
            }
            if crate::float::f32_is_finite_nonzero(out.spec_bits()) {
                lemma_fit_of_value(
                    scan.digits@,
                    scan.exponent as int,
                    radix as u32,
                    crate::float::f32_mantissa(out.spec_bits()) as u64,
                    crate::float::f32_exponent(out.spec_bits()),
                    -149,
                    v,
                );
            }
        }
    }
    Ok(out)
}

/// Parse the longest valid prefix of the input as a 64-bit float with
/// the default spellings and exponent character; an entirely invalid
/// input reads as zero.
pub fn atof64_slice(radix: u8, bytes: &[u8]) -> (r: Float64)
    requires
        crate::options::valid_radix(radix),
    ensures
        bytes@ == crate::options::default_nan() ==> crate::float::f64_is_nan(r.spec_bits()),
        bytes@.len() == 0 ==> crate::float::f64_is_zero(r.spec_bits()),
        (all_digit_input(
            bytes@,
            radix as u32,
            crate::options::default_nan(),
            crate::options::default_inf(),
            crate::options::default_infinity(),
        ) && bytes@.len() <= MAX_SIG_DIGITS) ==> (!crate::float::f64_is_negative(r.spec_bits()) && (
        crate::float::f64_is_zero(r.spec_bits()) ==> nearest_value_fit(
            bytes_digit_value(bytes@, radix as u32) as int,
            0u64,
            -1074,
            -1074,
        )) && (crate::float::f64_is_finite_nonzero(r.spec_bits()) ==> nearest_value_fit(
            bytes_digit_value(bytes@, radix as u32) as int,
            crate::float::f64_mantissa(r.spec_bits()) as u64,
            crate::float::f64_exponent(r.spec_bits()),
            -1074,
        ))),
{
    let nan: Vec<u8> = vec![crate::options::CH_UPPER_N, 97, crate::options::CH_UPPER_N];
    let inf: Vec<u8> = vec![crate::options::CH_LOWER_I, crate::options::CH_LOWER_N, 102];
    let infinity: Vec<u8> = vec![
        crate::options::CH_LOWER_I,
        crate::options::CH_LOWER_N,
        102,
        crate::options::CH_LOWER_I,
        crate::options::CH_LOWER_N,
        crate::options::CH_LOWER_I,
        116,
        121,
    ];
    proof {
        assert(nan@ =~= crate::options::default_nan());
        assert(inf@ =~= crate::options::default_inf());
        assert(infinity@ =~= crate::options::default_infinity());
    }
    let exponent_char = crate::options::exponent_notation_char(radix as u32);
    let scan = scan_float(bytes, radix as u32, exponent_char, 0, &nan, &inf, &infinity);
    let out = finish64(scan, radix as u32);
    proof {
        if all_digit_input(
            bytes@,
            radix as u32,
            crate::options::default_nan(),
            crate::options::default_inf(),
            crate::options::default_infinity(),
        ) && bytes@.len() <= MAX_SIG_DIGITS {
            let v = bytes_digit_value(bytes@, radix as u32) as int;
            if crate::float::f64_is_zero(out.spec_bits()) {
                lemma_fit_of_value(
                    scan.digits@,
                    scan.exponent as int,
                    radix as u32,
                    0u64,
                    -1074,
                    -1074,
                    v,
                );
            }
            if crate::float::f64_is_finite_nonzero(out.spec_bits()) {
                lemma_fit_of_value(
                    scan.digits@,
                    scan.exponent as int,
                    radix as u32,
                    crate::float::f64_mantissa(out.spec_bits()) as u64,
                    crate::float::f64_exponent(out.spec_bits()),
                    -1074,
                    v,
                );
            }
        }
    }
    out
}

/// Parse the whole input as a 64-bit float, or report the offset of
/// the first byte that stopped the parse.
pub fn try_atof64_slice(radix: u8, bytes: &[u8]) -> (r: Result<Float64, usize>)
    requires
        crate::options::valid_radix(radix),
    ensures
        r matches Err(i) ==> i <= bytes@.len(),
        all_digit_input(
            bytes@,
            radix as u32,
            crate::options::default_nan(),
            crate::options::default_inf(),
            crate::options::default_infinity(),
        ) ==> r is Ok,
        bytes@.len() == 0 ==> r == Err::<Float64, usize>(0usize),
        (all_digit_input(
            bytes@,
            radix as u32,
            crate::options::default_nan(),
            crate::options::default_inf(),
            crate::options::default_infinity(),
        ) && bytes@.len() <= MAX_SIG_DIGITS) ==> (r matches Ok(v) && !crate::float::f64_is_negative(
            v.spec_bits(),
        ) && (crate::float::f64_is_zero(v.spec_bits()) ==> nearest_value_fit(
            bytes_digit_value(bytes@, radix as u32) as int,
            0u64,
            -1074,
            -1074,
        )) && (crate::float::f64_is_finite_nonzero(v.spec_bits()) ==> nearest_value_fit(
            bytes_digit_value(bytes@, radix as u32) as int,
            crate::float::f64_mantissa(v.spec_bits()) as u64,
            crate::float::f64_exponent(v.spec_bits()),
            -1074,
        ))),
{
    let nan: Vec<u8> = vec![crate::options::CH_UPPER_N, 97, crate::options::CH_UPPER_N];
    let inf: Vec<u8> = vec![crate::options::CH_LOWER_I, crate::options::CH_LOWER_N, 102];
    let infinity: Vec<u8> = vec![
        crate::options::CH_LOWER_I,
        crate::options::CH_LOWER_N,
        102,
        crate::options::CH_LOWER_I,
        crate::options::CH_LOWER_N,
        crate::options::CH_LOWER_I,
        116,
        121,
    ];
    proof {
        assert(nan@ =~= crate::options::default_nan());
        assert(inf@ =~= crate::options::default_inf());
        assert(infinity@ =~= crate::options::default_infinity());
    }
    let exponent_char = crate::options::exponent_notation_char(radix as u32);
    let scan = scan_float(bytes, radix as u32, exponent_char, 0, &nan, &inf, &infinity);
    if matches!(scan.kind, ScanKind::Number) && !scan.any_digits {
        return Err(0);
    }
    if scan.consumed != bytes.len() {
        return Err(scan.consumed);
    }
    let out = finish64(scan, radix as u32);
    proof {
        if all_digit_input(
            bytes@,
            radix as u32,
            crate::options::default_nan(),
            crate::options::default_inf(),
            crate::options::default_infinity(),
        ) && bytes@.len() <= MAX_SIG_DIGITS {
            let v = bytes_digit_value(bytes@, radix as u32) as int;
            if crate::float::f64_is_zero(out.spec_bits()) {
                lemma_fit_of_value(
                    scan.digits@,
                    scan.exponent as int,
                    radix as u32,
                    0u64,
                    -1074,
                    -1074,
                    v,
                );
            }
            if crate::float::f64_is_finite_nonzero(out.spec_bits()) {
                lemma_fit_of_value(
                    scan.digits@,
                    scan.exponent as int,
                    radix as u32,
                    crate::float::f64_mantissa(out.spec_bits()) as u64,
                    crate::float::f64_exponent(out.spec_bits()),
                    -1074,
                    v,
                );
            }
        }
    }
    Ok(out)
}

/// Parse a 32-bit float honoring a validated option set: its radix,
/// exponent character, digit separator and special spellings.
pub fn try_atof32_with_options(
    bytes: &[u8],
    options: &crate::options::ParseFloatOptions,
) -> (r: Result<Float32, usize>)
    requires
        options.is_valid(),
    ensures
        r matches Err(i) ==> i <= bytes@.len(),
{
    let radix = options.radix();
    let scan = scan_float(
        bytes,
        radix,
        options.exponent_char(),
        options.format().digit_separator(),
        options.nan_string(),
        options.inf_string(),
        options.infinity_string(),
    );
    if matches!(scan.kind, ScanKind::Number) && !scan.any_digits {
        return Err(0);
    }
    if scan.consumed != bytes.len() {
        return Err(scan.consumed);
    }
    Ok(finish32(scan, radix))
}

/// Parse a 64-bit float honoring a validated option set: its radix,
/// exponent character, digit separator and special spellings.
pub fn try_atof64_with_options(
    bytes: &[u8],
    options: &crate::options::ParseFloatOptions,
) -> (r: Result<Float64, usize>)
    requires
        options.is_valid(),
    ensures
        r matches Err(i) ==> i <= bytes@.len(),
{
    let radix = options.radix();
    let scan = scan_float(
        bytes,
        radix,
        options.exponent_char(),
        options.format().digit_separator(),
        options.nan_string(),
        options.inf_string(),
        options.infinity_string(),
    );
    if matches!(scan.kind, ScanKind::Number) && !scan.any_digits {
        return Err(0);
    }
    if scan.consumed != bytes.len() {
        return Err(scan.consumed);
    }
    Ok(finish64(scan, radix))
}

} // verus!
