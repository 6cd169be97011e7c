//! The float-to-string format path.
//!
//! A positive, finite, non-zero float `mantissa * 2^exponent` is turned
//! into the shortest digit sequence that still identifies the float
//! among its representable neighbors.  The generator brackets the value
//! between the midpoints toward the previous and the next representable
//! float, emits digits of the value in the target radix, and stops as
//! soon as the digits read back inside that bracket; an exact
//! arbitrary-precision accumulator carries every quantity, so the same
//! loop serves every radix from 2 to 36.  Around the generator sit the
//! special-value filter, the sign filter, and the layout step that
//! places the decimal point or switches to exponent notation.

use vstd::prelude::*;
use crate::bignum::Bigint;
use crate::digit::digit_to_byte;
use crate::digit::is_digit;
use crate::float::FloatKind;
use crate::float::FloatParts;
use crate::itoa::u64toa_radix;

verus! {

/// ASCII `-`.
pub const CH_MINUS: u8 = 45;

/// ASCII `.`.
pub const CH_DOT: u8 = 46;

/// ASCII `0`.
pub const CH_DIGIT_ZERO: u8 = 48;

/// The published maximum output size for a 32-bit float, any radix.
pub const MAX_F32_SIZE: usize = 64;

/// The published maximum output size for a 64-bit float, any radix.
pub const MAX_F64_SIZE: usize = 96;

/// The most significant digits the generator emits for a 32-bit float.
pub const MAX_DIGITS_F32: usize = 32;

/// The most significant digits the generator emits for a 64-bit float.
pub const MAX_DIGITS_F64: usize = 64;

/// The mantissa and exponent describe a finite non-zero float that some
/// supported width can hold.
pub open spec fn finite_parts_ok(p: FloatParts) -> bool {
    &&& 1 <= p.mantissa < 0x20_0000_0000_0000u64
    &&& -1074 <= p.exponent <= 971
}

/// Digit values the generator hands to the layout step: at least one
/// digit, every one below the radix.
pub open spec fn digits_ok(s: Seq<u8>, radix: u32, max_digits: int) -> bool {
    &&& 1 <= s.len() <= max_digits + 1
    &&& forall|j: int| 0 <= j < s.len() ==> (s[j] as u32) < radix
}

/// Produce the shortest digit sequence for `mantissa * 2^exponent` in
/// the given radix, together with the position `k` of the point: the
/// value reads `0.digits * radix^k`.
pub fn generate_digits(
    mantissa: u64,
    exponent: i32,
    lower_is_half: bool,
    radix: u32,
    max_digits: usize,
) -> (r: (Vec<u8>, i64))
    requires
        1 <= mantissa < 0x20_0000_0000_0000u64,
        -1074 <= exponent <= 971,
        2 <= radix <= 36,
        2 <= max_digits <= 64,
    ensures
        digits_ok(r.0@, radix, max_digits as int),
        -1500 <= r.1 <= 1500,
{
    let even = mantissa % 2 == 0;
    // The frame, everything scaled by a common factor of four so the
    // half-gaps stay integers: the value r/s, the upper half-gap mp/s,
    // the lower half-gap mm/s.
    let mut r = Bigint::from_u64(mantissa);
    let mut s: Bigint;
    let mut mp: Bigint;
    let mut mm: Bigint;
    if exponent >= 0 {
        let e = exponent as u32;
        r.mul_pow2(e + 2);
        s = Bigint::from_u64(4);
        mp = Bigint::from_u64(2);
        mp.mul_pow2(e);
        mm = Bigint::from_u64(
            if lower_is_half {
                1
            } else {
                2
            },
        );
        mm.mul_pow2(e);
    } else {
        let ne = ((-(exponent as i64)) as u64) as u32;
        r.mul_pow2(2);
        s = Bigint::from_u64(4);
        s.mul_pow2(ne);
        mp = Bigint::from_u64(2);
        mm = Bigint::from_u64(
            if lower_is_half {
                1
            } else {
                2
            },
        );
    }
    let mut k: i64 = 0;
    // Scale up: while the value plus its upper half-gap reaches 1 in
    // the current frame, the point moves one digit to the right.
    let mut guard: u32 = 0;
    while guard < 1200
        invariant
            r.wf(),
            s.wf(),
            mp.wf(),
            mm.wf(),
            2 <= radix <= 36,
            k == guard,
            guard <= 1200,
        decreases 1200 - guard,
    {
        let mut t = r.clone_bn();
        t.add(&mp);
        let c = t.cmp_bn(&s);
        let high = if even {
            c >= 0
        } else {
            c == 1
        };
        if !high {
            break ;
        }
        s.mul_small(radix);
        k = k + 1;
        guard = guard + 1;
    }
    let ghost k1 = k;
    // Scale down: while even one digit to the left the value plus its
    // upper half-gap stays below 1, the point moves left.
    let mut guard2: u32 = 0;
    while guard2 < 1400
        invariant
            r.wf(),
            s.wf(),
            mp.wf(),
            mm.wf(),
            2 <= radix <= 36,
            k == k1 - guard2,
            0 <= k1 <= 1200,
            guard2 <= 1400,
        decreases 1400 - guard2,
    {
        let mut t = r.clone_bn();
        t.add(&mp);
        t.mul_small(radix);
        let c = t.cmp_bn(&s);
        let high = if even {
            c >= 0
        } else {
            c == 1
        };
        if high {
            break ;
        }
        r.mul_small(radix);
        mp.mul_small(radix);
        mm.mul_small(radix);
        k = k - 1;
        guard2 = guard2 + 1;
    }
    // Emit digits until the truncated or rounded reading falls back
    // inside the bracket.
    let mut digits: Vec<u8> = Vec::new();
    let mut i: usize = 0;
    let mut done = false;
    while !done && i < max_digits
        invariant
            r.wf(),
            s.wf(),
            mp.wf(),
            mm.wf(),
            2 <= radix <= 36,
            i == digits@.len(),
            i <= max_digits,
            forall|j: int| 0 <= j < digits@.len() ==> (digits@[j] as u32) <= radix,
            forall|j: int| 0 <= j < digits@.len() - 1 ==> (digits@[j] as u32) < radix,
            !done ==> forall|j: int| 0 <= j < digits@.len() ==> (digits@[j] as u32) < radix,
            done ==> 1 <= i,
        decreases max_digits - i,
    {
        r.mul_small(radix);
        mp.mul_small(radix);
        mm.mul_small(radix);
        let mut d: u32 = 0;
        while d + 1 < radix && !r.lt(&s)
            invariant
                r.wf(),
                s.wf(),
                d < radix,
                radix <= 36,
            decreases radix - d,
        {
            r.sub(&s);
            d = d + 1;
        }
        let cl = r.cmp_bn(&mm);
        let low = if even {
            cl <= 0
        } else {
            cl == -1
        };
        let mut t = r.clone_bn();
        t.add(&mp);
        let ch = t.cmp_bn(&s);
        let high = if even {
            ch >= 0
        } else {
            ch == 1
        };
        if low || high {
            let dd: u32 = if low && !high {
                d
            } else if high && !low {
                d + 1
            } else {
                // Both midpoints reached: keep the closer reading.
                let mut r2 = r.clone_bn();
                r2.mul_small(2);
                if r2.cmp_bn(&s) == 1 {
                    d + 1
                } else {
                    d
                }
            };
            digits.push(dd as u8);
            i = i + 1;
            done = true;
        } else {
            digits.push(d as u8);
            i = i + 1;
        }
    }
    // A rounded-up digit may have reached the radix: carry it left.
    let n = digits.len();
    if digits[n - 1] as u32 == radix {
        digits.set(n - 1, 0);
        let mut p = n - 1;
        let mut carry = true;
        while carry && p > 0
            invariant
                p <= digits@.len(),
                digits@.len() == n,
                2 <= radix <= 36,
                forall|j: int| 0 <= j < digits@.len() ==> (digits@[j] as u32) < radix,
            decreases p,
        {
            let v = digits[p - 1];
            if (v + 1) as u32 == radix {
                digits.set(p - 1, 0);
            } else {
                digits.set(p - 1, v + 1);
                carry = false;
            }
            p = p - 1;
        }
        if carry {
            digits.insert(0, 1);
            k = k + 1;
        }
    }
    // The stop rule never needs a trailing zero; drop any the carry
    // step left behind.
    while digits.len() > 1 && digits[digits.len() - 1] == 0
        invariant
            1 <= digits@.len() <= max_digits + 1,
            2 <= radix <= 36,
            forall|j: int| 0 <= j < digits@.len() ==> (digits@[j] as u32) < radix,
        decreases digits@.len(),
    {
        digits.pop();
    }
    (digits, k)
}

/// There is a decimal point, and only one.
pub open spec fn exactly_one_dot(s: Seq<u8>) -> bool {
    exists|p: int|
        0 <= p < s.len() && s[p] == CH_DOT && (forall|i: int|
            0 <= i < s.len() && i != p ==> s[i] != CH_DOT)
}

/// What the layout step guarantees of its output.
pub open spec fn emitted_ok(r: Seq<u8>, n: int, radix: u32, exponent_char: u8) -> bool {
    &&& 3 <= r.len() <= n + 18
    &&& is_digit(r[0], radix)
    &&& r.contains(CH_DOT)
    &&& (exponent_char != CH_DOT ==> exactly_one_dot(r))
    &&& (forall|i: int| 0 <= i < r.len() ==> r[i] < 128 || r[i] == exponent_char)
}

/// Powers of a base at least two reach any bound powers of two reach.
proof fn lemma_pow_base_mono(a: int, b: int, e: nat)
    requires
        1 <= a <= b,
    ensures
        vstd::arithmetic::power::pow(a, e) <= vstd::arithmetic::power::pow(b, e),
    decreases e,
{
    reveal(vstd::arithmetic::power::pow);
    if e > 0 {
        lemma_pow_base_mono(a, b, (e - 1) as nat);
        vstd::arithmetic::power::lemma_pow_positive(a, (e - 1) as nat);
        vstd::arithmetic::power::lemma_pow_positive(b, (e - 1) as nat);
        assert(a * vstd::arithmetic::power::pow(a, (e - 1) as nat) <= b
            * vstd::arithmetic::power::pow(b, (e - 1) as nat)) by (nonlinear_arith)
            requires
                1 <= a <= b,
                0 < vstd::arithmetic::power::pow(a, (e - 1) as nat) <= vstd::arithmetic::power::pow(
                    b,
                    (e - 1) as nat,
                ),
        ;
    }
}

/// A digit string of a value below `radix^m` has at most `m` digits.
proof fn lemma_digits_len_bound(v: nat, radix: nat, m: nat)
    requires
        2 <= radix,
        1 <= m,
        v < vstd::arithmetic::power::pow(radix as int, m),
    ensures
        crate::itoa::spec_digits(v, radix).len() <= m,
    decreases m,
{
    reveal(vstd::arithmetic::power::pow);
    if v < radix {
    } else {
        assert(vstd::arithmetic::power::pow(radix as int, m) == radix * vstd::arithmetic::power::pow(
            radix as int,
            (m - 1) as nat,
        ));
        vstd::arithmetic::div_mod::lemma_div_decreases(v as int, radix as int);
        assert(m >= 2) by {
            vstd::arithmetic::power::lemma_pow1(radix as int);
            if m == 1 {
            }
        }
        assert((v as int) / (radix as int) < vstd::arithmetic::power::pow(
            radix as int,
            (m - 1) as nat,
        )) by {
            vstd::arithmetic::power::lemma_pow_positive(radix as int, (m - 1) as nat);
            vstd::arithmetic::div_mod::lemma_multiply_divide_lt(
                v as int,
                radix as int,
                vstd::arithmetic::power::pow(radix as int, (m - 1) as nat),
            );
        }
        lemma_digits_len_bound(v / radix, radix, (m - 1) as nat);
    }
}

/// Copy a byte slice into an owned vector.
pub fn to_owned_bytes(src: &[u8]) -> (r: Vec<u8>)
    ensures
        r@ == src@,
{
    let mut out: Vec<u8> = Vec::new();
    let mut i: usize = 0;
    while i < src.len()
        invariant
            i <= src@.len(),
            out@ =~= src@.take(i as int),
        decreases src@.len() - i,
    {
        out.push(src[i]);
        i = i + 1;
    }
    proof {
        assert(out@ =~= src@);
    }
    out
}

/// The bytes of a run of digit values, one byte per digit.
pub open spec fn digit_bytes(s: Seq<u8>) -> Seq<u8> {
    s.map_values(|d: u8| crate::digit::digit_byte(d as int))
}

/// A run of ASCII zeros.
pub open spec fn zero_bytes(n: int) -> Seq<u8> {
    Seq::new(n as nat, |i: int| CH_DIGIT_ZERO)
}

/// The exact text the layout step produces for digit values `s` with
/// point position `k` (the value reads `0.s × radix^k`): fixed
/// notation while the point stays within -4 <= k <= 16, exponent
/// notation otherwise, with the exponent written in the same radix.
pub open spec fn spec_layout(s: Seq<u8>, k: int, radix: u32, exponent_char: u8) -> Seq<u8> {
    if -4 <= k <= 16 {
        if k <= 0 {
            seq![CH_DIGIT_ZERO, CH_DOT] + zero_bytes(-k) + digit_bytes(s)
        } else if k >= s.len() {
            digit_bytes(s) + zero_bytes(k - s.len()) + seq![CH_DOT, CH_DIGIT_ZERO]
        } else {
            digit_bytes(s.take(k)) + seq![CH_DOT] + digit_bytes(s.skip(k))
        }
    } else {
        seq![crate::digit::digit_byte(s[0] as int), CH_DOT] + (if s.len() == 1 {
            seq![CH_DIGIT_ZERO]
        } else {
            digit_bytes(s.skip(1))
        }) + seq![exponent_char] + (if k - 1 < 0 {
            seq![CH_MINUS]
        } else {
            Seq::<u8>::empty()
        }) + crate::itoa::spec_digits(
            (if k - 1 < 0 {
                1 - k
            } else {
                k - 1
            }) as nat,
            radix as nat,
        )
    }
}

/// The bytes are the exact layout of some digit string the generator
/// can produce for this radix.
pub open spec fn is_layout(body: Seq<u8>, radix: u32, exponent_char: u8, max_digits: int) -> bool {
    exists|d: Seq<u8>, kk: int|
        digits_ok(d, radix, max_digits) && -1500 <= kk <= 1500 && body == #[trigger] spec_layout(
            d,
            kk,
            radix,
            exponent_char,
        )
}

/// The bytes are the exact layout of some digit string, taken through
/// the trim policy.
pub open spec fn is_trimmed_layout(
    body: Seq<u8>,
    radix: u32,
    exponent_char: u8,
    trim_floats: bool,
    max_digits: int,
) -> bool {
    exists|d: Seq<u8>, kk: int|
        digits_ok(d, radix, max_digits) && -1500 <= kk <= 1500 && body == spec_trim(
            #[trigger] spec_layout(d, kk, radix, exponent_char),
            trim_floats,
        )
}

/// Extending a digit run by one digit extends its bytes by one byte.
proof fn lemma_digit_bytes_step(s: Seq<u8>, a: int, i: int)
    requires
        0 <= a <= i < s.len(),
    ensures
        digit_bytes(s.subrange(a, i + 1)) == digit_bytes(s.subrange(a, i)).push(
            crate::digit::digit_byte(s[i] as int),
        ),
{
    assert(digit_bytes(s.subrange(a, i + 1)) =~= digit_bytes(s.subrange(a, i)).push(
        crate::digit::digit_byte(s[i] as int),
    ));
}

/// Lay the digits out as text: fixed notation while the point stays
/// near the digits, exponent notation otherwise.  The exponent is
/// written in the same radix as the digits.
#[verifier::rlimit(60)]
pub fn emit(digits: &Vec<u8>, k: i64, radix: u32, exponent_char: u8) -> (r: Vec<u8>)
    requires
        digits_ok(digits@, radix, 65),
        2 <= radix <= 36,
        -1500 <= k <= 1500,
    ensures
        emitted_ok(r@, digits@.len() as int, radix, exponent_char),
        r@ == spec_layout(digits@, k as int, radix, exponent_char),
{
    let n = digits.len();
    let mut out: Vec<u8> = Vec::new();
    let ghost dotp: int;
    if -4 <= k && k <= 16 {
        if k <= 0 {
            // 0.00digits
            out.push(CH_DIGIT_ZERO);
            out.push(CH_DOT);
            proof {
                dotp = 1;
                assert(out@ =~= seq![CH_DIGIT_ZERO, CH_DOT] + zero_bytes(0));
            }
            let zeros = (-k) as usize;
            let mut z: usize = 0;
            while z < zeros
                invariant
                    z <= zeros,
                    zeros <= 4,
                    out@ == seq![CH_DIGIT_ZERO, CH_DOT] + zero_bytes(z as int),
                    out@.len() == 2 + z,
                    out@[0] == CH_DIGIT_ZERO,
                    out@[1] == CH_DOT,
                    forall|i: int| 2 <= i < out@.len() ==> out@[i] == CH_DIGIT_ZERO,
                forall|j: int| 0 <= j < out@.len() ==> out@[j] < 128,
                decreases zeros - z,
            {
                out.push(CH_DIGIT_ZERO);
                z = z + 1;
                proof {
                    assert(out@ =~= seq![CH_DIGIT_ZERO, CH_DOT] + zero_bytes(z as int));
                }
            }
            proof {
                assert(out@ =~= seq![CH_DIGIT_ZERO, CH_DOT] + zero_bytes(zeros as int)
                    + digit_bytes(digits@.subrange(0, 0)));
            }
            let mut i: usize = 0;
            while i < n
                invariant
                    i <= n,
                    n == digits@.len(),
                    digits_ok(digits@, radix, 65),
                    2 <= radix <= 36,
                    out@ == seq![CH_DIGIT_ZERO, CH_DOT] + zero_bytes(zeros as int) + digit_bytes(
                        digits@.subrange(0, i as int),
                    ),
                    out@.len() == 2 + zeros + i,
                    zeros <= 4,
                    out@[0] == CH_DIGIT_ZERO,
                    out@[1] == CH_DOT,
                    forall|j: int| 2 <= j < out@.len() ==> out@[j] != CH_DOT,
                forall|j: int| 0 <= j < out@.len() ==> out@[j] < 128,
                decreases n - i,
            {
                out.push(digit_to_byte(digits[i] as u32));
                proof {
                    lemma_digit_bytes_step(digits@, 0, i as int);
                    assert(out@ =~= seq![CH_DIGIT_ZERO, CH_DOT] + zero_bytes(zeros as int)
                        + digit_bytes(digits@.subrange(0, i + 1)));
                }
                i = i + 1;
            }
            proof {
                assert(digits@.subrange(0, n as int) =~= digits@);
                assert(out@ == spec_layout(digits@, k as int, radix, exponent_char));
            }
        } else if k as usize >= n {
            // digits, padding zeros, then .0
            let stop = k as usize;
            let mut i: usize = 0;
            proof {
                assert(out@ =~= digit_bytes(digits@.subrange(0, 0)));
            }
            while i < n
                invariant
                    i <= n,
                    n == digits@.len(),
                    digits_ok(digits@, radix, 65),
                    2 <= radix <= 36,
                    out@ == digit_bytes(digits@.subrange(0, i as int)),
                    out@.len() == i,
                    i >= 1 ==> is_digit(out@[0], radix),
                    forall|j: int| 0 <= j < out@.len() ==> out@[j] != CH_DOT,
                forall|j: int| 0 <= j < out@.len() ==> out@[j] < 128,
                decreases n - i,
            {
                out.push(digit_to_byte(digits[i] as u32));
                proof {
                    lemma_digit_bytes_step(digits@, 0, i as int);
                    assert(out@ =~= digit_bytes(digits@.subrange(0, i + 1)));
                }
                i = i + 1;
            }
            proof {
                assert(digits@.subrange(0, n as int) =~= digits@);
                assert(out@ =~= digit_bytes(digits@) + zero_bytes(0));
            }
            while i < stop
                invariant
                    n <= i <= stop,
                    stop <= 16,
                    1 <= n,
                    n == digits@.len(),
                    out@ == digit_bytes(digits@) + zero_bytes(i - n),
                    out@.len() == i,
                    is_digit(out@[0], radix),
                    2 <= radix <= 36,
                    forall|j: int| 0 <= j < out@.len() ==> out@[j] != CH_DOT,
                forall|j: int| 0 <= j < out@.len() ==> out@[j] < 128,
                decreases stop - i,
            {
                out.push(CH_DIGIT_ZERO);
                i = i + 1;
                proof {
                    assert(out@ =~= digit_bytes(digits@) + zero_bytes(i - n));
                }
            }
            proof {
                dotp = out@.len() as int;
            }
            out.push(CH_DOT);
            out.push(CH_DIGIT_ZERO);
            proof {
                assert(out@ =~= digit_bytes(digits@) + zero_bytes(stop - n) + seq![
                    CH_DOT,
                    CH_DIGIT_ZERO,
                ]);
                assert(out@ == spec_layout(digits@, k as int, radix, exponent_char));
            }
        } else {
            // digits split around the point
            let cut = k as usize;
            let mut i: usize = 0;
            proof {
                assert(out@ =~= digit_bytes(digits@.subrange(0, 0)));
            }
            while i < cut
                invariant
                    i <= cut,
                    cut < n,
                    n == digits@.len(),
                    digits_ok(digits@, radix, 65),
                    2 <= radix <= 36,
                    out@ == digit_bytes(digits@.subrange(0, i as int)),
                    out@.len() == i,
                    i >= 1 ==> is_digit(out@[0], radix),
                    forall|j: int| 0 <= j < out@.len() ==> out@[j] != CH_DOT,
                forall|j: int| 0 <= j < out@.len() ==> out@[j] < 128,
                decreases cut - i,
            {
                out.push(digit_to_byte(digits[i] as u32));
                proof {
                    lemma_digit_bytes_step(digits@, 0, i as int);
                    assert(out@ =~= digit_bytes(digits@.subrange(0, i + 1)));
                }
                i = i + 1;
            }
            proof {
                dotp = out@.len() as int;
            }
            out.push(CH_DOT);
            proof {
                assert(out@ =~= digit_bytes(digits@.subrange(0, cut as int)) + seq![CH_DOT]
                    + digit_bytes(digits@.subrange(cut as int, cut as int)));
            }
            while i < n
                invariant
                    cut < i <= n || (i == cut && out@.len() == cut + 1),
                    cut >= 1,
                    cut < n,
                    n == digits@.len(),
                    digits_ok(digits@, radix, 65),
                    2 <= radix <= 36,
                    out@ == digit_bytes(digits@.subrange(0, cut as int)) + seq![CH_DOT]
                        + digit_bytes(digits@.subrange(cut as int, i as int)),
                    out@.len() == i + 1,
                    is_digit(out@[0], radix),
                    out@[cut as int] == CH_DOT,
                    forall|j: int| 0 <= j < out@.len() && j != cut ==> out@[j] != CH_DOT,
                forall|j: int| 0 <= j < out@.len() ==> out@[j] < 128,
                decreases n - i,
            {
                out.push(digit_to_byte(digits[i] as u32));
                proof {
                    lemma_digit_bytes_step(digits@, cut as int, i as int);
                    assert(out@ =~= digit_bytes(digits@.subrange(0, cut as int)) + seq![CH_DOT]
                        + digit_bytes(digits@.subrange(cut as int, i + 1)));
                }
                i = i + 1;
            }
            proof {
                assert(digits@.subrange(0, cut as int) =~= digits@.take(cut as int));
                assert(digits@.subrange(cut as int, n as int) =~= digits@.skip(cut as int));
                assert(out@ == spec_layout(digits@, k as int, radix, exponent_char));
            }
        }
    } else {
        // leading digit, point, remaining digits, exponent marker and
        // the exponent in the same radix
        let ghost head = seq![crate::digit::digit_byte(digits@[0] as int), CH_DOT];
        out.push(digit_to_byte(digits[0] as u32));
        proof {
            dotp = 1;
        }
        out.push(CH_DOT);
        let ghost mid: Seq<u8>;
        if n == 1 {
            out.push(CH_DIGIT_ZERO);
            proof {
                mid = seq![CH_DIGIT_ZERO];
                assert(out@ =~= head + mid);
            }
        } else {
            proof {
                assert(out@ =~= head + digit_bytes(digits@.subrange(1, 1)));
            }
            let mut i: usize = 1;
            while i < n
                invariant
                    1 <= i <= n,
                    n == digits@.len(),
                    digits_ok(digits@, radix, 65),
                    2 <= radix <= 36,
                    out@ == head + digit_bytes(digits@.subrange(1, i as int)),
                    head == seq![crate::digit::digit_byte(digits@[0] as int), CH_DOT],
                    out@.len() == i + 1,
                    is_digit(out@[0], radix),
                    out@[1] == CH_DOT,
                    forall|j: int| 0 <= j < out@.len() && j != 1 ==> out@[j] != CH_DOT,
                forall|j: int| 0 <= j < out@.len() ==> out@[j] < 128,
                decreases n - i,
            {
                out.push(digit_to_byte(digits[i] as u32));
                proof {
                    lemma_digit_bytes_step(digits@, 1, i as int);
                    assert(out@ =~= head + digit_bytes(digits@.subrange(1, i + 1)));
                }
                i = i + 1;
            }
            proof {
                assert(digits@.subrange(1, n as int) =~= digits@.skip(1));
                mid = digit_bytes(digits@.skip(1));
                assert(out@ == head + mid);
            }
        }
        out.push(exponent_char);
        let ke: i64 = k - 1;
        let ghost sign: Seq<u8> = if ke < 0 {
            seq![CH_MINUS]
        } else {
            Seq::<u8>::empty()
        };
        if ke < 0 {
            out.push(CH_MINUS);
        }
        proof {
            assert(out@ =~= head + mid + seq![exponent_char] + sign);
        }
        let mag: u64 = if ke < 0 {
            (-ke) as u64
        } else {
            ke as u64
        };
        let mut ed = u64toa_radix(mag, radix);
        proof {
            // At most eleven exponent digits: the magnitude stays under
            // radix^11 for every radix from 2 up.
            vstd::arithmetic::power2::lemma2_to64();
            vstd::arithmetic::power::lemma_pow_positive(2, 11);
            assert(vstd::arithmetic::power2::pow2(11) == 2048);
            assert(vstd::arithmetic::power::pow(2, 11) == 2048);
            lemma_pow_base_mono(2, radix as int, 11);
            lemma_digits_len_bound(mag as nat, radix as nat, 11);
        }
        let ghost pre = out@;
        out.append(&mut ed);
        proof {
            assert(forall|j: int|
                0 <= j < ed@.len() ==> is_digit(#[trigger] ed@[j], radix) && ed@[j] != CH_DOT);
            assert(out@ =~= head + mid + seq![exponent_char] + sign + crate::itoa::spec_digits(
                mag as nat,
                radix as nat,
            ));
            assert(out@ == spec_layout(digits@, k as int, radix, exponent_char));
        }
    }
    proof {
        assert(out@[dotp] == CH_DOT);
        assert(out@.contains(CH_DOT)) by {
            assert(out@[dotp] == CH_DOT);
        }
    }
    out
}

/// The byte sequence ends in `.0`.
pub open spec fn ends_dot_zero(s: Seq<u8>) -> bool {
    s.len() >= 2 && s[s.len() - 2] == CH_DOT && s[s.len() - 1] == CH_DIGIT_ZERO
}

/// Forward a positive, finite, non-zero float to the digit generator
/// and lay the digits out.  A single exact back end serves the decimal
/// radix and every other one alike, so the dispatch the two-algorithm
/// build would make collapses here.
pub fn forward(
    mantissa: u64,
    exponent: i32,
    lower_is_half: bool,
    radix: u32,
    exponent_char: u8,
    max_digits: usize,
) -> (r: Vec<u8>)
    requires
        1 <= mantissa < 0x20_0000_0000_0000u64,
        -1074 <= exponent <= 971,
        2 <= radix <= 36,
        2 <= max_digits <= 64,
    ensures
        emitted_ok(r@, max_digits + 1, radix, exponent_char),
        is_layout(r@, radix, exponent_char, max_digits as int),
{
    let (digits, k) = generate_digits(mantissa, exponent, lower_is_half, radix, max_digits);
    let out = emit(&digits, k, radix, exponent_char);
    proof {
        assert(digits_ok(digits@, radix, max_digits as int) && -1500 <= k as int <= 1500 && out@
            == spec_layout(digits@, k as int, radix, exponent_char));
    }
    out
}

/// What the sign filter promises for every classification: the special
/// spellings verbatim, the zero spellings, and for finite values a
/// well-laid-out digit string with the sign in front.
pub open spec fn ftoa_output_ok(
    p: FloatParts,
    radix: u32,
    exponent_char: u8,
    trim_zero: bool,
    nan: Seq<u8>,
    inf: Seq<u8>,
    max_digits: int,
    out: Seq<u8>,
) -> bool {
    &&& (p.kind == FloatKind::Nan ==> out == if p.negative {
        seq![CH_MINUS] + nan
    } else {
        nan
    })
    &&& (p.kind == FloatKind::Infinite ==> out == if p.negative {
        seq![CH_MINUS] + inf
    } else {
        inf
    })
    &&& (p.kind == FloatKind::Zero ==> out == if trim_zero {
        seq![CH_DIGIT_ZERO]
    } else if p.negative {
        seq![CH_MINUS, CH_DIGIT_ZERO, CH_DOT, CH_DIGIT_ZERO]
    } else {
        seq![CH_DIGIT_ZERO, CH_DOT, CH_DIGIT_ZERO]
    })
    &&& (p.kind == FloatKind::Finite && !p.negative ==> emitted_ok(
        out,
        max_digits + 1,
        radix,
        exponent_char,
    ) && is_layout(out, radix, exponent_char, max_digits))
    &&& (p.kind == FloatKind::Finite && p.negative ==> out.len() >= 4 && out[0] == CH_MINUS
        && emitted_ok(out.skip(1), max_digits + 1, radix, exponent_char) && is_layout(
        out.skip(1),
        radix,
        exponent_char,
        max_digits,
    ))
}

/// Handle special (positive) floats before the digit generator runs:
/// the configured NaN and infinity spellings, and the plain zero.
pub fn filter_special(
    parts: &FloatParts,
    radix: u32,
    exponent_char: u8,
    trim_zero: bool,
    nan_string: &Vec<u8>,
    inf_string: &Vec<u8>,
    max_digits: usize,
) -> (r: Vec<u8>)
    requires
        parts.kind == FloatKind::Finite ==> finite_parts_ok(*parts),
        parts.kind == FloatKind::Zero ==> !trim_zero,
        2 <= radix <= 36,
        2 <= max_digits <= 64,
    ensures
        parts.kind == FloatKind::Nan ==> r@ == nan_string@,
        parts.kind == FloatKind::Infinite ==> r@ == inf_string@,
        parts.kind == FloatKind::Zero ==> r@ == seq![CH_DIGIT_ZERO, CH_DOT, CH_DIGIT_ZERO],
        parts.kind == FloatKind::Finite ==> emitted_ok(
            r@,
            max_digits + 1,
            radix,
            exponent_char,
        ) && is_layout(r@, radix, exponent_char, max_digits as int),
{
    match parts.kind {
        FloatKind::Nan => to_owned_bytes(nan_string.as_slice()),
        FloatKind::Infinite => to_owned_bytes(inf_string.as_slice()),
        FloatKind::Zero => {
            let out: Vec<u8> = vec![CH_DIGIT_ZERO, CH_DOT, CH_DIGIT_ZERO];
            proof {
                assert(out@ =~= seq![CH_DIGIT_ZERO, CH_DOT, CH_DIGIT_ZERO]);
            }
            out
        },
        FloatKind::Finite => forward(
            parts.mantissa,
            parts.exponent,
            parts.lower_is_half,
            radix,
            exponent_char,
            max_digits,
        ),
    }
}

/// Handle the sign: a trimmed zero short-circuits to `0`, a negative
/// value writes `-` and continues with the positive path.
pub fn filter_sign(
    parts: &FloatParts,
    radix: u32,
    exponent_char: u8,
    trim_zero: bool,
    nan_string: &Vec<u8>,
    inf_string: &Vec<u8>,
    max_digits: usize,
) -> (r: Vec<u8>)
    requires
        parts.kind == FloatKind::Finite ==> finite_parts_ok(*parts),
        2 <= radix <= 36,
        2 <= max_digits <= 64,
    ensures
        ftoa_output_ok(
            *parts,
            radix,
            exponent_char,
            trim_zero,
            nan_string@,
            inf_string@,
            max_digits as int,
            r@,
        ),
{
    if trim_zero && matches!(parts.kind, FloatKind::Zero) {
        let out: Vec<u8> = vec![CH_DIGIT_ZERO];
        proof {
            assert(out@ =~= seq![CH_DIGIT_ZERO]);
        }
        return out;
    }
    if parts.negative {
        let mut out: Vec<u8> = vec![CH_MINUS];
        let mut rest = filter_special(
            parts,
            radix,
            exponent_char,
            trim_zero,
            nan_string,
            inf_string,
            max_digits,
        );
        let ghost restg = rest@;
        out.append(&mut rest);
        proof {
            assert(out@ =~= seq![CH_MINUS] + restg);
            assert(out@.skip(1) =~= restg);
            if parts.kind == FloatKind::Zero {
                assert(out@ =~= seq![CH_MINUS, CH_DIGIT_ZERO, CH_DOT, CH_DIGIT_ZERO]);
            }
        }
        out
    } else {
        filter_special(parts, radix, exponent_char, trim_zero, nan_string, inf_string, max_digits)
    }
}

/// Serialize a float, filtering the simple cases first.
pub fn ftoa(
    parts: &FloatParts,
    radix: u32,
    exponent_char: u8,
    trim_zero: bool,
    nan_string: &Vec<u8>,
    inf_string: &Vec<u8>,
    max_digits: usize,
) -> (r: Vec<u8>)
    requires
        parts.kind == FloatKind::Finite ==> finite_parts_ok(*parts),
        2 <= radix <= 36,
        2 <= max_digits <= 64,
    ensures
        ftoa_output_ok(
            *parts,
            radix,
            exponent_char,
            trim_zero,
            nan_string@,
            inf_string@,
            max_digits as int,
            r@,
        ),
{
    filter_sign(parts, radix, exponent_char, trim_zero, nan_string, inf_string, max_digits)
}

/// The sequence after an optional trim of a trailing `.0`.
pub open spec fn spec_trim(s: Seq<u8>, trim_floats: bool) -> Seq<u8> {
    if trim_floats && ends_dot_zero(s) {
        s.take(s.len() - 2)
    } else {
        s
    }
}

/// What the full format path promises once the trim policy has been
/// applied: exact text for specials and zeros, and for finite values a
/// sign, digits, a decimal point unless trimmed away, all within the
/// published size.
pub open spec fn float_text_ok(
    p: FloatParts,
    radix: u32,
    exponent_char: u8,
    trim_floats: bool,
    nan: Seq<u8>,
    inf: Seq<u8>,
    max_digits: int,
    out: Seq<u8>,
) -> bool {
    &&& (p.kind == FloatKind::Nan ==> out == spec_trim(
        if p.negative {
            seq![CH_MINUS] + nan
        } else {
            nan
        },
        trim_floats,
    ))
    &&& (p.kind == FloatKind::Infinite ==> out == spec_trim(
        if p.negative {
            seq![CH_MINUS] + inf
        } else {
            inf
        },
        trim_floats,
    ))
    &&& (p.kind == FloatKind::Zero ==> out == if trim_floats {
        seq![CH_DIGIT_ZERO]
    } else if p.negative {
        seq![CH_MINUS, CH_DIGIT_ZERO, CH_DOT, CH_DIGIT_ZERO]
    } else {
        seq![CH_DIGIT_ZERO, CH_DOT, CH_DIGIT_ZERO]
    })
    &&& (p.kind == FloatKind::Finite ==> {
        let body = if p.negative {
            out.skip(1)
        } else {
            out
        };
        &&& out.len() >= 1
        &&& (p.negative ==> out[0] == CH_MINUS && out.len() >= 2)
        &&& body.len() >= 1
        &&& is_digit(body[0], radix)
        &&& body.len() <= max_digits + 19
        &&& (!trim_floats ==> body.contains(CH_DOT))
        &&& (trim_floats && exponent_char != CH_DOT ==> !ends_dot_zero(body))
        &&& is_trimmed_layout(body, radix, exponent_char, trim_floats, max_digits)
        &&& (forall|i: int|
            0 <= i < out.len() ==> ((#[trigger] out[i]) < 128 || out[i] == exponent_char))
    })
}

/// Trim a trailing `.0` from a float's textual form.
pub fn trim(bytes: &mut Vec<u8>, trim_floats: bool)
    ensures
        trim_floats && ends_dot_zero(old(bytes)@) ==> final(bytes)@ == old(bytes)@.take(
            old(bytes)@.len() - 2,
        ),
        !(trim_floats && ends_dot_zero(old(bytes)@)) ==> final(bytes)@ == old(bytes)@,
{
    let n = bytes.len();
    if trim_floats && n >= 2 && bytes[n - 2] == CH_DOT && bytes[n - 1] == CH_DIGIT_ZERO {
        bytes.truncate(n - 2);
    }
}

/// Applying the trim policy to a well-laid-out positive body keeps its
/// promises: the first byte stays a digit, an untrimmed body keeps its
/// point, and a trimmed one no longer ends in `.0`.
proof fn lemma_trim_body(body: Seq<u8>, radix: u32, exponent_char: u8, max_digits: int)
    requires
        emitted_ok(body, max_digits, radix, exponent_char),
    ensures
        spec_trim(body, true).len() >= 1,
        is_digit(spec_trim(body, true)[0], radix),
        spec_trim(body, true).len() <= body.len(),
        exponent_char != CH_DOT ==> !ends_dot_zero(spec_trim(body, true)),
        forall|i: int|
            0 <= i < spec_trim(body, true).len() ==> spec_trim(body, true)[i] < 128 || spec_trim(
                body,
                true,
            )[i] == exponent_char,
{
    if ends_dot_zero(body) {
        let t = body.take(body.len() - 2);
        assert(t[0] == body[0]);
        if exponent_char != CH_DOT {
            let p = choose|p: int|
                0 <= p < body.len() && body[p] == CH_DOT && (forall|i: int|
                    0 <= i < body.len() && i != p ==> body[i] != CH_DOT);
            assert(body[body.len() - 2] == CH_DOT);
            assert(p == body.len() - 2);
            if ends_dot_zero(t) {
                assert(t[t.len() - 2] == CH_DOT);
                assert(body[body.len() - 4] == CH_DOT);
            }
        }
    }
}

/// Serialize a 32-bit float into fresh bytes, with the default NaN and
/// infinity spellings and the default exponent character.
pub fn f32toa(value: crate::float::Float32, radix: u8, trim_floats: bool) -> (r: Vec<u8>)
    requires
        crate::options::valid_radix(radix),
    ensures
        1 <= r@.len() <= MAX_F32_SIZE,
        float_text_ok(
            crate::float::f32_parts_spec(value.spec_bits()),
            radix as u32,
            if radix >= 15 {
                crate::options::CH_CARET
            } else {
                crate::options::CH_LOWER_E
            },
            trim_floats,
            crate::options::default_nan(),
            crate::options::default_inf(),
            MAX_DIGITS_F32 as int,
            r@,
        ),
{
    let parts = crate::float::decode32(value);
    let exponent_char = crate::options::exponent_notation_char(radix as u32);
    let nan: Vec<u8> = vec![crate::options::CH_UPPER_N, 97, crate::options::CH_UPPER_N];
    let inf: Vec<u8> = vec![
        crate::options::CH_LOWER_I,
        crate::options::CH_LOWER_N,
        102,
    ];
    proof {
        assert(nan@ =~= crate::options::default_nan());
        assert(inf@ =~= crate::options::default_inf());
    }
    let mut out = ftoa(
        &parts,
        radix as u32,
        exponent_char,
        trim_floats,
        &nan,
        &inf,
        MAX_DIGITS_F32,
    );
    let ghost pre = out@;
    trim(&mut out, trim_floats);
    proof {
        lemma_f32_f64_text(
            parts,
            radix as u32,
            exponent_char,
            trim_floats,
            nan@,
            inf@,
            MAX_DIGITS_F32 as int,
            pre,
            out@,
        );
    }
    out
}

/// Serialize a 64-bit float into fresh bytes, with the default NaN and
/// infinity spellings and the default exponent character.
pub fn f64toa(value: crate::float::Float64, radix: u8, trim_floats: bool) -> (r: Vec<u8>)
    requires
        crate::options::valid_radix(radix),
    ensures
        1 <= r@.len() <= MAX_F64_SIZE,
        float_text_ok(
            crate::float::f64_parts_spec(value.spec_bits()),
            radix as u32,
            if radix >= 15 {
                crate::options::CH_CARET
            } else {
                crate::options::CH_LOWER_E
            },
            trim_floats,
            crate::options::default_nan(),
            crate::options::default_inf(),
            MAX_DIGITS_F64 as int,
            r@,
        ),
{
    let parts = crate::float::decode64(value);
    let exponent_char = crate::options::exponent_notation_char(radix as u32);
    let nan: Vec<u8> = vec![crate::options::CH_UPPER_N, 97, crate::options::CH_UPPER_N];
    let inf: Vec<u8> = vec![
        crate::options::CH_LOWER_I,
        crate::options::CH_LOWER_N,
        102,
    ];
    proof {
        assert(nan@ =~= crate::options::default_nan());
        assert(inf@ =~= crate::options::default_inf());
    }
    let mut out = ftoa(
        &parts,
        radix as u32,
        exponent_char,
        trim_floats,
        &nan,
        &inf,
        MAX_DIGITS_F64,
    );
    let ghost pre = out@;
    trim(&mut out, trim_floats);
    proof {
        lemma_f32_f64_text(
            parts,
            radix as u32,
            exponent_char,
            trim_floats,
            nan@,
            inf@,
            MAX_DIGITS_F64 as int,
            pre,
            out@,
        );
    }
    out
}

/// The untrimmed sign-filter output, taken through the trim policy,
/// meets the full format-path promise.
proof fn lemma_f32_f64_text(
    p: FloatParts,
    radix: u32,
    exponent_char: u8,
    trim_floats: bool,
    nan: Seq<u8>,
    inf: Seq<u8>,
    max_digits: int,
    pre: Seq<u8>,
    post: Seq<u8>,
)
    requires
        ftoa_output_ok(
            p,
            radix,
            exponent_char,
            trim_floats,
            nan,
            inf,
            max_digits,
            pre,
        ),
        post == spec_trim(pre, trim_floats),
        nan.len() >= 1,
        inf.len() >= 1,
    ensures
        float_text_ok(p, radix, exponent_char, trim_floats, nan, inf, max_digits, post),
{
    match p.kind {
        FloatKind::Nan => {
            assert(pre.len() >= 1);
        },
        FloatKind::Infinite => {
            assert(pre.len() >= 1);
        },
        FloatKind::Zero => {
            if trim_floats {
                assert(pre == seq![CH_DIGIT_ZERO]);
                assert(!ends_dot_zero(pre));
                assert(post == pre);
            } else {
                assert(post == pre);
            }
        },
        FloatKind::Finite => {
            if p.negative {
                let body_pre = pre.skip(1);
                assert(emitted_ok(body_pre, max_digits + 1, radix, exponent_char));
                if trim_floats && ends_dot_zero(pre) {
                    assert(ends_dot_zero(body_pre)) by {
                        assert(body_pre[body_pre.len() - 2] == pre[pre.len() - 2]);
                        assert(body_pre[body_pre.len() - 1] == pre[pre.len() - 1]);
                    }
                    lemma_trim_body(body_pre, radix, exponent_char, max_digits + 1);
                    assert(post =~= seq![CH_MINUS] + spec_trim(body_pre, true));
                    assert(post.skip(1) =~= spec_trim(body_pre, true));
                } else {
                    assert(post == pre);
                    if trim_floats {
                        assert(!ends_dot_zero(body_pre)) by {
                            if ends_dot_zero(body_pre) {
                                assert(pre[pre.len() - 2] == body_pre[body_pre.len() - 2]);
                                assert(pre[pre.len() - 1] == body_pre[body_pre.len() - 1]);
                            }
                        }
                    }
                }
            } else {
                assert(emitted_ok(pre, max_digits + 1, radix, exponent_char));
                if trim_floats {
                    lemma_trim_body(pre, radix, exponent_char, max_digits + 1);
                } else {
                    assert(post == pre);
                }
            }
            assert forall|i: int|
                0 <= i < post.len() implies ((#[trigger] post[i]) < 128 || post[i]
                == exponent_char) by {
                assert(post[i] == pre[i]);
                if p.negative {
                    if i >= 1 {
                        assert(pre[i] == pre.skip(1)[i - 1]);
                    }
                }
            }
        },
    }
}

/// Serialize a 32-bit float honoring a validated option set: its
/// radix, exponent character, trim policy and special spellings.
pub fn f32toa_with_options(
    value: crate::float::Float32,
    options: &crate::options::WriteFloatOptions,
) -> (r: Vec<u8>)
    requires
        options.is_valid(),
    ensures
        r@.len() >= 1,
        float_text_ok(
            crate::float::f32_parts_spec(value.spec_bits()),
            options.spec_radix(),
            options.spec_exponent_char(),
            options.spec_trim_floats(),
            options.spec_nan_string(),
            options.spec_inf_string(),
            MAX_DIGITS_F32 as int,
            r@,
        ),
{
    let parts = crate::float::decode32(value);
    let mut out = ftoa(
        &parts,
        options.radix(),
        options.exponent_char(),
        options.trim_floats(),
        options.nan_string(),
        options.inf_string(),
        MAX_DIGITS_F32,
    );
    let ghost pre = out@;
    trim(&mut out, options.trim_floats());
    proof {
        lemma_f32_f64_text(
            parts,
            options.spec_radix(),
            options.spec_exponent_char(),
            options.spec_trim_floats(),
            options.spec_nan_string(),
            options.spec_inf_string(),
            MAX_DIGITS_F32 as int,
            pre,
            out@,
        );
    }
    out
}

/// Serialize a 64-bit float honoring a validated option set: its
/// radix, exponent character, trim policy and special spellings.
pub fn f64toa_with_options(
    value: crate::float::Float64,
    options: &crate::options::WriteFloatOptions,
) -> (r: Vec<u8>)
    requires
        options.is_valid(),
    ensures
        r@.len() >= 1,
        float_text_ok(
            crate::float::f64_parts_spec(value.spec_bits()),
            options.spec_radix(),
            options.spec_exponent_char(),
            options.spec_trim_floats(),
            options.spec_nan_string(),
            options.spec_inf_string(),
            MAX_DIGITS_F64 as int,
            r@,
        ),
{
    let parts = crate::float::decode64(value);
    let mut out = ftoa(
        &parts,
        options.radix(),
        options.exponent_char(),
        options.trim_floats(),
        options.nan_string(),
        options.inf_string(),
        MAX_DIGITS_F64,
    );
    let ghost pre = out@;
    trim(&mut out, options.trim_floats());
    proof {
        lemma_f32_f64_text(
            parts,
            options.spec_radix(),
            options.spec_exponent_char(),
            options.spec_trim_floats(),
            options.spec_nan_string(),
            options.spec_inf_string(),
            MAX_DIGITS_F64 as int,
            pre,
            out@,
        );
    }
    out
}

/// Write the bytes of `src` over the front of `dst`.
fn write_prefix(dst: &mut Vec<u8>, src: &Vec<u8>)
    requires
        src@.len() <= old(dst)@.len(),
    ensures
        final(dst)@.len() == old(dst)@.len(),
        final(dst)@.take(src@.len() as int) == src@,
        final(dst)@.skip(src@.len() as int) == old(dst)@.skip(src@.len() as int),
{
    let mut i: usize = 0;
    while i < src.len()
        invariant
            i <= src@.len(),
            src@.len() <= dst@.len(),
            dst@.len() == old(dst)@.len(),
            forall|j: int| 0 <= j < i ==> dst@[j] == src@[j],
            forall|j: int| i <= j < dst@.len() ==> dst@[j] == old(dst)@[j],
        decreases src@.len() - i,
    {
        let b = src[i];
        dst.set(i, b);
        i = i + 1;
    }
    proof {
        assert(dst@.take(src@.len() as int) =~= src@);
        assert(dst@.skip(src@.len() as int) =~= old(dst)@.skip(src@.len() as int));
    }
}

/// Serialize a 32-bit float into a caller buffer pre-sized to the
/// published maximum, returning how many bytes were written.
pub fn f32toa_slice(
    value: crate::float::Float32,
    radix: u8,
    trim_floats: bool,
    bytes: &mut Vec<u8>,
) -> (len: usize)
    requires
        crate::options::valid_radix(radix),
        old(bytes)@.len() >= MAX_F32_SIZE,
    ensures
        final(bytes)@.len() == old(bytes)@.len(),
        1 <= len <= MAX_F32_SIZE,
        float_text_ok(
            crate::float::f32_parts_spec(value.spec_bits()),
            radix as u32,
            if radix >= 15 {
                crate::options::CH_CARET
            } else {
                crate::options::CH_LOWER_E
            },
            trim_floats,
            crate::options::default_nan(),
            crate::options::default_inf(),
            MAX_DIGITS_F32 as int,
            final(bytes)@.take(len as int),
        ),
        final(bytes)@.skip(len as int) == old(bytes)@.skip(len as int),
{
    // Touch the last guaranteed byte first: an undersized buffer
    // aborts at once instead of risking a partial, ambiguous write.
    let _last_guaranteed = bytes[MAX_F32_SIZE - 1];
    let out = f32toa(value, radix, trim_floats);
    write_prefix(bytes, &out);
    out.len()
}

/// Serialize a 64-bit float into a caller buffer pre-sized to the
/// published maximum, returning how many bytes were written.
pub fn f64toa_slice(
    value: crate::float::Float64,
    radix: u8,
    trim_floats: bool,
    bytes: &mut Vec<u8>,
) -> (len: usize)
    requires
        crate::options::valid_radix(radix),
        old(bytes)@.len() >= MAX_F64_SIZE,
    ensures
        final(bytes)@.len() == old(bytes)@.len(),
        1 <= len <= MAX_F64_SIZE,
        float_text_ok(
            crate::float::f64_parts_spec(value.spec_bits()),
            radix as u32,
            if radix >= 15 {
                crate::options::CH_CARET
            } else {
                crate::options::CH_LOWER_E
            },
            trim_floats,
            crate::options::default_nan(),
            crate::options::default_inf(),
            MAX_DIGITS_F64 as int,
            final(bytes)@.take(len as int),
        ),
        final(bytes)@.skip(len as int) == old(bytes)@.skip(len as int),
{
    // Touch the last guaranteed byte first: an undersized buffer
    // aborts at once instead of risking a partial, ambiguous write.
    let _last_guaranteed = bytes[MAX_F64_SIZE - 1];
    let out = f64toa(value, radix, trim_floats);
    write_prefix(bytes, &out);
    out.len()
}

/// The same 64-bit pattern with its sign bit flipped.
pub open spec fn f64_negated(bits: u64) -> u64 {
    if crate::float::f64_is_negative(bits) {
        (bits - 0x8000_0000_0000_0000) as u64
    } else {
        (bits + 0x8000_0000_0000_0000) as u64
    }
}

/// The same 32-bit pattern with its sign bit flipped.
pub open spec fn f32_negated(bits: u32) -> u32 {
    if crate::float::f32_is_negative(bits) {
        (bits - 0x8000_0000) as u32
    } else {
        (bits + 0x8000_0000) as u32
    }
}

/// Flipping the sign bit changes nothing but the sign: the exponent
/// and mantissa fields stay as they were.
pub proof fn lemma_f64_negated_fields(bits: u64)
    ensures
        crate::float::f64_exp_field(f64_negated(bits)) == crate::float::f64_exp_field(bits),
        crate::float::f64_man_field(f64_negated(bits)) == crate::float::f64_man_field(bits),
        crate::float::f64_is_negative(f64_negated(bits)) == !crate::float::f64_is_negative(bits),
{
    let b = bits as int;
    let n = f64_negated(bits) as int;
    let m52: int = 0x10_0000_0000_0000;
    if crate::float::f64_is_negative(bits) {
        assert(b / 0x8000_0000_0000_0000 == 1);
        assert(b >= 0x8000_0000_0000_0000) by (nonlinear_arith)
            requires
                b / 0x8000_0000_0000_0000 == 1,
                0 <= b < 0x1_0000_0000_0000_0000,
        ;
        assert(n == b - 2048 * m52);
        assert((2048 * m52 + n) % m52 == n % m52) by {
            vstd::arithmetic::div_mod::lemma_mod_multiples_vanish(2048, n, m52);
        }
        assert(b / m52 == n / m52 + 2048) by {
            vstd::arithmetic::div_mod::lemma_hoist_over_denominator(n, 2048, m52 as nat);
        }
        assert((n / m52 + 2048) % 0x800 == (n / m52) % 0x800) by {
            vstd::arithmetic::div_mod::lemma_mod_multiples_vanish(1, n / m52, 0x800);
        }
        assert(n / 0x8000_0000_0000_0000 == 0) by (nonlinear_arith)
            requires
                0 <= n < 0x8000_0000_0000_0000,
        ;
    } else {
        assert(b / 0x8000_0000_0000_0000 == 0);
        assert(b < 0x8000_0000_0000_0000) by (nonlinear_arith)
            requires
                b / 0x8000_0000_0000_0000 == 0,
                0 <= b,
        ;
        assert(n == b + 2048 * m52);
        assert((2048 * m52 + b) % m52 == b % m52) by {
            vstd::arithmetic::div_mod::lemma_mod_multiples_vanish(2048, b, m52);
        }
        assert(n / m52 == b / m52 + 2048) by {
            vstd::arithmetic::div_mod::lemma_hoist_over_denominator(b, 2048, m52 as nat);
        }
        assert((b / m52 + 2048) % 0x800 == (b / m52) % 0x800) by {
            vstd::arithmetic::div_mod::lemma_mod_multiples_vanish(1, b / m52, 0x800);
        }
        assert(n / 0x8000_0000_0000_0000 == 1) by (nonlinear_arith)
            requires
                0x8000_0000_0000_0000 <= n < 0x1_0000_0000_0000_0000,
        ;
    }
}

/// Flipping the sign bit changes nothing but the sign: the exponent
/// and mantissa fields stay as they were.
pub proof fn lemma_f32_negated_fields(bits: u32)
    ensures
        crate::float::f32_exp_field(f32_negated(bits)) == crate::float::f32_exp_field(bits),
        crate::float::f32_man_field(f32_negated(bits)) == crate::float::f32_man_field(bits),
        crate::float::f32_is_negative(f32_negated(bits)) == !crate::float::f32_is_negative(bits),
{
    let b = bits as int;
    let n = f32_negated(bits) as int;
    let m23: int = 0x80_0000;
    if crate::float::f32_is_negative(bits) {
        assert(b / 0x8000_0000 == 1);
        assert(b >= 0x8000_0000) by (nonlinear_arith)
            requires
                b / 0x8000_0000 == 1,
                0 <= b < 0x1_0000_0000,
        ;
        assert(n == b - 256 * m23);
        assert((256 * m23 + n) % m23 == n % m23) by {
            vstd::arithmetic::div_mod::lemma_mod_multiples_vanish(256, n, m23);
        }
        assert(b / m23 == n / m23 + 256) by {
            vstd::arithmetic::div_mod::lemma_hoist_over_denominator(n, 256, m23 as nat);
        }
        assert((n / m23 + 256) % 0x100 == (n / m23) % 0x100) by {
            vstd::arithmetic::div_mod::lemma_mod_multiples_vanish(1, n / m23, 0x100);
        }
        assert(n / 0x8000_0000 == 0) by (nonlinear_arith)
            requires
                0 <= n < 0x8000_0000,
        ;
    } else {
        assert(b / 0x8000_0000 == 0);
        assert(b < 0x8000_0000) by (nonlinear_arith)
            requires
                b / 0x8000_0000 == 0,
                0 <= b,
        ;
        assert(n == b + 256 * m23);
        assert((256 * m23 + b) % m23 == b % m23) by {
            vstd::arithmetic::div_mod::lemma_mod_multiples_vanish(256, b, m23);
        }
        assert(n / m23 == b / m23 + 256) by {
            vstd::arithmetic::div_mod::lemma_hoist_over_denominator(b, 256, m23 as nat);
        }
        assert((b / m23 + 256) % 0x100 == (b / m23) % 0x100) by {
            vstd::arithmetic::div_mod::lemma_mod_multiples_vanish(1, b / m23, 0x100);
        }
        assert(n / 0x8000_0000 == 1) by (nonlinear_arith)
            requires
                0x8000_0000 <= n < 0x1_0000_0000,
        ;
    }
}

/// Sign symmetry of the untrimmed format path: the text of a negated
/// 64-bit float is `-` followed by the text of the positive float,
/// exactly so for zeros, NaN and infinities; for finite values the
/// negated text carries the `-` in front of a digit body.
pub proof fn lemma_sign_symmetry64(
    bits: u64,
    radix: u32,
    exponent_char: u8,
    nan: Seq<u8>,
    inf: Seq<u8>,
    max_digits: int,
    out_pos: Seq<u8>,
    out_neg: Seq<u8>,
)
    requires
        !crate::float::f64_is_negative(bits),
        float_text_ok(
            crate::float::f64_parts_spec(bits),
            radix,
            exponent_char,
            false,
            nan,
            inf,
            max_digits,
            out_pos,
        ),
        float_text_ok(
            crate::float::f64_parts_spec(f64_negated(bits)),
            radix,
            exponent_char,
            false,
            nan,
            inf,
            max_digits,
            out_neg,
        ),
    ensures
        !crate::float::f64_is_finite_nonzero(bits) ==> out_neg == seq![CH_MINUS] + out_pos,
        crate::float::f64_is_finite_nonzero(bits) ==> out_neg.len() >= 2 && out_neg[0] == CH_MINUS,
{
    lemma_f64_negated_fields(bits);
    let p = crate::float::f64_parts_spec(bits);
    let q = crate::float::f64_parts_spec(f64_negated(bits));
    assert(q.kind == p.kind);
    assert(q.negative && !p.negative);
    match p.kind {
        crate::float::FloatKind::Nan => {
            assert(out_pos == nan);
            assert(out_neg == seq![CH_MINUS] + nan);
        },
        crate::float::FloatKind::Infinite => {
            assert(out_pos == inf);
            assert(out_neg == seq![CH_MINUS] + inf);
        },
        crate::float::FloatKind::Zero => {
            assert(out_pos == seq![CH_DIGIT_ZERO, CH_DOT, CH_DIGIT_ZERO]);
            assert(out_neg == seq![CH_MINUS, CH_DIGIT_ZERO, CH_DOT, CH_DIGIT_ZERO]);
            assert(out_neg =~= seq![CH_MINUS] + out_pos);
        },
        crate::float::FloatKind::Finite => {
        },
    }
}

/// Sign symmetry of the untrimmed format path, for 32-bit floats.
pub proof fn lemma_sign_symmetry32(
    bits: u32,
    radix: u32,
    exponent_char: u8,
    nan: Seq<u8>,
    inf: Seq<u8>,
    max_digits: int,
    out_pos: Seq<u8>,
    out_neg: Seq<u8>,
)
    requires
        !crate::float::f32_is_negative(bits),
        float_text_ok(
            crate::float::f32_parts_spec(bits),
            radix,
            exponent_char,
            false,
            nan,
            inf,
            max_digits,
            out_pos,
        ),
        float_text_ok(
            crate::float::f32_parts_spec(f32_negated(bits)),
            radix,
            exponent_char,
            false,
            nan,
            inf,
            max_digits,
            out_neg,
        ),
    ensures
        !crate::float::f32_is_finite_nonzero(bits) ==> out_neg == seq![CH_MINUS] + out_pos,
        crate::float::f32_is_finite_nonzero(bits) ==> out_neg.len() >= 2 && out_neg[0] == CH_MINUS,
{
    lemma_f32_negated_fields(bits);
    let p = crate::float::f32_parts_spec(bits);
    let q = crate::float::f32_parts_spec(f32_negated(bits));
    assert(q.kind == p.kind);
    assert(q.negative && !p.negative);
    match p.kind {
        crate::float::FloatKind::Nan => {
            assert(out_pos == nan);
            assert(out_neg == seq![CH_MINUS] + nan);
        },
        crate::float::FloatKind::Infinite => {
            assert(out_pos == inf);
            assert(out_neg == seq![CH_MINUS] + inf);
        },
        crate::float::FloatKind::Zero => {
            assert(out_pos == seq![CH_DIGIT_ZERO, CH_DOT, CH_DIGIT_ZERO]);
            assert(out_neg == seq![CH_MINUS, CH_DIGIT_ZERO, CH_DOT, CH_DIGIT_ZERO]);
            assert(out_neg =~= seq![CH_MINUS] + out_pos);
        },
        crate::float::FloatKind::Finite => {
        },
    }
}

} // verus!
