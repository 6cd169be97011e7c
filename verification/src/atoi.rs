//! Reading integers from digit strings in an arbitrary radix.
//!
//! The unchecked entry points consume the longest digit prefix and
//! fold it with wrapping arithmetic; the checked ones also demand that
//! the whole input was consumed, reporting the offset of the first
//! unread byte otherwise.

use vstd::prelude::*;
use crate::digit::byte_to_digit;
use crate::digit::digit_value;
use crate::digit::is_digit;
use crate::ftoa::CH_MINUS;
use crate::atof::CH_PLUS;

verus! {

/// The value of a digit byte string folded left to right with
/// wrapping 64-bit arithmetic.
pub open spec fn wrap_fold64(s: Seq<u8>, radix: u32) -> nat
    decreases s.len(),
{
    if s.len() == 0 {
        0
    } else {
        (((wrap_fold64(s.drop_last(), radix) * radix + digit_value(s.last()))
            % 0x1_0000_0000_0000_0000) as nat)
    }
}

/// How far the digit prefix of the input reaches.
pub open spec fn digit_span(s: Seq<u8>, radix: u32, n: int) -> bool {
    &&& 0 <= n <= s.len()
    &&& forall|j: int| 0 <= j < n ==> is_digit(#[trigger] s[j], radix)
    &&& n < s.len() ==> !is_digit(s[n], radix)
}

/// Fold the longest digit prefix into a wrapping 64-bit value.
pub fn atou64_core(bytes: &[u8], radix: u32) -> (r: (u64, usize))
    requires
        2 <= radix <= 36,
    ensures
        digit_span(bytes@, radix, r.1 as int),
        r.0 == wrap_fold64(bytes@.take(r.1 as int), radix),
{
    let len = bytes.len();
    let mut value: u64 = 0;
    let mut idx: usize = 0;
    proof {
        assert(bytes@.take(0) =~= Seq::<u8>::empty());
    }
    while idx < len && byte_to_digit(bytes[idx], radix).is_some()
        invariant
            idx <= len,
            len == bytes@.len(),
            2 <= radix <= 36,
            forall|j: int| 0 <= j < idx ==> is_digit(#[trigger] bytes@[j], radix),
            value == wrap_fold64(bytes@.take(idx as int), radix),
        decreases len - idx,
    {
        let d = byte_to_digit(bytes[idx], radix).unwrap();
        let ghost pre = bytes@.take(idx as int);
        proof {
            assert((value as int) * (radix as int) + d < 0x1_0000_0000_0000_0000_0000_0000)
                by (nonlinear_arith)
                requires
                    value <= 0xFFFF_FFFF_FFFF_FFFFu64,
                    radix <= 36u32,
                    d < 36u32,
            ;
        }
        let wide: u128 = (value as u128) * (radix as u128) + (d as u128);
        let next: u64 = (wide % 0x1_0000_0000_0000_0000) as u64;
        proof {
            assert(bytes@.take(idx + 1).drop_last() =~= pre);
            assert(bytes@.take(idx + 1).last() == bytes@[idx as int]);
            vstd::arithmetic::div_mod::lemma_mod_bound(
                wide as int,
                0x1_0000_0000_0000_0000,
            );
        }
        value = next;
        idx = idx + 1;
    }
    proof {
        if idx == len {
            assert(bytes@.take(len as int) =~= bytes@);
        }
    }
    (value, idx)
}

/// What the unchecked unsigned read returns: the folded value of the
/// digit prefix that follows an optional sign, negated (wrapping) for
/// a minus sign.
pub open spec fn atou64_spec(s: Seq<u8>, radix: u32, value: u64, consumed: int) -> bool {
    if s.len() > 0 && (s[0] == CH_MINUS || s[0] == CH_PLUS) {
        exists|n: int|
            {
                &&& #[trigger] digit_span(s.skip(1), radix, n)
                &&& consumed == 1 + n
                &&& (s[0] == CH_PLUS ==> value == wrap_fold64(s.skip(1).take(n), radix))
                &&& (s[0] == CH_MINUS ==> value as int == (0x1_0000_0000_0000_0000 - wrap_fold64(
                    s.skip(1).take(n),
                    radix,
                )) % 0x1_0000_0000_0000_0000)
            }
    } else {
        exists|n: int|
            {
                &&& #[trigger] digit_span(s, radix, n)
                &&& consumed == n
                &&& value == wrap_fold64(s.take(n), radix)
            }
    }
}

/// Round trip for integers: folding the digit string an integer
/// writes gives back exactly that integer, in every radix.
pub proof fn lemma_integer_roundtrip(v: u64, radix: u32)
    requires
        2 <= radix <= 36,
    ensures
        wrap_fold64(crate::itoa::spec_digits(v as nat, radix as nat), radix) == v,
{
    lemma_fold_digits(v as nat, radix);
}

/// Folding the digit string of any value below 2^64 yields the value.
proof fn lemma_fold_digits(v: nat, radix: u32)
    requires
        2 <= radix <= 36,
        v < 0x1_0000_0000_0000_0000,
    ensures
        wrap_fold64(crate::itoa::spec_digits(v, radix as nat), radix) == v,
    decreases v,
{
    let b = radix as nat;
    let s = crate::itoa::spec_digits(v, b);
    vstd::arithmetic::div_mod::lemma_mod_bound(v as int, b as int);
    if v < b {
        assert(s == seq![crate::digit::digit_byte(v as int)]);
        assert(s.drop_last() =~= Seq::<u8>::empty());
        assert(wrap_fold64(s.drop_last(), radix) == 0);
        assert(s.len() == 1 && s.last() == crate::digit::digit_byte(v as int));
        assert(digit_value(crate::digit::digit_byte(v as int)) == v);
        vstd::arithmetic::div_mod::lemma_small_mod(v, 0x1_0000_0000_0000_0000);
        assert(wrap_fold64(s, radix) == ((wrap_fold64(s.drop_last(), radix) * radix
            + digit_value(s.last())) % 0x1_0000_0000_0000_0000) as nat);
        assert(wrap_fold64(s, radix) == v);
    } else {
        vstd::arithmetic::div_mod::lemma_div_decreases(v as int, b as int);
        vstd::arithmetic::div_mod::lemma_div_is_ordered_by_denominator(v as int, 2, b as int);
        assert(v / b <= v / 2);
        lemma_fold_digits(v / b, radix);
        let hd = crate::itoa::spec_digits(v / b, b);
        let last = crate::digit::digit_byte((v % b) as int);
        assert(s == hd + seq![last]);
        assert(s.drop_last() =~= hd);
        assert(s.last() == last);
        assert(digit_value(last) == v % b);
        assert(wrap_fold64(s, radix) == ((wrap_fold64(hd, radix) * radix + digit_value(last))
            % 0x1_0000_0000_0000_0000) as nat);
        assert((v / b) * b + (v % b) == v) by {
            vstd::arithmetic::div_mod::lemma_fundamental_div_mod(v as int, b as int);
        }
        vstd::arithmetic::div_mod::lemma_small_mod(v, 0x1_0000_0000_0000_0000);
        assert(wrap_fold64(s, radix) == v);
    }
}

/// The whole input is one optionally signed, non-empty digit string.
pub open spec fn signed_digit_input(bytes: Seq<u8>, radix: u32) -> bool {
    if bytes.len() > 0 && (bytes[0] == CH_MINUS || bytes[0] == CH_PLUS) {
        bytes.len() > 1 && (forall|j: int| 1 <= j < bytes.len() ==> is_digit(#[trigger] bytes[j], radix))
    } else {
        bytes.len() > 0 && (forall|j: int| 0 <= j < bytes.len() ==> is_digit(#[trigger] bytes[j], radix))
    }
}

/// The offset where the optionally signed digit prefix of the input
/// ends: the first byte that is neither part of the sign nor a digit.
pub open spec fn signed_digit_span(bytes: Seq<u8>, radix: u32, i: int) -> bool {
    if bytes.len() > 0 && (bytes[0] == CH_MINUS || bytes[0] == CH_PLUS) {
        i >= 1 && digit_span(bytes.skip(1), radix, i - 1)
    } else {
        digit_span(bytes, radix, i)
    }
}

/// Read an integer with an optional sign: the folded digit prefix,
/// wrapped, and how many bytes it spanned.
pub fn atoi_signed_core(bytes: &[u8], radix: u32) -> (r: (u64, usize, bool))
    requires
        2 <= radix <= 36,
    ensures
        atou64_spec(bytes@, radix, r.0, r.1 as int),
        signed_digit_span(bytes@, radix, r.1 as int),
        r.2 == (bytes@.len() > 0 && bytes@[0] == CH_MINUS),
        r.1 <= bytes@.len(),
        (r.1 == bytes@.len()) || !is_digit(bytes@[r.1 as int], radix),
{
    let len = bytes.len();
    if len > 0 && (bytes[0] == CH_MINUS || bytes[0] == CH_PLUS) {
        let negative = bytes[0] == CH_MINUS;
        let rest = vstd::slice::slice_subrange(bytes, 1, len);
        proof {
            assert(rest@ =~= bytes@.skip(1));
        }
        let (mag, n) = atou64_core(rest, radix);
        let value: u64 = if negative {
            if mag == 0 {
                0
            } else {
                (u64::MAX - mag) + 1
            }
        } else {
            mag
        };
        proof {
            assert(digit_span(bytes@.skip(1), radix, n as int));
            if n < rest@.len() {
                assert(bytes@[1 + n] == bytes@.skip(1)[n as int]);
            }
        }
        (value, 1 + n, negative)
    } else {
        let (mag, n) = atou64_core(bytes, radix);
        proof {
            assert(digit_span(bytes@, radix, n as int));
        }
        (mag, n, false)
    }
}

} // verus!
