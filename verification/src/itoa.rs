//! Writing integers as digit strings in an arbitrary radix.

use vstd::prelude::*;
use crate::digit::digit_byte;
use crate::digit::digit_to_byte;
use crate::digit::is_digit;

verus! {

/// The digit string of a non-negative integer in the given radix, most
/// significant digit first.
pub open spec fn spec_digits(v: nat, radix: nat) -> Seq<u8>
    decreases v,
    when radix >= 2
    via spec_digits_dec
{
    if v < radix {
        seq![digit_byte(v as int)]
    } else {
        spec_digits(v / radix, radix) + seq![digit_byte((v % radix) as int)]
    }
}

#[via_fn]
proof fn spec_digits_dec(v: nat, radix: nat) {
    if v >= radix {
        vstd::arithmetic::div_mod::lemma_div_decreases(v as int, radix as int);
    }
}

/// Every byte of a digit string is a digit of the radix.
pub proof fn lemma_spec_digits_are_digits(v: nat, radix: nat)
    requires
        2 <= radix <= 36,
    ensures
        forall|i: int|
            0 <= i < spec_digits(v, radix).len() ==> is_digit(
                #[trigger] spec_digits(v, radix)[i],
                radix as u32,
            ),
    decreases v,
{
    vstd::arithmetic::div_mod::lemma_mod_bound(v as int, radix as int);
    if v < radix {
        assert(is_digit(digit_byte(v as int), radix as u32));
    } else {
        vstd::arithmetic::div_mod::lemma_div_decreases(v as int, radix as int);
        lemma_spec_digits_are_digits(v / radix, radix);
        assert(is_digit(digit_byte((v % radix) as int), radix as u32));
        assert(forall|i: int|
            0 <= i < spec_digits(v / radix, radix).len() ==> spec_digits(v, radix)[i]
                == spec_digits(v / radix, radix)[i]);
    }
}

/// Write a 64-bit value as digits in the given radix.
pub fn u64toa_radix(v: u64, radix: u32) -> (r: Vec<u8>)
    requires
        2 <= radix <= 36,
    ensures
        r@ == spec_digits(v as nat, radix as nat),
        r@.len() >= 1,
        forall|i: int| 0 <= i < r@.len() ==> is_digit(#[trigger] r@[i], radix),
{
    let mut out: Vec<u8> = Vec::new();
    let mut cur: u64 = v;
    proof {
        vstd::arithmetic::div_mod::lemma_mod_bound(cur as int, radix as int);
    }
    let d0 = digit_to_byte((cur % (radix as u64)) as u32);
    out.push(d0);
    proof {
        if v < radix as u64 {
            assert(v % (radix as u64) == v) by {
                vstd::arithmetic::div_mod::lemma_small_mod(v as nat, radix as nat);
            }
            assert(out@ =~= spec_digits(v as nat, radix as nat));
            assert(v as nat / radix as nat == 0) by {
                vstd::arithmetic::div_mod::lemma_basic_div(v as int, radix as int);
            }
        } else {
            assert(out@ =~= seq![digit_byte((v as nat % radix as nat) as int)]);
            assert(spec_digits(v as nat, radix as nat) == spec_digits(
                v as nat / radix as nat,
                radix as nat,
            ) + out@);
        }
        if v >= radix as u64 {
            vstd::arithmetic::div_mod::lemma_div_non_zero(v as int, radix as int);
        }
    }
    cur = cur / (radix as u64);
    while cur > 0
        invariant
            2 <= radix <= 36,
            spec_digits(v as nat, radix as nat) == (if cur > 0 {
                spec_digits(cur as nat, radix as nat) + out@
            } else {
                out@
            }),
            out@.len() >= 1,
        decreases cur,
    {
        let ghost pre = out@;
        let ghost curg = cur as nat;
        proof {
            vstd::arithmetic::div_mod::lemma_mod_bound(cur as int, radix as int);
        }
        let d = digit_to_byte((cur % (radix as u64)) as u32);
        out.insert(0, d);
        proof {
            assert(out@ =~= seq![d] + pre);
            if curg >= radix as nat {
                assert(spec_digits(curg, radix as nat) == spec_digits(
                    curg / (radix as nat),
                    radix as nat,
                ) + seq![digit_byte((curg % (radix as nat)) as int)]);
                assert((spec_digits(curg / (radix as nat), radix as nat) + seq![d]) + pre
                    =~= spec_digits(curg / (radix as nat), radix as nat) + (seq![d] + pre));
                vstd::arithmetic::div_mod::lemma_div_non_zero(curg as int, radix as int);
            } else {
                assert(curg % (radix as nat) == curg) by {
                    vstd::arithmetic::div_mod::lemma_small_mod(curg, radix as nat);
                }
                assert(spec_digits(curg, radix as nat) =~= seq![d]);
                assert(spec_digits(curg, radix as nat) + pre =~= seq![d] + pre);
                assert(curg / (radix as nat) == 0) by {
                    vstd::arithmetic::div_mod::lemma_basic_div(curg as int, radix as int);
                }
            }
        }
        cur = cur / (radix as u64);
    }
    proof {
        lemma_spec_digits_are_digits(v as nat, radix as nat);
    }
    out
}

} // verus!
