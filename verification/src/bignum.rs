//! An arbitrary-length unsigned integer accumulator.
//!
//! The exact conversion paths work on numbers far wider than any native
//! word: a float mantissa scaled by a power of two, or a digit string
//! scaled by a power of the radix.  `Bigint` holds such a number as
//! little-endian 32-bit limbs and supports exactly the operations those
//! paths need: multiply by a small integer, multiply by a power of two,
//! add, subtract, and compare.  Every operation's contract speaks about
//! the abstract value of the limbs.

use vstd::prelude::*;
use vstd::arithmetic::power2::pow2;
use vstd::arithmetic::power2::lemma_pow2_adds;
use vstd::arithmetic::power2::lemma_pow2_strictly_increases;
use vstd::arithmetic::power2::lemma2_to64;

verus! {

/// The value carried by a little-endian sequence of 32-bit limbs.
pub open spec fn limbs_value(s: Seq<u32>) -> nat
    decreases s.len(),
{
    if s.len() == 0 {
        0
    } else {
        limbs_value(s.drop_last()) + (s.last() as nat) * pow2((32 * (s.len() - 1)) as nat)
    }
}

/// The value of a prefix one limb longer splits off that limb.
proof fn lemma_take_step(s: Seq<u32>, i: int)
    requires
        0 <= i < s.len(),
    ensures
        limbs_value(s.take(i + 1)) == limbs_value(s.take(i)) + s[i] * pow2((32 * i) as nat),
{
    let t = s.take(i + 1);
    assert(t.drop_last() =~= s.take(i));
    assert(t.last() == s[i]);
}

/// An empty limb sequence is worth zero.
proof fn lemma_value_empty(s: Seq<u32>)
    requires
        s.len() == 0,
    ensures
        limbs_value(s) == 0,
{
}

/// A single limb is worth itself.
proof fn lemma_value_one(s: Seq<u32>)
    requires
        s.len() == 1,
    ensures
        limbs_value(s) == s[0],
{
    lemma2_to64();
    assert(limbs_value(s.drop_last()) == 0);
    assert(limbs_value(s) == limbs_value(s.drop_last()) + (s.last() as nat) * pow2(0));
    assert((s.last() as nat) * 1 == s.last());
}

/// A limb sequence is worth less than the weight just above its top limb.
proof fn lemma_value_upper(s: Seq<u32>)
    ensures
        limbs_value(s) < pow2((32 * s.len()) as nat),
    decreases s.len(),
{
    if s.len() == 0 {
        vstd::arithmetic::power2::lemma_pow2_pos(0);
    } else {
        let n = s.len() - 1;
        lemma_value_upper(s.drop_last());
        lemma_pow2_adds((32 * n) as nat, 32);
        lemma2_to64();
        assert(s.last() * pow2((32 * n) as nat) <= 0xFFFF_FFFF * pow2((32 * n) as nat))
            by (nonlinear_arith)
            requires
                s.last() <= 0xFFFF_FFFFu32,
                pow2((32 * n) as nat) > 0,
        ;
        assert(pow2((32 * n) as nat) + 0xFFFF_FFFF * pow2((32 * n) as nat) == pow2(
            (32 * n) as nat,
        ) * 0x1_0000_0000) by (nonlinear_arith);
        vstd::arithmetic::power2::lemma_pow2_pos((32 * n) as nat);
    }
}

/// Two equal-length limb sequences that agree above position `j` are
/// ordered as their limbs at `j`, when the lower one's limb is smaller.
proof fn lemma_cmp_at(a: Seq<u32>, b: Seq<u32>, j: int)
    requires
        a.len() == b.len(),
        0 <= j < a.len(),
        a.skip(j + 1) =~= b.skip(j + 1),
        a[j] < b[j],
    ensures
        limbs_value(a) < limbs_value(b),
    decreases a.len() - j,
{
    if j == a.len() - 1 {
        lemma_value_upper(a.drop_last());
        assert(limbs_value(a) == limbs_value(a.drop_last()) + a[j] * pow2((32 * j) as nat));
        assert(limbs_value(b) == limbs_value(b.drop_last()) + b[j] * pow2((32 * j) as nat));
        assert(limbs_value(b.drop_last()) >= 0);
        assert((a[j] + 1) * pow2((32 * j) as nat) <= b[j] * pow2((32 * j) as nat))
            by (nonlinear_arith)
            requires
                a[j] + 1 <= b[j],
                pow2((32 * j) as nat) > 0,
        {
            vstd::arithmetic::power2::lemma_pow2_pos((32 * j) as nat);
        }
        assert(a[j] * pow2((32 * j) as nat) + pow2((32 * j) as nat) == (a[j] + 1) * pow2(
            (32 * j) as nat,
        )) by (nonlinear_arith);
        vstd::arithmetic::power2::lemma_pow2_pos((32 * j) as nat);
    } else {
        assert(a.last() == b.last()) by {
            assert(a.skip(j + 1)[a.len() - 1 - (j + 1)] == a[a.len() - 1]);
            assert(b.skip(j + 1)[b.len() - 1 - (j + 1)] == b[b.len() - 1]);
        }
        assert(a.drop_last().skip(j + 1) =~= b.drop_last().skip(j + 1)) by {
            assert(forall|k: int|
                0 <= k < a.drop_last().skip(j + 1).len() ==> #[trigger] a.drop_last().skip(j + 1)[k]
                    == a.skip(j + 1)[k] && #[trigger] b.drop_last().skip(j + 1)[k] == b.skip(
                    j + 1,
                )[k]);
        }
        lemma_cmp_at(a.drop_last(), b.drop_last(), j);
    }
}

/// An arbitrary-length unsigned integer, as little-endian 32-bit limbs.
#[derive(Debug)]
pub struct Bigint {
    limbs: Vec<u32>,
}

impl Bigint {
    /// The number this accumulator holds.
    pub closed spec fn value(&self) -> nat {
        limbs_value(self.limbs@)
    }

    /// The limbs are normalized: no wasted zero limb on top, stated as
    /// the value reaching the weight of the top limb.
    pub closed spec fn wf(&self) -> bool {
        self.limbs@.len() == 0 || self.value() >= pow2((32 * (self.limbs@.len() - 1)) as nat)
    }

    /// The zero accumulator.
    pub fn zero() -> (r: Bigint)
        ensures
            r.wf(),
            r.value() == 0,
    {
        Bigint { limbs: Vec::new() }
    }

    /// An accumulator holding a native 64-bit value.
    pub fn from_u64(x: u64) -> (r: Bigint)
        ensures
            r.wf(),
            r.value() == x,
    {
        let lo: u32 = (x % 0x1_0000_0000) as u32;
        let hi: u32 = (x / 0x1_0000_0000) as u32;
        let mut limbs: Vec<u32> = Vec::new();
        proof {
            vstd::arithmetic::div_mod::lemma_fundamental_div_mod(x as int, 0x1_0000_0000);
        }
        if hi != 0 {
            limbs.push(lo);
            limbs.push(hi);
            proof {
                lemma2_to64();
                assert(limbs@.drop_last() =~= seq![lo]);
                lemma_value_one(seq![lo]);
                assert(limbs_value(limbs@) == lo + (hi as nat) * pow2(32));
                assert((hi as nat) * pow2(32) == hi * 0x1_0000_0000);
                assert(hi * 0x1_0000_0000 >= 1 * 0x1_0000_0000) by (nonlinear_arith)
                    requires
                        hi >= 1,
                ;
            }
            Bigint { limbs }
        } else if lo != 0 {
            limbs.push(lo);
            proof {
                lemma2_to64();
                assert(limbs@.drop_last() =~= Seq::<u32>::empty());
                lemma_value_one(limbs@);
            }
            Bigint { limbs }
        } else {
            proof {
                lemma_value_empty(limbs@);
            }
            Bigint { limbs }
        }
    }

    /// A copy of this accumulator.
    pub fn clone_bn(&self) -> (r: Bigint)
        ensures
            r.wf() == self.wf(),
            r.value() == self.value(),
    {
        let mut limbs: Vec<u32> = Vec::new();
        let mut i: usize = 0;
        while i < self.limbs.len()
            invariant
                i <= self.limbs@.len(),
                limbs@ =~= self.limbs@.take(i as int),
            decreases self.limbs@.len() - i,
        {
            limbs.push(self.limbs[i]);
            i += 1;
        }
        proof {
            assert(limbs@ =~= self.limbs@);
        }
        Bigint { limbs }
    }

    /// Whether the accumulator holds zero.
    pub fn is_zero(&self) -> (r: bool)
        requires
            self.wf(),
        ensures
            r == (self.value() == 0),
    {
        proof {
            if self.limbs@.len() > 0 {
                vstd::arithmetic::power2::lemma_pow2_pos((32 * (self.limbs@.len() - 1)) as nat);
            }
        }
        self.limbs.len() == 0
    }

    /// Multiply in place by a small non-zero factor.
    pub fn mul_small(&mut self, m: u32)
        requires
            old(self).wf(),
            1 <= m,
        ensures
            final(self).wf(),
            final(self).value() == old(self).value() * m,
    {
        let ghost orig = self.limbs@;
        let mut carry: u32 = 0;
        let mut i: usize = 0;
        proof {
            assert(self.limbs@.take(0) =~= Seq::<u32>::empty());
            assert(orig.take(0) =~= Seq::<u32>::empty());
            lemma_value_empty(orig.take(0));
            assert(limbs_value(orig.take(0)) * m == 0) by (nonlinear_arith)
                requires
                    limbs_value(orig.take(0)) == 0,
            ;
        }
        while i < self.limbs.len()
            invariant
                i <= self.limbs@.len(),
                self.limbs@.len() == orig.len(),
                m >= 1,
                forall|j: int| i <= j < orig.len() ==> self.limbs@[j] == orig[j],
                limbs_value(self.limbs@.take(i as int)) + carry * pow2((32 * i) as nat)
                    == limbs_value(orig.take(i as int)) * m,
            decreases self.limbs@.len() - i,
        {
            let ghost pre = self.limbs@;
            let ghost carry_in = carry;
            proof {
                assert((self.limbs@[i as int] as int) * (m as int) + (carry as int)
                    < 0x1_0000_0000_0000_0000) by (nonlinear_arith)
                    requires
                        self.limbs@[i as int] <= 0xFFFF_FFFFu32,
                        m <= 0xFFFF_FFFFu32,
                        carry <= 0xFFFF_FFFFu32,
                ;
            }
            let prod: u64 = (self.limbs[i] as u64) * (m as u64) + (carry as u64);
            let lo: u32 = (prod % 0x1_0000_0000) as u32;
            let hi: u32 = (prod / 0x1_0000_0000) as u32;
            self.limbs.set(i, lo);
            carry = hi;
            proof {
                let w = pow2((32 * i) as nat);
                lemma2_to64();
                lemma_pow2_adds((32 * i) as nat, 32);
                vstd::arithmetic::div_mod::lemma_fundamental_div_mod(
                    prod as int,
                    0x1_0000_0000,
                );
                assert(self.limbs@.take(i as int) =~= pre.take(i as int));
                assert(orig.take(i + 1).drop_last() =~= orig.take(i as int));
                lemma_take_step(orig, i as int);
                lemma_take_step(self.limbs@, i as int);
                assert(orig[i as int] * m + carry_in == lo + hi * 0x1_0000_0000);
                assert(limbs_value(self.limbs@.take(i + 1)) + hi * (w * 0x1_0000_0000)
                    == limbs_value(orig.take(i + 1)) * m) by (nonlinear_arith)
                    requires
                        limbs_value(self.limbs@.take(i + 1)) == limbs_value(
                            self.limbs@.take(i as int),
                        ) + lo * w,
                        limbs_value(orig.take(i + 1)) == limbs_value(orig.take(i as int))
                            + orig[i as int] * w,
                        limbs_value(self.limbs@.take(i as int)) + carry_in * w == limbs_value(
                            orig.take(i as int),
                        ) * m,
                        orig[i as int] * m + carry_in == lo + hi * 0x1_0000_0000,
                ;
            }
            i += 1;
        }
        proof {
            assert(self.limbs@.take(self.limbs@.len() as int) =~= self.limbs@);
            assert(orig.take(orig.len() as int) =~= orig);
        }
        if carry > 0 {
            let ghost pre = self.limbs@;
            self.limbs.push(carry);
            proof {
                assert(self.limbs@.drop_last() =~= pre);
                assert(limbs_value(self.limbs@) == limbs_value(pre) + carry * pow2(
                    (32 * pre.len()) as nat,
                ));
                vstd::arithmetic::power2::lemma_pow2_pos((32 * pre.len()) as nat);
                assert(carry * pow2((32 * pre.len()) as nat) >= pow2((32 * pre.len()) as nat))
                    by (nonlinear_arith)
                    requires
                        carry >= 1,
                        pow2((32 * pre.len()) as nat) > 0,
                ;
            }
        } else {
            proof {
                if orig.len() > 0 {
                    let b = pow2((32 * (orig.len() - 1)) as nat);
                    assert(limbs_value(orig) * m >= limbs_value(orig) * 1) by (nonlinear_arith)
                        requires
                            m >= 1,
                            limbs_value(orig) >= 0,
                    ;
                }
            }
        }
    }

    /// Multiply in place by 2^k.
    pub fn mul_pow2(&mut self, k: u32)
        requires
            old(self).wf(),
        ensures
            final(self).wf(),
            final(self).value() == old(self).value() * pow2(k as nat),
    {
        let mut left: u32 = k;
        proof {
            lemma2_to64();
            assert(old(self).value() * pow2(0) == old(self).value() * 1);
        }
        while left > 0
            invariant
                self.wf(),
                left <= k,
                self.value() == old(self).value() * pow2((k - left) as nat),
            decreases left,
        {
            let step: u32 = if left >= 31 {
                31
            } else {
                left
            };
            // 2^step, built by doubling so its value is pinned.
            let mut factor: u32 = 1;
            let mut done: u32 = 0;
            proof {
                assert(pow2(0) == 1) by {
                    lemma2_to64();
                }
            }
            while done < step
                invariant
                    done <= step,
                    step <= 31,
                    factor == pow2(done as nat),
                decreases step - done,
            {
                proof {
                    lemma_pow2_adds(done as nat, 1);
                    lemma2_to64();
                    lemma_pow2_strictly_increases(done as nat, 31);
                    lemma2_to64_rest_31();
                }
                factor = factor * 2;
                done = done + 1;
            }
            proof {
                vstd::arithmetic::power2::lemma_pow2_pos(step as nat);
            }
            let ghost pre_value = self.value();
            self.mul_small(factor);
            left = left - step;
            proof {
                lemma_pow2_adds((k - left - step) as nat, step as nat);
                vstd::arithmetic::mul::lemma_mul_is_associative(
                    old(self).value() as int,
                    pow2((k - left - step) as nat) as int,
                    pow2(step as nat) as int,
                );
            }
        }
    }

    /// Add another accumulator in place.
    pub fn add(&mut self, other: &Bigint)
        requires
            old(self).wf(),
            other.wf(),
        ensures
            final(self).wf(),
            final(self).value() == old(self).value() + other.value(),
    {
        // Grow to the longer length with zero limbs first.
        let ghost orig = self.limbs@;
        while self.limbs.len() < other.limbs.len()
            invariant
                limbs_value(self.limbs@) == limbs_value(orig),
                orig.len() <= self.limbs@.len(),
                self.limbs@.len() <= max_int(orig.len() as int, other.limbs@.len() as int),
            decreases other.limbs@.len() - self.limbs@.len(),
        {
            let ghost pre = self.limbs@;
            self.limbs.push(0);
            proof {
                assert(self.limbs@.drop_last() =~= pre);
                assert(self.limbs@.last() == 0);
                assert(limbs_value(self.limbs@) == limbs_value(pre) + (0 as nat) * pow2(
                    (32 * pre.len()) as nat,
                ));
            }
        }
        proof {
            assert(self.limbs@.len() == max_int(orig.len() as int, other.limbs@.len() as int));
        }
        let ghost padded = self.limbs@;
        let mut carry: u32 = 0;
        let mut i: usize = 0;
        let n = self.limbs.len();
        proof {
            assert(self.limbs@.take(0) =~= Seq::<u32>::empty());
            assert(padded.take(0) =~= Seq::<u32>::empty());
            assert(other.limbs@.take(0) =~= Seq::<u32>::empty());
        }
        while i < n
            invariant
                i <= n,
                n == self.limbs@.len(),
                n == padded.len(),
                n == max_int(orig.len() as int, other.limbs@.len() as int),
                limbs_value(padded) == limbs_value(orig),
                other.limbs@.len() <= n,
                forall|j: int| i <= j < n ==> self.limbs@[j] == padded[j],
                carry <= 1,
                limbs_value(self.limbs@.take(i as int)) == limbs_value(padded.take(i as int))
                    + limbs_value(other.limbs@.take(min_int(i as int, other.limbs@.len() as int)))
                    - carry * pow2((32 * i) as nat),
            decreases n - i,
        {
            let ghost pre = self.limbs@;
            let ghost carry_in = carry;
            let o: u32 = if i < other.limbs.len() {
                other.limbs[i]
            } else {
                0
            };
            let sum: u64 = (self.limbs[i] as u64) + (o as u64) + (carry as u64);
            let lo: u32 = (sum % 0x1_0000_0000) as u32;
            let hi: u32 = (sum / 0x1_0000_0000) as u32;
            self.limbs.set(i, lo);
            carry = hi;
            proof {
                let w = pow2((32 * i) as nat);
                lemma2_to64();
                lemma_pow2_adds((32 * i) as nat, 32);
                assert(self.limbs@.take(i as int) =~= pre.take(i as int));
                lemma_take_step(padded, i as int);
                lemma_take_step(self.limbs@, i as int);
                if i < other.limbs@.len() {
                    lemma_take_step(other.limbs@, i as int);
                    assert(min_int(i as int, other.limbs@.len() as int) == i as int);
                    assert(min_int(i + 1, other.limbs@.len() as int) == i + 1 || other.limbs@.len()
                        == i + 1);
                } else {
                    assert(other.limbs@.take(min_int(i + 1, other.limbs@.len() as int))
                        =~= other.limbs@.take(min_int(i as int, other.limbs@.len() as int)));
                }
                assert(padded[i as int] + o + carry_in == lo + hi * 0x1_0000_0000);
                assert(lo * w + hi * (w * 0x1_0000_0000) == (padded[i as int] + o + carry_in) * w)
                    by (nonlinear_arith)
                    requires
                        padded[i as int] + o + carry_in == lo + hi * 0x1_0000_0000,
                ;
                assert((padded[i as int] + o + carry_in) * w == padded[i as int] * w + o * w
                    + carry_in * w) by (nonlinear_arith);
            }
            i += 1;
        }
        proof {
            assert(self.limbs@.take(n as int) =~= self.limbs@);
            assert(padded.take(n as int) =~= padded);
            assert(other.limbs@.take(min_int(n as int, other.limbs@.len() as int))
                =~= other.limbs@);
        }
        if carry > 0 {
            let ghost pre = self.limbs@;
            self.limbs.push(carry);
            proof {
                assert(self.limbs@.drop_last() =~= pre);
            }
        }
        proof {
            // Well-formedness: the sum reaches the old top weight; if a
            // carry limb was pushed, its own weight is reached.
            let len = self.limbs@.len();
            if len > 0 {
                vstd::arithmetic::power2::lemma_pow2_pos((32 * (len - 1)) as nat);
                if carry > 0 {
                    assert(len == n + 1);
                    assert(carry * pow2((32 * n) as nat) >= pow2((32 * n) as nat))
                        by (nonlinear_arith)
                        requires
                            carry >= 1,
                            pow2((32 * n) as nat) > 0,
                    {
                    }
                    assert(pow2((32 * n) as nat) > 0) by {
                        vstd::arithmetic::power2::lemma_pow2_pos((32 * n) as nat);
                    }
                } else {
                    assert(len == n);
                    if orig.len() >= other.limbs@.len() {
                        assert(len == orig.len());
                        assert(self.value() >= limbs_value(orig));
                    } else {
                        assert(len == other.limbs@.len());
                        assert(self.value() >= limbs_value(other.limbs@));
                    }
                }
            }
        }
    }
}

impl Bigint {
    /// Subtract a smaller accumulator in place.
    pub fn sub(&mut self, other: &Bigint)
        requires
            old(self).wf(),
            other.wf(),
            other.value() <= old(self).value(),
        ensures
            final(self).wf(),
            final(self).value() == old(self).value() - other.value(),
    {
        proof {
            // The subtrahend has no more limbs.
            if other.limbs@.len() > self.limbs@.len() {
                lemma_value_upper(self.limbs@);
                vstd::arithmetic::power2::lemma_pow2_pos((32 * self.limbs@.len()) as nat);
                if (32 * self.limbs@.len()) as nat != (32 * (other.limbs@.len() - 1)) as nat {
                    lemma_pow2_strictly_increases(
                        (32 * self.limbs@.len()) as nat,
                        (32 * (other.limbs@.len() - 1)) as nat,
                    );
                }
            }
        }
        let ghost orig = self.limbs@;
        let mut borrow: u32 = 0;
        let mut i: usize = 0;
        let n = self.limbs.len();
        proof {
            assert(self.limbs@.take(0) =~= Seq::<u32>::empty());
            assert(orig.take(0) =~= Seq::<u32>::empty());
            assert(other.limbs@.take(0) =~= Seq::<u32>::empty());
        }
        while i < n
            invariant
                i <= n,
                n == self.limbs@.len(),
                n == orig.len(),
                other.limbs@.len() <= n,
                borrow <= 1,
                forall|j: int| i <= j < n ==> self.limbs@[j] == orig[j],
                limbs_value(self.limbs@.take(i as int)) - borrow * pow2((32 * i) as nat)
                    == limbs_value(orig.take(i as int)) - limbs_value(
                    other.limbs@.take(min_int(i as int, other.limbs@.len() as int)),
                ),
            decreases n - i,
        {
            let ghost pre = self.limbs@;
            let ghost borrow_in = borrow;
            let o: u32 = if i < other.limbs.len() {
                other.limbs[i]
            } else {
                0
            };
            let cur: u32 = self.limbs[i];
            let diff: u64 = (cur as u64) + 0x1_0000_0000 - (o as u64) - (borrow as u64);
            let lo: u32 = (diff % 0x1_0000_0000) as u32;
            let newb: u32 = if diff < 0x1_0000_0000 {
                1
            } else {
                0
            };
            self.limbs.set(i, lo);
            borrow = newb;
            proof {
                let w = pow2((32 * i) as nat);
                lemma2_to64();
                lemma_pow2_adds((32 * i) as nat, 32);
                vstd::arithmetic::div_mod::lemma_fundamental_div_mod(diff as int, 0x1_0000_0000);
                assert(self.limbs@.take(i as int) =~= pre.take(i as int));
                lemma_take_step(orig, i as int);
                lemma_take_step(self.limbs@, i as int);
                if i < other.limbs@.len() {
                    lemma_take_step(other.limbs@, i as int);
                    assert(min_int(i as int, other.limbs@.len() as int) == i as int);
                } else {
                    assert(other.limbs@.take(min_int(i + 1, other.limbs@.len() as int))
                        =~= other.limbs@.take(min_int(i as int, other.limbs@.len() as int)));
                }
                assert(diff / 0x1_0000_0000 == 1 - newb);
                assert(cur - o - borrow_in == lo - newb * 0x1_0000_0000);
                assert(lo * w - newb * (w * 0x1_0000_0000) == (cur - o - borrow_in) * w)
                    by (nonlinear_arith)
                    requires
                        cur - o - borrow_in == lo - newb * 0x1_0000_0000,
                ;
                assert((cur - o - borrow_in) * w == cur * w - o * w - borrow_in * w)
                    by (nonlinear_arith);
            }
            i += 1;
        }
        proof {
            assert(self.limbs@.take(n as int) =~= self.limbs@);
            assert(orig.take(n as int) =~= orig);
            assert(other.limbs@.take(min_int(n as int, other.limbs@.len() as int))
                =~= other.limbs@);
            // No final borrow: the result would be negative.
            if borrow == 1 {
                lemma_value_upper(self.limbs@);
            }
        }
        // Drop zero limbs from the top.
        while self.limbs.len() > 0 && self.limbs[self.limbs.len() - 1] == 0
            invariant
                limbs_value(self.limbs@) == limbs_value(orig) - limbs_value(other.limbs@),
            decreases self.limbs@.len(),
        {
            let ghost pre = self.limbs@;
            self.limbs.pop();
            proof {
                assert(pre.drop_last() =~= self.limbs@);
                assert(limbs_value(pre) == limbs_value(pre.drop_last()) + (pre.last() as nat)
                    * pow2((32 * (pre.len() - 1)) as nat));
            }
        }
        proof {
            let len = self.limbs@.len();
            if len > 0 {
                let w = pow2((32 * (len - 1)) as nat);
                vstd::arithmetic::power2::lemma_pow2_pos((32 * (len - 1)) as nat);
                assert(limbs_value(self.limbs@) == limbs_value(self.limbs@.drop_last())
                    + (self.limbs@.last() as nat) * w);
                assert((self.limbs@.last() as nat) * w >= 1 * w) by (nonlinear_arith)
                    requires
                        self.limbs@.last() >= 1,
                        w > 0,
                ;
            }
        }
    }

    /// Three-way comparison: -1, 0 or 1 as this accumulator is below,
    /// equal to, or above the other.
    pub fn cmp_bn(&self, other: &Bigint) -> (r: i32)
        requires
            self.wf(),
            other.wf(),
        ensures
            r == -1 || r == 0 || r == 1,
            (r == -1) <==> self.value() < other.value(),
            (r == 0) <==> self.value() == other.value(),
            (r == 1) <==> self.value() > other.value(),
    {
        let la = self.limbs.len();
        let lb = other.limbs.len();
        if la < lb {
            proof {
                lemma_value_upper(self.limbs@);
                if (32 * la) as nat != (32 * (lb - 1)) as nat {
                    lemma_pow2_strictly_increases((32 * la) as nat, (32 * (lb - 1)) as nat);
                }
            }
            return -1;
        }
        if la > lb {
            proof {
                lemma_value_upper(other.limbs@);
                if (32 * lb) as nat != (32 * (la - 1)) as nat {
                    lemma_pow2_strictly_increases((32 * lb) as nat, (32 * (la - 1)) as nat);
                }
            }
            return 1;
        }
        let mut i: usize = la;
        while i > 0
            invariant
                i <= la,
                la == self.limbs@.len(),
                la == other.limbs@.len(),
                forall|j: int| i <= j < la ==> self.limbs@[j] == other.limbs@[j],
            decreases i,
        {
            let j = i - 1;
            let a = self.limbs[j];
            let b = other.limbs[j];
            if a < b {
                proof {
                    assert(self.limbs@.skip(j + 1) =~= other.limbs@.skip(j + 1));
                    lemma_cmp_at(self.limbs@, other.limbs@, j as int);
                }
                return -1;
            }
            if a > b {
                proof {
                    assert(other.limbs@.skip(j + 1) =~= self.limbs@.skip(j + 1));
                    lemma_cmp_at(other.limbs@, self.limbs@, j as int);
                }
                return 1;
            }
            i = j;
        }
        proof {
            assert(self.limbs@ =~= other.limbs@);
        }
        0
    }

    /// Whether this accumulator is strictly below the other.
    pub fn lt(&self, other: &Bigint) -> (r: bool)
        requires
            self.wf(),
            other.wf(),
        ensures
            r == (self.value() < other.value()),
    {
        self.cmp_bn(other) == -1
    }
}

/// The larger of two integers.
pub open spec fn max_int(a: int, b: int) -> int {
    if a < b {
        b
    } else {
        a
    }
}

/// The smaller of two integers.
pub open spec fn min_int(a: int, b: int) -> int {
    if a < b {
        a
    } else {
        b
    }
}

/// The values of pow2 between 32 and 64, beyond what `lemma2_to64` gives.
proof fn lemma2_to64_rest_31()
    ensures
        pow2(31) == 0x80000000,
{
    lemma2_to64();
}

} // verus!
