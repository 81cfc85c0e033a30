//! Unsigned integers of 256 bits, held as two halves of 128 bits.

use vstd::arithmetic::div_mod::{
    lemma_basic_div, lemma_div_denominator, lemma_mod_multiples_basic, lemma_mod_multiples_vanish,
    lemma_mul_mod_noop_left,
};
use vstd::arithmetic::div_mod::lemma_fundamental_div_mod_converse;
use vstd::arithmetic::power2::{
    lemma2_to64, lemma_pow2_adds, lemma_pow2_strictly_increases, lemma_pow2_unfold, pow2,
};
use vstd::prelude::*;

verus! {

/// Two to the power 128.
pub open spec fn two_128() -> nat {
    0x1_0000_0000_0000_0000_0000_0000_0000_0000nat
}

/// Two to the power 256.
pub open spec fn two_256() -> nat {
    0x1_0000_0000_0000_0000_0000_0000_0000_0000_0000_0000_0000_0000_0000_0000_0000_0000nat
}

/// 256 to the power `k`: the weight of byte `k`.
pub open spec fn pow256(k: nat) -> nat
    decreases k,
{
    if k == 0 {
        1
    } else {
        256 * pow256((k - 1) as nat)
    }
}

/// The number of bytes that `t` needs: the least `k` with `t` below 256 to
/// the power `k`.
pub open spec fn byte_len(t: nat) -> nat
    decreases t,
{
    if t == 0 {
        0
    } else {
        1 + byte_len(t / 256)
    }
}

/// An unsigned integer below two to the power 256.
#[derive(Clone, Copy, Debug, PartialEq, Eq, Structural)]
pub struct U256 {
    /// The upper 128 bits.
    pub hi: u128,
    /// The lower 128 bits.
    pub lo: u128,
}

impl View for U256 {
    type V = nat;

    /// The number that the two halves stand for.
    open spec fn view(&self) -> nat {
        self.hi as nat * two_128() + self.lo as nat
    }
}

/// Every power of 256 is positive.
pub proof fn lemma_pow256_positive(k: nat)
    ensures
        pow256(k) >= 1,
    decreases k,
{
    if k > 0 {
        lemma_pow256_positive((k - 1) as nat);
    }
}

/// The power of a sum is the product of the powers.
pub proof fn lemma_pow256_adds(a: nat, b: nat)
    ensures
        pow256(a + b) == pow256(a) * pow256(b),
    decreases a,
{
    if a > 0 {
        lemma_pow256_adds((a - 1) as nat, b);
        assert(pow256(a + b) == 256 * pow256((a - 1) as nat + b));
        assert(256 * (pow256((a - 1) as nat) * pow256(b)) == (256 * pow256((a - 1) as nat))
            * pow256(b)) by (nonlinear_arith);
    } else {
        assert(pow256(a) * pow256(b) == pow256(b)) by (nonlinear_arith)
            requires
                pow256(a) == 1,
        ;
    }
}

/// The powers of 256 do not descend.
pub proof fn lemma_pow256_ordered(a: nat, b: nat)
    requires
        a <= b,
    ensures
        pow256(a) <= pow256(b),
    decreases b,
{
    if a < b {
        lemma_pow256_ordered(a, (b - 1) as nat);
        lemma_pow256_positive((b - 1) as nat);
    }
}

/// 256 to the power 32 is two to the power 256.
pub proof fn lemma_pow256_32()
    ensures
        pow256(32) == two_256(),
        pow256(16) == two_128(),
{
    reveal_with_fuel(pow256, 33);
}

/// The first powers of 256.
pub proof fn lemma_pow256_small()
    ensures
        pow256(0) == 1,
        pow256(1) == 0x100,
        pow256(2) == 0x1_0000,
        pow256(3) == 0x100_0000,
        pow256(4) == 0x1_0000_0000,
{
    reveal_with_fuel(pow256, 5);
}

/// A number needs `k` bytes exactly when it lies between the powers `k - 1`
/// and `k` of 256.
pub proof fn lemma_byte_len_bounds(t: nat)
    ensures
        t < pow256(byte_len(t)),
        t > 0 ==> pow256((byte_len(t) - 1) as nat) <= t,
    decreases t,
{
    if t > 0 {
        lemma_byte_len_bounds(t / 256);
    }
}

/// A number between the powers `k - 1` and `k` of 256 needs `k` bytes.
pub proof fn lemma_byte_len_is(t: nat, k: nat)
    requires
        t < pow256(k),
        k > 0 ==> pow256((k - 1) as nat) <= t,
    ensures
        byte_len(t) == k,
    decreases k,
{
    if k == 0 {
    } else if k == 1 {
        reveal_with_fuel(pow256, 2);
        reveal_with_fuel(byte_len, 2);
    } else {
        lemma_pow256_positive((k - 2) as nat);
        lemma_byte_len_is(t / 256, (k - 1) as nat);
    }
}

/// Two to the power 256, as a power of two.
pub proof fn lemma_pow2_256()
    ensures
        pow2(256) == two_256(),
        pow2(0) == 1,
{
    lemma2_to64();
    lemma_pow2_adds(64, 64);
    lemma_pow2_adds(128, 128);
    assert(pow2(128) == two_128()) by (nonlinear_arith)
        requires
            pow2(128) == pow2(64) * pow2(64),
            pow2(64) == 0x1_0000_0000_0000_0000,
    ;
    assert(pow2(256) == two_256()) by (nonlinear_arith)
        requires
            pow2(256) == pow2(128) * pow2(128),
            pow2(128) == two_128(),
    ;
}

impl U256 {
    /// The number zero.
    pub fn zero() -> (z: Self)
        ensures
            z@ == 0,
    {
        U256 { hi: 0, lo: 0 }
    }

    /// The number `v`.
    pub fn from_u32(v: u32) -> (x: Self)
        ensures
            x@ == v,
    {
        U256 { hi: 0, lo: v as u128 }
    }

    /// The number `v`.
    pub fn from_u128(v: u128) -> (x: Self)
        ensures
            x@ == v,
    {
        U256 { hi: 0, lo: v }
    }

    /// The number whose upper half is `hi` and whose lower half is `lo`.
    pub fn from_halves(hi: u128, lo: u128) -> (x: Self)
        ensures
            x@ == hi * two_128() + lo,
            x.hi == hi,
            x.lo == lo,
    {
        U256 { hi, lo }
    }

    /// Two numbers are the same exactly when their halves are.
    pub proof fn lemma_view_injective(self, other: Self)
        ensures
            self@ == other@ <==> self == other,
            self@ < two_256(),
    {
    }

    /// Whether the number is zero.
    pub fn is_zero(&self) -> (z: bool)
        ensures
            z == (self@ == 0),
    {
        self.hi == 0 && self.lo == 0
    }

    /// Whether the number is at least `other`.
    pub fn at_least(&self, other: &Self) -> (r: bool)
        ensures
            r == (self@ >= other@),
    {
        self.hi > other.hi || (self.hi == other.hi && self.lo >= other.lo)
    }

    /// The lowest 32 bits.
    pub fn low_u32(&self) -> (w: u32)
        ensures
            w == self@ % 0x1_0000_0000,
    {
        proof {
            let upper = self.hi * 0x1_0000_0000_0000_0000_0000_0000nat;
            assert(self@ == 0x1_0000_0000 * upper + self.lo);
            lemma_mod_multiples_vanish(upper as int, self.lo as int, 0x1_0000_0000);
        }
        (self.lo % 0x1_0000_0000) as u32
    }

    /// The number shifted up by one byte; what passes the top is lost.
    fn times_256(&self) -> (out: Self)
        ensures
            out@ == (self@ * 256) % two_256(),
    {
        let hi = (self.hi % 0x100_0000_0000_0000_0000_0000_0000_0000) * 256 + self.lo
            / 0x100_0000_0000_0000_0000_0000_0000_0000;
        let lo = (self.lo % 0x100_0000_0000_0000_0000_0000_0000_0000) * 256;
        let out = U256 { hi, lo };
        assert(self@ * 256 == (self.hi / 0x100_0000_0000_0000_0000_0000_0000_0000) * two_256()
            + out@);
        out
    }

    /// The number shifted down by one byte.
    fn over_256(&self) -> (out: Self)
        ensures
            out@ == self@ / 256,
    {
        let hi = self.hi / 256;
        let lo = self.lo / 256 + (self.hi % 256) * 0x100_0000_0000_0000_0000_0000_0000_0000;
        let out = U256 { hi, lo };
        assert(self@ == out@ * 256 + self.lo % 256);
        out
    }

    /// The number shifted up by `k` bytes; what passes the top is lost.
    pub fn shl_bytes(&self, k: u32) -> (out: Self)
        ensures
            out@ == (self@ * pow256(k as nat)) % two_256(),
    {
        if k >= 32 {
            proof {
                lemma_pow256_adds((k - 32) as nat, 32);
                lemma_pow256_32();
                assert(self@ * (pow256((k - 32) as nat) * two_256()) == (self@ * pow256(
                    (k - 32) as nat,
                )) * two_256()) by (nonlinear_arith);
                lemma_mod_multiples_basic(
                    (self@ * pow256((k - 32) as nat)) as int,
                    two_256() as int,
                );
            }
            return U256::zero();
        }
        let mut out = *self;
        let mut j: u32 = 0;
        assert(self@ * pow256(0) == self@) by (nonlinear_arith)
            requires
                pow256(0) == 1,
        ;
        while j < k
            invariant
                j <= k,
                out@ == (self@ * pow256(j as nat)) % two_256(),
            decreases k - j,
        {
            proof {
                lemma_mul_mod_noop_left((self@ * pow256(j as nat)) as int, 256, two_256() as int);
                assert((self@ * pow256(j as nat)) * 256 == self@ * (256 * pow256(j as nat)))
                    by (nonlinear_arith);
            }
            out = out.times_256();
            j += 1;
        }
        out
    }

    /// The number shifted down by `k` bytes.
    pub fn shr_bytes(&self, k: u32) -> (out: Self)
        ensures
            out@ == self@ / pow256(k as nat),
    {
        if k >= 32 {
            proof {
                lemma_pow256_32();
                lemma_pow256_ordered(32, k as nat);
                lemma_basic_div(self@ as int, pow256(k as nat) as int);
            }
            return U256::zero();
        }
        let mut out = *self;
        let mut j: u32 = 0;
        assert(pow256(0) == 1);
        while j < k
            invariant
                j <= k,
                out@ == self@ / pow256(j as nat),
            decreases k - j,
        {
            proof {
                lemma_pow256_positive(j as nat);
                lemma_div_denominator(self@ as int, pow256(j as nat) as int, 256);
                assert(pow256(j as nat) * 256 == 256 * pow256(j as nat)) by (nonlinear_arith);
            }
            out = out.over_256();
            j += 1;
        }
        out
    }

    /// The number of bytes that the number needs.
    pub fn byte_len(&self) -> (len: u32)
        ensures
            len == byte_len(self@),
            len <= 32,
    {
        proof {
            lemma_byte_len_bounds(self@);
            lemma_pow256_32();
            if byte_len(self@) > 32 {
                lemma_pow256_ordered(32, (byte_len(self@) - 1) as nat);
            }
        }
        let mut rest = *self;
        let mut len: u32 = 0;
        while !rest.is_zero()
            invariant
                byte_len(self@) == len + byte_len(rest@),
                byte_len(self@) <= 32,
            decreases rest@,
        {
            rest = rest.over_256();
            len += 1;
        }
        len
    }
    /// Twice the number, plus one where `bit` is set, without what passes the
    /// top; and whether anything passed the top.
    fn doubled(&self, bit: bool) -> (out: (Self, bool))
        ensures
            out.0@ + (if out.1 {
                two_256()
            } else {
                0
            }) == 2 * self@ + (if bit {
                1nat
            } else {
                0
            }),
    {
        let top: u128 = 0x8000_0000_0000_0000_0000_0000_0000_0000;
        let carry = self.hi >= top;
        let hi_rest = if carry {
            self.hi - top
        } else {
            self.hi
        };
        let lo_carry = self.lo >= top;
        let lo_rest = if lo_carry {
            self.lo - top
        } else {
            self.lo
        };
        let lo = lo_rest * 2 + if bit {
            1
        } else {
            0
        };
        let hi = hi_rest * 2 + if lo_carry {
            1
        } else {
            0
        };
        (U256 { hi, lo }, carry)
    }

    /// The difference to `other`, taken modulo two to the power 256.
    fn wrapping_sub(&self, other: &Self) -> (out: Self)
        ensures
            out@ == if self@ >= other@ {
                self@ - other@
            } else {
                self@ + two_256() - other@
            },
    {
        let borrow = self.lo < other.lo;
        let lo = if borrow {
            (u128::MAX - other.lo) + self.lo + 1
        } else {
            self.lo - other.lo
        };
        let hi = if borrow {
            if self.hi > other.hi {
                self.hi - other.hi - 1
            } else {
                (u128::MAX - other.hi) + self.hi
            }
        } else {
            if self.hi >= other.hi {
                self.hi - other.hi
            } else {
                (u128::MAX - other.hi) + self.hi + 1
            }
        };
        U256 { hi, lo }
    }

    /// The quotient of the number by `divisor`, rounded down; none where
    /// `divisor` is zero.
    pub fn checked_div(&self, divisor: &Self) -> (q: Option<Self>)
        ensures
            q is None <==> divisor@ == 0,
            q matches Some(v) ==> v@ == self@ / divisor@,
    {
        if divisor.is_zero() {
            return None;
        }
        let mut rest = *self;
        let mut quotient = U256::zero();
        let mut rem = U256::zero();
        let ghost mut taken: nat = 0;
        let mut k: u32 = 0;
        proof {
            lemma_pow2_256();
            assert(self@ * pow2(0) == self@) by (nonlinear_arith)
                requires
                    pow2(0) == 1,
            ;
            assert(quotient@ * divisor@ == 0) by (nonlinear_arith)
                requires
                    quotient@ == 0,
            ;
        }
        while k < 256
            invariant
                k <= 256,
                divisor@ > 0,
                self@ * pow2(k as nat) == taken * two_256() + rest@,
                taken == quotient@ * divisor@ + rem@,
                rem@ < divisor@,
                taken < pow2(k as nat),
            decreases 256 - k,
        {
            let (next_rest, bit) = rest.doubled(false);
            let (twice, over) = rem.doubled(bit);
            let fits = over || twice.at_least(divisor);
            let next_rem = if fits {
                twice.wrapping_sub(divisor)
            } else {
                twice
            };
            let (next_quotient, lost) = quotient.doubled(fits);
            proof {
                let b: nat = if bit {
                    1
                } else {
                    0
                };
                let f: nat = if fits {
                    1
                } else {
                    0
                };
                lemma_pow2_256();
                lemma_pow2_unfold((k + 1) as nat);
                if k + 1 < 256 {
                    lemma_pow2_strictly_increases((k + 1) as nat, 256);
                }
                assert(self@ * pow2((k + 1) as nat) == 2 * (self@ * pow2(k as nat)))
                    by (nonlinear_arith)
                    requires
                        pow2((k + 1) as nat) == 2 * pow2(k as nat),
                ;
                assert(quotient@ <= taken) by (nonlinear_arith)
                    requires
                        taken == quotient@ * divisor@ + rem@,
                        divisor@ >= 1,
                ;
                assert((2 * quotient@ + f) * divisor@ == 2 * (quotient@ * divisor@) + f * divisor@)
                    by (nonlinear_arith);
                assert(f * divisor@ == if fits {
                    divisor@
                } else {
                    0
                }) by (nonlinear_arith)
                    requires
                        f == if fits {
                            1nat
                        } else {
                            0
                        },
                ;
                assert(!lost);
                taken = 2 * taken + b;
            }
            rest = next_rest;
            rem = next_rem;
            quotient = next_quotient;
            k += 1;
        }
        proof {
            lemma_pow2_256();
            assert(taken == self@) by (nonlinear_arith)
                requires
                    self@ * two_256() == taken * two_256() + rest@,
                    rest@ < two_256(),
                    two_256() > 0,
            ;
            lemma_fundamental_div_mod_converse(
                self@ as int,
                divisor@ as int,
                quotient@ as int,
                rem@ as int,
            );
        }
        Some(quotient)
    }
}

} // verus!
