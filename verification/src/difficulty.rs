//! The compact encoding of proof-of-work targets, and the conversion between
//! difficulty and target.
//!
//! A compact value packs a target into 32 bits: the upper 8 bits give the
//! number of bytes of the target, bit 23 is a sign, and the lower 23 bits
//! are the leading bytes of the target.

use crate::uint256::{
    byte_len, lemma_byte_len_bounds, lemma_byte_len_is, lemma_pow256_32, lemma_pow256_adds,
    lemma_pow256_ordered, lemma_pow256_positive, lemma_pow256_small, pow256, two_256, U256,
};
use vstd::arithmetic::div_mod::{
    lemma_div_denominator, lemma_div_is_ordered, lemma_div_multiples_vanish,
    lemma_fundamental_div_mod, lemma_mod_pos_bound, lemma_small_mod,
};
use vstd::arithmetic::mul::{lemma_mul_inequality, lemma_mul_strict_inequality};
use vstd::prelude::*;

verus! {

/// The size field of a compact value: the number of bytes of the target.
pub open spec fn compact_size(compact: u32) -> nat {
    (compact / 0x100_0000) as nat
}

/// The 23 bits of a compact value that hold the leading bytes of the target.
pub open spec fn compact_word(compact: u32) -> nat {
    (compact % 0x80_0000) as nat
}

/// The sign bit of a compact value.
pub open spec fn compact_negative(compact: u32) -> bool {
    (compact / 0x80_0000) % 2 == 1
}

/// The number that a compact value stands for, without a bound on its width.
pub open spec fn exact_target(compact: u32) -> nat {
    if compact_size(compact) <= 3 {
        compact_word(compact) / pow256((3 - compact_size(compact)) as nat)
    } else {
        compact_word(compact) * pow256((compact_size(compact) - 3) as nat)
    }
}

/// The target that decoding a compact value yields: the number it stands
/// for, cut to 256 bits.
pub open spec fn decoded_target(compact: u32) -> nat {
    exact_target(compact) % two_256()
}

/// Whether a compact value stands for no valid target: its size exceeds 32
/// bytes, its sign is set, or its number does not fit in 256 bits.
pub open spec fn decode_overflows(compact: u32) -> bool {
    compact_size(compact) > 32 || compact_negative(compact) || exact_target(compact) >= two_256()
}

/// The three leading bytes of `t` at the boundary that its byte length
/// gives.
pub open spec fn leading_word(t: nat) -> nat {
    if byte_len(t) <= 3 {
        t * pow256((3 - byte_len(t)) as nat)
    } else {
        t / pow256((byte_len(t) - 3) as nat)
    }
}

/// The compact value of the target `t`. Where the leading bytes would set
/// the sign bit, one byte less of `t` is kept and the size is one more.
pub open spec fn encoded_compact(t: nat) -> nat {
    if leading_word(t) >= 0x80_0000 {
        (byte_len(t) + 1) * 0x100_0000 + leading_word(t) / 256
    } else {
        byte_len(t) * 0x100_0000 + leading_word(t)
    }
}

/// The target at difficulty two, through which every conversion between
/// difficulty and target goes: two to the power 255.
pub open spec fn anchor() -> nat {
    0x8000_0000_0000_0000_0000_0000_0000_0000_0000_0000_0000_0000_0000_0000_0000_0000nat
}

/// A number below the product of `q` and `m` has a quotient by `q` below `m`.
pub proof fn lemma_div_below(x: nat, q: nat, m: nat)
    requires
        q > 0,
        x < q * m,
    ensures
        x / q < m,
{
    lemma_fundamental_div_mod(x as int, q as int);
    lemma_mod_pos_bound(x as int, q as int);
    if x / q >= m {
        lemma_mul_inequality(m as int, (x / q) as int, q as int);
        assert(m * q == q * m && (x / q) * q == q * (x / q)) by (nonlinear_arith);
    }
}

/// A number that is at least the product of `q` and `m` has a quotient by
/// `q` of at least `m`.
pub proof fn lemma_div_at_least(x: nat, q: nat, m: nat)
    requires
        q > 0,
        x >= q * m,
    ensures
        x / q >= m,
{
    lemma_div_is_ordered((q * m) as int, x as int, q as int);
    lemma_div_multiples_vanish(m as int, q as int);
}

/// The leading word of a target of 256 bits: it fits in three bytes, and
/// unless the target is zero its third byte is set.
pub proof fn lemma_leading_word_bounds(t: nat)
    requires
        t < two_256(),
    ensures
        byte_len(t) <= 32,
        leading_word(t) < 0x100_0000,
        t > 0 ==> leading_word(t) >= 0x1_0000,
        t == 0 ==> leading_word(t) == 0 && byte_len(t) == 0,
{
    let size = byte_len(t);
    lemma_byte_len_bounds(t);
    lemma_pow256_32();
    lemma_pow256_small();
    if size > 32 {
        lemma_pow256_ordered(32, (size - 1) as nat);
    }
    if size <= 3 {
        let p = pow256((3 - size) as nat);
        lemma_pow256_positive((3 - size) as nat);
        lemma_pow256_adds(size, (3 - size) as nat);
        lemma_mul_strict_inequality(t as int, pow256(size) as int, p as int);
        if t > 0 {
            lemma_pow256_adds((size - 1) as nat, (3 - size) as nat);
            lemma_mul_inequality(pow256((size - 1) as nat) as int, t as int, p as int);
        } else {
            assert(t * p == 0) by (nonlinear_arith)
                requires
                    t == 0,
            ;
        }
    } else {
        let q = pow256((size - 3) as nat);
        lemma_pow256_positive((size - 3) as nat);
        lemma_pow256_adds((size - 3) as nat, 3);
        lemma_div_below(t, q, pow256(3));
        lemma_pow256_adds((size - 3) as nat, 2);
        lemma_div_at_least(t, q, pow256(2));
    }
}

/// A compact value whose size is at most 32 bytes stands for a number of at
/// most 255 bits.
pub proof fn lemma_exact_target_fits(compact: u32)
    requires
        compact_size(compact) <= 32,
    ensures
        exact_target(compact) < anchor(),
{
    let size = compact_size(compact);
    let word = compact_word(compact);
    if size <= 3 {
        let p = pow256((3 - size) as nat);
        lemma_pow256_positive((3 - size) as nat);
        assert(word < p * 0x80_0000) by (nonlinear_arith)
            requires
                p >= 1,
                word < 0x80_0000,
        ;
        lemma_div_below(word, p, 0x80_0000);
    } else {
        let p = pow256((size - 3) as nat);
        lemma_pow256_ordered((size - 3) as nat, 29);
        assert(pow256(29) == 0x1_0000_0000_0000_0000_0000_0000_0000_0000_0000_0000_0000_0000_0000_0000_00nat)
            by {
            reveal_with_fuel(pow256, 30);
        }
        assert(word * p < anchor()) by (nonlinear_arith)
            requires
                word < 0x80_0000,
                p <= 0x1_0000_0000_0000_0000_0000_0000_0000_0000_0000_0000_0000_0000_0000_0000_00nat,
                anchor() == 0x80_0000
                    * 0x1_0000_0000_0000_0000_0000_0000_0000_0000_0000_0000_0000_0000_0000_0000_00nat,
        ;
    }
}

/// The number of low bytes of `t` that its compact value drops.
pub open spec fn dropped_bytes(t: nat) -> nat {
    let size = if leading_word(t) >= 0x80_0000 {
        byte_len(t) + 1
    } else {
        byte_len(t)
    };
    if size <= 3 {
        0
    } else {
        (size - 3) as nat
    }
}

/// A number of `k` bytes, moved up by `e` bytes, has `k + e` bytes.
pub proof fn lemma_scaled_byte_len(w: nat, k: nat, e: nat)
    requires
        k >= 1,
        pow256((k - 1) as nat) <= w < pow256(k),
    ensures
        byte_len(w * pow256(e)) == k + e,
        w * pow256(e) < pow256(k + e),
{
    lemma_pow256_positive(e);
    lemma_pow256_adds(k, e);
    lemma_pow256_adds((k - 1) as nat, e);
    lemma_mul_strict_inequality(w as int, pow256(k) as int, pow256(e) as int);
    lemma_mul_inequality(pow256((k - 1) as nat) as int, w as int, pow256(e) as int);
    lemma_byte_len_is(w * pow256(e), k + e);
}

/// The fields of the compact value of a target of 256 bits: its size is the
/// byte length of the target, one more where the leading word would set the
/// sign; its word is the leading word, without its last byte in that case;
/// its sign is clear.
pub proof fn lemma_encoded_fields(t: nat)
    requires
        t < two_256(),
    ensures
        encoded_compact(t) <= u32::MAX,
        !compact_negative(encoded_compact(t) as u32),
        leading_word(t) >= 0x80_0000 ==> compact_size(encoded_compact(t) as u32) == byte_len(t)
            + 1,
        leading_word(t) >= 0x80_0000 ==> compact_word(encoded_compact(t) as u32) == leading_word(
            t,
        ) / 256,
        leading_word(t) < 0x80_0000 ==> compact_size(encoded_compact(t) as u32) == byte_len(t),
        leading_word(t) < 0x80_0000 ==> compact_word(encoded_compact(t) as u32) == leading_word(t),
{
    lemma_leading_word_bounds(t);
}

/// The number that the compact value of a target stands for: the target
/// with the bytes that its compact value drops set to zero.
pub proof fn lemma_exact_of_encoded(t: nat)
    requires
        t < two_256(),
    ensures
        encoded_compact(t) <= u32::MAX,
        exact_target(encoded_compact(t) as u32) == (t / pow256(dropped_bytes(t))) * pow256(
            dropped_bytes(t),
        ),
        exact_target(encoded_compact(t) as u32) <= t,
{
    let size = byte_len(t);
    let word = leading_word(t);
    let c = encoded_compact(t) as u32;
    let d = dropped_bytes(t);
    let q = pow256(d);
    lemma_leading_word_bounds(t);
    lemma_encoded_fields(t);
    lemma_pow256_small();
    lemma_pow256_positive(d);
    lemma_fundamental_div_mod(t as int, q as int);
    lemma_mod_pos_bound(t as int, q as int);
    assert((t / q) * q == q * (t / q)) by (nonlinear_arith);
    if d == 0 {
        assert(t / q == t && t * q == t) by (nonlinear_arith)
            requires
                q == 1,
        ;
        if word >= 0x80_0000 {
            let p = pow256((2 - size) as nat);
            lemma_pow256_positive((2 - size) as nat);
            assert(t * (256 * p) == 256 * (t * p)) by (nonlinear_arith);
            assert(word / 256 == t * p);
            lemma_div_multiples_vanish(t as int, p as int);
            assert(t * p == p * t) by (nonlinear_arith);
        } else {
            let p = pow256((3 - size) as nat);
            lemma_pow256_positive((3 - size) as nat);
            lemma_div_multiples_vanish(t as int, p as int);
            assert(t * p == p * t) by (nonlinear_arith);
        }
    } else if word >= 0x80_0000 {
        if size == 3 {
            assert(t * pow256(0) == t) by (nonlinear_arith)
                requires
                    pow256(0) == 1,
            ;
        } else {
            let r = pow256((size - 3) as nat);
            lemma_pow256_positive((size - 3) as nat);
            lemma_div_denominator(t as int, r as int, 256);
            assert(r * 256 == pow256((size - 2) as nat));
        }
    }
}

/// The compact value of a target has a size above 32 bytes exactly when the
/// target is at least two to the power 255.
pub proof fn lemma_encoded_size(t: nat)
    requires
        t < two_256(),
    ensures
        encoded_compact(t) <= u32::MAX,
        compact_size(encoded_compact(t) as u32) > 32 <==> t >= anchor(),
{
    let r = pow256(29);
    lemma_leading_word_bounds(t);
    lemma_encoded_fields(t);
    lemma_pow256_positive(29);
    assert(r * 0x80_0000 == anchor() && pow256(31) == r * 0x1_0000 && pow256(32) == two_256()) by {
        reveal_with_fuel(pow256, 33);
    }
    if t >= anchor() {
        lemma_byte_len_is(t, 32);
        assert(r * 0x80_0000 == 0x80_0000 * r) by (nonlinear_arith);
        lemma_div_at_least(t, r, 0x80_0000);
    }
    if compact_size(encoded_compact(t) as u32) > 32 {
        assert(byte_len(t) == 32 && leading_word(t) >= 0x80_0000);
        assert(leading_word(t) == t / r);
        lemma_fundamental_div_mod(t as int, r as int);
        lemma_mod_pos_bound(t as int, r as int);
        lemma_mul_inequality(0x80_0000, (t / r) as int, r as int);
        assert((t / r) * r == r * (t / r)) by (nonlinear_arith);
    }
}

/// What decoding makes of an encoded target: the target with the bytes that
/// its compact value drops set to zero. No bits are lost where the target
/// has none set in those bytes. Decoding reports an overflow exactly for the
/// targets from two to the power 255 on.
pub proof fn lemma_decode_of_encoded(t: nat)
    requires
        t < two_256(),
    ensures
        encoded_compact(t) <= u32::MAX,
        decoded_target(encoded_compact(t) as u32) == (t / pow256(dropped_bytes(t))) * pow256(
            dropped_bytes(t),
        ),
        decoded_target(encoded_compact(t) as u32) == exact_target(encoded_compact(t) as u32),
        decoded_target(encoded_compact(t) as u32) <= t,
        decode_overflows(encoded_compact(t) as u32) <==> t >= anchor(),
{
    lemma_exact_of_encoded(t);
    lemma_encoded_size(t);
    lemma_encoded_fields(t);
    lemma_small_mod(exact_target(encoded_compact(t) as u32), two_256());
}

/// A compact value that encoding produced comes back when the target that
/// it decodes to is encoded again.
pub proof fn lemma_canonical_round_trip(t: nat)
    requires
        t < two_256(),
    ensures
        encoded_compact(t) <= u32::MAX,
        encoded_compact(decoded_target(encoded_compact(t) as u32)) == encoded_compact(t),
{
    let size = byte_len(t);
    let word = leading_word(t);
    let c = encoded_compact(t) as u32;
    let d = dropped_bytes(t);
    let q = pow256(d);
    let back = decoded_target(c);
    lemma_leading_word_bounds(t);
    lemma_encoded_fields(t);
    lemma_decode_of_encoded(t);
    lemma_pow256_small();
    lemma_pow256_positive(d);
    if d == 0 {
        assert(t / q == t && t * q == t) by (nonlinear_arith)
            requires
                q == 1,
        ;
    } else {
        let kept = compact_word(c);
        assert(back == kept * q);
        lemma_div_multiples_vanish(kept as int, q as int);
        assert(kept * q == q * kept) by (nonlinear_arith);
        if word >= 0x80_0000 {
            lemma_scaled_byte_len(kept, 2, d);
            if size == 3 {
                assert(back * pow256(0) == back) by (nonlinear_arith)
                    requires
                        pow256(0) == 1,
                ;
            } else {
                let r = pow256((size - 3) as nat);
                lemma_pow256_positive((size - 3) as nat);
                assert(q == 256 * r);
                assert(kept * (256 * r) == r * (kept * 256)) by (nonlinear_arith);
                lemma_div_multiples_vanish((kept * 256) as int, r as int);
            }
            assert(leading_word(back) == kept * 256);
        } else {
            lemma_scaled_byte_len(kept, 3, d);
            assert(leading_word(back) == kept);
        }
    }
}

/// The target at difficulty two.
pub fn anchor_target() -> (target: U256)
    ensures
        target@ == anchor(),
{
    U256::from_halves(0x8000_0000_0000_0000_0000_0000_0000_0000, 0)
}

/// Decodes a compact value into its target, and says whether the value
/// stands for no valid target. Where it says so the target means nothing.
pub fn compact_to_target(compact: u32) -> (out: (U256, bool))
    ensures
        out.0@ == decoded_target(compact),
        out.1 == decode_overflows(compact),
        out.1 == (compact_size(compact) > 32 || compact_negative(compact)),
{
    let size = compact >> 24;
    let word = compact & 0x007f_ffff;
    let negative = (compact & 0x0080_0000) != 0;
    proof {
        assert(compact >> 24 == compact / 0x100_0000) by (bit_vector);
        assert(compact & 0x007f_ffff == compact % 0x80_0000) by (bit_vector);
        assert(((compact & 0x0080_0000) != 0) == ((compact / 0x80_0000) % 2 == 1)) by (bit_vector);
        if size <= 32 {
            lemma_exact_target_fits(compact);
        }
    }
    let target = if size <= 3 {
        proof {
            lemma_small_mod(exact_target(compact), two_256());
        }
        U256::from_u32(word).shr_bytes(3 - size)
    } else {
        U256::from_u32(word).shl_bytes(size - 3)
    };
    (target, size > 32 || negative)
}

/// Encodes a target as a compact value. Only the leading bytes of the
/// target are kept; the bytes below them are dropped, not rounded.
pub fn target_to_compact(target: U256) -> (compact: u32)
    ensures
        compact == encoded_compact(target@),
{
    proof {
        target.lemma_view_injective(target);
        lemma_leading_word_bounds(target@);
        lemma_byte_len_bounds(target@);
        lemma_pow256_small();
    }
    let size = target.byte_len();
    let word: u32 = if size == 0 {
        0
    } else if size <= 3 {
        proof {
            lemma_pow256_ordered(size as nat, 3);
            lemma_small_mod(target@, 0x1_0000_0000);
        }
        let low = target.low_u32();
        if size == 3 {
            assert(low * pow256(0) == low) by (nonlinear_arith)
                requires
                    pow256(0) == 1,
            ;
            low
        } else if size == 2 {
            low * 0x100
        } else {
            low * 0x1_0000
        }
    } else {
        proof {
            lemma_small_mod(leading_word(target@), 0x1_0000_0000);
        }
        target.shr_bytes(size - 3).low_u32()
    };
    if word >= 0x80_0000 {
        (size + 1) * 0x100_0000 + word / 256
    } else {
        size * 0x100_0000 + word
    }
}

/// Converts a difficulty into the compact value of its target, which is the
/// anchor divided by the difficulty. There is none for the difficulty zero.
pub fn difficulty_to_compact(difficulty: U256) -> (compact: Option<u32>)
    ensures
        compact is None <==> difficulty@ == 0,
        compact matches Some(c) ==> c == encoded_compact(anchor() / difficulty@),
{
    match anchor_target().checked_div(&difficulty) {
        Some(target) => Some(target_to_compact(target)),
        None => None,
    }
}

/// Converts a compact value into the difficulty of its target, which is the
/// anchor divided by the target. There is none where the compact value
/// stands for no valid target or for the target zero.
pub fn compact_to_difficulty(compact: u32) -> (difficulty: Option<U256>)
    ensures
        difficulty is None <==> decode_overflows(compact) || decoded_target(compact) == 0,
        difficulty matches Some(d) ==> d@ == anchor() / decoded_target(compact),
{
    let (target, overflow) = compact_to_target(compact);
    if overflow || target.is_zero() {
        return None;
    }
    anchor_target().checked_div(&target)
}

} // verus!
