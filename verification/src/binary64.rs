//! Quantities as feeds quote them, held by their IEEE 754 binary64 encoding.
//!
//! A feed quotes prices and sizes as decimal text. Whoever reads the feed
//! parses that text into a binary64 number and hands its 64-bit encoding to
//! this library, which never touches the number itself. Two facts about the
//! format carry everything the book needs:
//!
//! * a number is finite and not negative exactly when its encoding is below
//!   that of positive infinity, or is the encoding of negative zero;
//! * among such numbers, the smaller number has the smaller encoding.
//!
//! So a validated encoding serves as an ordered key, and the whole part of the
//! number can be read off its exponent and fraction fields.

use vstd::prelude::*;
use vstd::arithmetic::power2::*;
use vstd::bits::*;

verus! {

/// The encoding of negative zero: only the sign bit is set.
pub const NEGATIVE_ZERO: u64 = 0x8000_0000_0000_0000;

/// The encoding of positive infinity. Every encoding below it is a finite
/// number that is not negative.
pub const POSITIVE_INFINITY: u64 = 0x7FF0_0000_0000_0000;

/// Two to the power 52: the weight of the implicit leading bit of a normal
/// number's significand.
pub const HIDDEN_BIT: u64 = 0x10_0000_0000_0000;

/// The biased exponent at which the significand, read as an integer, is the
/// number itself.
pub const UNIT_EXPONENT: u64 = 1075;

/// Whether `bits` encodes a finite number that is not negative.
/// Negative zero is zero, so it qualifies.
pub open spec fn is_quantity(bits: u64) -> bool {
    bits < POSITIVE_INFINITY || bits == NEGATIVE_ZERO
}

/// The key that orders quantities as their numbers are ordered: the encoding
/// itself, with negative zero folded onto zero.
pub open spec fn quantity_key(bits: u64) -> u64 {
    if bits == NEGATIVE_ZERO {
        0
    } else {
        bits
    }
}

/// The biased exponent field of a key: bits 52 to 62.
pub open spec fn exponent_field(key: u64) -> nat {
    (key as nat) / (HIDDEN_BIT as nat)
}

/// The fraction field of a key: bits 0 to 51.
pub open spec fn fraction_field(key: u64) -> nat {
    (key as nat) % (HIDDEN_BIT as nat)
}

/// The whole part of the number that a key encodes: its value rounded toward
/// zero. A normal number is `(2^52 + fraction) * 2^(exponent - 1075)`;
/// a subnormal one is below one.
pub open spec fn whole_part(key: u64) -> nat
    recommends
        key < POSITIVE_INFINITY,
{
    let e = exponent_field(key);
    let significand = HIDDEN_BIT as nat + fraction_field(key);
    if e == 0 {
        0
    } else if e >= UNIT_EXPONENT {
        significand * pow2((e - UNIT_EXPONENT) as nat)
    } else {
        significand / pow2((UNIT_EXPONENT - e) as nat)
    }
}

proof fn lemma_small_quotient(n: nat, d: nat)
    requires
        n < d,
    ensures
        n / d == 0,
{
    assert(n / d == 0) by (nonlinear_arith)
        requires
            n < d,
    ;
}

/// Checks an encoding and returns its key, or `None` for a negative number,
/// an infinity or a NaN.
pub fn to_key(bits: u64) -> (key: Option<u64>)
    ensures
        key is Some <==> is_quantity(bits),
        key matches Some(k) ==> k == quantity_key(bits) && k < POSITIVE_INFINITY,
{
    if bits == NEGATIVE_ZERO {
        Some(0)
    } else if bits < POSITIVE_INFINITY {
        Some(bits)
    } else {
        None
    }
}

/// The whole part of the number that `key` encodes, capped at `u64::MAX`.
pub fn whole_part_u64(key: u64) -> (whole: u64)
    requires
        key < POSITIVE_INFINITY,
    ensures
        whole == if whole_part(key) <= u64::MAX { whole_part(key) } else { u64::MAX as nat },
{
    let e: u64 = key >> 52;
    let fraction: u64 = key & 0xF_FFFF_FFFF_FFFF;
    assert(e == key / 0x10_0000_0000_0000) by (bit_vector)
        requires
            e == key >> 52,
    ;
    assert(fraction == key % 0x10_0000_0000_0000) by (bit_vector)
        requires
            fraction == key & 0xF_FFFF_FFFF_FFFF,
    ;
    assert(e < 0x7FF);
    if e == 0 {
        return 0;
    }
    let significand: u64 = HIDDEN_BIT + fraction;
    if e >= UNIT_EXPONENT {
        let shift: u64 = e - UNIT_EXPONENT;
        if shift >= 12 {
            proof {
                lemma2_to64();
                if shift > 12 {
                    lemma_pow2_strictly_increases(12, shift as nat);
                }
                assert(significand * pow2(shift as nat) > u64::MAX) by (nonlinear_arith)
                    requires
                        significand >= 0x10_0000_0000_0000,
                        pow2(shift as nat) >= 0x1000,
                ;
            }
            u64::MAX
        } else {
            proof {
                lemma2_to64();
                if shift < 11 {
                    lemma_pow2_strictly_increases(shift as nat, 11);
                }
                assert(significand * pow2(shift as nat) <= u64::MAX) by (nonlinear_arith)
                    requires
                        significand < 0x20_0000_0000_0000,
                        pow2(shift as nat) <= 0x800,
                ;
                lemma_u64_shl_is_mul(significand, shift);
            }
            significand << shift
        }
    } else {
        let shift: u64 = UNIT_EXPONENT - e;
        if shift >= 64 {
            proof {
                lemma2_to64();
                if shift > 64 {
                    lemma_pow2_strictly_increases(64, shift as nat);
                }
                lemma_small_quotient(significand as nat, pow2(shift as nat));
            }
            0
        } else {
            proof {
                lemma_u64_shr_is_div(significand, shift);
            }
            significand >> shift
        }
    }
}

} // verus!
