//! Numbers in the 64-bit binary interchange format, read from their bits
//! with integer arithmetic alone.
//!
//! A finite number is `significand * 2^exponent`, negated where the sign
//! bit is set.
use vstd::arithmetic::power2::{lemma2_to64, lemma_pow2_strictly_increases, lemma_pow2_unfold, pow2};
use vstd::prelude::*;

verus! {

/// Two to the 52: the number of values of the fraction field.
pub const FRACTION_SPAN: u64 = 0x10_0000_0000_0000;

/// The sign bit.
pub const SIGN_BIT: u64 = 0x8000_0000_0000_0000;

/// The exponent field: eleven bits above the fraction.
pub open spec fn exponent_field(bits: u64) -> int {
    ((bits / FRACTION_SPAN) % 2048) as int
}

/// Neither an infinity nor a NaN.
pub open spec fn is_finite(bits: u64) -> bool {
    exponent_field(bits) != 2047
}

/// The sign bit is set.
pub open spec fn is_negative(bits: u64) -> bool {
    bits >= SIGN_BIT
}

/// The integer that the exponent scales: the fraction field, with the
/// hidden leading bit unless the number is subnormal.
pub open spec fn significand(bits: u64) -> int {
    if exponent_field(bits) == 0 {
        (bits % FRACTION_SPAN) as int
    } else {
        FRACTION_SPAN + bits % FRACTION_SPAN
    }
}

/// The power of two that scales the significand.
pub open spec fn exponent(bits: u64) -> int {
    if exponent_field(bits) == 0 {
        -1074
    } else {
        exponent_field(bits) - 1075
    }
}

/// A finite number taken apart.
#[derive(Clone, Copy, Debug, PartialEq, Eq, Structural)]
pub struct Parts {
    pub negative: bool,
    pub significand: u64,
    pub exponent: i32,
}

/// Takes a number apart; `None` for an infinity or a NaN.
pub fn parts(bits: u64) -> (r: Option<Parts>)
    ensures
        match r {
            Some(p) => {
                &&& is_finite(bits)
                &&& p.negative == is_negative(bits)
                &&& p.significand == significand(bits)
                &&& p.exponent == exponent(bits)
                &&& p.significand < 0x20_0000_0000_0000
                &&& -1074 <= p.exponent <= 971
            },
            None => !is_finite(bits),
        },
{
    let field: u64 = (bits / FRACTION_SPAN) % 2048;
    let fraction: u64 = bits % FRACTION_SPAN;
    if field == 2047 {
        None
    } else if field == 0 {
        Some(Parts { negative: bits >= SIGN_BIT, significand: fraction, exponent: -1074 })
    } else {
        Some(
            Parts {
                negative: bits >= SIGN_BIT,
                significand: FRACTION_SPAN + fraction,
                exponent: (field as i32) - 1075,
            },
        )
    }
}

/// Two to the `k`.
pub fn pow2_of(k: u32) -> (r: u128)
    requires
        k <= 64,
    ensures
        r == pow2(k as nat),
        r <= 0x1_0000_0000_0000_0000,
{
    let mut r: u128 = 1;
    let mut i: u32 = 0;
    proof {
        lemma2_to64();
        if 0 < k {
            lemma_pow2_strictly_increases(0, 64);
        }
    }
    while i < k
        invariant
            i <= k <= 64,
            r == pow2(i as nat),
            r <= 0x1_0000_0000_0000_0000,
            pow2(64) == 0x1_0000_0000_0000_0000,
        decreases k - i,
    {
        proof {
            lemma_pow2_unfold((i + 1) as nat);
            if i + 1 < 64 {
                lemma_pow2_strictly_increases((i + 1) as nat, 64);
            }
        }
        r = r * 2;
        i = i + 1;
    }
    r
}

} // verus!
