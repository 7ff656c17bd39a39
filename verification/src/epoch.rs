//! Spreadsheet date serials as days counted from 1970-01-01.
use crate::binary64::{exponent, is_finite, is_negative, parts, pow2_of, significand};
use vstd::arithmetic::div_mod::{lemma_fundamental_div_mod, lemma_fundamental_div_mod_converse, lemma_mod_bound};
use vstd::arithmetic::power2::{
    lemma2_to64, lemma2_to64_rest, lemma_pow2_pos, lemma_pow2_strictly_increases,
    lemma_pow2_unfold, pow2,
};
use vstd::prelude::*;

verus! {

/// Twice the distance in days between the two day counts: a serial `s`
/// stands for day `s - 1 - 70 * 365` and a quarter day more for each of the
/// seventy years, that is `s` less 51137 half days.
pub const HALF_DAYS_APART: i128 = 51137;

/// The day that a date serial, given by its bits, stands for: the serial
/// less `HALF_DAYS_APART` half days, rounded down to a whole day.
pub open spec fn day_offset_of(bits: u64) -> int {
    let m = if is_negative(bits) {
        -significand(bits)
    } else {
        significand(bits)
    };
    let k = exponent(bits);
    if k >= 0 {
        m * pow2(k as nat) - 25569
    } else {
        (2 * m - HALF_DAYS_APART * pow2((-k) as nat)) / (2 * pow2((-k) as nat) as int)
    }
}

/// Rounding a negative quotient down is rounding its opposite up.
proof fn lemma_floor_of_negative(t: int, d: int)
    requires
        t >= 0,
        d > 0,
    ensures
        (-t) / d == -((t + d - 1) / d),
{
    let c = (t + d - 1) / d;
    lemma_fundamental_div_mod(t + d - 1, d);
    lemma_mod_bound(t + d - 1, d);
    let r = (t + d - 1) % d;
    assert(t + d - 1 == d * c + r);
    assert(-t == (-c) * d + (d - 1 - r)) by (nonlinear_arith)
        requires
            t + d - 1 == d * c + r,
    ;
    lemma_fundamental_div_mod_converse(-t, d, -c, d - 1 - r);
}

/// The day, counted from 1970-01-01, that a spreadsheet date serial given
/// by its bits stands for.
///
/// `None` for an infinity, a NaN, and a day that does not fit.
pub fn to_day_offset(bits: u64) -> (r: Option<i32>)
    ensures
        r == (if is_finite(bits) && i32::MIN <= day_offset_of(bits) <= i32::MAX {
            Some(day_offset_of(bits) as i32)
        } else {
            None
        }),
{
    let p = match parts(bits) {
        Some(p) => p,
        None => {
            return None;
        },
    };
    proof {
        lemma2_to64();
        lemma2_to64_rest();
    }
    let m: i128 = p.significand as i128;
    let day: i128 = if p.exponent >= 0 {
        let k = p.exponent;
        if m == 0 {
            proof {
                assert(0 * pow2(k as nat) == 0) by (nonlinear_arith);
            }
            -25569
        } else if k >= 32 {
            proof {
                if k > 32 {
                    lemma_pow2_strictly_increases(32, k as nat);
                }
                let w = pow2(k as nat) as int;
                assert(m * w >= w && (-m) * w <= -w) by (nonlinear_arith)
                    requires
                        m >= 1,
                        w >= 0,
                ;
            }
            return None;
        } else {
            let w = pow2_of(k as u32) as i128;
            proof {
                lemma_pow2_strictly_increases(k as nat, 32);
                assert(m * w < 0x20_0000_0000_0000 * 0x1_0000_0000) by (nonlinear_arith)
                    requires
                        0 <= m < 0x20_0000_0000_0000,
                        0 <= w < 0x1_0000_0000,
                ;
                assert((-m) * w == -(m * w)) by (nonlinear_arith);
            }
            if p.negative {
                -(m * w) - 25569
            } else {
                m * w - 25569
            }
        }
    } else {
        let s: u32 = (-p.exponent) as u32;
        if s >= 54 {
            proof {
                let w = pow2(s as nat) as int;
                if s > 54 {
                    lemma_pow2_strictly_increases(54, s as nat);
                }
                let sm = if p.negative {
                    -m
                } else {
                    m as int
                };
                let n = 2 * sm - HALF_DAYS_APART * w;
                assert(n == (-25569) * (2 * w) + (2 * sm + w)) by (nonlinear_arith)
                    requires
                        n == 2 * sm - 51137 * w,
                ;
                lemma_fundamental_div_mod_converse(n, 2 * w, -25569, 2 * sm + w);
            }
            -25569
        } else {
            let w = pow2_of(s) as i128;
            proof {
                lemma_pow2_pos(s as nat);
                if s < 53 {
                    lemma_pow2_strictly_increases(s as nat, 53);
                }
            }
            let d: i128 = 2 * w;
            let a: i128 = HALF_DAYS_APART * w;
            if !p.negative && 2 * m >= a {
                (2 * m - a) / d
            } else {
                let t: i128 = if p.negative {
                    2 * m + a
                } else {
                    a - 2 * m
                };
                proof {
                    lemma_floor_of_negative(t as int, d as int);
                }
                -((t + d - 1) / d)
            }
        }
    };
    if day < -2147483648 || day > 2147483647 {
        None
    } else {
        Some(day as i32)
    }
}

} // verus!
