//! Money as whole cents: read from a spreadsheet's number, and written with
//! its decimal point.
use crate::binary64::{exponent, is_finite, is_negative, parts, pow2_of, significand};
use vstd::arithmetic::div_mod::{lemma_basic_div, lemma_fundamental_div_mod_converse};
use vstd::arithmetic::power2::{
    lemma2_to64, lemma2_to64_rest, lemma_pow2_pos, lemma_pow2_strictly_increases,
    lemma_pow2_unfold, pow2,
};
use vstd::prelude::*;

verus! {

/// `n * 2^k` rounded to the nearest integer, a half upward, for `n` that is
/// not negative.
pub open spec fn scaled_round(n: int, k: int) -> int {
    if k >= 0 {
        n * pow2(k as nat)
    } else {
        (n + pow2((-k - 1) as nat)) / (pow2((-k) as nat) as int)
    }
}

/// The amount, a number of currency units given by its bits, in cents:
/// a hundred times the number, rounded to the nearest integer, a half away
/// from zero.
pub open spec fn cents_of(bits: u64) -> int {
    let c = scaled_round(significand(bits) * 100, exponent(bits));
    if is_negative(bits) {
        -c
    } else {
        c
    }
}

/// `scaled_round`, as far as the result does not exceed two to the 64.
pub fn round_scaled(n: u128, k: i32) -> (r: Option<u128>)
    requires
        n < 0x1000_0000_0000_0000,
        -1074 <= k <= 971,
    ensures
        match r {
            Some(m) => m == scaled_round(n as int, k as int) && m <= 0x1_0000_0000_0000_0000,
            None => scaled_round(n as int, k as int) > 0x1_0000_0000_0000_0000,
        },
{
    proof {
        lemma2_to64();
        lemma2_to64_rest();
    }
    if k >= 0 {
        if n == 0 {
            proof {
                assert(0 * pow2(k as nat) == 0) by (nonlinear_arith);
            }
            Some(0)
        } else if k > 64 {
            proof {
                lemma_pow2_strictly_increases(64, k as nat);
                assert(n * pow2(k as nat) >= pow2(k as nat)) by (nonlinear_arith)
                    requires
                        n >= 1,
                        pow2(k as nat) >= 0,
                ;
            }
            None
        } else {
            let p = pow2_of(k as u32);
            proof {
                assert(n * p < 0x1000_0000_0000_0000 * 0x1_0000_0000_0000_0001) by (nonlinear_arith)
                    requires
                        0 <= n < 0x1000_0000_0000_0000,
                        0 <= p <= 0x1_0000_0000_0000_0000,
                ;
            }
            let m = n * p;
            if m <= 0x1_0000_0000_0000_0000 {
                Some(m)
            } else {
                None
            }
        }
    } else {
        let s: u32 = (-k) as u32;
        if s > 61 {
            proof {
                let h = pow2((s - 1) as nat);
                if s - 1 > 61 {
                    lemma_pow2_strictly_increases(61, (s - 1) as nat);
                }
                lemma_pow2_unfold(s as nat);
                lemma_basic_div(n + h, pow2(s as nat) as int);
            }
            Some(0)
        } else {
            let h = pow2_of(s - 1);
            let d = pow2_of(s);
            proof {
                lemma_pow2_pos(s as nat);
                lemma_pow2_unfold(s as nat);
            }
            Some((n + h) / d)
        }
    }
}

/// Reads a money amount, a number of currency units given by its bits, as
/// whole cents: a hundred times the number, rounded to the nearest cent, a
/// half away from zero.
///
/// `None` for an infinity, a NaN, and an amount whose cents do not fit.
pub fn decode(bits: u64) -> (r: Option<i64>)
    ensures
        r == (if is_finite(bits) && i64::MIN <= cents_of(bits) <= i64::MAX {
            Some(cents_of(bits) as i64)
        } else {
            None
        }),
{
    let p = match parts(bits) {
        Some(p) => p,
        None => {
            return None;
        },
    };
    let n: u128 = (p.significand as u128) * 100;
    let m = match round_scaled(n, p.exponent) {
        Some(m) => m,
        None => {
            return None;
        },
    };
    if p.negative {
        if m <= 0x8000_0000_0000_0000 {
            Some((-(m as i128)) as i64)
        } else {
            None
        }
    } else {
        if m <= 0x7fff_ffff_ffff_ffff {
            Some(m as i64)
        } else {
            None
        }
    }
}

/// The number given by `bits` lies less than half a cent from `v` cents.
pub open spec fn within_half_cent(bits: u64, v: int) -> bool {
    let n = if is_negative(bits) {
        -(significand(bits) * 100)
    } else {
        significand(bits) * 100
    };
    if exponent(bits) >= 0 {
        n * pow2(exponent(bits) as nat) == v
    } else {
        let whole = pow2((-exponent(bits)) as nat) as int;
        -whole < 2 * n - 2 * v * whole < whole
    }
}

/// Reading recovers what was written: a number that lies less than half a
/// cent from an amount of `v` cents, as the nearest number to `v` cents
/// does for any amount in use, is read as `v`.
pub proof fn lemma_decode_recovers(bits: u64, v: int)
    requires
        is_finite(bits),
        within_half_cent(bits, v),
    ensures
        cents_of(bits) == v,
{
    let m = significand(bits) * 100;
    let k = exponent(bits);
    if k >= 0 {
        assert((-m) * pow2(k as nat) == -(m * pow2(k as nat))) by (nonlinear_arith);
    } else {
        let s = (-k) as nat;
        let h = pow2((s - 1) as nat) as int;
        let whole = pow2(s) as int;
        lemma_pow2_unfold(s);
        lemma_pow2_pos((s - 1) as nat);
        let u = if is_negative(bits) {
            -v
        } else {
            v
        };
        let neg = is_negative(bits);
        assert(-whole < 2 * m - 2 * u * whole < whole) by (nonlinear_arith)
            requires
                neg ==> u == -v && -whole < 2 * (-m) - 2 * v * whole < whole,
                !neg ==> u == v && -whole < 2 * m - 2 * v * whole < whole,
        ;
        assert(m + h == u * whole + (m + h - u * whole));
        assert(0 <= m + h - u * whole < whole) by (nonlinear_arith)
            requires
                -whole < 2 * m - 2 * u * whole < whole,
                whole == 2 * h,
        ;
        lemma_fundamental_div_mod_converse(m + h, whole, u, m + h - u * whole);
    }
}

/// The character of one decimal digit.
pub open spec fn digit_char(d: int) -> char {
    if d == 0 {
        '0'
    } else if d == 1 {
        '1'
    } else if d == 2 {
        '2'
    } else if d == 3 {
        '3'
    } else if d == 4 {
        '4'
    } else if d == 5 {
        '5'
    } else if d == 6 {
        '6'
    } else if d == 7 {
        '7'
    } else if d == 8 {
        '8'
    } else {
        '9'
    }
}

/// The decimal digits of `n`, without leading zeros; `0` is one digit.
pub open spec fn digits(n: nat) -> Seq<char>
    decreases n,
{
    if n < 10 {
        seq![digit_char(n as int)]
    } else {
        digits(n / 10).push(digit_char((n % 10) as int))
    }
}

/// An amount of `v` cents written in currency units: a minus sign where
/// `v` is negative, the whole units, a point, and two digits of cents.
pub open spec fn encode_text(v: int) -> Seq<char> {
    let a = if v < 0 {
        (-v) as nat
    } else {
        v as nat
    };
    let sign = if v < 0 {
        seq!['-']
    } else {
        Seq::<char>::empty()
    };
    sign + digits(a / 100) + seq!['.', digit_char(((a / 10) % 10) as int), digit_char((a % 10) as int)]
}

/// One decimal digit as text.
fn digit_str(d: u64) -> (r: &'static str)
    requires
        d < 10,
    ensures
        r@ == seq![digit_char(d as int)],
{
    proof {
        reveal_strlit("0");
        reveal_strlit("1");
        reveal_strlit("2");
        reveal_strlit("3");
        reveal_strlit("4");
        reveal_strlit("5");
        reveal_strlit("6");
        reveal_strlit("7");
        reveal_strlit("8");
        reveal_strlit("9");
    }
    let r = if d == 0 {
        "0"
    } else if d == 1 {
        "1"
    } else if d == 2 {
        "2"
    } else if d == 3 {
        "3"
    } else if d == 4 {
        "4"
    } else if d == 5 {
        "5"
    } else if d == 6 {
        "6"
    } else if d == 7 {
        "7"
    } else if d == 8 {
        "8"
    } else {
        "9"
    };
    assert(r@ =~= seq![digit_char(d as int)]);
    r
}

/// Appends the decimal digits of `n`.
fn push_digits(s: &mut String, n: u64)
    ensures
        final(s)@ == old(s)@ + digits(n as nat),
    decreases n,
{
    if n >= 10 {
        push_digits(s, n / 10);
    }
    s.append(digit_str(n % 10));
    proof {
        assert(s@ =~= old(s)@ + digits(n as nat));
    }
}

/// Writes an amount of whole cents in currency units, with the decimal
/// point two digits from the right: `12345` cents read `123.45`, `5` cents
/// `0.05` and `-5` cents `-0.05`.
pub fn encode(total: i64) -> (s: String)
    ensures
        s@ == encode_text(total as int),
{
    let a: u64 = if total < 0 {
        (-(total as i128)) as u64
    } else {
        total as u64
    };
    let mut s = String::new();
    if total < 0 {
        proof {
            reveal_strlit("-");
        }
        s.append("-");
    }
    push_digits(&mut s, a / 100);
    proof {
        reveal_strlit(".");
    }
    s.append(".");
    s.append(digit_str((a / 10) % 10));
    s.append(digit_str(a % 10));
    proof {
        assert(s@ =~= encode_text(total as int));
    }
    s
}

/// The digit that a character shows, and `-1` for any other character.
pub open spec fn digit_value(c: char) -> int {
    if c == '0' {
        0
    } else if c == '1' {
        1
    } else if c == '2' {
        2
    } else if c == '3' {
        3
    } else if c == '4' {
        4
    } else if c == '5' {
        5
    } else if c == '6' {
        6
    } else if c == '7' {
        7
    } else if c == '8' {
        8
    } else if c == '9' {
        9
    } else {
        -1
    }
}

/// The number that a run of decimal digits shows.
pub open spec fn number_of(s: Seq<char>) -> int
    decreases s.len(),
{
    if s.len() == 0 {
        0
    } else {
        number_of(s.drop_last()) * 10 + digit_value(s.last())
    }
}

/// The amount in cents that a text in currency units shows: a minus sign
/// or none, the whole units, one character for the point, and two digits
/// of cents.
pub open spec fn amount_of(text: Seq<char>) -> int {
    let negative = text.len() > 0 && text[0] == '-';
    let body = if negative {
        text.subrange(1, text.len() as int)
    } else {
        text
    };
    let cents = number_of(body.subrange(0, body.len() - 3)) * 100 + digit_value(
        body[body.len() - 2],
    ) * 10 + digit_value(body[body.len() - 1]);
    if negative {
        -cents
    } else {
        cents
    }
}

/// The digits of a number are digits, at least one, and show the number.
pub proof fn lemma_digits_show_the_number(n: nat)
    ensures
        digits(n).len() >= 1,
        forall|i: int| 0 <= i < digits(n).len() ==> 0 <= digit_value(#[trigger] digits(n)[i]) <= 9,
        number_of(digits(n)) == n,
    decreases n,
{
    if n < 10 {
        let s = digits(n);
        assert(s.drop_last() =~= Seq::<char>::empty());
        assert(number_of(s.drop_last()) == 0);
    } else {
        lemma_digits_show_the_number(n / 10);
        let s = digits(n);
        assert(s.drop_last() =~= digits(n / 10));
        assert forall|i: int| 0 <= i < s.len() implies 0 <= digit_value(#[trigger] s[i]) <= 9 by {
            if i < s.len() - 1 {
                assert(s[i] == digits(n / 10)[i]);
            }
        }
    }
}

/// Nothing is lost in writing: the text written for an amount shows that
/// amount, to the cent.
pub proof fn lemma_written_amount_is_read_back(v: int)
    ensures
        amount_of(encode_text(v)) == v,
{
    let a = if v < 0 {
        (-v) as nat
    } else {
        v as nat
    };
    let whole = digits(a / 100);
    let tail = seq!['.', digit_char(((a / 10) % 10) as int), digit_char((a % 10) as int)];
    lemma_digits_show_the_number(a / 100);
    let text = encode_text(v);
    let body = whole + tail;
    if v < 0 {
        assert(text =~= seq!['-'] + body);
        assert(text[0] == '-');
        assert(text.subrange(1, text.len() as int) =~= body);
    } else {
        assert(text =~= body);
        assert(text[0] == whole[0]);
        assert(0 <= digit_value(whole[0]) <= 9);
    }
    assert(body.subrange(0, body.len() - 3) =~= whole);
    assert(body[body.len() - 2] == digit_char(((a / 10) % 10) as int));
    assert(body[body.len() - 1] == digit_char((a % 10) as int));
}

} // verus!
