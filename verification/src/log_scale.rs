//! `2` to the power `log10(x)` in fixed point, for a ratio `x` of two integers.
//!
//! The decimal logarithm is taken digit by digit: the fraction is squared, and divided by
//! ten where it reached ten, once for each binary digit. The power of two is then built from
//! those digits by one square root for each. Both steps round down; `log_bounds` and
//! `log_accuracy` bound what the rounding loses.

use vstd::arithmetic::power::{lemma_pow1, lemma_pow_adds, lemma_pow_positive, pow};
use vstd::prelude::*;

use crate::log_bounds::{
    lemma_constants, lemma_floor_sqrt, lemma_fraction_range, lemma_log_digits, lemma_log_start,
    lemma_log_step, lemma_log_steps, log_state,
};

verus! {

/// The number one in the fixed point of the logarithm: two to the power 60.
pub const LOG_ONE: u128 = 1152921504606846976;

/// The number one in the fixed point of the multiplier: two to the power 59.
pub const MULTIPLIER_ONE: u128 = 576460752303423488;

/// How many binary digits the logarithm has after the point.
pub const LOG_DIGITS: u32 = 56;

/// One unit of the logarithm is this many steps: two to the power `LOG_DIGITS`.
pub const LOG_STEPS: u128 = 72057594037927936;

/// Whether `p / q` is at most the decimal logarithm of `v / m`.
pub open spec fn exponent_within(p: nat, q: nat, v: nat, m: nat) -> bool {
    pow(10, p) * pow(m as int, q) <= pow(v as int, q)
}

/// The integer part of the decimal logarithm of `v / m`, for a ratio from ten up to ten
/// thousand.
pub open spec fn log_integer(v: nat, m: nat) -> nat {
    if v >= 1000 * m {
        3
    } else if v >= 100 * m {
        2
    } else {
        1
    }
}

/// Ten to the power `e`, for the integer parts that occur.
pub open spec fn decade(e: nat) -> nat {
    if e == 3 {
        1000
    } else if e == 2 {
        100
    } else {
        10
    }
}

/// `v / m` with its integer decades taken out, in the fixed point of the logarithm.
pub open spec fn log_fraction(v: nat, m: nat) -> nat {
    (v * LOG_ONE as nat) / (m * decade(log_integer(v, m)))
}

/// The digits `p` of a logarithm, continued by `k` binary digits of the logarithm of `y`.
pub open spec fn log_digits(y: nat, p: nat, k: nat) -> nat
    decreases k,
{
    if k == 0 {
        p
    } else {
        let s = (y * y) / (LOG_ONE as nat);
        if s >= 10 * LOG_ONE {
            log_digits(s / 10, 2 * p + 1, (k - 1) as nat)
        } else {
            log_digits(s, 2 * p, (k - 1) as nat)
        }
    }
}

/// The decimal logarithm of `v / m`, in steps of `1 / LOG_STEPS`.
pub open spec fn log_steps(v: nat, m: nat) -> nat {
    log_digits(log_fraction(v, m), log_integer(v, m), LOG_DIGITS as nat)
}

/// Whether `r` is the square root of `x`, rounded down.
pub open spec fn is_floor_sqrt(x: nat, r: nat) -> bool {
    r * r <= x < (r + 1) * (r + 1)
}

/// The square root of `x`, rounded down.
pub open spec fn floor_sqrt(x: nat) -> nat {
    choose|r: nat| is_floor_sqrt(x, r)
}

/// Two to the power `f / 2^k`, for `f` below `2^k`, in the fixed point of the multiplier.
pub open spec fn exp2_fraction(f: nat, k: nat) -> nat
    decreases k,
{
    if k == 0 {
        MULTIPLIER_ONE as nat
    } else {
        let half = pow(2, (k - 1) as nat) as nat;
        let j = (k - 1) as nat;
        if f >= half {
            floor_sqrt(2 * MULTIPLIER_ONE as nat * exp2_fraction((f - half) as nat, j))
        } else {
            floor_sqrt(MULTIPLIER_ONE as nat * exp2_fraction(f, j))
        }
    }
}

/// Two to the power `log10(v / m)`, in the fixed point of the multiplier.
pub open spec fn log_multiplier(v: nat, m: nat) -> nat {
    let steps = log_steps(v, m);
    exp2_fraction(steps % LOG_STEPS as nat, LOG_DIGITS as nat) * (pow(
        2,
        steps / LOG_STEPS as nat,
    ) as nat)
}

/// The square root of `x`, rounded down, for a root from `MULTIPLIER_ONE` up to twice that.
fn fixed_sqrt(x: u128) -> (r: u128)
    requires
        MULTIPLIER_ONE * MULTIPLIER_ONE <= x < 4 * (MULTIPLIER_ONE * MULTIPLIER_ONE),
    ensures
        r == floor_sqrt(x as nat),
        MULTIPLIER_ONE <= r < 2 * MULTIPLIER_ONE,
{
    let mut lo: u128 = MULTIPLIER_ONE;
    let mut hi: u128 = 2 * MULTIPLIER_ONE;
    while hi - lo > 1
        invariant
            MULTIPLIER_ONE <= lo < hi <= 2 * MULTIPLIER_ONE,
            lo * lo <= x < hi * hi,
        decreases hi - lo,
    {
        let mid: u128 = lo + (hi - lo) / 2;
        assert(mid * mid <= 4 * (MULTIPLIER_ONE * MULTIPLIER_ONE)) by (nonlinear_arith)
            requires
                0 <= mid <= 2 * MULTIPLIER_ONE,
        ;
        if mid * mid <= x {
            lo = mid;
        } else {
            hi = mid;
        }
    }
    proof {
        assert(is_floor_sqrt(x as nat, lo as nat));
        lemma_floor_sqrt(x as nat);
    }
    lo
}

/// The steps of the decimal logarithm of `v / m`.
fn log_steps_of(v: u32, m: u32) -> (steps: u128)
    requires
        10 * m <= v < 10000 * m,
    ensures
        steps == log_steps(v as nat, m as nat),
{
    let ghost vn = v as nat;
    let ghost mn = m as nat;
    let (first, ten): (u128, u128) = if v as u128 >= 1000 * m as u128 {
        (3, 1000)
    } else if v as u128 >= 100 * m as u128 {
        (2, 100)
    } else {
        (1, 10)
    };
    proof {
        lemma_log_start(vn, mn);
        lemma_log_steps(vn, mn);
        vstd::arithmetic::power::lemma_pow0(2);
    }
    let mut p: u128 = first;
    let mut y: u128 = (v as u128 * LOG_ONE) / (m as u128 * ten);
    let mut i: u32 = 0;
    assert(y == log_fraction(vn, mn));
    while i < LOG_DIGITS
        invariant
            i <= LOG_DIGITS,
            log_state(vn, mn, pow(2, i as nat) as nat, p as nat, y as nat),
            log_digits(y as nat, p as nat, (LOG_DIGITS - i) as nat) == log_steps(vn, mn),
            log_steps(vn, mn) < 4 * LOG_STEPS,
        decreases LOG_DIGITS - i,
    {
        let ghost q = pow(2, i as nat) as nat;
        let ghost k = (LOG_DIGITS - i) as nat;
        proof {
            lemma_pow_positive(2, i as nat);
            lemma_pow_positive(2, k);
            lemma_pow_adds(2, 1, i as nat);
            lemma_pow1(2);
            lemma_log_digits(vn, mn, q, p as nat, y as nat, k);
            let a = pow(2, k);
            assert(p <= p * a) by (nonlinear_arith)
                requires
                    a >= 1,
                    p >= 0,
            ;
            lemma_fraction_range(y as nat);
            lemma_log_step(vn, mn, q, p as nat, y as nat);
        }
        let s: u128 = (y * y) / LOG_ONE;
        if s >= 10 * LOG_ONE {
            y = s / 10;
            p = 2 * p + 1;
        } else {
            y = s;
            p = 2 * p;
        }
        i = i + 1;
        assert(pow(2, i as nat) as nat == 2 * q);
    }
    p
}

/// Two to the power `f / LOG_STEPS`, in the fixed point of the multiplier.
fn exp2_of(f: u128) -> (r: u128)
    requires
        f < LOG_STEPS,
    ensures
        r == exp2_fraction(f as nat, LOG_DIGITS as nat),
        MULTIPLIER_ONE <= r < 2 * MULTIPLIER_ONE,
{
    let mut r: u128 = MULTIPLIER_ONE;
    let mut rest: u128 = f;
    let mut i: u32 = 0;
    let ghost mut low: nat = 0;
    proof {
        lemma_constants();
    }
    while i < LOG_DIGITS
        invariant
            i <= LOG_DIGITS,
            low < pow(2, i as nat),
            f == rest * pow(2, i as nat) + low,
            MULTIPLIER_ONE <= r < 2 * MULTIPLIER_ONE,
            r == exp2_fraction(low, i as nat),
        decreases LOG_DIGITS - i,
    {
        let ghost half = pow(2, i as nat);
        let bit: u128 = rest % 2;
        proof {
            lemma_pow_positive(2, i as nat);
            lemma_pow_adds(2, 1, i as nat);
            lemma_pow1(2);
            assert(MULTIPLIER_ONE * MULTIPLIER_ONE <= (bit + 1) * MULTIPLIER_ONE * r < 4 * (
            MULTIPLIER_ONE * MULTIPLIER_ONE)) by (nonlinear_arith)
                requires
                    0 <= bit <= 1,
                    MULTIPLIER_ONE <= r < 2 * MULTIPLIER_ONE,
            ;
            assert((bit + 1) * MULTIPLIER_ONE >= 0);
            let next = rest as int / 2;
            assert(rest * half == next * (2 * half) + bit * half) by (nonlinear_arith)
                requires
                    rest == 2 * next + bit,
            ;
            low = (bit * half + low) as nat;
            assert(bit * half <= half) by (nonlinear_arith)
                requires
                    0 <= bit <= 1,
                    half > 0,
            ;
            assert(bit == 0 ==> bit * half == 0);
            assert(bit == 1 ==> bit * half == half);
        }
        r = fixed_sqrt((bit + 1) * MULTIPLIER_ONE * r);
        rest = rest / 2;
        i = i + 1;
    }
    proof {
        assert(rest == 0) by (nonlinear_arith)
            requires
                f < LOG_STEPS,
                f == rest * LOG_STEPS + low,
                low >= 0,
                rest >= 0,
        ;
        assert(rest * pow(2, i as nat) == 0);
    }
    r
}

/// Two to the power `log10(v / m)`, in the fixed point of the multiplier.
pub(crate) fn log_multiplier_of(v: u32, m: u32) -> (mult: u128)
    requires
        10 * m <= v < 10000 * m,
    ensures
        mult == log_multiplier(v as nat, m as nat),
        2 * MULTIPLIER_ONE <= mult < 16 * MULTIPLIER_ONE,
{
    let steps = log_steps_of(v, m);
    proof {
        lemma_constants();
        lemma_log_steps(v as nat, m as nat);
    }
    let whole: u128 = steps / LOG_STEPS;
    let fraction = exp2_of(steps % LOG_STEPS);
    let scale: u128 = if whole == 3 {
        8
    } else if whole == 2 {
        4
    } else {
        2
    };
    fraction * scale
}

} // verus!
