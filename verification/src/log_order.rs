//! The multiplier grows with the ratio, and is exact at the powers of ten.

use vstd::arithmetic::power::{lemma_pow1, lemma_pow_adds, lemma_pow_positive, pow};
use vstd::prelude::*;

use crate::log_bounds::{
    lemma_constants, lemma_exp2_fraction, lemma_floor_sqrt, lemma_fraction_range, lemma_log_start,
    lemma_log_steps,
};
use crate::log_scale::{
    decade, exp2_fraction, floor_sqrt, is_floor_sqrt, log_digits, log_fraction, log_integer, log_multiplier,
    log_steps, LOG_DIGITS, LOG_ONE, LOG_STEPS, MULTIPLIER_ONE,
};

verus! {

/// Quotients keep the order of the ratios that they round.
proof fn lemma_quotient_monotone(a: int, b: int, c: int, d: int)
    requires
        0 <= a,
        0 < b,
        0 <= c,
        0 < d,
        a * d <= c * b,
    ensures
        a / b <= c / d,
{
    let z = a / b;
    vstd::arithmetic::div_mod::lemma_fundamental_div_mod(a, b);
    assert(z * d <= c) by (nonlinear_arith)
        requires
            a == b * z + a % b,
            a % b >= 0,
            a * d <= c * b,
            b > 0,
            d > 0,
    ;
    vstd::arithmetic::div_mod::lemma_div_is_ordered(z * d, c, d);
    vstd::arithmetic::div_mod::lemma_div_by_multiple(z, d);
}

/// The digits so far fix the unit in which the continued digits lie.
proof fn lemma_digits_unit(y: nat, p: nat, k: nat)
    requires
        LOG_ONE <= y < 10 * LOG_ONE,
    ensures
        p * pow(2, k) <= log_digits(y, p, k) < (p + 1) * pow(2, k),
    decreases k,
{
    if k == 0 {
        vstd::arithmetic::power::lemma_pow0(2);
    } else {
        let j = (k - 1) as nat;
        let s = (y * y) / (LOG_ONE as nat);
        let a = pow(2, j);
        lemma_fraction_range(y);
        lemma_pow_positive(2, j);
        lemma_pow_adds(2, 1, j);
        lemma_pow1(2);
        assert(p * (2 * a) == (2 * p) * a) by (nonlinear_arith);
        assert((p + 1) * (2 * a) == (2 * p + 1 + 1) * a) by (nonlinear_arith);
        assert((2 * p) * a <= (2 * p + 1) * a <= (2 * p + 1 + 1) * a) by (nonlinear_arith)
            requires
                a > 0,
        ;
        if s >= 10 * LOG_ONE {
            lemma_digits_unit(s / 10, 2 * p + 1, j);
        } else {
            lemma_digits_unit(s, 2 * p, j);
        }
    }
}

/// A larger fraction has larger digits.
proof fn lemma_digits_monotone(y1: nat, y2: nat, p: nat, k: nat)
    requires
        LOG_ONE <= y1 <= y2 < 10 * LOG_ONE,
    ensures
        log_digits(y1, p, k) <= log_digits(y2, p, k),
    decreases k,
{
    if k > 0 {
        let j = (k - 1) as nat;
        let w = LOG_ONE as int;
        let s1 = (y1 * y1) as int / w;
        let s2 = (y2 * y2) as int / w;
        lemma_fraction_range(y1);
        lemma_fraction_range(y2);
        assert(y1 * y1 <= y2 * y2) by (nonlinear_arith)
            requires
                0 <= y1 <= y2,
        ;
        vstd::arithmetic::div_mod::lemma_div_is_ordered((y1 * y1) as int, (y2 * y2) as int, w);
        if s2 >= 10 * w && s1 < 10 * w {
            lemma_digits_unit(s1 as nat, 2 * p, j);
            lemma_digits_unit((s2 / 10) as nat, 2 * p + 1, j);
        } else if s2 >= 10 * w {
            lemma_digits_monotone((s1 / 10) as nat, (s2 / 10) as nat, 2 * p + 1, j);
        } else {
            lemma_digits_monotone(s1 as nat, s2 as nat, 2 * p, j);
        }
    }
}

/// A larger ratio has a larger logarithm.
proof fn lemma_log_steps_monotone(v1: nat, m1: nat, v2: nat, m2: nat)
    requires
        10 * m1 <= v1 < 10000 * m1,
        10 * m2 <= v2 < 10000 * m2,
        v1 * m2 <= v2 * m1,
    ensures
        log_steps(v1, m1) <= log_steps(v2, m2),
{
    let p1 = log_integer(v1, m1);
    let p2 = log_integer(v2, m2);
    assert(p1 <= p2) by {
        if v1 >= 1000 * m1 {
            assert(v2 >= 1000 * m2) by (nonlinear_arith)
                requires
                    v1 >= 1000 * m1,
                    v1 * m2 <= v2 * m1,
                    m1 > 0,
            ;
        } else if v1 >= 100 * m1 {
            assert(v2 >= 100 * m2) by (nonlinear_arith)
                requires
                    v1 >= 100 * m1,
                    v1 * m2 <= v2 * m1,
                    m1 > 0,
            ;
        }
    }
    lemma_log_steps(v1, m1);
    lemma_log_steps(v2, m2);
    if p1 < p2 {
        assert((p1 + 1) * LOG_STEPS <= p2 * LOG_STEPS);
    } else {
        lemma_log_start(v1, m1);
        lemma_log_start(v2, m2);
        let g = decade(p1) as int;
        let w = LOG_ONE as int;
        let a = v1 * w;
        let c = v2 * w;
        let b = m1 * g;
        let d = m2 * g;
        assert(a * d <= c * b) by (nonlinear_arith)
            requires
                a == v1 * w,
                c == v2 * w,
                b == m1 * g,
                d == m2 * g,
                v1 * m2 <= v2 * m1,
                w > 0,
                g > 0,
        {
            assert((v1 * m2) * (w * g) <= (v2 * m1) * (w * g));
        }
        assert(a >= 0 && b > 0 && c >= 0 && d > 0) by (nonlinear_arith)
            requires
                a == v1 * w,
                c == v2 * w,
                b == m1 * g,
                d == m2 * g,
                m1 > 0,
                m2 > 0,
                w > 0,
                g > 0,
        ;
        lemma_quotient_monotone(a, b, c, d);
        lemma_digits_monotone(log_fraction(v1, m1), log_fraction(v2, m2), p1, LOG_DIGITS as nat);
    }
}

/// Roots keep the order of their squares.
proof fn lemma_floor_sqrt_monotone(x1: nat, x2: nat)
    requires
        x1 <= x2,
    ensures
        floor_sqrt(x1) <= floor_sqrt(x2),
{
    lemma_floor_sqrt(x1);
    lemma_floor_sqrt(x2);
    let r1 = floor_sqrt(x1);
    let r2 = floor_sqrt(x2);
    if r2 < r1 {
        assert((r2 + 1) * (r2 + 1) <= r1 * r1) by (nonlinear_arith)
            requires
                r2 + 1 <= r1,
        ;
    }
}

/// A larger exponent has a larger power.
proof fn lemma_exp2_monotone(f1: nat, f2: nat, k: nat)
    requires
        f1 <= f2 < pow(2, k),
    ensures
        exp2_fraction(f1, k) <= exp2_fraction(f2, k),
    decreases k,
{
    if k > 0 {
        let one = MULTIPLIER_ONE as nat;
        let j = (k - 1) as nat;
        let half = pow(2, j) as nat;
        lemma_pow_positive(2, j);
        lemma_pow_adds(2, 1, j);
        lemma_pow1(2);
        let g1 = if f1 >= half { (f1 - half) as nat } else { f1 };
        let g2 = if f2 >= half { (f2 - half) as nat } else { f2 };
        let r1 = exp2_fraction(g1, j);
        let r2 = exp2_fraction(g2, j);
        lemma_exp2_fraction(g1, j);
        lemma_exp2_fraction(g2, j);
        let b1: nat = if f1 >= half { 2 } else { 1 };
        let b2: nat = if f2 >= half { 2 } else { 1 };
        if b1 == b2 {
            lemma_exp2_monotone(g1, g2, j);
        }
        assert(b1 * r1 <= b2 * r2);
        assert(b1 * one * r1 <= b2 * one * r2) by (nonlinear_arith)
            requires
                b1 * r1 <= b2 * r2,
        ;
        lemma_floor_sqrt_monotone(b1 * one * r1, b2 * one * r2);
    }
}

/// A larger ratio has a larger multiplier.
pub(crate) proof fn lemma_multiplier_monotone(v1: nat, m1: nat, v2: nat, m2: nat)
    requires
        10 * m1 <= v1 < 10000 * m1,
        10 * m2 <= v2 < 10000 * m2,
        v1 * m2 <= v2 * m1,
    ensures
        log_multiplier(v1, m1) <= log_multiplier(v2, m2),
{
    let q = LOG_STEPS as nat;
    let k = LOG_DIGITS as nat;
    lemma_constants();
    lemma_log_steps_monotone(v1, m1, v2, m2);
    lemma_log_steps(v1, m1);
    lemma_log_steps(v2, m2);
    let s1 = log_steps(v1, m1);
    let s2 = log_steps(v2, m2);
    lemma_exp2_fraction(s1 % q, k);
    lemma_exp2_fraction(s2 % q, k);
    let r1 = exp2_fraction(s1 % q, k);
    let r2 = exp2_fraction(s2 % q, k);
    let g1 = pow(2, s1 / q) as nat;
    let g2 = pow(2, s2 / q) as nat;
    if s1 / q == s2 / q {
        lemma_exp2_monotone(s1 % q, s2 % q, k);
        assert(r1 * g1 <= r2 * g1) by (nonlinear_arith)
            requires
                r1 <= r2,
        ;
    } else {
        assert(1 <= s1 / q < s2 / q <= 3);
        assert(r1 * g1 <= r2 * g2) by (nonlinear_arith)
            requires
                r1 <= 2 * r2,
                2 * g1 <= g2,
        ;
    }
}

/// The fraction one has no digits.
proof fn lemma_digits_of_one(p: nat, k: nat)
    ensures
        log_digits(LOG_ONE as nat, p, k) == p * pow(2, k),
    decreases k,
{
    if k == 0 {
        vstd::arithmetic::power::lemma_pow0(2);
    } else {
        let j = (k - 1) as nat;
        let one = LOG_ONE as nat;
        lemma_pow_adds(2, 1, j);
        lemma_pow1(2);
        assert((one * one) / one == one);
        lemma_digits_of_one(2 * p, j);
        assert((2 * p) * pow(2, j) == p * (2 * pow(2, j))) by (nonlinear_arith);
    }
}

/// Two to the power zero is one.
proof fn lemma_exp2_of_zero(k: nat)
    ensures
        exp2_fraction(0, k) == MULTIPLIER_ONE,
    decreases k,
{
    if k > 0 {
        let j = (k - 1) as nat;
        let one = MULTIPLIER_ONE as nat;
        lemma_pow_positive(2, j);
        lemma_exp2_of_zero(j);
        lemma_floor_sqrt(one * one);
        assert(one * one < (one + 1) * (one + 1)) by (nonlinear_arith);
        assert(is_floor_sqrt(one * one, one));
    }
}

/// At a power of ten the multiplier is the power of two with the same exponent, exactly.
pub(crate) proof fn lemma_multiplier_at_decade(m: nat, e: nat)
    requires
        m >= 1,
        1 <= e <= 3,
    ensures
        log_multiplier(decade(e) * m, m) == pow(2, e) * MULTIPLIER_ONE,
{
    let v = decade(e) * m;
    let q = LOG_STEPS as nat;
    lemma_constants();
    assert(log_integer(v, m) == e);
    let one = LOG_ONE as nat;
    let d = m * decade(e);
    assert(d > 0);
    assert(v * one == one * d) by (nonlinear_arith)
        requires
            v == decade(e) * m,
            d == m * decade(e),
    ;
    vstd::arithmetic::div_mod::lemma_div_by_multiple(one as int, d as int);
    assert(log_fraction(v, m) == one);
    lemma_digits_of_one(e, LOG_DIGITS as nat);
    assert(log_steps(v, m) == e * q);
    vstd::arithmetic::div_mod::lemma_fundamental_div_mod_converse(
        (e * q) as int,
        q as int,
        e as int,
        0,
    );
    assert(MULTIPLIER_ONE as nat * (pow(2, e) as nat) == pow(2, e) * MULTIPLIER_ONE);
    lemma_exp2_of_zero(LOG_DIGITS as nat);
}

} // verus!
