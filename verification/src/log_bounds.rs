//! How close the fixed-point multiplier comes to two to the power of a decimal logarithm.

use vstd::arithmetic::power::{
    lemma_pow1, lemma_pow_adds, lemma_pow_distributes, lemma_pow_positive, pow,
};
use vstd::prelude::*;

use crate::log_scale::{
    decade, exp2_fraction, exponent_within, floor_sqrt, is_floor_sqrt, log_digits, log_fraction,
    log_integer, log_steps, LOG_DIGITS, LOG_ONE, LOG_STEPS, MULTIPLIER_ONE,
};
use crate::powers::{lemma_pow_base_monotone, lemma_pow_square, lemma_square_pow};

verus! {

/// What holds of the fraction `y` and the digits `p` once the ratio `v / m` has been raised
/// to the power `q`: `10^p * y` is at most that power, and short of it by at most `2q - 1`
/// roundings.
pub open spec fn log_state(v: nat, m: nat, q: nat, p: nat, y: nat) -> bool {
    let one = LOG_ONE as int;
    &&& one <= y < 10 * one
    &&& pow(10, p) * pow(m as int, q) * y <= pow(v as int, q) * one
    &&& pow(v as int, q) * one * pow(one - 1, (2 * q - 1) as nat) <= pow(10, p) * pow(m as int, q)
        * y * pow(one, (2 * q - 1) as nat)
}

/// One rounding of a quotient that is at least `w` loses at most the share `1 / w` of it.
proof fn lemma_rounding_share(x: int, d: int, w: int)
    requires
        d > 0,
        w > 0,
        x >= w * d,
    ensures
        x / d >= w,
        x * (w - 1) <= (x / d) * d * w,
{
    let z = x / d;
    vstd::arithmetic::div_mod::lemma_fundamental_div_mod(x, d);
    assert(z >= w) by {
        vstd::arithmetic::div_mod::lemma_div_is_ordered(w * d, x, d);
        vstd::arithmetic::div_mod::lemma_div_by_multiple(w, d);
    }
    let r = x % d;
    assert(x * (w - 1) <= z * d * w) by (nonlinear_arith)
        requires
            x == d * z + r,
            0 <= r < d,
            z >= w,
            w > 0,
            d > 0,
    ;
}

/// Squaring the state of the logarithm, in terms of the numbers that it relates.
proof fn lemma_square_state(x: int, t: int, c: int, d: int, y: int, z: int, k: int, w: int)
    requires
        x >= 0,
        t >= 0,
        c >= 0,
        d >= 0,
        y >= 0,
        z >= 0,
        k > 0,
        w > 0,
        t * y <= x * w,
        x * w * c <= t * y * d,
        z * (k * w) <= y * y,
        y * y * (w - 1) <= z * (k * w) * w,
    ensures
        (t * t * k) * z <= (x * x) * w,
        (x * x) * w * (c * c * (w - 1)) <= (t * t * k) * z * (d * d * w),
{
    let tt = t * t;
    assert(tt * (z * (k * w)) <= tt * (y * y)) by (nonlinear_arith)
        requires
            tt == t * t,
            z * (k * w) <= y * y,
    ;
    assert((t * y) * (t * y) <= (x * w) * (x * w)) by (nonlinear_arith)
        requires
            0 <= t * y <= x * w,
    ;
    assert(tt * (y * y) == (t * y) * (t * y)) by (nonlinear_arith)
        requires
            tt == t * t,
    ;
    assert(((tt * k) * z) * w <= ((x * x) * w) * w) by (nonlinear_arith)
        requires
            tt * (z * (k * w)) <= (x * w) * (x * w),
    ;
    assert((tt * k) * z <= (x * x) * w) by (nonlinear_arith)
        requires
            ((tt * k) * z) * w <= ((x * x) * w) * w,
            w > 0,
    ;
    let l = x * w * c;
    let u = t * y * d;
    assert(0 <= l) by (nonlinear_arith)
        requires
            l == x * w * c,
            x >= 0,
            w > 0,
            c >= 0,
    ;
    assert(l * l <= u * u) by (nonlinear_arith)
        requires
            0 <= l <= u,
    ;
    assert(l * l * (w - 1) <= u * u * (w - 1)) by (nonlinear_arith)
        requires
            l * l <= u * u,
            w >= 1,
    ;
    let td = tt * (d * d);
    assert(td >= 0) by (nonlinear_arith)
        requires
            td == tt * (d * d),
            tt == t * t,
    ;
    assert(u * u * (w - 1) == td * (y * y * (w - 1))) by (nonlinear_arith)
        requires
            u == t * y * d,
            td == tt * (d * d),
            tt == t * t,
    ;
    assert(td * (y * y * (w - 1)) <= td * (z * (k * w) * w)) by (nonlinear_arith)
        requires
            y * y * (w - 1) <= z * (k * w) * w,
            td >= 0,
    ;
    let left = (x * x) * w * (c * c * (w - 1));
    let right = (tt * k) * z * (d * d * w);
    assert(l * l * (w - 1) == left * w) by (nonlinear_arith)
        requires
            l == x * w * c,
            left == (x * x) * w * (c * c * (w - 1)),
    ;
    assert(td * (z * (k * w) * w) == right * w) by (nonlinear_arith)
        requires
            td == tt * (d * d),
            right == (tt * k) * z * (d * d * w),
    ;
    assert(left <= right) by (nonlinear_arith)
        requires
            left * w <= right * w,
            w > 0,
    ;
}

/// The fraction stays between one and ten.
pub(crate) proof fn lemma_fraction_range(y: nat)
    requires
        LOG_ONE <= y < 10 * LOG_ONE,
    ensures
        ({
            let s = (y * y) / (LOG_ONE as nat);
            let z = if s >= 10 * LOG_ONE { s / 10 } else { s };
            &&& LOG_ONE <= z < 10 * LOG_ONE
            &&& LOG_ONE * LOG_ONE <= y * y < 100 * (LOG_ONE * LOG_ONE)
        }),
{
    let w = LOG_ONE as int;
    let yy = (y * y) as int;
    let s = yy / w;
    assert(w * w <= yy < 100 * (w * w)) by (nonlinear_arith)
        requires
            yy == y * y,
            w <= y < 10 * w,
            w > 0,
    ;
    vstd::arithmetic::div_mod::lemma_fundamental_div_mod(yy, w);
    assert(w <= s < 100 * w) by (nonlinear_arith)
        requires
            w * w <= yy < 100 * (w * w),
            yy == w * s + yy % w,
            0 <= yy % w < w,
            w > 0,
    ;
}

/// One more digit of the logarithm.
pub(crate) proof fn lemma_log_step(v: nat, m: nat, q: nat, p: nat, y: nat)
    requires
        q >= 1,
        log_state(v, m, q, p, y),
    ensures
        ({
            let s = (y * y) / (LOG_ONE as nat);
            if s >= 10 * LOG_ONE {
                log_state(v, m, 2 * q, 2 * p + 1, s / 10)
            } else {
                log_state(v, m, 2 * q, 2 * p, s)
            }
        }),
{
    let w = LOG_ONE as int;
    let yy = (y * y) as int;
    let s = yy / w;
    let big = s >= 10 * w;
    let k: int = if big { 10 } else { 1 };
    let z = if big { s / 10 } else { s };
    lemma_fraction_range(y);
    vstd::arithmetic::div_mod::lemma_div_denominator(yy, w, 10);
    assert(z == yy / (k * w)) by {
        assert(w * 10 == 10 * w);
        assert(1 * w == w);
    }
    assert(yy >= w * (k * w)) by {
        if big {
            vstd::arithmetic::div_mod::lemma_fundamental_div_mod(yy, w);
            assert(yy >= w * (10 * w)) by (nonlinear_arith)
                requires
                    yy == w * s + yy % w,
                    yy % w >= 0,
                    s >= 10 * w,
                    w > 0,
            ;
        }
    }
    lemma_rounding_share(yy, k * w, w);
    vstd::arithmetic::div_mod::lemma_fundamental_div_mod(yy, k * w);
    assert(z * (k * w) <= yy) by (nonlinear_arith)
        requires
            yy == (k * w) * z + yy % (k * w),
            yy % (k * w) >= 0,
    ;
    let vq = pow(v as int, q);
    let t = pow(10, p) * pow(m as int, q);
    let e = (2 * q - 1) as nat;
    let c = pow(w - 1, e);
    let d = pow(w, e);
    lemma_pow_base_monotone(0, v as int, q);
    lemma_pow_base_monotone(v as int, v as int, q);
    lemma_pow_base_monotone(m as int, m as int, q);
    lemma_pow_positive(10, p);
    lemma_pow_positive(w - 1, e);
    lemma_pow_positive(w, e);
    assert(t >= 0) by (nonlinear_arith)
        requires
            t == pow(10, p) * pow(m as int, q),
            pow(10, p) > 0,
            pow(m as int, q) >= 0,
    ;
    assert(yy * (w - 1) <= z * (k * w) * w);
    lemma_square_state(vq, t, c, d, y as int, z, k, w);
    // The squares are the powers of the next state.
    lemma_pow_square(v as int, q);
    lemma_pow_square(m as int, q);
    lemma_pow_square(10, p);
    lemma_pow_adds(10, 2 * p, 1);
    lemma_pow1(10);
    lemma_pow_square(w - 1, e);
    lemma_pow_square(w, e);
    lemma_pow_adds(w - 1, 2 * e, 1);
    lemma_pow_adds(w, 2 * e, 1);
    lemma_pow1(w - 1);
    lemma_pow1(w);
    let p2: nat = if big { 2 * p + 1 } else { 2 * p };
    assert(2 * e + 1 == (2 * (2 * q) - 1) as nat);
    let a = pow(10, p);
    let b = pow(m as int, q);
    assert(t * t * k == pow(10, p2) * pow(m as int, 2 * q)) by {
        assert((a * b) * (a * b) * k == ((a * a) * k) * (b * b)) by (nonlinear_arith);
    }
}

/// What holds of the digits `p` as a logarithm of `v / m` in steps of `1 / q`: it is not too
/// large, and short of the logarithm by at most one step and two roundings.
pub open spec fn log_within(v: nat, m: nat, q: nat, p: nat) -> bool {
    let one = LOG_ONE as int;
    &&& exponent_within(p, q, v, m)
    &&& pow(v as int, q) * pow(one - 1, 2 * q) <= 10 * (pow(10, p) * pow(m as int, q)) * pow(
        one,
        2 * q,
    )
}

/// The digits of a state are a logarithm.
proof fn lemma_log_state_within(v: nat, m: nat, q: nat, p: nat, y: nat)
    requires
        q >= 1,
        log_state(v, m, q, p, y),
    ensures
        log_within(v, m, q, p),
{
    let w = LOG_ONE as int;
    let x = pow(v as int, q);
    let t = pow(10, p) * pow(m as int, q);
    let e = (2 * q - 1) as nat;
    let c = pow(w - 1, e);
    let d = pow(w, e);
    lemma_pow_base_monotone(v as int, v as int, q);
    lemma_pow_base_monotone(m as int, m as int, q);
    lemma_pow_positive(10, p);
    lemma_pow_positive(w - 1, e);
    lemma_pow_positive(w, e);
    assert(t >= 0) by (nonlinear_arith)
        requires
            t == pow(10, p) * pow(m as int, q),
            pow(10, p) > 0,
            pow(m as int, q) >= 0,
    ;
    assert(t <= x) by (nonlinear_arith)
        requires
            t * y <= x * w,
            y >= w,
            w > 0,
            t >= 0,
    ;
    let td = t * d;
    assert(td >= 0) by (nonlinear_arith)
        requires
            td == t * d,
            t >= 0,
            d >= 0,
    ;
    assert(t * y * d == td * y) by (nonlinear_arith)
        requires
            td == t * d,
    ;
    assert(td * y <= td * (10 * w)) by (nonlinear_arith)
        requires
            td >= 0,
            y <= 10 * w,
    ;
    let xc = x * c;
    assert(xc >= 0) by (nonlinear_arith)
        requires
            xc == x * c,
            x >= 0,
            c >= 0,
    ;
    assert(x * w * c == xc * w) by (nonlinear_arith)
        requires
            xc == x * c,
    ;
    assert(xc <= 10 * td) by (nonlinear_arith)
        requires
            xc * w <= td * (10 * w),
            w > 0,
    ;
    assert(xc * (w - 1) <= (10 * td) * w) by (nonlinear_arith)
        requires
            0 <= xc <= 10 * td,
            w > 0,
    ;
    lemma_pow_adds(w - 1, e, 1);
    lemma_pow_adds(w, e, 1);
    lemma_pow1(w - 1);
    lemma_pow1(w);
    assert(e + 1 == 2 * q);
    assert(x * (c * (w - 1)) == xc * (w - 1)) by (nonlinear_arith)
        requires
            xc == x * c,
    ;
    assert(10 * t * (d * w) == (10 * td) * w) by (nonlinear_arith)
        requires
            td == t * d,
    ;
}

/// The digits that a state leads to are a logarithm too, and stay within the unit that the
/// digits so far stand for.
pub(crate) proof fn lemma_log_digits(v: nat, m: nat, q: nat, p: nat, y: nat, k: nat)
    requires
        q >= 1,
        log_state(v, m, q, p, y),
    ensures
        log_within(v, m, q * pow(2, k) as nat, log_digits(y, p, k)),
        p * pow(2, k) <= log_digits(y, p, k) < (p + 1) * pow(2, k),
    decreases k,
{
    if k == 0 {
        vstd::arithmetic::power::lemma_pow0(2);
        lemma_log_state_within(v, m, q, p, y);
        assert(q * (1int as nat) == q);
    } else {
        lemma_log_step(v, m, q, p, y);
        let j = (k - 1) as nat;
        let s = (y * y) / (LOG_ONE as nat);
        let a = pow(2, j);
        lemma_pow_positive(2, j);
        lemma_pow_adds(2, 1, j);
        lemma_pow1(2);
        assert(pow(2, k) == 2 * a);
        assert((2 * q) * (a as nat) == q * ((2 * a) as nat)) by (nonlinear_arith)
            requires
                a > 0,
        ;
        if s >= 10 * LOG_ONE {
            lemma_log_digits(v, m, 2 * q, 2 * p + 1, s / 10, j);
            assert(p * (2 * a) <= (2 * p + 1) * a) by (nonlinear_arith)
                requires
                    a > 0,
            ;
            assert((2 * p + 1 + 1) * a == (p + 1) * (2 * a)) by (nonlinear_arith);
        } else {
            lemma_log_digits(v, m, 2 * q, 2 * p, s, j);
            assert(p * (2 * a) == (2 * p) * a) by (nonlinear_arith);
            assert((2 * p + 1) * a <= (p + 1) * (2 * a)) by (nonlinear_arith)
                requires
                    a > 0,
            ;
        }
    }
}

/// The powers of two and ten that the constants stand for.
pub(crate) proof fn lemma_constants()
    ensures
        pow(2, LOG_DIGITS as nat) == LOG_STEPS,
        pow(10, 1) == 10,
        pow(10, 2) == 100,
        pow(10, 3) == 1000,
        pow(10, 4) == 10000,
        pow(2, 0) == 1,
        pow(2, 1) == 2,
        pow(2, 2) == 4,
        pow(2, 3) == 8,
        pow(2, 4) == 16,
{
    vstd::arithmetic::power2::lemma2_to64();
    vstd::arithmetic::power2::lemma2_to64_rest();
    vstd::arithmetic::power2::lemma_pow2(56);
    reveal(pow);
    reveal_with_fuel(pow, 6);
}

/// The ratio that the digits start from.
pub(crate) proof fn lemma_log_start(v: nat, m: nat)
    requires
        10 * m <= v < 10000 * m,
    ensures
        log_state(v, m, 1, log_integer(v, m), log_fraction(v, m)),
{
    let w = LOG_ONE as int;
    let p = log_integer(v, m);
    let g = decade(p) as int;
    let d = m * g;
    let y = log_fraction(v, m) as int;
    lemma_constants();
    assert(pow(10, p) == g);
    lemma_pow1(m as int);
    lemma_pow1(v as int);
    lemma_pow1(w);
    lemma_pow1(w - 1);
    assert(d <= v < 10 * d) by {
        if p == 3 {
            assert(d == 1000 * m);
        } else if p == 2 {
            assert(d == 100 * m);
        } else {
            assert(d == 10 * m);
        }
    }
    let x = v * w;
    assert(x >= w * d && x < (10 * w) * d) by (nonlinear_arith)
        requires
            x == v * w,
            d <= v < 10 * d,
            w > 0,
    ;
    lemma_rounding_share(x, d, w);
    vstd::arithmetic::div_mod::lemma_fundamental_div_mod(x, d);
    assert(y == x / d);
    assert(y * d <= x) by (nonlinear_arith)
        requires
            x == d * y + x % d,
            x % d >= 0,
    ;
    assert(y < 10 * w) by (nonlinear_arith)
        requires
            y * d <= x,
            x < (10 * w) * d,
            d > 0,
    ;
    assert(g * m * y == y * d) by (nonlinear_arith)
        requires
            d == m * g,
    ;
    assert(v * w * (w - 1) <= g * m * y * w) by {
        assert(g * m * y * w == y * d * w);
    }
}

/// The steps of the logarithm are right to within one step and two roundings.
pub(crate) proof fn lemma_log_steps(v: nat, m: nat)
    requires
        10 * m <= v < 10000 * m,
    ensures
        log_within(v, m, LOG_STEPS as nat, log_steps(v, m)),
        log_integer(v, m) * LOG_STEPS <= log_steps(v, m) < (log_integer(v, m) + 1) * LOG_STEPS,
{
    lemma_constants();
    lemma_log_start(v, m);
    lemma_log_digits(
        v,
        m,
        1,
        log_integer(v, m),
        log_fraction(v, m),
        LOG_DIGITS as nat,
    );
}

/// Every number has a square root rounded down.
proof fn lemma_floor_sqrt_exists(x: nat) -> (r: nat)
    ensures
        is_floor_sqrt(x, r),
    decreases x,
{
    if x == 0 {
        let r: nat = 0;
        assert(r * r == 0 && (r + 1) * (r + 1) == 1) by (nonlinear_arith)
            requires
                r == 0,
        ;
        r
    } else {
        let r = lemma_floor_sqrt_exists((x - 1) as nat);
        assert((r + 1) * (r + 1) < (r + 2) * (r + 2)) by (nonlinear_arith);
        if x < (r + 1) * (r + 1) {
            r
        } else {
            r + 1
        }
    }
}

/// The square root rounded down is one, and nothing else is.
pub(crate) proof fn lemma_floor_sqrt(x: nat)
    ensures
        is_floor_sqrt(x, floor_sqrt(x)),
        forall|r: nat| is_floor_sqrt(x, r) ==> r == floor_sqrt(x),
{
    let r0 = lemma_floor_sqrt_exists(x);
    assert(is_floor_sqrt(x, floor_sqrt(x)));
    let s = floor_sqrt(x);
    assert forall|r: nat| is_floor_sqrt(x, r) implies r == s by {
        if r < s {
            assert((r + 1) * (r + 1) <= s * s) by (nonlinear_arith)
                requires
                    r + 1 <= s,
            ;
        } else if s < r {
            assert((s + 1) * (s + 1) <= r * r) by (nonlinear_arith)
                requires
                    s + 1 <= r,
            ;
        }
    }
}

/// What holds of `r` as two to the power `f / q`: it is not too large, and short of that
/// power by at most `e` roundings in its power `q`.
pub open spec fn exp2_state(f: nat, q: nat, e: nat, r: nat) -> bool {
    let one = MULTIPLIER_ONE as int;
    &&& one <= r < 2 * one
    &&& pow(r as int, q) <= pow(2, f) * pow(one, q)
    &&& pow(2, f) * pow(one, q) * pow(one - 1, e) <= pow(r as int, q) * pow(one, e)
}

/// One square root of the power of two.
pub(crate) proof fn lemma_exp2_step(f: nat, q: nat, e: nat, s: nat, bit: bool, r: nat)
    requires
        q >= 1,
        exp2_state(f, q, e, s),
        is_floor_sqrt((if bit { 2nat } else { 1nat }) * MULTIPLIER_ONE as nat * s, r),
    ensures
        exp2_state(if bit { f + q } else { f }, 2 * q, e + 2 * q, r),
{
    let one = MULTIPLIER_ONE as int;
    let b: int = if bit { 2 } else { 1 };
    let x = b * one * s;
    let f2: nat = if bit { f + q } else { f };
    assert(one * one <= x < 4 * (one * one)) by (nonlinear_arith)
        requires
            x == b * one * s,
            1 <= b <= 2,
            one <= s < 2 * one,
            one > 0,
    ;
    let ri = r as int;
    assert(one <= ri) by (nonlinear_arith)
        requires
            one * one < (ri + 1) * (ri + 1),
            one > 0,
            ri >= 0,
    ;
    assert(ri < 2 * one) by (nonlinear_arith)
        requires
            ri * ri < 4 * (one * one),
            one > 0,
            ri >= 0,
    ;
    // `x` to the power `q` is the product of its three factors' powers.
    let bq = pow(b, q);
    let oq = pow(one, q);
    let sq = pow(s as int, q);
    lemma_pow_distributes(b * one, s as int, q);
    lemma_pow_distributes(b, one, q);
    assert(pow(x, q) == bq * oq * sq);
    lemma_pow_positive(b, q);
    lemma_pow_positive(one, q);
    lemma_pow_positive(s as int, q);
    let t = pow(2, f);
    lemma_pow_positive(2, f);
    lemma_pow_adds(2, f, q);
    assert(pow(2, f2) == t * bq) by {
        if !bit {
            vstd::arithmetic::power::lemma1_pow(q);
        }
    }
    lemma_pow_square(one, q);
    // Not too large.
    lemma_pow_base_monotone(ri * ri, x, q);
    lemma_square_pow(ri, q);
    assert(bq * oq * sq <= (t * bq) * (oq * oq)) by (nonlinear_arith)
        requires
            sq <= t * oq,
            bq > 0,
            oq > 0,
    ;
    // Not too small: one rounding of the root is two of its square.
    let lo = one - 1;
    assert((ri + 1) * lo <= ri * one) by (nonlinear_arith)
        requires
            lo == one - 1,
            ri >= one,
    ;
    assert(x * (lo * lo) <= (ri * one) * (ri * one)) by (nonlinear_arith)
        requires
            0 <= x <= (ri + 1) * (ri + 1),
            0 <= (ri + 1) * lo <= ri * one,
    ;
    lemma_pow_base_monotone(x * (lo * lo), (ri * one) * (ri * one), q);
    lemma_pow_distributes(x, lo * lo, q);
    lemma_square_pow(lo, q);
    lemma_square_pow(ri * one, q);
    lemma_pow_distributes(ri, one, 2 * q);
    let lq = pow(lo, 2 * q);
    let rq = pow(ri, 2 * q);
    let o2 = pow(one, 2 * q);
    assert(bq * oq * sq * lq <= rq * o2);
    let le = pow(lo, e);
    let oe = pow(one, e);
    lemma_pow_positive(lo, e);
    lemma_pow_positive(one, e);
    lemma_pow_positive(lo, 2 * q);
    lemma_pow_adds(lo, e, 2 * q);
    lemma_pow_adds(one, e, 2 * q);
    let g = bq * oq * lq;
    assert(g > 0) by (nonlinear_arith)
        requires
            g == bq * oq * lq,
            bq > 0,
            oq > 0,
            lq > 0,
    ;
    assert((t * oq * le) * g <= (sq * oe) * g) by (nonlinear_arith)
        requires
            t * oq * le <= sq * oe,
            g > 0,
    ;
    assert((sq * oe) * g == (bq * oq * sq * lq) * oe) by (nonlinear_arith)
        requires
            g == bq * oq * lq,
    ;
    assert((bq * oq * sq * lq) * oe <= (rq * o2) * oe) by (nonlinear_arith)
        requires
            bq * oq * sq * lq <= rq * o2,
            oe > 0,
    ;
    assert((t * oq * le) * g == (t * bq) * (oq * oq) * (le * lq)) by (nonlinear_arith)
        requires
            g == bq * oq * lq,
    ;
    assert((rq * o2) * oe == rq * (oe * o2)) by (nonlinear_arith);
}

/// The power of two is right to within two roundings.
pub(crate) proof fn lemma_exp2_fraction(f: nat, k: nat)
    requires
        f < pow(2, k),
    ensures
        exp2_state(f, pow(2, k) as nat, (2 * pow(2, k) - 2) as nat, exp2_fraction(f, k)),
    decreases k,
{
    let one = MULTIPLIER_ONE as int;
    if k == 0 {
        vstd::arithmetic::power::lemma_pow0(2);
        vstd::arithmetic::power::lemma_pow0(one);
        vstd::arithmetic::power::lemma_pow0(one - 1);
        lemma_pow1(one);
    } else {
        let j = (k - 1) as nat;
        let half = pow(2, j) as nat;
        lemma_pow_positive(2, j);
        lemma_pow_adds(2, 1, j);
        lemma_pow1(2);
        assert(pow(2, k) == 2 * half);
        let bit = f >= half;
        let rest = if bit { (f - half) as nat } else { f };
        lemma_exp2_fraction(rest, j);
        let s = exp2_fraction(rest, j);
        lemma_floor_sqrt((if bit { 2nat } else { 1nat }) * MULTIPLIER_ONE as nat * s);
        lemma_exp2_step(
            rest,
            half,
            (2 * half - 2) as nat,
            s,
            bit,
            exp2_fraction(f, k),
        );
    }
}

} // verus!
