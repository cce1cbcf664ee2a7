//! The multiplier against two to the power of the decimal logarithm itself.

use vstd::arithmetic::power::{
    lemma_pow_adds, lemma_pow_distributes, lemma_pow_multiplies, lemma_pow_positive, pow,
};
use vstd::prelude::*;

use crate::log_bounds::{
    exp2_state, lemma_constants, lemma_exp2_fraction, lemma_log_steps, log_within,
};
use crate::log_scale::{
    exp2_fraction, exponent_within, log_integer, log_multiplier, log_steps, LOG_DIGITS, LOG_ONE,
    LOG_STEPS, MULTIPLIER_ONE,
};
use crate::powers::{
    lemma_decay_by_half, lemma_pow_base_monotone, lemma_pow_exponent_monotone, lemma_pow_root,
};

verus! {

/// The relative accuracy of the multiplier is one part in this many: two to the power 53.
pub const ACCURACY: u128 = 9007199254740992;

/// What holds of the multiplier as a power of two whose exponent is the rounded logarithm.
proof fn lemma_multiplier_steps(v: nat, m: nat)
    requires
        10 * m <= v < 10000 * m,
    ensures
        ({
            let one = MULTIPLIER_ONE as int;
            let q = LOG_STEPS as nat;
            let p = log_steps(v, m);
            let mult = log_multiplier(v, m) as int;
            &&& pow(2, log_integer(v, m)) * one <= mult < 2 * pow(2, log_integer(v, m)) * one
            &&& pow(mult, q) <= pow(2, p) * pow(one, q)
            &&& pow(2, p) * pow(one, q) * pow(one - 1, 2 * q) <= pow(mult, q) * pow(one, 2 * q)
        }),
{
    let one = MULTIPLIER_ONE as int;
    let q = LOG_STEPS as nat;
    let p = log_steps(v, m);
    let i = log_integer(v, m);
    lemma_log_steps(v, m);
    lemma_constants();
    assert(p / q == i && p % q == p - i * q) by {
        vstd::arithmetic::div_mod::lemma_fundamental_div_mod_converse(
            p as int,
            q as int,
            i as int,
            p - i * q,
        );
    }
    let f = p % q;
    let r = exp2_fraction(f, LOG_DIGITS as nat);
    lemma_exp2_fraction(f, LOG_DIGITS as nat);
    let e = (2 * q - 2) as nat;
    assert(exp2_state(f, q, e, r));
    let g = pow(2, i);
    lemma_pow_positive(2, i);
    let mult = log_multiplier(v, m) as int;
    assert(mult == r * g);
    assert(g * one <= r * g < 2 * g * one) by (nonlinear_arith)
        requires
            g > 0,
            one <= r < 2 * one,
    ;
    let ri = r as int;
    lemma_pow_distributes(ri, g, q);
    lemma_pow_multiplies(2, i, q);
    lemma_pow_adds(2, i * q, f);
    let gq = pow(g, q);
    assert(pow(2, p) == gq * pow(2, f)) by {
        assert(i * q + f == p);
    }
    let rq = pow(ri, q);
    let oq = pow(one, q);
    let tf = pow(2, f);
    lemma_pow_positive(g, q);
    assert(rq * gq <= (gq * tf) * oq) by (nonlinear_arith)
        requires
            rq <= tf * oq,
            gq > 0,
    ;
    let le = pow(one - 1, e);
    let oe = pow(one, e);
    lemma_pow_positive(one - 1, e);
    lemma_pow_positive(one, e);
    lemma_pow_positive(one - 1, 2);
    lemma_pow_positive(one, 2);
    lemma_pow_positive(ri, q);
    lemma_pow_adds(one - 1, e, 2);
    lemma_pow_adds(one, e, 2);
    lemma_pow_base_monotone(one - 1, one, 2);
    let l2 = pow(one - 1, 2);
    let o2 = pow(one, 2);
    let a = tf * oq * le;
    lemma_pow_positive(2, f);
    lemma_pow_positive(one, q);
    assert(a > 0) by (nonlinear_arith)
        requires
            a == tf * oq * le,
            tf > 0,
            oq > 0,
            le > 0,
    ;
    assert(a * l2 <= (rq * oe) * o2) by (nonlinear_arith)
        requires
            0 < a <= rq * oe,
            0 < l2 <= o2,
    ;
    assert((gq * tf) * oq * (le * l2) == gq * (a * l2)) by (nonlinear_arith)
        requires
            a == tf * oq * le,
    ;
    assert((rq * gq) * (oe * o2) == gq * ((rq * oe) * o2)) by (nonlinear_arith);
    assert(gq * (a * l2) <= gq * ((rq * oe) * o2)) by (nonlinear_arith)
        requires
            a * l2 <= (rq * oe) * o2,
            gq > 0,
    ;
    assert(e + 2 == 2 * q);
}

/// An inequality between powers of ten carries over to the same powers of two.
proof fn lemma_base_change(a: nat, b: nat, c: int, d: int)
    requires
        0 < c <= d,
        pow(10, a) * c <= pow(10, b) * d,
    ensures
        pow(2, a) * c <= pow(2, b) * d,
{
    lemma_pow_positive(2, a);
    lemma_pow_positive(2, b);
    lemma_pow_positive(10, b);
    if a <= b {
        lemma_pow_exponent_monotone(2, a, b);
        let x = pow(2, a);
        let y = pow(2, b);
        assert(x * c <= y * d) by (nonlinear_arith)
            requires
                0 < x <= y,
                0 < c <= d,
        ;
    } else {
        let n = (a - b) as nat;
        lemma_pow_adds(10, b, n);
        lemma_pow_adds(2, b, n);
        lemma_pow_base_monotone(2, 10, n);
        let t = pow(10, b);
        let u = pow(10, n);
        let y = pow(2, b);
        let x = pow(2, n);
        assert(u * c <= d) by (nonlinear_arith)
            requires
                (t * u) * c <= t * d,
                t > 0,
        ;
        assert((y * x) * c <= y * d) by (nonlinear_arith)
            requires
                u * c <= d,
                0 <= x <= u,
                y > 0,
                c > 0,
        ;
    }
}

/// The power of a product of three.
proof fn lemma_pow_distributes3(a: int, b: int, c: int, e: nat)
    ensures
        pow(a * b * c, e) == pow(a, e) * pow(b, e) * pow(c, e),
{
    lemma_pow_distributes(a * b, c, e);
    lemma_pow_distributes(a, b, e);
}

/// A rational exponent `p2 / q2` within the logarithm is at most one step and two roundings
/// above the rounded logarithm `p / q`, carried over to powers of two.
proof fn lemma_exponent_carried(v: nat, m: nat, p: nat, q: nat, p2: nat, q2: nat)
    requires
        m >= 1,
        q >= 1,
        log_within(v, m, q, p),
        exponent_within(p2, q2, v, m),
    ensures
        ({
            let w = LOG_ONE as int;
            let n = q * q2;
            pow(2, p2 * q) * pow(w - 1, 2 * n) <= pow(2, (p + 1) * q2) * pow(w, 2 * n)
        }),
{
    let w = LOG_ONE as int;
    let n = q * q2;
    let mi = m as int;
    let vi = v as int;
    assert(q2 * q == n) by (nonlinear_arith)
        requires
            n == q * q2,
    ;
    assert((2 * q) * q2 == 2 * n) by (nonlinear_arith)
        requires
            n == q * q2,
    ;
    // The given exponent, to the power `q`.
    let t2 = pow(10, p2);
    lemma_pow_positive(10, p2);
    lemma_pow_positive(mi, q2);
    assert(0 <= t2 * pow(mi, q2)) by (nonlinear_arith)
        requires
            t2 > 0,
            pow(mi, q2) > 0,
    ;
    lemma_pow_base_monotone(t2 * pow(mi, q2), pow(vi, q2), q);
    lemma_pow_distributes(t2, pow(mi, q2), q);
    lemma_pow_multiplies(10, p2, q);
    lemma_pow_multiplies(mi, q2, q);
    lemma_pow_multiplies(vi, q2, q);
    let a = p2 * q;
    let mn = pow(mi, n);
    let vn = pow(vi, n);
    assert(pow(10, a) * mn <= vn);
    // The rounded exponent, to the power `q2`.
    let t = pow(10, p);
    let mq = pow(mi, q);
    let vq = pow(vi, q);
    let l = pow(w - 1, 2 * q);
    let u = pow(w, 2 * q);
    lemma_pow_adds(10, 1, p);
    vstd::arithmetic::power::lemma_pow1(10);
    let t1 = pow(10, p + 1);
    assert(t1 == 10 * t);
    assert(10 * (t * mq) * u == t1 * mq * u) by (nonlinear_arith)
        requires
            t1 == 10 * t,
    ;
    lemma_pow_base_monotone(vi, vi, q);
    lemma_pow_positive(w - 1, 2 * q);
    assert(0 <= vq * l) by (nonlinear_arith)
        requires
            vq >= 0,
            l > 0,
    ;
    lemma_pow_base_monotone(vq * l, t1 * mq * u, q2);
    lemma_pow_distributes(vq, l, q2);
    lemma_pow_distributes3(t1, mq, u, q2);
    lemma_pow_multiplies(vi, q, q2);
    lemma_pow_multiplies(w - 1, 2 * q, q2);
    lemma_pow_multiplies(10, p + 1, q2);
    lemma_pow_multiplies(mi, q, q2);
    lemma_pow_multiplies(w, 2 * q, q2);
    let b = (p + 1) * q2;
    let ln = pow(w - 1, 2 * n);
    let un = pow(w, 2 * n);
    assert(vn * ln <= pow(10, b) * mn * un);
    // Together, without the denominator.
    lemma_pow_positive(mi, n);
    lemma_pow_positive(w - 1, 2 * n);
    lemma_pow_base_monotone(w - 1, w, 2 * n);
    let ta = pow(10, a);
    let tb = pow(10, b);
    assert(ta * ln <= tb * un) by (nonlinear_arith)
        requires
            ta * mn <= vn,
            vn * ln <= tb * mn * un,
            mn > 0,
            ln > 0,
    ;
    lemma_base_change(a, b, ln, un);
}

/// The multiplier is at least every power of two within the logarithm, but for one part in
/// `ACCURACY`.
pub(crate) proof fn lemma_multiplier_not_small(v: nat, m: nat, p2: nat, q2: nat)
    requires
        10 * m <= v < 10000 * m,
        q2 >= 1,
        exponent_within(p2, q2, v, m),
    ensures
        pow(2, p2) * pow((ACCURACY - 1) * MULTIPLIER_ONE, q2) <= pow(
            log_multiplier(v, m) * ACCURACY as int,
            q2,
        ),
{
    let w = LOG_ONE as int;
    let one = MULTIPLIER_ONE as int;
    let acc = ACCURACY as int;
    let q = LOG_STEPS as nat;
    let qi = q as int;
    let p = log_steps(v, m);
    let n = q * q2;
    let mult = log_multiplier(v, m) as int;
    lemma_log_steps(v, m);
    lemma_multiplier_steps(v, m);
    lemma_exponent_carried(v, m, p, q, p2, q2);
    assert((2 * q) * q2 == 2 * n) by (nonlinear_arith)
        requires
            n == q * q2,
    ;
    let ln = pow(w - 1, 2 * n);
    let un = pow(w, 2 * n);
    let a2 = pow(2, p2 * q);
    let b2 = pow(2, (p + 1) * q2);
    assert(a2 * ln <= b2 * un);
    // The multiplier, to the power `q2`.
    let tp = pow(2, p);
    let oq = pow(one, q);
    let le = pow(one - 1, 2 * q);
    let oe = pow(one, 2 * q);
    let mq = pow(mult, q);
    lemma_pow_positive(2, p);
    lemma_pow_positive(one, q);
    lemma_pow_positive(one - 1, 2 * q);
    assert(0 <= tp * oq * le) by (nonlinear_arith)
        requires
            tp > 0,
            oq > 0,
            le > 0,
    ;
    lemma_pow_base_monotone(tp * oq * le, mq * oe, q2);
    lemma_pow_distributes3(tp, oq, le, q2);
    lemma_pow_distributes(mq, oe, q2);
    lemma_pow_multiplies(2, p, q2);
    lemma_pow_multiplies(one, q, q2);
    lemma_pow_multiplies(one - 1, 2 * q, q2);
    lemma_pow_multiplies(mult, q, q2);
    lemma_pow_multiplies(one, 2 * q, q2);
    let tn = pow(2, p * q2);
    let on = pow(one, n);
    let oln = pow(one - 1, 2 * n);
    let o2n = pow(one, 2 * n);
    let mn = pow(mult, n);
    assert(tn * on * oln <= mn * o2n);
    // One step of the logarithm.
    lemma_decay_by_half(q);
    lemma_pow_base_monotone(qi - 1, qi - 1, q);
    lemma_pow_base_monotone(2 * pow(qi - 1, q), pow(qi, q), q2);
    lemma_pow_distributes(2, pow(qi - 1, q), q2);
    lemma_pow_multiplies(qi - 1, q, q2);
    lemma_pow_multiplies(qi, q, q2);
    let h = pow(2, q2);
    let dn = pow(qi - 1, n);
    let qn = pow(qi, n);
    assert(h * dn <= qn);
    lemma_pow_adds(2, p * q2, q2);
    assert(b2 == tn * h) by {
        assert((p + 1) * q2 == p * q2 + q2) by (nonlinear_arith);
    }
    lemma_pow_positive(2, p * q2);
    lemma_pow_positive(one, n);
    lemma_pow_positive(one - 1, 2 * n);
    lemma_pow_positive(w, 2 * n);
    lemma_pow_positive(qi - 1, n);
    lemma_pow_positive(qi, n);
    // The product of the three.
    let c1 = on * oln;
    assert(c1 > 0) by (nonlinear_arith)
        requires
            c1 == on * oln,
            on > 0,
            oln > 0,
    ;
    assert((a2 * ln) * (c1 * dn) <= (tn * h * un) * (c1 * dn)) by (nonlinear_arith)
        requires
            a2 * ln <= tn * h * un,
            c1 > 0,
            dn > 0,
    ;
    assert((tn * h * un) * (c1 * dn) == (tn * un * c1) * (h * dn)) by (nonlinear_arith);
    assert((tn * un * c1) * (h * dn) <= (tn * un * c1) * qn) by (nonlinear_arith)
        requires
            h * dn <= qn,
            tn > 0,
            un > 0,
            c1 > 0,
    ;
    assert((tn * un * c1) * qn == (tn * on * oln) * (un * qn)) by (nonlinear_arith)
        requires
            c1 == on * oln,
    ;
    assert((tn * on * oln) * (un * qn) <= (mn * o2n) * (un * qn)) by (nonlinear_arith)
        requires
            tn * on * oln <= mn * o2n,
            un > 0,
            qn > 0,
    ;
    assert((a2 * ln) * (c1 * dn) == a2 * (ln * on * (oln * dn))) by (nonlinear_arith)
        requires
            c1 == on * oln,
    ;
    assert((mn * o2n) * (un * qn) == mn * (o2n * un * qn)) by (nonlinear_arith);
    // As powers of two products.
    crate::powers::lemma_square_pow(w - 1, n);
    crate::powers::lemma_square_pow(w, n);
    crate::powers::lemma_square_pow(one - 1, n);
    crate::powers::lemma_square_pow(one, n);
    let x1 = (w - 1) * (w - 1);
    let x2 = (one - 1) * (one - 1);
    let y1 = w * w;
    let y2 = one * one;
    let k1 = x1 * one * (x2 * (qi - 1));
    let k2 = y2 * y1 * qi;
    lemma_pow_distributes3(x1, one, x2 * (qi - 1), n);
    lemma_pow_distributes(x2, qi - 1, n);
    lemma_pow_distributes3(y2, y1, qi, n);
    assert(a2 * pow(k1, n) <= mn * pow(k2, n));
    lemma_pow_distributes(mult, k2, n);
    // The root of degree `q`.
    let k1q = pow(k1, q2);
    lemma_pow_multiplies(2, p2, q);
    assert(q2 * q == n) by (nonlinear_arith)
        requires
            n == q * q2,
    ;
    lemma_pow_multiplies(k1, q2, q);
    lemma_pow_multiplies(mult * k2, q2, q);
    let t2 = pow(2, p2);
    lemma_pow_distributes(t2, k1q, q);
    lemma_pow_positive(2, p2);
    assert(k1 > 0) by (nonlinear_arith)
        requires
            k1 == x1 * one * (x2 * (qi - 1)),
            x1 > 0,
            one > 0,
            x2 > 0,
            qi > 1,
    ;
    lemma_pow_positive(k1, q2);
    assert(0 <= t2 * k1q) by (nonlinear_arith)
        requires
            t2 > 0,
            k1q > 0,
    ;
    assert(k2 > 0) by (nonlinear_arith)
        requires
            k2 == y2 * y1 * qi,
            y2 > 0,
            y1 > 0,
            qi > 0,
    ;
    assert(mult >= 0);
    assert(mult * k2 >= 0) by (nonlinear_arith)
        requires
            mult >= 0,
            k2 > 0,
    ;
    lemma_pow_base_monotone(mult * k2, mult * k2, q2);
    lemma_pow_root(t2 * k1q, pow(mult * k2, q2), q);
    assert(t2 * pow(k1, q2) <= pow(mult * k2, q2));
    // The constants.
    let s = (acc - 1) * one;
    assert(k2 * s <= k1 * acc);
    assert(0 <= k2 * s) by (nonlinear_arith)
        requires
            k2 > 0,
            s > 0,
    ;
    lemma_pow_base_monotone(k2 * s, k1 * acc, q2);
    lemma_pow_distributes(k2, s, q2);
    lemma_pow_distributes(k1, acc, q2);
    lemma_pow_distributes(mult * acc, k2, q2);
    lemma_pow_distributes(mult * k2, acc, q2);
    assert(mult * acc * k2 == mult * k2 * acc) by (nonlinear_arith);
    lemma_pow_positive(k2, q2);
    lemma_pow_positive(acc, q2);
    let kk = pow(k2, q2);
    let ss = pow(s, q2);
    let aa = pow(acc, q2);
    let mk = pow(mult * k2, q2);
    let ma = pow(mult * acc, q2);
    assert(t2 * ss <= ma) by (nonlinear_arith)
        requires
            kk * ss <= k1q * aa,
            t2 * k1q <= mk,
            mk * aa == ma * kk,
            kk > 0,
            aa > 0,
            t2 > 0,
    {
        assert(t2 * (kk * ss) <= t2 * (k1q * aa));
        assert((t2 * k1q) * aa <= mk * aa);
        assert((t2 * ss) * kk <= ma * kk);
    }
}

/// The multiplier is at most two to the power of the logarithm: it is at most two to the
/// power `log_steps / LOG_STEPS`, and that exponent is within the logarithm.
pub(crate) proof fn lemma_multiplier_not_large(v: nat, m: nat)
    requires
        10 * m <= v < 10000 * m,
    ensures
        exponent_within(log_steps(v, m), LOG_STEPS as nat, v, m),
        pow(log_multiplier(v, m) as int, LOG_STEPS as nat) <= pow(2, log_steps(v, m)) * pow(
            MULTIPLIER_ONE as int,
            LOG_STEPS as nat,
        ),
        2 * MULTIPLIER_ONE <= log_multiplier(v, m) < 16 * MULTIPLIER_ONE,
{
    lemma_log_steps(v, m);
    lemma_multiplier_steps(v, m);
    lemma_constants();
}

} // verus!
