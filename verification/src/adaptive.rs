//! The length of the search list, adapted to how selective a filter turned out to be.

use vstd::arithmetic::power::{lemma_pow_distributes, lemma_pow_positive, pow};
use vstd::prelude::*;

use crate::log_accuracy::{lemma_multiplier_not_large, lemma_multiplier_not_small, ACCURACY};
use crate::log_order::{lemma_multiplier_at_decade, lemma_multiplier_monotone};
use crate::log_scale::{
    exponent_within, log_multiplier, log_multiplier_of, log_steps, LOG_STEPS, MULTIPLIER_ONE,
};
use crate::powers::{lemma_pow_base_monotone, lemma_pow_base_strict};

verus! {

/// Number of neighbors to observe before the adaptive list length is computed.
pub const ADAPTIVE_L_SAMPLE_COUNT: u32 = 1000;

/// The largest multiplier that is applied to the base list length.
pub const ADAPTIVE_L_MAX_MULTIPLIER: usize = 16;

/// `x / d`, rounded up.
pub open spec fn ceil_div(x: nat, d: nat) -> nat {
    (x + d - 1) as nat / d
}

/// `n`, or the largest `usize` where `n` does not fit.
pub open spec fn saturated(n: nat) -> usize {
    if n <= usize::MAX {
        n as usize
    } else {
        usize::MAX
    }
}

/// Whether the match rate lies strictly between one in ten thousand and one in ten, where the
/// multiplier follows the logarithm of the rate.
pub open spec fn log_scale_applies(visited: nat, matched: nat) -> bool {
    10 * matched < visited < 10000 * matched
}

/// The list length for `matched` matches among `visited` neighbors.
pub open spec fn adaptive_l(base_l: nat, visited: nat, matched: nat) -> nat {
    if visited == 0 {
        base_l * ADAPTIVE_L_MAX_MULTIPLIER as nat
    } else if 2 * matched >= visited {
        base_l
    } else if 10 * matched >= visited {
        2 * base_l
    } else if log_scale_applies(visited, matched) {
        ceil_div(base_l * log_multiplier(visited, matched), MULTIPLIER_ONE as nat)
    } else {
        base_l * ADAPTIVE_L_MAX_MULTIPLIER as nat
    }
}

/// Whether `n` is less than `base_l` times two to the power of the decimal logarithm of
/// `visited / matched`: some fraction within that logarithm shows it.
pub open spec fn below_log_scaled(n: nat, base_l: nat, visited: nat, matched: nat) -> bool {
    exists|p: nat, q: nat|
        q >= 1 && #[trigger] exponent_within(p, q, visited, matched) && pow(n as int, q) < pow(
            base_l as int,
            q,
        ) * pow(2, p)
}

/// Whether `n` is at least `base_l` times two to the power of the decimal logarithm of
/// `visited / matched`, but for one part in `ACCURACY`: no fraction within that logarithm
/// speaks against it.
pub open spec fn reaches_log_scaled(n: nat, base_l: nat, visited: nat, matched: nat) -> bool {
    forall|p: nat, q: nat|
        q >= 1 && #[trigger] exponent_within(p, q, visited, matched) ==> pow(2, p) * pow(
            (ACCURACY - 1) * base_l,
            q,
        ) <= pow(n * ACCURACY as int, q)
}

/// Whether `n` is `base_l` times two to the power of the decimal logarithm of
/// `visited / matched`, rounded up, where that product may first be lowered by up to one part
/// in `ACCURACY`.
pub open spec fn is_log_scaled(n: nat, base_l: nat, visited: nat, matched: nat) -> bool {
    &&& n == 0 || below_log_scaled((n - 1) as nat, base_l, visited, matched)
    &&& reaches_log_scaled(n, base_l, visited, matched)
}

/// Computes the list length for the observed match rate.
///
/// A rate of at least one half keeps the base length, and one of at least a tenth doubles it.
/// Below that the multiplier is two to the power of the negative decimal logarithm of the
/// rate, so that a hundredth gives four times and a thousandth eight times the base length,
/// and it stops at `ADAPTIVE_L_MAX_MULTIPLIER`, which also stands for no match at all and for
/// no sample.
pub fn compute_adaptive_l(base_l: usize, sample_visited: u32, sample_matched: u32) -> (l: usize)
    ensures
        l == saturated(adaptive_l(base_l as nat, sample_visited as nat, sample_matched as nat)),
        log_scale_applies(sample_visited as nat, sample_matched as nat) ==> is_log_scaled(
            adaptive_l(base_l as nat, sample_visited as nat, sample_matched as nat),
            base_l as nat,
            sample_visited as nat,
            sample_matched as nat,
        ),
        ({
            let wanted = adaptive_l(base_l as nat, sample_visited as nat, sample_matched as nat);
            l == if wanted <= usize::MAX {
                wanted as int
            } else {
                usize::MAX as int
            }
        }),
        2 * sample_matched >= sample_visited > 0 ==> l == base_l,
        10 * sample_matched >= sample_visited > 2 * sample_matched ==> l == if 2 * base_l
            <= usize::MAX {
            2 * base_l
        } else {
            usize::MAX as int
        },
        sample_visited == 0 || sample_visited >= 10000 * sample_matched ==> l == if 16 * base_l
            <= usize::MAX {
            16 * base_l
        } else {
            usize::MAX as int
        },
{
    let visited: u64 = sample_visited as u64;
    let matched: u64 = sample_matched as u64;
    let wide: u128 = if visited == 0 {
        base_l as u128 * ADAPTIVE_L_MAX_MULTIPLIER as u128
    } else if 2 * matched >= visited {
        base_l as u128
    } else if 10 * matched >= visited {
        2 * base_l as u128
    } else if visited < 10000 * matched {
        let mult = log_multiplier_of(sample_visited, sample_matched);
        proof {
            law_log_scaled(base_l as nat, visited as nat, matched as nat);
            assert(base_l * mult <= 0xffff_ffff_ffff_ffff * (16 * MULTIPLIER_ONE))
                by (nonlinear_arith)
                requires
                    0 <= base_l <= 0xffff_ffff_ffff_ffff,
                    0 <= mult <= 16 * MULTIPLIER_ONE,
            ;
            assert(base_l * mult >= 0) by (nonlinear_arith)
                requires
                    base_l >= 0,
                    mult >= 0,
            ;
        }
        (base_l as u128 * mult + (MULTIPLIER_ONE - 1)) / MULTIPLIER_ONE
    } else {
        base_l as u128 * ADAPTIVE_L_MAX_MULTIPLIER as u128
    };
    if wide <= usize::MAX as u128 {
        wide as usize
    } else {
        usize::MAX
    }
}

/// A quotient rounded up reaches the dividend, and one less does not.
proof fn lemma_ceil_div(x: nat, d: nat)
    requires
        d > 0,
    ensures
        x <= ceil_div(x, d) * d,
        (ceil_div(x, d) - 1) * d < x,
{
    let n = ceil_div(x, d) as int;
    let di = d as int;
    let t = x + d - 1;
    vstd::arithmetic::div_mod::lemma_fundamental_div_mod(t, di);
    assert(x <= n * di && (n - 1) * di < x) by (nonlinear_arith)
        requires
            t == di * n + t % di,
            0 <= t % di < di,
            t == x + di - 1,
    ;
}

/// Rounding up keeps the order.
proof fn lemma_ceil_div_monotone(x: nat, y: nat, d: nat)
    requires
        d > 0,
        x <= y,
    ensures
        ceil_div(x, d) <= ceil_div(y, d),
{
    vstd::arithmetic::div_mod::lemma_div_is_ordered(x + d - 1, y + d - 1, d as int);
}

/// Rounding up leaves a multiple as it is.
proof fn lemma_ceil_div_multiple(n: nat, d: nat)
    requires
        d > 0,
    ensures
        ceil_div(n * d, d) == n,
{
    lemma_ceil_div(n * d, d);
    let c = ceil_div(n * d, d) as int;
    assert(c == n) by (nonlinear_arith)
        requires
            n * d <= c * d,
            (c - 1) * d < n * d,
            d > 0,
    ;
}

/// On the logarithmic scale the list length is the base length times two to the power of the
/// decimal logarithm of the inverse match rate, rounded up, to within one part in `ACCURACY`.
pub proof fn law_log_scaled(base_l: nat, visited: nat, matched: nat)
    requires
        log_scale_applies(visited, matched),
    ensures
        is_log_scaled(adaptive_l(base_l, visited, matched), base_l, visited, matched),
{
    let mult = log_multiplier(visited, matched);
    let one = MULTIPLIER_ONE as nat;
    let n = adaptive_l(base_l, visited, matched);
    lemma_ceil_div(base_l * mult, one);
    lemma_multiplier_not_large(visited, matched);
    if n > 0 {
        let p = log_steps(visited, matched);
        let q = LOG_STEPS as nat;
        let c = n - 1;
        assert(c * one < base_l * mult);
        lemma_pow_base_strict(c * one, (base_l * mult) as int, q);
        lemma_pow_distributes(c, one as int, q);
        lemma_pow_distributes(base_l as int, mult as int, q);
        lemma_pow_positive(one as int, q);
        lemma_pow_base_monotone(base_l as int, base_l as int, q);
        let cq = pow(c, q);
        let oq = pow(one as int, q);
        let bq = pow(base_l as int, q);
        let mq = pow(mult as int, q);
        let tp = pow(2, p);
        assert(cq < bq * tp) by (nonlinear_arith)
            requires
                cq * oq < bq * mq,
                mq <= tp * oq,
                bq >= 0,
                oq > 0,
        {
            assert(bq * mq <= bq * (tp * oq));
            assert(cq * oq < (bq * tp) * oq);
        }
        assert(exponent_within(p, q, visited, matched));
    }
    assert forall|p: nat, q: nat|
        q >= 1 && #[trigger] exponent_within(p, q, visited, matched) implies pow(2, p) * pow(
        (ACCURACY - 1) * base_l,
        q,
    ) <= pow(n * ACCURACY as int, q) by {
        lemma_multiplier_not_small(visited, matched, p, q);
        let acc = ACCURACY as int;
        let b = base_l as int;
        let o = one as int;
        let s = (acc - 1) * o;
        let tp = pow(2, p);
        // Times the base length.
        let bq = pow(b, q);
        let sq = pow(s, q);
        let mq = pow(mult * acc, q);
        lemma_pow_base_monotone(b, b, q);
        lemma_pow_distributes(b, s, q);
        lemma_pow_distributes(b, mult * acc, q);
        assert(tp * (bq * sq) <= bq * mq) by (nonlinear_arith)
            requires
                tp * sq <= mq,
                bq >= 0,
        ;
        // Rounded up.
        assert(0 <= b * (mult * acc) <= (n * acc) * o) by (nonlinear_arith)
            requires
                0 <= b,
                0 <= mult,
                b * mult <= n * o,
                acc > 0,
        ;
        lemma_pow_base_monotone(b * (mult * acc), (n * acc) * o, q);
        lemma_pow_distributes(n * acc, o, q);
        // Without the fixed point.
        lemma_pow_distributes((acc - 1) * b, o, q);
        assert(b * s == ((acc - 1) * b) * o) by (nonlinear_arith)
            requires
                s == (acc - 1) * o,
        ;
        lemma_pow_positive(o, q);
        let oq = pow(o, q);
        let xq = pow((acc - 1) * b, q);
        let nq = pow(n * acc, q);
        assert(tp * xq <= nq) by (nonlinear_arith)
            requires
                tp * (xq * oq) <= nq * oq,
                oq > 0,
        ;
    }
}

/// The list length for every match rate. At least one match in two keeps the base length, at
/// least one in ten doubles it, and at most one in ten thousand, as well as no sample, takes it
/// times sixteen. In between it is the base length times two to the power of the decimal
/// logarithm of `visited / matched`, rounded up: one less is below that product, and, but for
/// one part in two to the power 53, it is itself not. A fraction `p / q` is at most that
/// logarithm where `10^p * matched^q <= visited^q`.
pub proof fn law_adaptive_l_for_every_rate(base_l: nat, visited: nat, matched: nat)
    ensures
        visited > 0 && 2 * matched >= visited ==> adaptive_l(base_l, visited, matched) == base_l,
        2 * matched < visited <= 10 * matched ==> adaptive_l(base_l, visited, matched) == base_l
            + base_l,
        visited == 0 || visited >= 10000 * matched ==> adaptive_l(base_l, visited, matched) == 16
            * base_l,
        10 * matched < visited < 10000 * matched ==> {
            let n = adaptive_l(base_l, visited, matched);
            &&& n == 0 || exists|p: nat, q: nat|
                q >= 1 && #[trigger] pow(10, p) * #[trigger] pow(matched as int, q) <= pow(
                    visited as int,
                    q,
                ) && pow(n - 1, q) < pow(base_l as int, q) * pow(2, p)
            &&& forall|p: nat, q: nat|
                q >= 1 && #[trigger] pow(10, p) * #[trigger] pow(matched as int, q) <= pow(
                    visited as int,
                    q,
                ) ==> pow(2, p) * pow(0x1f_ffff_ffff_ffffint * base_l, q) <= pow(
                    n * 0x20_0000_0000_0000int,
                    q,
                )
        },
{
    if 10 * matched < visited < 10000 * matched {
        law_log_scaled(base_l, visited, matched);
        let n = adaptive_l(base_l, visited, matched);
        if n > 0 {
            let (p, q) = choose|p: nat, q: nat|
                q >= 1 && #[trigger] exponent_within(p, q, visited, matched) && pow(
                    (n - 1) as nat as int,
                    q,
                ) < pow(base_l as int, q) * pow(2, p);
            assert(pow(10, p) * pow(matched as int, q) <= pow(visited as int, q));
        }
        assert forall|p: nat, q: nat|
            q >= 1 && #[trigger] pow(10, p) * #[trigger] pow(matched as int, q) <= pow(
                visited as int,
                q,
            ) implies pow(2, p) * pow(0x1f_ffff_ffff_ffffint * base_l, q) <= pow(
            n * 0x20_0000_0000_0000int,
            q,
        ) by {
            assert(exponent_within(p, q, visited, matched));
        }
    }
}

/// The list never shrinks below its base length, and never grows past
/// `ADAPTIVE_L_MAX_MULTIPLIER` times that.
pub proof fn law_adaptive_l_bounded(base_l: nat, visited: nat, matched: nat)
    ensures
        base_l <= adaptive_l(base_l, visited, matched) <= base_l * ADAPTIVE_L_MAX_MULTIPLIER,
        visited > 0 && 10 * matched < visited ==> 2 * base_l <= adaptive_l(
            base_l,
            visited,
            matched,
        ),
{
    if log_scale_applies(visited, matched) {
        let mult = log_multiplier(visited, matched);
        let one = MULTIPLIER_ONE as nat;
        lemma_multiplier_not_large(visited, matched);
        assert((2 * base_l) * one <= base_l * mult <= (16 * base_l) * one) by (nonlinear_arith)
            requires
                2 * one <= mult <= 16 * one,
        ;
        lemma_ceil_div_monotone((2 * base_l) * one, base_l * mult, one);
        lemma_ceil_div_monotone(base_l * mult, (16 * base_l) * one, one);
        lemma_ceil_div_multiple(2 * base_l, one);
        lemma_ceil_div_multiple(16 * base_l, one);
    }
}

/// A lower match rate never gives a shorter list: `matched1 / visited1` is at most
/// `matched2 / visited2` here.
pub proof fn law_adaptive_l_antitone_in_rate(
    base_l: nat,
    visited1: nat,
    matched1: nat,
    visited2: nat,
    matched2: nat,
)
    requires
        visited1 >= 1,
        visited2 >= 1,
        matched1 * visited2 <= matched2 * visited1,
    ensures
        adaptive_l(base_l, visited2, matched2) <= adaptive_l(base_l, visited1, matched1),
{
    law_adaptive_l_bounded(base_l, visited1, matched1);
    law_adaptive_l_bounded(base_l, visited2, matched2);
    let (v1, m1, v2, m2) = (visited1, matched1, visited2, matched2);
    if 2 * m1 >= v1 {
        assert(2 * m2 >= v2) by (nonlinear_arith)
            requires
                2 * m1 >= v1,
                m1 * v2 <= m2 * v1,
                v1 >= 1,
        ;
    } else if 10 * m1 >= v1 {
        assert(10 * m2 >= v2) by (nonlinear_arith)
            requires
                10 * m1 >= v1,
                m1 * v2 <= m2 * v1,
                v1 >= 1,
        ;
    } else if log_scale_applies(v1, m1) && log_scale_applies(v2, m2) {
        assert(v2 * m1 <= v1 * m2) by (nonlinear_arith)
            requires
                m1 * v2 <= m2 * v1,
        ;
        lemma_multiplier_monotone(v2, m2, v1, m1);
        let x2 = log_multiplier(v2, m2);
        let x1 = log_multiplier(v1, m1);
        assert(base_l * x2 <= base_l * x1) by (nonlinear_arith)
            requires
                x2 <= x1,
        ;
        lemma_ceil_div_monotone(base_l * x2, base_l * x1, MULTIPLIER_ONE as nat);
    } else if log_scale_applies(v1, m1) && 10 * m2 < v2 {
        assert(v2 < 10000 * m2) by (nonlinear_arith)
            requires
                v1 < 10000 * m1,
                m1 * v2 <= m2 * v1,
                v2 >= 1,
        {
            if m2 == 0 {
                assert(m1 * v2 >= 1);
            } else if v2 >= 10000 * m2 {
                assert(m1 * v2 >= m1 * (10000 * m2));
                assert((10000 * m1) * m2 > v1 * m2);
            }
        }
    }
}

/// A longer base list never gives a shorter adapted list.
pub proof fn law_adaptive_l_monotone_in_base(base1: nat, base2: nat, visited: nat, matched: nat)
    requires
        base1 <= base2,
    ensures
        adaptive_l(base1, visited, matched) <= adaptive_l(base2, visited, matched),
{
    let x = log_multiplier(visited, matched);
    assert(base1 * x <= base2 * x) by (nonlinear_arith)
        requires
            base1 <= base2,
    ;
    lemma_ceil_div_monotone(base1 * x, base2 * x, MULTIPLIER_ONE as nat);
}

/// One match in a hundred gives exactly four times, and one in a thousand exactly eight times
/// the base length.
pub proof fn law_adaptive_l_at_decades(base_l: nat, matched: nat)
    requires
        matched >= 1,
    ensures
        adaptive_l(base_l, 100 * matched, matched) == 4 * base_l,
        adaptive_l(base_l, 1000 * matched, matched) == 8 * base_l,
{
    let one = MULTIPLIER_ONE as nat;
    crate::log_bounds::lemma_constants();
    lemma_multiplier_at_decade(matched, 2);
    lemma_multiplier_at_decade(matched, 3);
    assert(base_l * (4 * one) == (4 * base_l) * one) by (nonlinear_arith);
    assert(base_l * (8 * one) == (8 * base_l) * one) by (nonlinear_arith);
    lemma_ceil_div_multiple(4 * base_l, one);
    lemma_ceil_div_multiple(8 * base_l, one);
}

} // verus!
