//! Facts about integer powers that the fixed-point logarithm and exponential rest on.

use vstd::arithmetic::power::{
    lemma_pow0, lemma_pow1, lemma_pow_adds, lemma_pow_distributes, lemma_pow_positive, pow,
};
use vstd::prelude::*;

verus! {

/// Powers keep the order of their bases.
pub(crate) proof fn lemma_pow_base_monotone(a: int, b: int, e: nat)
    requires
        0 <= a <= b,
    ensures
        0 <= pow(a, e) <= pow(b, e),
    decreases e,
{
    reveal(pow);
    if e > 0 {
        lemma_pow_base_monotone(a, b, (e - 1) as nat);
        let x = pow(a, (e - 1) as nat);
        let y = pow(b, (e - 1) as nat);
        assert(0 <= a * x <= b * y) by (nonlinear_arith)
            requires
                0 <= a <= b,
                0 <= x <= y,
        ;
    }
}

/// Positive powers keep the strict order of their bases.
pub(crate) proof fn lemma_pow_base_strict(a: int, b: int, e: nat)
    requires
        0 <= a < b,
        e > 0,
    ensures
        pow(a, e) < pow(b, e),
    decreases e,
{
    reveal(pow);
    let x = pow(a, (e - 1) as nat);
    let y = pow(b, (e - 1) as nat);
    lemma_pow_base_monotone(a, b, (e - 1) as nat);
    lemma_pow_positive(b, (e - 1) as nat);
    assert(a * x < b * y) by (nonlinear_arith)
        requires
            0 <= a < b,
            0 <= x <= y,
            y > 0,
    ;
}

/// Positive roots keep the order: what is at most as large in a power is at most as large.
pub(crate) proof fn lemma_pow_root(a: int, b: int, e: nat)
    requires
        0 <= a,
        0 <= b,
        e > 0,
        pow(a, e) <= pow(b, e),
    ensures
        a <= b,
{
    if b < a {
        lemma_pow_base_strict(b, a, e);
    }
}

/// Larger exponents do not make the power of a positive base smaller.
pub(crate) proof fn lemma_pow_exponent_monotone(b: int, e1: nat, e2: nat)
    requires
        b >= 1,
        e1 <= e2,
    ensures
        pow(b, e1) <= pow(b, e2),
{
    lemma_pow_adds(b, e1, (e2 - e1) as nat);
    lemma_pow_positive(b, e1);
    lemma_pow_positive(b, (e2 - e1) as nat);
    let x = pow(b, e1);
    let y = pow(b, (e2 - e1) as nat);
    assert(x <= x * y) by (nonlinear_arith)
        requires
            x > 0,
            y >= 1,
    ;
}

/// The first two terms of the binomial expansion of `(a + 1)` to the power `e`.
proof fn lemma_binomial_two_terms(a: int, e: nat)
    requires
        a >= 0,
        e >= 1,
    ensures
        pow(a + 1, e) >= pow(a, e) + e * pow(a, (e - 1) as nat),
    decreases e,
{
    reveal(pow);
    if e == 1 {
        lemma_pow0(a);
        lemma_pow1(a);
        lemma_pow1(a + 1);
    } else {
        let f = (e - 1) as nat;
        lemma_binomial_two_terms(a, f);
        let x = pow(a, (f - 1) as nat);
        lemma_pow_base_monotone(0, a, (f - 1) as nat);
        lemma_pow_base_monotone(a, a, (f - 1) as nat);
        let s = pow(a + 1, f);
        assert(pow(a, f) == a * x);
        assert(pow(a, e) == a * (a * x));
        assert(pow(a + 1, e) == (a + 1) * s);
        assert((a + 1) * s >= a * (a * x) + (f + 1) * (a * x)) by (nonlinear_arith)
            requires
                a >= 0,
                x >= 0,
                f >= 1,
                s >= a * x + f * x,
        ;
    }
}

/// `(1 - 1/q)` to the power `q` is at most one half.
pub(crate) proof fn lemma_decay_by_half(q: nat)
    requires
        q >= 1,
    ensures
        2 * pow(q - 1, q) <= pow(q as int, q),
{
    let a = q - 1;
    lemma_binomial_two_terms(a, q);
    reveal(pow);
    let x = pow(a, (q - 1) as nat);
    lemma_pow_base_monotone(a, a, (q - 1) as nat);
    assert(q * x >= a * x) by (nonlinear_arith)
        requires
            q == a + 1,
            x >= 0,
    ;
}

/// The square of a power is the power with twice the exponent.
pub(crate) proof fn lemma_pow_square(b: int, e: nat)
    ensures
        pow(b, e) * pow(b, e) == pow(b, 2 * e),
{
    lemma_pow_adds(b, e, e);
}

/// A power of a square is the power with twice the exponent.
pub(crate) proof fn lemma_square_pow(b: int, e: nat)
    ensures
        pow(b * b, e) == pow(b, 2 * e),
{
    lemma_pow_distributes(b, b, e);
    lemma_pow_square(b, e);
}

} // verus!
