//! Integer facts shared by the proofs of the other modules.
use vstd::arithmetic::div_mod::{
    lemma_div_is_ordered, lemma_div_multiples_vanish, lemma_fundamental_div_mod, lemma_mod_pos_bound,
};
use vstd::arithmetic::mul::lemma_mul_inequality;
use vstd::prelude::*;

verus! {

/// Floor division brackets its numerator.
pub proof fn lemma_div_bounds(a: int, d: int)
    requires
        a >= 0,
        d > 0,
    ensures
        d * (a / d) <= a,
        a < d * (a / d) + d,
        a / d >= 0,
{
    lemma_fundamental_div_mod(a, d);
    lemma_mod_pos_bound(a, d);
    lemma_quot_nonneg(a, d, a / d, a % d);
}

proof fn lemma_quot_nonneg(a: int, d: int, q: int, r: int)
    requires
        a >= 0,
        d > 0,
        a == d * q + r,
        r < d,
    ensures
        q >= 0,
{
    if q < 0 {
        assert(d * q <= -d) by (nonlinear_arith)
            requires
                q < 0,
                d > 0,
        ;
    }
}

/// A product of two non-negative integers is non-negative.
pub proof fn lemma_mul_nonneg(a: int, b: int)
    requires
        a >= 0,
        b >= 0,
    ensures
        a * b >= 0,
{
    assert(a * b >= 0) by (nonlinear_arith)
        requires
            a >= 0,
            b >= 0,
    ;
}

/// Floor division is monotone in the numerator.
pub proof fn lemma_div_mono(a: int, b: int, d: int)
    requires
        a <= b,
        d > 0,
    ensures
        a / d <= b / d,
{
    lemma_div_is_ordered(a, b, d);
}

/// A part scaled by `m` over its whole stays within `m`.
pub proof fn lemma_scaled_part_le(a: int, t: int, m: int)
    requires
        0 <= a <= t,
        t > 0,
        m >= 0,
    ensures
        0 <= a * m / t <= m,
        a * m / t >= 0,
{
    lemma_mul_inequality(a, t, m);
    assert(a * m <= t * m);
    lemma_div_is_ordered(a * m, t * m, t);
    assert(t * m == m * t) by (nonlinear_arith);
    lemma_div_multiples_vanish(m, t);
    assert(a * m >= 0) by (nonlinear_arith)
        requires
            a >= 0,
            m >= 0,
    ;
    lemma_div_bounds(a * m, t);
}

/// A quotient `x / d` with `x <= d * q` is at most `q`.
pub proof fn lemma_div_le_quot(x: int, d: int, q: int)
    requires
        0 <= x <= d * q,
        d > 0,
    ensures
        x / d <= q,
{
    lemma_div_is_ordered(x, d * q, d);
    lemma_div_multiples_vanish(q, d);
}

/// A quotient `x / d` with `d * q <= x` is at least `q`.
pub proof fn lemma_div_ge_quot(x: int, d: int, q: int)
    requires
        d * q <= x,
        d > 0,
    ensures
        q <= x / d,
{
    lemma_div_is_ordered(d * q, x, d);
    lemma_div_multiples_vanish(q, d);
}

} // verus!
