//! Finite sums of integer-valued functions, and the facts about them that
//! the conservation laws rest on.
use crate::arith::{lemma_div_bounds, lemma_mul_nonneg};
use vstd::prelude::*;

verus! {

/// `f(0) + f(1) + ... + f(n - 1)`.
pub open spec fn sum_to(f: spec_fn(int) -> int, n: int) -> int
    decreases n,
{
    if n <= 0 {
        0
    } else {
        sum_to(f, n - 1) + f(n - 1)
    }
}

/// The sum of a vector of `u128`.
pub open spec fn sum128(s: Seq<u128>) -> int {
    sum_to(|i: int| s[i] as int, s.len() as int)
}

/// The sum of a vector of `u64`.
pub open spec fn sum64(s: Seq<u64>) -> int {
    sum_to(|i: int| s[i] as int, s.len() as int)
}

/// Sums of functions that agree on the range are equal.
pub proof fn lemma_sum_ext(f: spec_fn(int) -> int, g: spec_fn(int) -> int, n: int)
    requires
        forall|i: int| 0 <= i < n ==> #[trigger] f(i) == g(i),
    ensures
        sum_to(f, n) == sum_to(g, n),
    decreases n,
{
    if n > 0 {
        lemma_sum_ext(f, g, n - 1);
    }
}

/// Sums are monotone in their terms.
pub proof fn lemma_sum_le(f: spec_fn(int) -> int, g: spec_fn(int) -> int, n: int)
    requires
        forall|i: int| 0 <= i < n ==> #[trigger] f(i) <= g(i),
    ensures
        sum_to(f, n) <= sum_to(g, n),
    decreases n,
{
    if n > 0 {
        lemma_sum_le(f, g, n - 1);
    }
}

/// A sum of non-negative terms is at least each of them.
pub proof fn lemma_sum_ge_term(f: spec_fn(int) -> int, n: int, t: int)
    requires
        0 <= t < n,
        forall|i: int| 0 <= i < n ==> 0 <= #[trigger] f(i),
    ensures
        f(t) <= sum_to(f, n),
    decreases n,
{
    lemma_sum_bounded_below(f, n - 1);
    if t < n - 1 {
        lemma_sum_ge_term(f, n - 1, t);
    }
}

/// A sum of non-negative terms is non-negative.
pub proof fn lemma_sum_bounded_below(f: spec_fn(int) -> int, n: int)
    requires
        forall|i: int| 0 <= i < n ==> 0 <= #[trigger] f(i),
    ensures
        0 <= sum_to(f, n),
    decreases n,
{
    if n > 0 {
        lemma_sum_bounded_below(f, n - 1);
    }
}

/// Changing one entry of a vector changes its prefix sum by the difference.
pub proof fn lemma_sum128_update(s: Seq<u128>, t: int, v: u128, n: int)
    requires
        0 <= t < n <= s.len(),
    ensures
        sum_to(|i: int| s.update(t, v)[i] as int, n) == sum_to(|i: int| s[i] as int, n) - s[t] + v,
    decreases n,
{
    if t == n - 1 {
        lemma_sum_ext(|i: int| s.update(t, v)[i] as int, |i: int| s[i] as int, n - 1);
    } else {
        lemma_sum128_update(s, t, v, n - 1);
    }
}

/// Rounding each term `a(i) * c / d` down loses, over `n` terms, at least
/// nothing and less than one unit of `d` per term.
pub proof fn lemma_sum_scaled_floor(a: spec_fn(int) -> int, c: int, d: int, n: int)
    requires
        n >= 0,
        c >= 0,
        d > 0,
        forall|i: int| 0 <= i < n ==> #[trigger] a(i) >= 0,
    ensures
        d * sum_to(|i: int| a(i) * c / d, n) <= c * sum_to(a, n),
        c * sum_to(a, n) - d * sum_to(|i: int| a(i) * c / d, n) <= n * (d - 1),
    decreases n,
{
    let f = |i: int| a(i) * c / d;
    if n > 0 {
        lemma_sum_scaled_floor(a, c, d, n - 1);
        let x = a(n - 1) * c;
        lemma_mul_nonneg(a(n - 1), c);
        lemma_div_bounds(x, d);
        let p = sum_to(f, n - 1);
        let q = sum_to(a, n - 1);
        assert(d * (p + f(n - 1)) == d * p + d * f(n - 1)) by (nonlinear_arith);
        assert(c * (q + a(n - 1)) == c * q + x) by (nonlinear_arith)
            requires
                x == a(n - 1) * c,
        ;
        assert(n * (d - 1) == (n - 1) * (d - 1) + (d - 1)) by (nonlinear_arith);
    }
}

/// A sum of scaled differences is the scaled difference of the sums.
pub proof fn lemma_sum_scaled_diff(f: spec_fn(int) -> int, g: spec_fn(int) -> int, c: int, n: int)
    ensures
        sum_to(|i: int| c * f(i) - c * g(i), n) == c * sum_to(f, n) - c * sum_to(g, n),
    decreases n,
{
    if n > 0 {
        lemma_sum_scaled_diff(f, g, c, n - 1);
        let a = sum_to(f, n - 1);
        let b = sum_to(g, n - 1);
        assert(c * (a + f(n - 1)) - c * (b + g(n - 1)) == (c * a - c * b) + (c * f(n - 1) - c * g(n - 1)))
            by (nonlinear_arith);
    }
}

} // verus!
