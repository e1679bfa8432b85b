//! Small identities of integer arithmetic that the larger proofs are
//! assembled from.

use vstd::prelude::*;

verus! {

/// The factors of a product of two products can be paired either way.
pub proof fn lemma_regroup(s: int, t: int, w: int, y: int)
    by (nonlinear_arith)
    ensures
        (s * t) * (w * y) == (s * w) * (t * y),
        (s * t) * (w * y) == (s * y) * (t * w),
{
}

/// A factor common to three terms can be taken out of their sum.
pub proof fn lemma_spread_out(a: int, m0: int, m1: int, m2: int)
    by (nonlinear_arith)
    ensures
        a * m0 + a * m1 + a * m2 == a * (m0 + m1 + m2),
{
}

/// A difference of three terms, multiplied out.
pub proof fn lemma_times_difference(u: int, v: int, k: int, w: int)
    by (nonlinear_arith)
    ensures
        (u - v - k) * w == u * w - v * w - k * w,
{
}

/// Three times a product, times a further factor, regrouped.
pub proof fn lemma_scaled_product(a: int, z: int, w: int)
    by (nonlinear_arith)
    ensures
        (3 * (a * z)) * w == 3 * (a * (z * w)),
{
}

/// The squares of a sum and of a difference, multiplied out; no square is
/// negative.
pub proof fn lemma_square_of_sum(u: int, v: int)
    by (nonlinear_arith)
    ensures
        (u + v) * (u + v) == u * u + 2 * (u * v) + v * v,
        (u - v) * (u - v) == u * u - 2 * (u * v) + v * v,
        u * u >= 0,
{
}

/// Multiplication distributes over sums and differences, and commutes.
pub proof fn lemma_times_sum(a: int, u: int, v: int)
    by (nonlinear_arith)
    ensures
        a * (u + v) == a * u + a * v,
        a * (u - v) == a * u - a * v,
        (u + v) * a == u * a + v * a,
        (u - v) * a == u * a - v * a,
        a * u == u * a,
{
}

/// The product of two differences, multiplied out.
pub proof fn lemma_product_of_differences(a: int, b: int, p: int, q: int)
    by (nonlinear_arith)
    ensures
        (a - b) * (p - q) == a * p - a * q - b * p + b * q,
{
}

/// The product of two sums of three terms, multiplied out.
pub proof fn lemma_product_of_sums(a: int, b: int, c: int, p: int, q: int, r: int)
    ensures
        (a + b + c) * (p + q + r) == a * p + a * q + a * r + b * p + b * q + b * r + c * p + c
            * q + c * r,
{
    let t = p + q + r;
    lemma_times_sum(t, a + b, c);
    lemma_times_sum(t, a, b);
    lemma_spread_out(a, p, q, r);
    lemma_spread_out(b, p, q, r);
    lemma_spread_out(c, p, q, r);
}

} // verus!
