//! The algebra of three sample points: the quantities that the fit, the cost
//! and the diagnostics are built from, and the identities that relate them.

use vstd::prelude::*;
use crate::algebra::{lemma_product_of_sums, lemma_regroup};

verus! {

/// Largest magnitude of a coordinate or a depth that the engine accepts.
pub const COORD_LIMIT: i64 = 1_099_511_627_776;

/// A value lies within the accepted magnitude.
pub open spec fn in_range(v: int) -> bool {
    -COORD_LIMIT <= v <= COORD_LIMIT
}

/// A coordinate or depth lies within the accepted magnitude.
pub fn within(v: i64) -> (res: bool)
    ensures
        res == in_range(v as int),
{
    -COORD_LIMIT <= v && v <= COORD_LIMIT
}

/// Three values, each within the accepted magnitude.
pub open spec fn triple_in_range(s: Seq<int>) -> bool {
    &&& s.len() == 3
    &&& in_range(s[0])
    &&& in_range(s[1])
    &&& in_range(s[2])
}

/// The samples of one event, or the depths, as mathematical integers.
pub open spec fn ints(v: Seq<i64>) -> Seq<int> {
    Seq::new(v.len(), |i: int| v[i] as int)
}

/// Twice the signed area of the triangle spanned by the three points
/// `(x[i], z[i])`. It is zero exactly when the points lie on one line.
pub open spec fn cross(x: Seq<int>, z: Seq<int>) -> int {
    (x[1] - x[0]) * (z[2] - z[0]) - (x[2] - x[0]) * (z[1] - z[0])
}

/// The three points `(x[i], z[i])` lie on one straight line.
pub open spec fn collinear(x: Seq<int>, z: Seq<int>) -> bool {
    cross(x, z) == 0
}

/// Sum of the squared pairwise differences of three values: three times
/// their sum of squared deviations from the mean.
pub open spec fn spread(x: Seq<int>) -> int {
    (x[0] - x[1]) * (x[0] - x[1]) + (x[0] - x[2]) * (x[0] - x[2]) + (x[1] - x[2]) * (x[1]
        - x[2])
}

/// Sum of the products of the pairwise differences of two triples: three
/// times their sum of products of deviations from the means.
pub open spec fn covariation(x: Seq<int>, z: Seq<int>) -> int {
    (x[0] - x[1]) * (z[0] - z[1]) + (x[0] - x[2]) * (z[0] - z[2]) + (x[1] - x[2]) * (z[1]
        - z[2])
}

/// Products of doubled factors.
proof fn lemma_doubled(a: int, e: int)
    by (nonlinear_arith)
    ensures
        (2 * a) * (2 * e) == 4 * (a * e),
        (2 * a) * (-2 * e) == -4 * (a * e),
        (-2 * a) * (2 * e) == -4 * (a * e),
        (-2 * a) * (-2 * e) == 4 * (a * e),
{
}

/// The product of two spreads, written in the products of their terms.
proof fn lemma_expand_spreads(a: int, b: int, c: int, e: int, f: int, g: int)
    ensures
        (2 * a + 2 * b - 2 * c) * (2 * e + 2 * f - 2 * g) == 4 * (a * e) + 4 * (a * f) - 4 * (a
            * g) + 4 * (b * e) + 4 * (b * f) - 4 * (b * g) - 4 * (c * e) - 4 * (c * f) + 4 * (c
            * g),
{
    lemma_product_of_sums(2 * a, 2 * b, -2 * c, 2 * e, 2 * f, -2 * g);
    lemma_doubled(a, e);
    lemma_doubled(a, f);
    lemma_doubled(a, g);
    lemma_doubled(b, e);
    lemma_doubled(b, f);
    lemma_doubled(b, g);
    lemma_doubled(c, e);
    lemma_doubled(c, f);
    lemma_doubled(c, g);
}

/// The squares of a covariation and of a cross product, multiplied out.
proof fn lemma_expand_covariation(k: int, l: int, m: int, n: int)
    by (nonlinear_arith)
    ensures
        (2 * k + 2 * l - m - n) * (2 * k + 2 * l - m - n) == 4 * (k * k) + 4 * (l * l) + m * m
            + n * n + 8 * (k * l) - 4 * (k * m) - 4 * (k * n) - 4 * (l * m) - 4 * (l * n) + 2
            * (m * n),
        (m - n) * (m - n) == m * m + n * n - 2 * (m * n),
{
}

/// Lagrange's identity in the differences from the first point.
proof fn lemma_lagrange(u: int, v: int, p: int, q: int)
    ensures
        (u * u + v * v + (u - v) * (u - v)) * (p * p + q * q + (p - q) * (p - q)) - (u * p + v
            * q + (u - v) * (p - q)) * (u * p + v * q + (u - v) * (p - q)) == 3 * ((u * q - v
            * p) * (u * q - v * p)),
{
    let a = u * u;
    let b = v * v;
    let c = u * v;
    let e = p * p;
    let f = q * q;
    let g = p * q;
    let k = u * p;
    let l = v * q;
    let m = u * q;
    let n = v * p;
    assert((u - v) * (u - v) == a + b - 2 * c) by (nonlinear_arith)
        requires
            a == u * u,
            b == v * v,
            c == u * v,
    ;
    assert((p - q) * (p - q) == e + f - 2 * g) by (nonlinear_arith)
        requires
            e == p * p,
            f == q * q,
            g == p * q,
    ;
    assert((u - v) * (p - q) == k + l - m - n) by (nonlinear_arith)
        requires
            k == u * p,
            l == v * q,
            m == u * q,
            n == v * p,
    ;
    lemma_expand_spreads(a, b, c, e, f, g);
    lemma_expand_covariation(k, l, m, n);
    lemma_regroup(u, u, p, p);
    lemma_regroup(u, u, q, q);
    lemma_regroup(u, u, p, q);
    lemma_regroup(v, v, p, p);
    lemma_regroup(v, v, q, q);
    lemma_regroup(v, v, p, q);
    lemma_regroup(u, v, p, p);
    lemma_regroup(u, v, q, q);
    lemma_regroup(u, v, p, q);
    assert(a * e == k * k);
    assert(a * f == m * m);
    assert(a * g == k * m);
    assert(b * e == n * n);
    assert(b * f == l * l);
    assert(b * g == n * l) by (nonlinear_arith)
        requires
            (v * v) * (p * q) == (v * p) * (v * q),
            b == v * v,
            g == p * q,
            n == v * p,
            l == v * q,
    ;
    assert(c * e == k * n);
    assert(c * f == m * l);
    assert(c * g == k * l);
    assert(c * g == m * n);
    assert(n * l == l * n) by (nonlinear_arith);
    assert(k * n == n * k) by (nonlinear_arith);
    assert(m * l == l * m) by (nonlinear_arith);
}

/// Lagrange's identity for three points: the product of the spreads exceeds
/// the squared covariation by three times the squared cross product.
pub proof fn lemma_spread_identity(x: Seq<int>, z: Seq<int>)
    ensures
        spread(x) * spread(z) - covariation(x, z) * covariation(x, z) == 3 * (cross(x, z)
            * cross(x, z)),
{
    let u = x[1] - x[0];
    let v = x[2] - x[0];
    let p = z[1] - z[0];
    let q = z[2] - z[0];
    lemma_lagrange(u, v, p, q);
    assert(spread(x) == u * u + v * v + (u - v) * (u - v)) by (nonlinear_arith)
        requires
            u == x[1] - x[0],
            v == x[2] - x[0],
            spread(x) == (x[0] - x[1]) * (x[0] - x[1]) + (x[0] - x[2]) * (x[0] - x[2]) + (x[1]
                - x[2]) * (x[1] - x[2]),
    ;
    assert(spread(z) == p * p + q * q + (p - q) * (p - q)) by (nonlinear_arith)
        requires
            p == z[1] - z[0],
            q == z[2] - z[0],
            spread(z) == (z[0] - z[1]) * (z[0] - z[1]) + (z[0] - z[2]) * (z[0] - z[2]) + (z[1]
                - z[2]) * (z[1] - z[2]),
    ;
    assert(covariation(x, z) == u * p + v * q + (u - v) * (p - q)) by (nonlinear_arith)
        requires
            u == x[1] - x[0],
            v == x[2] - x[0],
            p == z[1] - z[0],
            q == z[2] - z[0],
            covariation(x, z) == (x[0] - x[1]) * (z[0] - z[1]) + (x[0] - x[2]) * (z[0] - z[2])
                + (x[1] - x[2]) * (z[1] - z[2]),
    ;
    assert(cross(x, z) == u * q - v * p);
}

/// Largest spread that three values in range can have.
pub open spec fn spread_limit() -> int {
    12 * (COORD_LIMIT * COORD_LIMIT)
}

/// The squared difference of two values in range is bounded.
pub proof fn lemma_square_bound(a: int, b: int)
    by (nonlinear_arith)
    requires
        in_range(a),
        in_range(b),
    ensures
        0 <= (a - b) * (a - b) <= 4 * (COORD_LIMIT * COORD_LIMIT),
{
}

/// The product of two differences of values in range is bounded.
pub proof fn lemma_product_bound(a: int, b: int, c: int, d: int)
    by (nonlinear_arith)
    requires
        in_range(a),
        in_range(b),
        in_range(c),
        in_range(d),
    ensures
        -4 * (COORD_LIMIT * COORD_LIMIT) <= (a - b) * (c - d) <= 4 * (COORD_LIMIT
            * COORD_LIMIT),
{
}

/// The spread of three values in range is bounded.
pub proof fn lemma_spread_bound(x: Seq<int>)
    requires
        triple_in_range(x),
    ensures
        0 <= spread(x) <= spread_limit(),
        spread(x) == 0 <==> (x[0] == x[1] && x[1] == x[2]),
{
    lemma_square_bound(x[0], x[1]);
    lemma_square_bound(x[0], x[2]);
    lemma_square_bound(x[1], x[2]);
    assert((x[0] - x[1]) * (x[0] - x[1]) == 0 <==> x[0] == x[1]) by (nonlinear_arith);
    assert((x[0] - x[2]) * (x[0] - x[2]) == 0 <==> x[0] == x[2]) by (nonlinear_arith);
    assert((x[1] - x[2]) * (x[1] - x[2]) == 0 <==> x[1] == x[2]) by (nonlinear_arith);
}

} // verus!
