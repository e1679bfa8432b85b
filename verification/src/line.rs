//! The least-squares line of one event, in exact fractions, and the laws
//! that make it the least-squares line.
//!
//! The line is found in whole numbers, so nothing is rounded: samples that
//! lie close together are fitted as reliably as samples that lie far apart,
//! and only samples that coincide have no line.

use vstd::prelude::*;
use vstd::arithmetic::div_mod::lemma_div_multiples_vanish_quotient;
use vstd::arithmetic::mul::lemma_mul_is_associative;
use crate::algebra::{
    lemma_product_of_differences,
    lemma_product_of_sums,
    lemma_regroup,
    lemma_scaled_product,
    lemma_spread_out,
    lemma_square_of_sum,
    lemma_times_difference,
    lemma_times_sum,
};
use crate::error::FitError;
use crate::fit::{track_cost_of, track_fault};
use crate::geometry::{
    covariation,
    cross,
    ints,
    lemma_product_bound,
    lemma_spread_bound,
    lemma_spread_identity,
    spread,
    within,
    COORD_LIMIT,
};

verus! {

/// A straight line `z = slope * x + intercept` whose slope is
/// `rise / spread` and whose intercept is `lift / (3 * spread)`.
#[derive(Debug, Clone, Copy, PartialEq, Eq)]
pub struct Line {
    /// Numerator of the slope.
    pub rise: i128,
    /// Numerator of the intercept.
    pub lift: i128,
    /// Denominator of the slope, positive.
    pub spread: i128,
}

/// A line as mathematical integers.
pub struct LineModel {
    /// Numerator of the slope.
    pub rise: int,
    /// Numerator of the intercept.
    pub lift: int,
    /// Denominator of the slope.
    pub spread: int,
}

impl View for Line {
    type V = LineModel;

    open spec fn view(&self) -> LineModel {
        LineModel { rise: self.rise as int, lift: self.lift as int, spread: self.spread as int }
    }
}

/// Sum of three values.
pub open spec fn sum3(x: Seq<int>) -> int {
    x[0] + x[1] + x[2]
}

/// The least-squares line of depth on the samples: its slope is the
/// covariation over the spread, and it passes through the point of the means.
pub open spec fn line_of(x: Seq<int>, z: Seq<int>) -> LineModel {
    LineModel {
        rise: covariation(x, z),
        lift: spread(x) * sum3(z) - covariation(x, z) * sum3(x),
        spread: spread(x),
    }
}

/// The fitted line, or the reason why there is none.
pub open spec fn fit_spec(x: Seq<int>, z: Seq<int>) -> Result<LineModel, FitError> {
    match track_fault(x, z) {
        Some(e) => Err(e),
        None => Ok(line_of(x, z)),
    }
}

/// The depth residual that the line leaves at the point `(xi, zi)`,
/// multiplied by three times the line's spread.
pub open spec fn residual_scaled(l: LineModel, xi: int, zi: int) -> int {
    3 * (l.spread * zi) - 3 * (l.rise * xi) - l.lift
}

/// The depth residual that the line of slope `p / d` and intercept `q / d`
/// leaves at the point `(xi, zi)`, multiplied by `d`.
pub open spec fn miss(p: int, q: int, d: int, xi: int, zi: int) -> int {
    d * zi - p * xi - q
}

/// The covariation in terms of the sums of the samples and of their products.
proof fn lemma_sums(x: Seq<int>, z: Seq<int>)
    requires
        x.len() == 3,
        z.len() == 3,
    ensures
        covariation(x, z) == 3 * (x[0] * z[0] + x[1] * z[1] + x[2] * z[2]) - sum3(x) * sum3(z),
{
    lemma_product_of_differences(x[0], x[1], z[0], z[1]);
    lemma_product_of_differences(x[0], x[2], z[0], z[2]);
    lemma_product_of_differences(x[1], x[2], z[1], z[2]);
    lemma_product_of_sums(x[0], x[1], x[2], z[0], z[1], z[2]);
}

/// A scaled residual times `w`, multiplied out.
proof fn lemma_residual_times(a: int, b: int, k: int, xi: int, zi: int, w: int)
    ensures
        (3 * (a * zi) - 3 * (b * xi) - k) * w == 3 * (a * (zi * w)) - 3 * (b * (xi * w)) - k * w,
{
    lemma_times_difference(3 * (a * zi), 3 * (b * xi), k, w);
    lemma_scaled_product(a, zi, w);
    lemma_scaled_product(b, xi, w);
}

/// The residuals of the fitted line sum to zero, and so do their products
/// with the samples: the normal equations of the least-squares problem.
pub proof fn lemma_normal_equations(x: Seq<int>, z: Seq<int>)
    requires
        x.len() == 3,
        z.len() == 3,
    ensures
        residual_scaled(line_of(x, z), x[0], z[0]) + residual_scaled(line_of(x, z), x[1], z[1])
            + residual_scaled(line_of(x, z), x[2], z[2]) == 0,
        residual_scaled(line_of(x, z), x[0], z[0]) * x[0] + residual_scaled(
            line_of(x, z),
            x[1],
            z[1],
        ) * x[1] + residual_scaled(line_of(x, z), x[2], z[2]) * x[2] == 0,
{
    let a = spread(x);
    let b = covariation(x, z);
    let sx = sum3(x);
    let sz = sum3(z);
    let k = a * sz - b * sx;
    let l = line_of(x, z);
    let r0 = residual_scaled(l, x[0], z[0]);
    let r1 = residual_scaled(l, x[1], z[1]);
    let r2 = residual_scaled(l, x[2], z[2]);
    let sxx = x[0] * x[0] + x[1] * x[1] + x[2] * x[2];
    let sxz = x[0] * z[0] + x[1] * z[1] + x[2] * z[2];
    lemma_sums(x, z);
    lemma_sums(x, x);
    assert(covariation(x, x) == a);
    // The residuals sum to zero.
    lemma_spread_out(a, z[0], z[1], z[2]);
    lemma_spread_out(b, x[0], x[1], x[2]);
    assert(r0 + r1 + r2 == 3 * (a * sz) - 3 * (b * sx) - 3 * k);
    // Their products with the samples sum to zero.
    lemma_residual_times(a, b, k, x[0], z[0], x[0]);
    lemma_residual_times(a, b, k, x[1], z[1], x[1]);
    lemma_residual_times(a, b, k, x[2], z[2], x[2]);
    lemma_spread_out(a, z[0] * x[0], z[1] * x[1], z[2] * x[2]);
    lemma_spread_out(b, x[0] * x[0], x[1] * x[1], x[2] * x[2]);
    lemma_spread_out(k, x[0], x[1], x[2]);
    lemma_times_sum(z[0], x[0], 0);
    lemma_times_sum(z[1], x[1], 0);
    lemma_times_sum(z[2], x[2], 0);
    assert(z[0] * x[0] + z[1] * x[1] + z[2] * x[2] == sxz);
    assert(r0 * x[0] + r1 * x[1] + r2 * x[2] == 3 * (a * sxz) - 3 * (b * sxx) - k * sx);
    // k * sx == a * (sz * sx) - b * (sx * sx)
    lemma_times_sum(sx, a * sz, b * sx);
    lemma_mul_is_associative(a, sz, sx);
    lemma_mul_is_associative(b, sx, sx);
    assert(k * sx == a * (sz * sx) - b * (sx * sx));
    lemma_times_sum(a, 3 * sxz, sz * sx);
    lemma_times_sum(b, 3 * sxx, sx * sx);
    lemma_times_sum(sz, sx, 0);
    lemma_times_sum(a, b, 0);
    assert(a * (3 * sxz) == 3 * (a * sxz)) by (nonlinear_arith);
    assert(b * (3 * sxx) == 3 * (b * sxx)) by (nonlinear_arith);
}

/// The square of `a * s - b * t`, multiplied out.
proof fn lemma_square_of_difference(a: int, b: int, s: int, t: int)
    ensures
        (a * s - b * t) * (a * s - b * t) == (a * a) * (s * s) - 2 * ((a * b) * (s * t)) + (b
            * b) * (t * t),
{
    lemma_square_of_sum(a * s, b * t);
    lemma_regroup(a, s, a, s);
    lemma_regroup(a, s, b, t);
    lemma_regroup(b, t, b, t);
}

/// The products of the deviations from the means, scaled by three, sum to
/// three times the covariation.
proof fn lemma_centred(x: Seq<int>, z: Seq<int>)
    requires
        x.len() == 3,
        z.len() == 3,
    ensures
        (3 * x[0] - sum3(x)) * (3 * z[0] - sum3(z)) + (3 * x[1] - sum3(x)) * (3 * z[1] - sum3(
            z,
        )) + (3 * x[2] - sum3(x)) * (3 * z[2] - sum3(z)) == 3 * covariation(x, z),
{
    let s = sum3(x);
    let t = sum3(z);
    lemma_centred_product(x[0], s, z[0], t);
    lemma_centred_product(x[1], s, z[1], t);
    lemma_centred_product(x[2], s, z[2], t);
    lemma_spread_out(t, x[0], x[1], x[2]);
    lemma_spread_out(s, z[0], z[1], z[2]);
    lemma_times_sum(s, t, 0);
    lemma_times_sum(x[0], t, 0);
    lemma_times_sum(x[1], t, 0);
    lemma_times_sum(x[2], t, 0);
    lemma_sums(x, z);
}

/// The product of two scaled deviations, multiplied out.
proof fn lemma_centred_product(a: int, s: int, p: int, t: int)
    by (nonlinear_arith)
    ensures
        (3 * a - s) * (3 * p - t) == 9 * (a * p) - 3 * (a * t) - 3 * (s * p) + s * t,
{
}

/// A scaled residual in terms of the deviations from the means.
proof fn lemma_centred_residual(a: int, b: int, xi: int, zi: int, sx: int, sz: int)
    ensures
        3 * (a * zi) - 3 * (b * xi) - (a * sz - b * sx) == a * (3 * zi - sz) - b * (3 * xi - sx),
{
    lemma_times_sum(a, 3 * zi, sz);
    lemma_times_sum(b, 3 * xi, sx);
    assert(a * (3 * zi) == 3 * (a * zi)) by (nonlinear_arith);
    assert(b * (3 * xi) == 3 * (b * xi)) by (nonlinear_arith);
}

/// The sum of the squared residuals, collected into one product.
proof fn lemma_collect(a: int, b: int, c: int)
    ensures
        (a * a) * (3 * c) - 2 * ((a * b) * (3 * b)) + (b * b) * (3 * a) == 3 * (a * (a * c - b
            * b)),
{
    let ac = a * c;
    let bb = b * b;
    assert((a * a) * (3 * c) == 3 * (a * ac)) by (nonlinear_arith)
        requires
            ac == a * c,
    ;
    assert((a * b) * (3 * b) == 3 * (a * bb)) by (nonlinear_arith)
        requires
            bb == b * b,
    ;
    assert((b * b) * (3 * a) == 3 * (a * bb)) by (nonlinear_arith)
        requires
            bb == b * b,
    ;
    lemma_times_sum(a, ac, bb);
}

/// The squared residuals of the fitted line, each multiplied by three times
/// the spread, sum to nine times the spread times the squared cross product:
/// the sum of the squared residuals is the squared cross product over the
/// spread.
pub proof fn lemma_residual_sum(x: Seq<int>, z: Seq<int>)
    requires
        x.len() == 3,
        z.len() == 3,
    ensures
        residual_scaled(line_of(x, z), x[0], z[0]) * residual_scaled(line_of(x, z), x[0], z[0])
            + residual_scaled(line_of(x, z), x[1], z[1]) * residual_scaled(
            line_of(x, z),
            x[1],
            z[1],
        ) + residual_scaled(line_of(x, z), x[2], z[2]) * residual_scaled(
            line_of(x, z),
            x[2],
            z[2],
        ) == 9 * (spread(x) * (cross(x, z) * cross(x, z))),
{
    let a = spread(x);
    let b = covariation(x, z);
    let c = spread(z);
    let d = cross(x, z);
    let sx = sum3(x);
    let sz = sum3(z);
    let l = line_of(x, z);
    let r0 = residual_scaled(l, x[0], z[0]);
    let r1 = residual_scaled(l, x[1], z[1]);
    let r2 = residual_scaled(l, x[2], z[2]);
    let (s0, s1, s2) = (3 * z[0] - sz, 3 * z[1] - sz, 3 * z[2] - sz);
    let (t0, t1, t2) = (3 * x[0] - sx, 3 * x[1] - sx, 3 * x[2] - sx);
    lemma_centred_residual(a, b, x[0], z[0], sx, sz);
    lemma_centred_residual(a, b, x[1], z[1], sx, sz);
    lemma_centred_residual(a, b, x[2], z[2], sx, sz);
    lemma_square_of_difference(a, b, s0, t0);
    lemma_square_of_difference(a, b, s1, t1);
    lemma_square_of_difference(a, b, s2, t2);
    lemma_spread_out(a * a, s0 * s0, s1 * s1, s2 * s2);
    lemma_spread_out(a * b, s0 * t0, s1 * t1, s2 * t2);
    lemma_spread_out(b * b, t0 * t0, t1 * t1, t2 * t2);
    lemma_centred(z, z);
    lemma_centred(z, x);
    lemma_centred(x, x);
    assert(covariation(z, z) == c);
    assert(covariation(x, x) == a);
    lemma_times_sum(x[0] - x[1], z[0] - z[1], 0);
    lemma_times_sum(x[0] - x[2], z[0] - z[2], 0);
    lemma_times_sum(x[1] - x[2], z[1] - z[2], 0);
    assert(covariation(z, x) == b);
    assert(r0 * r0 + r1 * r1 + r2 * r2 == (a * a) * (3 * c) - 2 * ((a * b) * (3 * b)) + (b * b)
        * (3 * a));
    lemma_spread_identity(x, z);
    assert((a * a) * (3 * c) - 2 * ((a * b) * (3 * b)) + (b * b) * (3 * a) == 3 * (a * (a * c
        - b * b))) by {
        lemma_collect(a, b, c);
    }
    assert(3 * (a * (a * c - b * b)) == 9 * (a * (d * d))) by (nonlinear_arith)
        requires
            a * c - b * b == 3 * (d * d),
    ;
}

/// Three times the spread times a line's miss at a point is the fitted
/// line's scaled residual there, times the line's denominator, plus a term
/// that is linear in the sample.
proof fn lemma_miss_split(
    a: int,
    b: int,
    lift: int,
    p: int,
    q: int,
    d: int,
    xi: int,
    zi: int,
)
    ensures
        3 * (a * (d * zi - p * xi - q)) == d * (3 * (a * zi) - 3 * (b * xi) - lift) + (3 * (d
            * b) - 3 * (p * a)) * xi + (d * lift - 3 * (a * q)),
{
    lemma_times_sum(a, d * zi - p * xi, q);
    lemma_times_sum(a, d * zi, p * xi);
    lemma_times_sum(d, 3 * (a * zi) - 3 * (b * xi), lift);
    lemma_times_sum(d, 3 * (a * zi), 3 * (b * xi));
    lemma_times_sum(xi, 3 * (d * b), 3 * (p * a));
    assert(a * (d * zi) == d * (a * zi)) by (nonlinear_arith);
    assert(d * (3 * (a * zi)) == 3 * (d * (a * zi))) by (nonlinear_arith);
    assert(d * (3 * (b * xi)) == 3 * (d * (b * xi))) by (nonlinear_arith);
    assert((3 * (d * b)) * xi == 3 * (d * (b * xi))) by (nonlinear_arith);
    assert((3 * (p * a)) * xi == 3 * (a * (p * xi))) by (nonlinear_arith);
}

/// The square of `d * r + t`, multiplied out.
proof fn lemma_square_split(d: int, r: int, t: int)
    ensures
        (d * r + t) * (d * r + t) == (d * d) * (r * r) + 2 * (d * (r * t)) + t * t,
{
    lemma_square_of_sum(d * r, t);
    lemma_regroup(d, r, d, r);
    lemma_mul_is_associative(d, r, t);
}

/// No straight line leaves a smaller sum of squared depth residuals than
/// the fitted line: for the line of slope `p / d` and intercept `q / d`, the
/// sum of the squared residuals, times the spread of the samples, is at
/// least the squared cross product. The fitted line attains this bound.
pub proof fn lemma_least_squares(x: Seq<int>, z: Seq<int>, p: int, q: int, d: int)
    requires
        x.len() == 3,
        z.len() == 3,
    ensures
        spread(x) * (miss(p, q, d, x[0], z[0]) * miss(p, q, d, x[0], z[0]) + miss(
            p,
            q,
            d,
            x[1],
            z[1],
        ) * miss(p, q, d, x[1], z[1]) + miss(p, q, d, x[2], z[2]) * miss(p, q, d, x[2], z[2]))
            >= (d * d) * (cross(x, z) * cross(x, z)),
{
    let a = spread(x);
    let b = covariation(x, z);
    let l = line_of(x, z);
    let dd = cross(x, z) * cross(x, z);
    let r0 = residual_scaled(l, x[0], z[0]);
    let r1 = residual_scaled(l, x[1], z[1]);
    let r2 = residual_scaled(l, x[2], z[2]);
    let e0 = miss(p, q, d, x[0], z[0]);
    let e1 = miss(p, q, d, x[1], z[1]);
    let e2 = miss(p, q, d, x[2], z[2]);
    let alpha = 3 * (d * b) - 3 * (p * a);
    let beta = d * l.lift - 3 * (a * q);
    let t0 = alpha * x[0] + beta;
    let t1 = alpha * x[1] + beta;
    let t2 = alpha * x[2] + beta;
    let ee = e0 * e0 + e1 * e1 + e2 * e2;
    // All x equal: the cross product vanishes and the spread is zero.
    lemma_square_of_sum(x[0] - x[1], 0);
    lemma_square_of_sum(x[0] - x[2], 0);
    lemma_square_of_sum(x[1] - x[2], 0);
    lemma_square_of_sum(e0, 0);
    lemma_square_of_sum(e1, 0);
    lemma_square_of_sum(e2, 0);
    lemma_square_of_sum(cross(x, z), 0);
    assert(a >= 0 && ee >= 0 && dd >= 0);
    if a == 0 {
        lemma_spread_identity(x, z);
        lemma_square_of_sum(b, 0);
        assert(a * spread(z) == 0) by (nonlinear_arith)
            requires
                a == 0,
        ;
        assert(dd == 0);
        assert(a * ee == 0) by (nonlinear_arith)
            requires
                a == 0,
        ;
        assert((d * d) * dd == 0) by (nonlinear_arith)
            requires
                dd == 0,
        ;
    } else {
        lemma_miss_split(a, b, l.lift, p, q, d, x[0], z[0]);
        lemma_miss_split(a, b, l.lift, p, q, d, x[1], z[1]);
        lemma_miss_split(a, b, l.lift, p, q, d, x[2], z[2]);
        assert(3 * (a * e0) == d * r0 + t0);
        assert(3 * (a * e1) == d * r1 + t1);
        assert(3 * (a * e2) == d * r2 + t2);
        lemma_square_split(d, r0, t0);
        lemma_square_split(d, r1, t1);
        lemma_square_split(d, r2, t2);
        // The cross terms vanish by the normal equations.
        lemma_normal_equations(x, z);
        lemma_cross_term(r0, alpha, beta, x[0]);
        lemma_cross_term(r1, alpha, beta, x[1]);
        lemma_cross_term(r2, alpha, beta, x[2]);
        lemma_spread_out(alpha, r0 * x[0], r1 * x[1], r2 * x[2]);
        lemma_spread_out(beta, r0, r1, r2);
        assert(alpha * 0 == 0 && beta * 0 == 0) by (nonlinear_arith);
        assert(r0 * t0 + r1 * t1 + r2 * t2 == 0);
        lemma_spread_out(d, r0 * t0, r1 * t1, r2 * t2);
        assert(d * 0 == 0) by (nonlinear_arith);
        lemma_spread_out(d * d, r0 * r0, r1 * r1, r2 * r2);
        lemma_residual_sum(x, z);
        lemma_square_of_sum(t0, 0);
        lemma_square_of_sum(t1, 0);
        lemma_square_of_sum(t2, 0);
        let rr = r0 * r0 + r1 * r1 + r2 * r2;
        let lhs = (3 * (a * e0)) * (3 * (a * e0)) + (3 * (a * e1)) * (3 * (a * e1)) + (3 * (a
            * e2)) * (3 * (a * e2));
        assert(lhs == (d * d) * rr + t0 * t0 + t1 * t1 + t2 * t2);
        assert(lhs >= (d * d) * (9 * (a * dd)));
        lemma_scaled_square(a, e0);
        lemma_scaled_square(a, e1);
        lemma_scaled_square(a, e2);
        lemma_spread_out(a * a, e0 * e0, e1 * e1, e2 * e2);
        assert(lhs == 9 * ((a * a) * ee));
        assert((d * d) * (9 * (a * dd)) == 9 * (a * ((d * d) * dd))) by (nonlinear_arith);
        assert((a * a) * ee == a * (a * ee)) by (nonlinear_arith);
        assert(a * ee >= (d * d) * dd) by (nonlinear_arith)
            requires
                a * (a * ee) >= a * ((d * d) * dd),
                a > 0,
        ;
    }
}

/// A residual times a term linear in the sample, multiplied out.
proof fn lemma_cross_term(r: int, alpha: int, beta: int, xi: int)
    ensures
        r * (alpha * xi + beta) == alpha * (r * xi) + beta * r,
{
    lemma_times_sum(r, alpha * xi, beta);
    assert(r * (alpha * xi) == alpha * (r * xi)) by (nonlinear_arith);
}

/// The square of three times a product.
proof fn lemma_scaled_square(a: int, e: int)
    ensures
        (3 * (a * e)) * (3 * (a * e)) == 9 * ((a * a) * (e * e)),
{
    lemma_regroup(a, e, a, e);
    let m = a * e;
    assert((3 * m) * (3 * m) == 9 * (m * m)) by (nonlinear_arith);
}

/// The cost of an event is the sum of the squared residuals of its fitted
/// line, rounded down: each residual is its scaled value over three times
/// the spread.
pub proof fn lemma_cost_is_residual_sum(x: Seq<int>, z: Seq<int>)
    requires
        x.len() == 3,
        z.len() == 3,
        spread(x) > 0,
    ensures
        track_cost_of(x, z) == (residual_scaled(line_of(x, z), x[0], z[0]) * residual_scaled(
            line_of(x, z),
            x[0],
            z[0],
        ) + residual_scaled(line_of(x, z), x[1], z[1]) * residual_scaled(
            line_of(x, z),
            x[1],
            z[1],
        ) + residual_scaled(line_of(x, z), x[2], z[2]) * residual_scaled(
            line_of(x, z),
            x[2],
            z[2],
        )) / ((3 * spread(x)) * (3 * spread(x))),
{
    let a = spread(x);
    let dd = cross(x, z) * cross(x, z);
    lemma_residual_sum(x, z);
    lemma_square_of_sum(cross(x, z), 0);
    assert(9 * (a * dd) == (9 * a) * dd) by (nonlinear_arith);
    assert((3 * a) * (3 * a) == (9 * a) * a) by (nonlinear_arith);
    lemma_div_multiples_vanish_quotient(9 * a, dd, a);
}

/// Fits the straight line of depth on the samples of one event by least
/// squares and returns its slope and intercept as exact fractions.
pub fn fit_line(x: &Vec<i64>, z: &Vec<i64>) -> (res: Result<Line, FitError>)
    requires
        x.len() == 3,
        z.len() == 3,
    ensures
        res matches Ok(l) ==> fit_spec(ints(x@), ints(z@)) == Ok::<LineModel, FitError>(l@),
        res matches Err(e) ==> fit_spec(ints(x@), ints(z@)) == Err::<LineModel, FitError>(e),
        res matches Ok(l) ==> l.spread > 0,
{
    let ghost xs = ints(x@);
    let ghost zs = ints(z@);
    if !(within(x[0]) && within(x[1]) && within(x[2]) && within(z[0]) && within(z[1])
        && within(z[2])) {
        return Err(FitError::OutOfRange);
    }
    let x0: i128 = x[0] as i128;
    let x1: i128 = x[1] as i128;
    let x2: i128 = x[2] as i128;
    let z0: i128 = z[0] as i128;
    let z1: i128 = z[1] as i128;
    let z2: i128 = z[2] as i128;
    proof {
        assert(COORD_LIMIT * COORD_LIMIT == 0x1_0000_0000_0000_0000_0000) by (nonlinear_arith);
        lemma_spread_bound(xs);
        lemma_product_bound(xs[0], xs[1], xs[0], xs[1]);
        lemma_product_bound(xs[0], xs[2], xs[0], xs[2]);
        lemma_product_bound(xs[1], xs[2], xs[1], xs[2]);
        lemma_product_bound(xs[0], xs[1], zs[0], zs[1]);
        lemma_product_bound(xs[0], xs[2], zs[0], zs[2]);
        lemma_product_bound(xs[1], xs[2], zs[1], zs[2]);
    }
    let a: i128 = (x0 - x1) * (x0 - x1) + (x0 - x2) * (x0 - x2) + (x1 - x2) * (x1 - x2);
    if a == 0 {
        return Err(FitError::Degenerate);
    }
    let b: i128 = (x0 - x1) * (z0 - z1) + (x0 - x2) * (z0 - z2) + (x1 - x2) * (z1 - z2);
    let sx: i128 = x0 + x1 + x2;
    let sz: i128 = z0 + z1 + z2;
    proof {
        lemma_lift_bound(a as int, sz as int);
        lemma_lift_bound(b as int, sx as int);
    }
    Ok(Line { rise: b, lift: a * sz - b * sx, spread: a })
}

/// The products that the intercept is made of fit the machine word.
proof fn lemma_lift_bound(a: int, s: int)
    by (nonlinear_arith)
    requires
        -0xc_0000_0000_0000_0000_0000 <= a <= 0xc_0000_0000_0000_0000_0000,
        -0x300_0000_0000 <= s <= 0x300_0000_0000,
    ensures
        -0x2400_0000_0000_0000_0000_0000_0000_0000 <= a * s
            <= 0x2400_0000_0000_0000_0000_0000_0000_0000,
{
}

} // verus!

