//! Leave-one-out diagnostics: how far each plane's sample lies from the
//! straight line through the samples of the other two planes.

use vstd::prelude::*;
use crate::error::FitError;
use crate::eventset::{grid, three_planes};
use crate::geometry::{
    collinear,
    cross,
    ints,
    lemma_product_bound,
    triple_in_range,
    within,
    COORD_LIMIT,
};

verus! {

/// An exact fraction of ticks, with a positive denominator.
#[derive(Debug, Clone, Copy, PartialEq, Eq)]
pub struct Residual {
    /// Numerator, in square ticks.
    pub num: i128,
    /// Denominator, in ticks.
    pub den: i128,
}

/// Index of the plane that follows plane `i` cyclically.
pub open spec fn next_plane(i: int) -> int {
    (i + 1) % 3
}

/// Index of the plane that precedes plane `i` cyclically.
pub open spec fn prev_plane(i: int) -> int {
    (i + 2) % 3
}

/// Depth difference of the two planes that the line for plane `i` is drawn
/// through.
pub open spec fn baseline(z: Seq<int>, i: int) -> int {
    z[next_plane(i)] - z[prev_plane(i)]
}

/// The leave-one-out residual of plane `i`, multiplied by the baseline: the
/// line through the samples of the other two planes, evaluated at the depth
/// of plane `i`, less the sample of plane `i`.
pub open spec fn residual_times_baseline(x: Seq<int>, z: Seq<int>, i: int) -> int {
    let j = next_plane(i);
    let k = prev_plane(i);
    (x[j] - x[i]) * (z[j] - z[k]) + (x[j] - x[k]) * (z[i] - z[j])
}

/// The leave-one-out residual of plane `i` as a fraction with a positive
/// denominator.
pub open spec fn residual_of(x: Seq<int>, z: Seq<int>, i: int) -> (int, int) {
    if baseline(z, i) > 0 {
        (residual_times_baseline(x, z, i), baseline(z, i))
    } else {
        (-residual_times_baseline(x, z, i), -baseline(z, i))
    }
}

/// What is wrong with the depths, if anything: magnitudes are looked at
/// first, coinciding planes second.
pub open spec fn depths_fault(z: Seq<int>) -> Option<FitError> {
    if !triple_in_range(z) {
        Some(FitError::OutOfRange)
    } else if z[0] == z[1] || z[0] == z[2] || z[1] == z[2] {
        Some(FitError::Degenerate)
    } else {
        None
    }
}

/// What stands in the way of the diagnostics, if anything: a fault of the
/// depths, or else a sample beyond the accepted magnitude.
pub open spec fn residuals_fault(rows: Seq<Seq<int>>, z: Seq<int>) -> Option<FitError> {
    match depths_fault(z) {
        Some(e) => Some(e),
        None => if forall|i: int| 0 <= i < rows.len() ==> triple_in_range(#[trigger] rows[i]) {
            None
        } else {
            Some(FitError::OutOfRange)
        },
    }
}

impl View for Residual {
    type V = (int, int);

    open spec fn view(&self) -> (int, int) {
        (self.num as int, self.den as int)
    }
}

/// Every leave-one-out residual, multiplied by its baseline, is the cross
/// product of the three points with its sign reversed.
pub proof fn lemma_residual_is_cross(x: Seq<int>, z: Seq<int>, i: int)
    requires
        0 <= i < 3,
    ensures
        residual_times_baseline(x, z, i) == -cross(x, z),
{
    let u = x[1] - x[0];
    let v = x[2] - x[0];
    let p = z[1] - z[0];
    let q = z[2] - z[0];
    assert(cross(x, z) == u * q - v * p);
    if i == 0 {
        assert(residual_times_baseline(x, z, 0) == u * (p - q) + (u - v) * (-p));
        assert(u * (p - q) + (u - v) * (-p) == v * p - u * q) by (nonlinear_arith);
    } else if i == 1 {
        assert(residual_times_baseline(x, z, 1) == (v - u) * q + v * (p - q));
        assert((v - u) * q + v * (p - q) == v * p - u * q) by (nonlinear_arith);
    } else {
        assert(residual_times_baseline(x, z, 2) == (-v) * (-p) + (-u) * q);
        assert((-v) * (-p) + (-u) * q == v * p - u * q) by (nonlinear_arith);
    }
}

/// For three points on one straight line every leave-one-out residual is
/// zero, and where one residual is zero the points lie on one line.
pub proof fn lemma_collinear_residuals(x: Seq<int>, z: Seq<int>, i: int)
    requires
        0 <= i < 3,
    ensures
        collinear(x, z) <==> residual_of(x, z, i).0 == 0,
{
    lemma_residual_is_cross(x, z, i);
}

/// `res` is what the diagnostics of the events `rows` at the depths `z` come
/// to: the fault that stands in their way, or one row per event holding the
/// residual of each plane.
pub open spec fn diagnoses(
    res: Result<Vec<Vec<Residual>>, FitError>,
    rows: Seq<Seq<int>>,
    z: Seq<int>,
) -> bool {
    match res {
        Err(e) => residuals_fault(rows, z) == Some(e),
        Ok(out) => {
            &&& residuals_fault(rows, z) is None
            &&& out@.len() == rows.len()
            &&& forall|i: int|
                0 <= i < out@.len() ==> {
                    &&& (#[trigger] out@[i])@.len() == 3
                    &&& forall|p: int|
                        0 <= p < 3 ==> (#[trigger] out@[i]@[p])@ == residual_of(rows[i], z, p)
                }
        },
    }
}

/// Where every event lies on one straight line, every residual that the
/// diagnostics hold is zero.
pub proof fn lemma_collinear_diagnosis(
    res: Result<Vec<Vec<Residual>>, FitError>,
    rows: Seq<Seq<int>>,
    z: Seq<int>,
)
    requires
        diagnoses(res, rows, z),
        res is Ok,
        forall|i: int| 0 <= i < rows.len() ==> collinear(#[trigger] rows[i], z),
    ensures
        forall|i: int, p: int|
            0 <= i < rows.len() && 0 <= p < 3 ==> (#[trigger] res->Ok_0@[i]@[p]).num == 0,
{
    let out = res->Ok_0;
    assert forall|i: int, p: int| 0 <= i < rows.len() && 0 <= p < 3 implies (
    #[trigger] out@[i]@[p]).num == 0 by {
        lemma_collinear_residuals(rows[i], z, p);
        assert(out@[i]@[p]@ == residual_of(rows[i], z, p));
    }
}

/// The leave-one-out residual of plane `plane` of one event.
fn leave_one_out(x: &Vec<i64>, z: &Vec<i64>, plane: usize) -> (res: Residual)
    requires
        plane < 3,
        triple_in_range(ints(x@)),
        depths_fault(ints(z@)) is None,
    ensures
        res@ == residual_of(ints(x@), ints(z@), plane as int),
        res.den > 0,
{
    let j: usize = (plane + 1) % 3;
    let k: usize = (plane + 2) % 3;
    let xi: i128 = x[plane] as i128;
    let xj: i128 = x[j] as i128;
    let xk: i128 = x[k] as i128;
    let zi: i128 = z[plane] as i128;
    let zj: i128 = z[j] as i128;
    let zk: i128 = z[k] as i128;
    proof {
        assert(COORD_LIMIT * COORD_LIMIT == 0x1_0000_0000_0000_0000_0000) by (nonlinear_arith);
        lemma_product_bound(xj as int, xi as int, zj as int, zk as int);
        lemma_product_bound(xj as int, xk as int, zi as int, zj as int);
    }
    let num: i128 = (xj - xi) * (zj - zk) + (xj - xk) * (zi - zj);
    let den: i128 = zj - zk;
    if den > 0 {
        Residual { num, den }
    } else {
        Residual { num: -num, den: -den }
    }
}

/// The depths can carry the diagnostics.
fn depths_usable(z: &Vec<i64>) -> (res: Result<(), FitError>)
    requires
        z.len() == 3,
    ensures
        res is Ok ==> depths_fault(ints(z@)) is None,
        res matches Err(e) ==> depths_fault(ints(z@)) == Some(e),
{
    if !(within(z[0]) && within(z[1]) && within(z[2])) {
        Err(FitError::OutOfRange)
    } else if z[0] == z[1] || z[0] == z[2] || z[1] == z[2] {
        Err(FitError::Degenerate)
    } else {
        Ok(())
    }
}

/// Collects the leave-one-out residuals of every event on one axis: for each
/// plane, the line through the samples of the other two planes is evaluated
/// at the plane's depth and the plane's own sample is subtracted. The result
/// holds one row per event and in it one exact fraction per plane.
pub fn collect_errors(data: &Vec<Vec<i64>>, z: &Vec<i64>) -> (res: Result<
    Vec<Vec<Residual>>,
    FitError,
>)
    requires
        three_planes(data@),
        z.len() == 3,
    ensures
        diagnoses(res, grid(data@), ints(z@)),
        res matches Ok(out) ==> forall|i: int, p: int|
            0 <= i < data@.len() && 0 <= p < 3 && collinear(grid(data@)[i], ints(z@)) ==> (
            #[trigger] out@[i]@[p]).num == 0,
{
    let ghost rows = grid(data@);
    let ghost zs = ints(z@);
    match depths_usable(z) {
        Err(e) => {
            return Err(e);
        },
        Ok(_) => {},
    }
    let n: usize = data.len();
    let mut out: Vec<Vec<Residual>> = Vec::new();
    let mut i: usize = 0;
    while i < n
        invariant
            0 <= i <= n,
            n == data.len(),
            rows == grid(data@),
            zs == ints(z@),
            three_planes(data@),
            z.len() == 3,
            depths_fault(zs) is None,
            out@.len() == i,
            forall|k: int| 0 <= k < i ==> triple_in_range(#[trigger] rows[k]),
            forall|k: int|
                0 <= k < i ==> {
                    &&& (#[trigger] out@[k])@.len() == 3
                    &&& forall|p: int|
                        0 <= p < 3 ==> (#[trigger] out@[k]@[p])@ == residual_of(rows[k], zs, p)
                },
        decreases n - i,
    {
        let row = &data[i];
        assert(rows[i as int] == ints(row@));
        if !(within(row[0]) && within(row[1]) && within(row[2])) {
            assert(!triple_in_range(rows[i as int]));
            return Err(FitError::OutOfRange);
        }
        let mut entry: Vec<Residual> = Vec::new();
        let mut p: usize = 0;
        while p < 3
            invariant
                0 <= p <= 3,
                row@.len() == 3,
                z.len() == 3,
                zs == ints(z@),
                triple_in_range(ints(row@)),
                depths_fault(zs) is None,
                entry@.len() == p,
                forall|q: int|
                    0 <= q < p ==> (#[trigger] entry@[q])@ == residual_of(ints(row@), zs, q),
            decreases 3 - p,
        {
            let r = leave_one_out(row, z, p);
            entry.push(r);
            p = p + 1;
        }
        out.push(entry);
        i = i + 1;
    }
    proof {
        assert forall|i: int, p: int|
            0 <= i < data@.len() && 0 <= p < 3 && collinear(rows[i], zs) implies (
        #[trigger] out@[i]@[p]).num == 0 by {
            lemma_collinear_residuals(rows[i], zs, p);
            assert(out@[i]@[p]@ == residual_of(rows[i], zs, p));
        }
    }
    Ok(out)
}

} // verus!
