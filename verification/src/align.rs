//! Alignment of both axes: the two descents, then the diagnostics.

use vstd::prelude::*;
use crate::error::FitError;
use crate::eventset::{grid, shifted, three_planes};
use crate::geometry::ints;
use crate::optimizer::{descent_spec, gradient_descent, Descent, Settings};
use crate::residuals::{collect_errors, diagnoses, Residual};

verus! {

/// `rayon::join` runs both closures, possibly in parallel, and returns the
/// pair of their results: the first closure's first. Assumed, not proved:
/// that each closure is called once with its precondition as the only
/// demand, and that what comes back is what the closures returned. The call
/// panics where a closure panics or where the thread pool cannot be started;
/// the closures handed to it here are verified and do not panic.
pub assume_specification<A, B, RA, RB>[ rayon::join::<A, B, RA, RB> ](
    oper_a: A,
    oper_b: B,
) -> (res: (RA, RB))
    where
        A: FnOnce() -> RA + Send,
        B: FnOnce() -> RB + Send,
        RA: Send,
        RB: Send,
    requires
        oper_a.requires(()),
        oper_b.requires(()),
    ensures
        oper_a.ensures((), res.0),
        oper_b.ensures((), res.1),
;

/// One axis after alignment.
pub struct Axis {
    /// The samples, with the target plane displaced by the shift found.
    pub samples: Vec<Vec<i64>>,
    /// How the descent went.
    pub descent: Descent,
}

/// The corrected event set with its diagnostics.
pub struct Alignment {
    /// The horizontal axis after its descent.
    pub x: Axis,
    /// The vertical axis after its descent.
    pub y: Axis,
    /// Leave-one-out residuals of the corrected horizontal samples.
    pub x_errors: Result<Vec<Vec<Residual>>, FitError>,
    /// Leave-one-out residuals of the corrected vertical samples.
    pub y_errors: Result<Vec<Vec<Residual>>, FitError>,
}

/// `axis` is what the descent with the settings `cfg` makes of the samples
/// `before` at the depths `z`.
pub open spec fn aligned(axis: Axis, before: Seq<Vec<i64>>, z: Seq<i64>, cfg: Settings) -> bool {
    &&& axis.descent@ == descent_spec(grid(before), ints(z), cfg)
    &&& three_planes(axis.samples@)
    &&& axis.samples@.len() == before.len()
    &&& cfg.target < 3 ==> grid(axis.samples@) == shifted(
        grid(before),
        cfg.target as int,
        axis.descent.shift as int,
    )
    &&& cfg.target >= 3 ==> grid(axis.samples@) == grid(before)
}

/// Runs the descent on the samples of one axis and keeps both.
pub fn align_axis(samples: Vec<Vec<i64>>, z: &Vec<i64>, cfg: &Settings) -> (res: Axis)
    requires
        three_planes(samples@),
        z.len() == 3,
    ensures
        aligned(res, samples@, z@, *cfg),
{
    let mut samples = samples;
    let descent = gradient_descent(&mut samples, z, cfg);
    Axis { samples, descent }
}

/// Aligns the detector: runs the descent on the horizontal and on the
/// vertical samples as two independent tasks, each on its own data, and once
/// both are done collects the leave-one-out residuals of the corrected
/// samples, again one task per axis.
pub fn align_gems(x: Vec<Vec<i64>>, y: Vec<Vec<i64>>, z: &Vec<i64>, cfg: &Settings) -> (res:
    Alignment)
    requires
        three_planes(x@),
        three_planes(y@),
        z.len() == 3,
    ensures
        aligned(res.x, x@, z@, *cfg),
        aligned(res.y, y@, z@, *cfg),
        diagnoses(res.x_errors, grid(res.x.samples@), ints(z@)),
        diagnoses(res.y_errors, grid(res.y.samples@), ints(z@)),
{
    let ghost x0 = x@;
    let ghost y0 = y@;
    let run_x = move || -> (out: Axis)
        ensures
            aligned(out, x0, z@, *cfg),
        { align_axis(x, z, cfg) };
    let run_y = move || -> (out: Axis)
        ensures
            aligned(out, y0, z@, *cfg),
        { align_axis(y, z, cfg) };
    let (x_axis, y_axis) = rayon::join(run_x, run_y);
    let check_x = || -> (out: Result<Vec<Vec<Residual>>, FitError>)
        ensures
            diagnoses(out, grid(x_axis.samples@), ints(z@)),
        { collect_errors(&x_axis.samples, z) };
    let check_y = || -> (out: Result<Vec<Vec<Residual>>, FitError>)
        ensures
            diagnoses(out, grid(y_axis.samples@), ints(z@)),
        { collect_errors(&y_axis.samples, z) };
    let (x_errors, y_errors) = rayon::join(check_x, check_y);
    Alignment { x: x_axis, y: y_axis, x_errors, y_errors }
}

} // verus!
