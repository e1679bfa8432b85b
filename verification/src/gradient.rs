//! Sensitivity of the cost to a displacement of one plane.

use vstd::prelude::*;
use crate::error::FitError;
use crate::eventset::{grid, shifted, shifted_row, three_planes};
use crate::fit::{chi2_spec, displaced_cost, lemma_chi2_bound, lemma_first_fault_none, track_fault};
use crate::geometry::{ints, spread_limit, COORD_LIMIT};

verus! {

/// The quotient of `n` by a positive `d`, rounded toward zero.
pub open spec fn toward_zero(n: int, d: int) -> int {
    if n >= 0 {
        n / d
    } else {
        -((-n) / d)
    }
}

/// Central difference of the cost with respect to a displacement of plane
/// `target`: the cost with the plane displaced by `eps`, less the cost with
/// it displaced by `-eps`, over `2 * eps`, rounded toward zero. A probe that
/// has no cost fails the gradient, the forward probe first.
pub open spec fn gradient_spec(rows: Seq<Seq<int>>, z: Seq<int>, target: int, eps: int) -> Result<
    int,
    FitError,
> {
    if !(0 <= target < 3) || eps <= 0 {
        Err(FitError::InvalidSettings)
    } else {
        match chi2_spec(shifted(rows, target, eps), z) {
            Err(e) => Err(e),
            Ok(up) => match chi2_spec(shifted(rows, target, -eps), z) {
                Err(e) => Err(e),
                Ok(down) => Ok(toward_zero(up - down, 2 * eps)),
            },
        }
    }
}

/// A gradient is never larger in magnitude than the largest cost.
pub proof fn lemma_gradient_bound(rows: Seq<Seq<int>>, z: Seq<int>, target: int, eps: int)
    requires
        gradient_spec(rows, z, target, eps) is Ok,
    ensures
        -spread_limit() <= gradient_spec(rows, z, target, eps)->Ok_0 <= spread_limit(),
{
    let up = chi2_spec(shifted(rows, target, eps), z)->Ok_0;
    let down = chi2_spec(shifted(rows, target, -eps), z)->Ok_0;
    lemma_chi2_bound(shifted(rows, target, eps), z);
    lemma_chi2_bound(shifted(rows, target, -eps), z);
    lemma_toward_zero_bound(up - down, 2 * eps);
}

/// Rounding toward zero never increases a magnitude and keeps the sign.
pub proof fn lemma_toward_zero_bound(n: int, d: int)
    by (nonlinear_arith)
    requires
        d > 0,
    ensures
        n >= 0 ==> 0 <= toward_zero(n, d) <= n,
        n <= 0 ==> n <= toward_zero(n, d) <= 0,
{
}

/// Quotient of `n` by `d`, rounded toward zero.
pub(crate) fn div_toward_zero(n: i128, d: u128) -> (q: i128)
    requires
        d > 0,
        n > i128::MIN,
    ensures
        q == toward_zero(n as int, d as int),
{
    proof {
        lemma_toward_zero_bound(n as int, d as int);
    }
    if n >= 0 {
        ((n as u128) / d) as i128
    } else {
        -((((-n) as u128) / d) as i128)
    }
}

/// Estimates the derivative of the cost with respect to a displacement of
/// plane `target` by a central difference of width `epsilon` on either side.
/// The event set is only read: both probes are evaluated on the set as it
/// would be with the plane displaced, so no offset can be left behind.
pub fn gradient(data: &Vec<Vec<i64>>, z: &Vec<i64>, target: usize, epsilon: u32) -> (res: Result<
    i128,
    FitError,
>)
    requires
        three_planes(data@),
        z.len() == 3,
    ensures
        res matches Ok(g) ==> gradient_spec(grid(data@), ints(z@), target as int, epsilon as int)
            == Ok::<int, FitError>(g as int),
        res matches Err(e) ==> gradient_spec(grid(data@), ints(z@), target as int, epsilon as int)
            == Err::<int, FitError>(e),
{
    if target >= 3 || epsilon == 0 {
        return Err(FitError::InvalidSettings);
    }
    let eps: i64 = epsilon as i64;
    let up: u128 = match displaced_cost(data, z, target, eps) {
        Ok(c) => c,
        Err(e) => {
            return Err(e);
        },
    };
    let down: u128 = match displaced_cost(data, z, target, -eps) {
        Ok(c) => c,
        Err(e) => {
            return Err(e);
        },
    };
    proof {
        lemma_chi2_bound(shifted(grid(data@), target as int, eps as int), ints(z@));
        lemma_chi2_bound(shifted(grid(data@), target as int, -eps as int), ints(z@));
        assert(spread_limit() == 0xc_0000_0000_0000_0000_0000) by (nonlinear_arith);
    }
    let diff: i128 = up as i128 - down as i128;
    Ok(div_toward_zero(diff, 2 * (epsilon as u128)))
}

/// Where the gradient exists, the target plane of every event lies within
/// the accepted magnitude and there is at least one event.
pub proof fn lemma_gradient_needs_range(rows: Seq<Seq<int>>, z: Seq<int>, target: int, eps: int)
    requires
        gradient_spec(rows, z, target, eps) is Ok,
        forall|i: int| 0 <= i < rows.len() ==> (#[trigger] rows[i]).len() == 3,
    ensures
        rows.len() > 0,
        forall|i: int|
            0 <= i < rows.len() ==> -COORD_LIMIT <= (#[trigger] rows[i])[target] <= COORD_LIMIT,
{
    let up = shifted(rows, target, eps);
    lemma_first_fault_none(up, z, up.len());
    assert forall|i: int| 0 <= i < rows.len() implies -COORD_LIMIT <= (#[trigger] rows[i])[target]
        <= COORD_LIMIT by {
        assert(track_fault(up[i], z) is None);
        assert(up[i] == shifted_row(rows[i], target, eps));
        let down = shifted(rows, target, -eps);
        lemma_first_fault_none(down, z, down.len());
        assert(track_fault(down[i], z) is None);
        assert(down[i] == shifted_row(rows[i], target, -eps));
    }
}

/// The sign of the gradient tells which way the cost falls: where it is
/// positive the cost is lower behind than ahead, where it is negative the
/// cost is lower ahead than behind, and where both probes cost the same it
/// is zero.
pub proof fn lemma_gradient_sign(rows: Seq<Seq<int>>, z: Seq<int>, target: int, eps: int)
    requires
        gradient_spec(rows, z, target, eps) is Ok,
    ensures
        ({
            let up = chi2_spec(shifted(rows, target, eps), z)->Ok_0;
            let down = chi2_spec(shifted(rows, target, -eps), z)->Ok_0;
            let g = gradient_spec(rows, z, target, eps)->Ok_0;
            &&& g > 0 ==> up > down
            &&& g < 0 ==> up < down
            &&& up == down ==> g == 0
        }),
{
    let up = chi2_spec(shifted(rows, target, eps), z)->Ok_0;
    let down = chi2_spec(shifted(rows, target, -eps), z)->Ok_0;
    lemma_toward_zero_bound(up - down, 2 * eps);
}

} // verus!
