//! Straight-line fit of one event and the cost of an event set.
//!
//! The fit regresses depth on the transverse coordinate: it looks for the
//! line `z = slope * x + intercept` that leaves the least sum of squared
//! depth residuals over the three planes.

use vstd::prelude::*;
use vstd::arithmetic::div_mod::{
    lemma_div_basics,
    lemma_div_is_ordered,
    lemma_div_multiples_vanish,
    lemma_fundamental_div_mod,
    lemma_fundamental_div_mod_converse,
};
use crate::error::FitError;
use crate::eventset::{
    grid,
    lemma_grid_rows,
    lemma_shifted_twice,
    lemma_shifted_zero,
    shifted,
    three_planes,
};
use crate::geometry::{
    collinear,
    covariation,
    cross,
    ints,
    lemma_product_bound,
    lemma_spread_bound,
    lemma_spread_identity,
    lemma_square_bound,
    spread,
    spread_limit,
    triple_in_range,
    within,
    COORD_LIMIT,
};
use crate::wide::square_div;

verus! {

/// What is wrong with the samples `x` of one event at depths `z`, if
/// anything: magnitudes are looked at first, degeneracy second.
pub open spec fn track_fault(x: Seq<int>, z: Seq<int>) -> Option<FitError> {
    if !triple_in_range(x) || !triple_in_range(z) {
        Some(FitError::OutOfRange)
    } else if spread(x) == 0 {
        Some(FitError::Degenerate)
    } else {
        None
    }
}

/// Sum over the three planes of the squared depth residual of the
/// least-squares line, rounded down to a whole number: the squared cross
/// product over the spread of the samples. That this is the sum of the
/// squared residuals, and that no line leaves less, is shown with the line
/// itself.
pub open spec fn track_cost_of(x: Seq<int>, z: Seq<int>) -> int {
    (cross(x, z) * cross(x, z)) / spread(x)
}

/// The cost of one event, or the reason why it has none.
pub open spec fn track_cost_spec(x: Seq<int>, z: Seq<int>) -> Result<int, FitError> {
    match track_fault(x, z) {
        Some(e) => Err(e),
        None => Ok(track_cost_of(x, z)),
    }
}

/// The fault of the first faulty event among the first `n`, if there is one.
pub open spec fn first_fault(rows: Seq<Seq<int>>, z: Seq<int>, n: nat) -> Option<FitError>
    decreases n,
{
    if n == 0 {
        None
    } else {
        match first_fault(rows, z, (n - 1) as nat) {
            Some(e) => Some(e),
            None => track_fault(rows[n - 1], z),
        }
    }
}

/// Sum of the costs of the first `n` events.
pub open spec fn total_cost(rows: Seq<Seq<int>>, z: Seq<int>, n: nat) -> int
    decreases n,
{
    if n == 0 {
        0
    } else {
        total_cost(rows, z, (n - 1) as nat) + track_cost_of(rows[n - 1], z)
    }
}

/// The cost of an event set: the mean of its events' costs, rounded down;
/// or the reason why it has none.
pub open spec fn chi2_spec(rows: Seq<Seq<int>>, z: Seq<int>) -> Result<int, FitError> {
    if rows.len() == 0 {
        Err(FitError::NoEvents)
    } else {
        match first_fault(rows, z, rows.len()) {
            Some(e) => Err(e),
            None => Ok(total_cost(rows, z, rows.len()) / (rows.len() as int)),
        }
    }
}

/// The cost of an event never exceeds the spread of the depths.
pub proof fn lemma_cost_bound(x: Seq<int>, z: Seq<int>)
    requires
        track_fault(x, z) is None,
    ensures
        0 <= track_cost_of(x, z) <= spread(z) <= spread_limit(),
{
    let d = cross(x, z);
    let a = spread(x);
    let c = spread(z);
    let b = covariation(x, z);
    lemma_spread_bound(x);
    lemma_spread_bound(z);
    lemma_spread_identity(x, z);
    assert(0 <= d * d <= a * c) by (nonlinear_arith)
        requires
            a * c - b * b == 3 * (d * d),
    ;
    lemma_div_is_ordered(d * d, a * c, a);
    lemma_div_is_ordered(0, d * d, a);
    assert(a * c == c * a) by (nonlinear_arith);
    lemma_div_multiples_vanish(c, a);
}

/// The cost of the event whose samples are `x0`, `x1` and `x2`.
pub(crate) fn cost_of_samples(x0: i128, x1: i128, x2: i128, z: &Vec<i64>) -> (res: Result<
    u128,
    FitError,
>)
    requires
        z.len() == 3,
    ensures
        res matches Ok(c) ==> track_cost_spec(seq![x0 as int, x1 as int, x2 as int], ints(z@))
            == Ok::<int, FitError>(c as int),
        res matches Err(e) ==> track_cost_spec(seq![x0 as int, x1 as int, x2 as int], ints(z@))
            == Err::<int, FitError>(e),
{
    let ghost xs = seq![x0 as int, x1 as int, x2 as int];
    let ghost zs = ints(z@);
    let limit: i128 = COORD_LIMIT as i128;
    if !(-limit <= x0 && x0 <= limit && -limit <= x1 && x1 <= limit && -limit <= x2 && x2
        <= limit && within(z[0]) && within(z[1]) && within(z[2])) {
        return Err(FitError::OutOfRange);
    }
    let z0: i128 = z[0] as i128;
    let z1: i128 = z[1] as i128;
    let z2: i128 = z[2] as i128;
    proof {
        lemma_spread_bound(xs);
        lemma_square_bound(xs[0], xs[1]);
        lemma_square_bound(xs[0], xs[2]);
        lemma_square_bound(xs[1], xs[2]);
        lemma_product_bound(xs[1], xs[0], zs[2], zs[0]);
        lemma_product_bound(xs[2], xs[0], zs[1], zs[0]);
        assert(COORD_LIMIT * COORD_LIMIT == 0x1_0000_0000_0000_0000_0000) by (nonlinear_arith);
    }
    let a: i128 = (x0 - x1) * (x0 - x1) + (x0 - x2) * (x0 - x2) + (x1 - x2) * (x1 - x2);
    if a == 0 {
        return Err(FitError::Degenerate);
    }
    let d: i128 = (x1 - x0) * (z2 - z0) - (x2 - x0) * (z1 - z0);
    let size: u128 = if d < 0 {
        (-d) as u128
    } else {
        d as u128
    };
    proof {
        lemma_cost_bound(xs, zs);
        assert(size * size == cross(xs, zs) * cross(xs, zs)) by (nonlinear_arith)
            requires
                size == d || size == -d,
                d == cross(xs, zs),
        ;
    }
    Ok(square_div(size, a as u128))
}

/// Cost of the straight-line fit of one event: the sum over the three planes
/// of the squared depth residual of the least-squares line through the
/// samples `x` at the depths `z`, rounded down.
pub fn track_cost(x: &Vec<i64>, z: &Vec<i64>) -> (res: Result<u128, FitError>)
    requires
        x.len() == 3,
        z.len() == 3,
    ensures
        res matches Ok(c) ==> track_cost_spec(ints(x@), ints(z@)) == Ok::<int, FitError>(
            c as int,
        ),
        res matches Err(e) ==> track_cost_spec(ints(x@), ints(z@)) == Err::<int, FitError>(e),
        collinear(ints(x@), ints(z@)) && track_fault(ints(x@), ints(z@)) is None ==> res == Ok::<
            u128,
            FitError,
        >(0),
{
    proof {
        assert(ints(x@) =~= seq![x[0] as int, x[1] as int, x[2] as int]);
        if collinear(ints(x@), ints(z@)) && track_fault(ints(x@), ints(z@)) is None {
            lemma_collinear_costs_nothing(ints(x@), ints(z@));
        }
    }
    cost_of_samples(x[0] as i128, x[1] as i128, x[2] as i128, z)
}

/// No event among the first `n` is faulty exactly when none of them has a
/// fault of its own.
pub proof fn lemma_first_fault_none(rows: Seq<Seq<int>>, z: Seq<int>, n: nat)
    ensures
        first_fault(rows, z, n) is None <==> (forall|i: int|
            0 <= i < n ==> track_fault(#[trigger] rows[i], z) is None),
    decreases n,
{
    if n > 0 {
        lemma_first_fault_none(rows, z, (n - 1) as nat);
        if first_fault(rows, z, n) is None {
            assert forall|i: int| 0 <= i < n implies track_fault(
                #[trigger] rows[i],
                z,
            ) is None by {
                if i < n - 1 {
                } else {
                    assert(rows[i] == rows[n - 1]);
                }
            }
        }
    }
}

/// Once an event among the first `n` is faulty, the first fault stays what
/// it is however many more events are looked at.
pub proof fn lemma_first_fault_step(rows: Seq<Seq<int>>, z: Seq<int>, n: nat, m: nat)
    requires
        n <= m,
        first_fault(rows, z, n) is Some,
    ensures
        first_fault(rows, z, m) == first_fault(rows, z, n),
    decreases m,
{
    if n < m {
        lemma_first_fault_step(rows, z, n, (m - 1) as nat);
    }
}

/// The total cost of fault-free events is bounded by their number.
pub proof fn lemma_total_bound(rows: Seq<Seq<int>>, z: Seq<int>, n: nat)
    requires
        first_fault(rows, z, n) is None,
    ensures
        0 <= total_cost(rows, z, n) <= n * spread_limit(),
    decreases n,
{
    if n > 0 {
        lemma_total_bound(rows, z, (n - 1) as nat);
        lemma_cost_bound(rows[n - 1], z);
        assert(n * spread_limit() == (n - 1) * spread_limit() + spread_limit())
            by (nonlinear_arith);
    }
}

/// Cost that the event set would have with plane `target` displaced by
/// `delta`. The event set itself is left as it is.
pub(crate) fn displaced_cost(
    data: &Vec<Vec<i64>>,
    z: &Vec<i64>,
    target: usize,
    delta: i64,
) -> (res: Result<u128, FitError>)
    requires
        three_planes(data@),
        z.len() == 3,
        target < 3,
    ensures
        res matches Ok(c) ==> chi2_spec(
            shifted(grid(data@), target as int, delta as int),
            ints(z@),
        ) == Ok::<int, FitError>(c as int),
        res matches Err(e) ==> chi2_spec(
            shifted(grid(data@), target as int, delta as int),
            ints(z@),
        ) == Err::<int, FitError>(e),
{
    let n: usize = data.len();
    if n == 0 {
        return Err(FitError::NoEvents);
    }
    let ghost rows = shifted(grid(data@), target as int, delta as int);
    let ghost zs = ints(z@);
    let count: u128 = n as u128;
    let mut whole: u128 = 0;
    let mut part: u128 = 0;
    let mut i: usize = 0;
    while i < n
        invariant
            0 <= i <= n,
            n == data.len(),
            count == n,
            rows == shifted(grid(data@), target as int, delta as int),
            zs == ints(z@),
            target < 3,
            three_planes(data@),
            z.len() == 3,
            first_fault(rows, zs, i as nat) is None,
            whole * count + part == total_cost(rows, zs, i as nat),
            part <= i * (count - 1),
            whole <= spread_limit(),
        decreases n - i,
    {
        let row = &data[i];
        let x0: i128 = row[0] as i128 + (if target == 0 { delta as i128 } else { 0 });
        let x1: i128 = row[1] as i128 + (if target == 1 { delta as i128 } else { 0 });
        let x2: i128 = row[2] as i128 + (if target == 2 { delta as i128 } else { 0 });
        assert(rows[i as int] =~= seq![x0 as int, x1 as int, x2 as int]);
        let cost: u128 = match cost_of_samples(x0, x1, x2, z) {
            Ok(c) => c,
            Err(e) => {
                proof {
                    lemma_first_fault_none(rows, zs, i as nat);
                    lemma_first_fault_step(rows, zs, (i + 1) as nat, rows.len());
                }
                return Err(e);
            },
        };
        let q: u128 = cost / count;
        let r: u128 = cost % count;
        proof {
            lemma_cost_bound(rows[i as int], zs);
            lemma_total_bound(rows, zs, (i + 1) as nat);
            lemma_fundamental_div_mod(cost as int, count as int);
            assert(spread_limit() == 0xc_0000_0000_0000_0000_0000) by (nonlinear_arith);
            assert((whole + q) * count + (part + r) == total_cost(rows, zs, (i + 1) as nat))
                by (nonlinear_arith)
                requires
                    whole * count + part == total_cost(rows, zs, i as nat),
                    cost == count * q + r,
                    total_cost(rows, zs, (i + 1) as nat) == total_cost(rows, zs, i as nat)
                        + cost,
            ;
            assert(whole + q <= spread_limit()) by (nonlinear_arith)
                requires
                    (whole + q) * count + (part + r) <= (i + 1) * spread_limit(),
                    i + 1 <= count,
                    0 <= part + r,
                    0 < count,
                    0 <= whole + q,
            ;
            assert(part + r <= (i + 1) * (count - 1) <= 0xffff_ffff_ffff_ffff
                * 0xffff_ffff_ffff_ffff) by (nonlinear_arith)
                requires
                    part <= i * (count - 1),
                    r <= count - 1,
                    0 <= i,
                    i + 1 <= count <= 0xffff_ffff_ffff_ffff,
            ;
        }
        whole = whole + q;
        part = part + r;
        i = i + 1;
    }
    let extra: u128 = part / count;
    proof {
        let total = total_cost(rows, zs, n as nat);
        lemma_fundamental_div_mod(part as int, count as int);
        assert(total == count * (whole + extra) + (part % count)) by (nonlinear_arith)
            requires
                whole * count + part == total,
                part == count * extra + (part % count),
        ;
        lemma_fundamental_div_mod_converse(
            total,
            count as int,
            (whole + extra) as int,
            (part % count) as int,
        );
        lemma_total_bound(rows, zs, n as nat);
        lemma_div_is_ordered(total, count * spread_limit(), count as int);
        lemma_div_multiples_vanish(spread_limit(), count as int);
        assert(spread_limit() == 0xc_0000_0000_0000_0000_0000) by (nonlinear_arith);
    }
    Ok(whole + extra)
}

/// Cost of an event set on one axis: the mean over its events of the cost of
/// each event's straight-line fit, rounded down. The first event that cannot
/// be fitted fails the whole pass.
pub fn chi2_fit(data: &Vec<Vec<i64>>, z: &Vec<i64>) -> (res: Result<u128, FitError>)
    requires
        three_planes(data@),
        z.len() == 3,
    ensures
        res matches Ok(c) ==> chi2_spec(grid(data@), ints(z@)) == Ok::<int, FitError>(c as int),
        res matches Err(e) ==> chi2_spec(grid(data@), ints(z@)) == Err::<int, FitError>(e),
{
    proof {
        lemma_grid_rows(data@);
        lemma_shifted_zero(grid(data@), 0);
    }
    displaced_cost(data, z, 0, 0)
}

/// The cost of an event set that has one lies between zero and the largest
/// cost of a single event.
pub proof fn lemma_chi2_bound(rows: Seq<Seq<int>>, z: Seq<int>)
    requires
        chi2_spec(rows, z) is Ok,
    ensures
        0 <= chi2_spec(rows, z)->Ok_0 <= spread_limit(),
{
    let n = rows.len();
    let total = total_cost(rows, z, n);
    lemma_total_bound(rows, z, n);
    lemma_div_is_ordered(total, n * spread_limit(), n as int);
    lemma_div_is_ordered(0, total, n as int);
    lemma_div_multiples_vanish(spread_limit(), n as int);
}

/// Three samples that lie on one straight line with their depths, and that
/// can be fitted at all, cost nothing.
pub proof fn lemma_collinear_costs_nothing(x: Seq<int>, z: Seq<int>)
    requires
        collinear(x, z),
        track_fault(x, z) is None,
    ensures
        track_cost_spec(x, z) == Ok::<int, FitError>(0),
{
    lemma_spread_bound(x);
    assert(cross(x, z) * cross(x, z) == 0) by (nonlinear_arith)
        requires
            cross(x, z) == 0,
    ;
    lemma_div_basics_zero(spread(x));
}

/// An event set whose every event lies on a straight line and can be fitted
/// costs nothing.
pub proof fn lemma_collinear_set_costs_nothing(rows: Seq<Seq<int>>, z: Seq<int>)
    requires
        rows.len() > 0,
        forall|i: int| 0 <= i < rows.len() ==> track_fault(#[trigger] rows[i], z) is None,
        forall|i: int| 0 <= i < rows.len() ==> collinear(#[trigger] rows[i], z),
    ensures
        chi2_spec(rows, z) == Ok::<int, FitError>(0),
{
    lemma_first_fault_none(rows, z, rows.len());
    lemma_collinear_total(rows, z, rows.len());
    lemma_div_basics_zero(rows.len() as int);
}

/// Where straight tracks were put out of line by an offset of one plane,
/// taking the offset back brings the cost to nothing, the least that a cost
/// can be.
pub proof fn lemma_undoing_an_offset_costs_nothing(
    rows: Seq<Seq<int>>,
    z: Seq<int>,
    target: int,
    offset: int,
)
    requires
        0 <= target < 3,
        rows.len() > 0,
        forall|i: int| 0 <= i < rows.len() ==> track_fault(#[trigger] rows[i], z) is None,
        forall|i: int| 0 <= i < rows.len() ==> collinear(#[trigger] rows[i], z),
    ensures
        chi2_spec(shifted(shifted(rows, target, offset), target, -offset), z) == Ok::<
            int,
            FitError,
        >(0),
{
    lemma_shifted_twice(rows, target, offset, -offset);
    lemma_shifted_zero(rows, target);
    lemma_collinear_set_costs_nothing(rows, z);
}

/// Events on straight lines add nothing to the total cost.
proof fn lemma_collinear_total(rows: Seq<Seq<int>>, z: Seq<int>, n: nat)
    requires
        n <= rows.len(),
        forall|i: int| 0 <= i < rows.len() ==> track_fault(#[trigger] rows[i], z) is None,
        forall|i: int| 0 <= i < rows.len() ==> collinear(#[trigger] rows[i], z),
    ensures
        total_cost(rows, z, n) == 0,
    decreases n,
{
    if n > 0 {
        lemma_collinear_total(rows, z, (n - 1) as nat);
        lemma_collinear_costs_nothing(rows[n - 1], z);
    }
}

/// Nothing divided by a positive number is nothing.
proof fn lemma_div_basics_zero(d: int)
    requires
        d > 0,
    ensures
        0int / d == 0,
{
    lemma_div_basics(d);
}

} // verus!
