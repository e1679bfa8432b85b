//! The samples of all events on one axis: one row per event, one value per
//! plane.

use vstd::prelude::*;
use crate::geometry::ints;

verus! {

/// An event set as mathematical integers, one row per event.
pub open spec fn grid(data: Seq<Vec<i64>>) -> Seq<Seq<int>> {
    Seq::new(data.len(), |i: int| ints(data[i]@))
}

/// Every event has exactly one sample per plane.
pub open spec fn three_planes(data: Seq<Vec<i64>>) -> bool {
    forall|i: int| 0 <= i < data.len() ==> (#[trigger] data[i]).len() == 3
}

/// An event set with one sample per plane has rows of three values.
pub proof fn lemma_grid_rows(data: Seq<Vec<i64>>)
    requires
        three_planes(data),
    ensures
        grid(data).len() == data.len(),
        forall|i: int| 0 <= i < grid(data).len() ==> (#[trigger] grid(data)[i]).len() == 3,
{
}

/// The samples of one event with the sample of plane `target` displaced by
/// `delta`.
pub open spec fn shifted_row(row: Seq<int>, target: int, delta: int) -> Seq<int> {
    row.update(target, row[target] + delta)
}

/// An event set with plane `target` displaced by `delta` in every event.
pub open spec fn shifted(rows: Seq<Seq<int>>, target: int, delta: int) -> Seq<Seq<int>> {
    Seq::new(rows.len(), |i: int| shifted_row(rows[i], target, delta))
}

/// Displacing a plane by nothing leaves the event set as it is.
pub proof fn lemma_shifted_zero(rows: Seq<Seq<int>>, target: int)
    requires
        0 <= target < 3,
        forall|i: int| 0 <= i < rows.len() ==> (#[trigger] rows[i]).len() == 3,
    ensures
        shifted(rows, target, 0) == rows,
{
    assert forall|i: int| 0 <= i < rows.len() implies #[trigger] shifted(rows, target, 0)[i]
        == rows[i] by {
        assert(shifted_row(rows[i], target, 0) =~= rows[i]);
    }
    assert(shifted(rows, target, 0) =~= rows);
}

/// Two displacements of one plane add up.
pub proof fn lemma_shifted_twice(rows: Seq<Seq<int>>, target: int, a: int, b: int)
    requires
        0 <= target < 3,
        forall|i: int| 0 <= i < rows.len() ==> (#[trigger] rows[i]).len() == 3,
    ensures
        shifted(shifted(rows, target, a), target, b) == shifted(rows, target, a + b),
{
    assert forall|i: int| 0 <= i < rows.len() implies #[trigger] shifted(
        shifted(rows, target, a),
        target,
        b,
    )[i] == shifted(rows, target, a + b)[i] by {
        assert(shifted_row(shifted_row(rows[i], target, a), target, b) =~= shifted_row(
            rows[i],
            target,
            a + b,
        ));
    }
    assert(shifted(shifted(rows, target, a), target, b) =~= shifted(rows, target, a + b));
}

/// Displaces plane `target` by `delta` in every event.
pub fn shift_plane(data: &mut Vec<Vec<i64>>, target: usize, delta: i64)
    requires
        three_planes(old(data)@),
        target < 3,
        forall|i: int|
            0 <= i < old(data)@.len() ==> i64::MIN <= (#[trigger] old(data)@[i])@[target as int]
                + delta <= i64::MAX,
    ensures
        three_planes(final(data)@),
        grid(final(data)@) == shifted(grid(old(data)@), target as int, delta as int),
{
    let n: usize = data.len();
    let mut i: usize = 0;
    while i < n
        invariant
            0 <= i <= n,
            n == data.len(),
            n == old(data)@.len(),
            target < 3,
            three_planes(data@),
            forall|k: int|
                0 <= k < n ==> i64::MIN <= (#[trigger] old(data)@[k])@[target as int] + delta
                    <= i64::MAX,
            forall|k: int|
                0 <= k < i ==> ints((#[trigger] data@[k])@) == shifted_row(
                    ints(old(data)@[k]@),
                    target as int,
                    delta as int,
                ),
            forall|k: int| i <= k < n ==> (#[trigger] data@[k])@ == old(data)@[k]@,
        decreases n - i,
    {
        let moved: i64 = data[i][target] + delta;
        data[i][target] = moved;
        i = i + 1;
    }
    assert(grid(data@) =~= shifted(grid(old(data)@), target as int, delta as int));
}

} // verus!
