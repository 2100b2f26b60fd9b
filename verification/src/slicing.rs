//! Per-axis ranges, their validation, and the shape arithmetic of slicing.
//!
//! An index specification is a vector of half-open [`AxisRange`]s, one per
//! leading axis; axes beyond its length are left unrestricted.  Narrowing a
//! shape replaces each covered extent by the range's width.  A multi-index of
//! the source lies in the restricted region exactly when every covered
//! coordinate falls inside its range; such indices correspond one-to-one to
//! the multi-indices of the narrowed shape, shifted by the range starts.

use vstd::prelude::*;

verus! {

use crate::shape::{product, valid_index, flat_index, unflatten, lemma_flat_of_unflatten};

/// A half-open interval `[start, end)` over one axis.
#[derive(Clone, Copy, Debug)]
pub struct AxisRange {
    pub start: usize,
    pub end: usize,
}

/// Why a slicing or assignment request was rejected.
#[derive(Clone, Copy, Debug, PartialEq, Eq)]
pub enum IndexError {
    /// An axis range runs backwards or past the axis extent.
    OutOfBoundsRange,
    /// The index specification names more axes than the tensor has.
    RankMismatch,
    /// The supplied values (or data) do not fill the addressed shape exactly.
    ShapeMismatch,
}

/// A range is admissible for an axis when it is well ordered and stays
/// within the extent.
pub open spec fn range_ok(extent: usize, r: AxisRange) -> bool {
    r.start <= r.end && r.end <= extent
}

/// An index specification is admissible for a shape when it covers no more
/// axes than the shape has and every range is admissible for its axis.
pub open spec fn ranges_ok(dims: Seq<usize>, ranges: Seq<AxisRange>) -> bool {
    ranges.len() <= dims.len() && forall|i: int|
        0 <= i < ranges.len() ==> range_ok(dims[i], #[trigger] ranges[i])
}

/// Offset that slicing adds to coordinate `i`: the range start on covered
/// axes, zero on unrestricted ones.
pub open spec fn range_start(ranges: Seq<AxisRange>, i: int) -> int {
    if 0 <= i < ranges.len() {
        ranges[i].start as int
    } else {
        0
    }
}

/// The shape that slicing produces: each covered extent becomes the width of
/// its range, uncovered extents are kept.
pub open spec fn narrowed_shape(dims: Seq<usize>, ranges: Seq<AxisRange>) -> Seq<usize> {
    Seq::new(
        dims.len(),
        |i: int|
            if 0 <= i < ranges.len() {
                (ranges[i].end - ranges[i].start) as usize
            } else {
                dims[i]
            },
    )
}

/// A multi-index of the narrowed shape, moved to its position in the source.
pub open spec fn shift_index(idx: Seq<int>, ranges: Seq<AxisRange>) -> Seq<int> {
    Seq::new(idx.len(), |i: int| idx[i] + range_start(ranges, i))
}

/// A multi-index of the source region, moved to its position in the narrowed
/// shape.
pub open spec fn unshift_index(idx: Seq<int>, ranges: Seq<AxisRange>) -> Seq<int> {
    Seq::new(idx.len(), |i: int| idx[i] - range_start(ranges, i))
}

/// Whether a valid source multi-index lies in the restricted region.
pub open spec fn in_region(dims: Seq<usize>, ranges: Seq<AxisRange>, idx: Seq<int>) -> bool {
    valid_index(dims, idx) && forall|i: int|
        0 <= i < ranges.len() ==> ranges[i].start <= #[trigger] idx[i] < ranges[i].end
}

/// The region of a source shape and the narrowed shape index the same set of
/// positions: unshifting maps one onto the other.
pub proof fn lemma_region_unshift(dims: Seq<usize>, ranges: Seq<AxisRange>, idx: Seq<int>)
    requires
        ranges_ok(dims, ranges),
        valid_index(dims, idx),
    ensures
        in_region(dims, ranges, idx) <==> valid_index(
            narrowed_shape(dims, ranges),
            unshift_index(idx, ranges),
        ),
{
    let nd = narrowed_shape(dims, ranges);
    let u = unshift_index(idx, ranges);
    if in_region(dims, ranges, idx) {
        assert forall|i: int| 0 <= i < u.len() implies 0 <= #[trigger] u[i] < nd[i] by {
            if i < ranges.len() {
                assert(ranges[i].start <= idx[i] < ranges[i].end);
            }
        }
    }
    if valid_index(nd, u) {
        assert forall|i: int| 0 <= i < ranges.len() implies ranges[i].start <= #[trigger] idx[i]
            < ranges[i].end by {
            assert(0 <= u[i] < nd[i]);
        }
    }
}

/// Shifting a valid multi-index of the narrowed shape lands inside the
/// region of the source, and unshifting takes it back.
pub proof fn lemma_shift_in_region(dims: Seq<usize>, ranges: Seq<AxisRange>, idx: Seq<int>)
    requires
        ranges_ok(dims, ranges),
        valid_index(narrowed_shape(dims, ranges), idx),
    ensures
        in_region(dims, ranges, shift_index(idx, ranges)),
        unshift_index(shift_index(idx, ranges), ranges) == idx,
{
    let nd = narrowed_shape(dims, ranges);
    let s = shift_index(idx, ranges);
    assert forall|i: int| 0 <= i < s.len() implies 0 <= #[trigger] s[i] < dims[i] by {
        assert(0 <= idx[i] < nd[i]);
        if i < ranges.len() {
            assert(range_ok(dims[i], ranges[i]));
        }
    }
    assert forall|i: int| 0 <= i < ranges.len() implies ranges[i].start <= #[trigger] s[i]
        < ranges[i].end by {
        assert(0 <= idx[i] < nd[i]);
    }
    assert(unshift_index(s, ranges) =~= idx);
}

/// Law: slicing with the full range of every covered axis reproduces the
/// source exactly.  Any output whose shape and elements satisfy the slicing
/// contract for such ranges has the source's shape and the very same flat
/// data.
pub proof fn lemma_full_range_index_identity(
    dims: Seq<usize>,
    data: Seq<i64>,
    ranges: Seq<AxisRange>,
    out: Seq<i64>,
)
    requires
        data.len() == product(dims),
        ranges_ok(dims, ranges),
        forall|i: int|
            0 <= i < ranges.len() ==> (#[trigger] ranges[i]).start == 0 && ranges[i].end
                == dims[i],
        out.len() == product(narrowed_shape(dims, ranges)),
        forall|idx: Seq<int>|
            #[trigger] valid_index(narrowed_shape(dims, ranges), idx) ==> out[flat_index(
                narrowed_shape(dims, ranges),
                idx,
            )] == data[flat_index(dims, shift_index(idx, ranges))],
    ensures
        narrowed_shape(dims, ranges) == dims,
        out == data,
{
    assert(narrowed_shape(dims, ranges) =~= dims);
    assert forall|p: int| 0 <= p < data.len() implies out[p] == data[p] by {
        lemma_flat_of_unflatten(dims, p);
        let idx = unflatten(dims, p);
        assert(shift_index(idx, ranges) =~= idx);
        assert(valid_index(narrowed_shape(dims, ranges), idx));
    }
    assert(out =~= data);
}

/// Law: overwriting a region is idempotent.  If `mid` is related to `data`
/// as an overwrite of the region by `vals`, and `out` is related to `mid`
/// the same way, then `out` and `mid` are the same flat data: reapplying
/// the assignment with identical ranges and values changes nothing more.
pub proof fn lemma_index_assign_idempotent(
    dims: Seq<usize>,
    ranges: Seq<AxisRange>,
    vals: Seq<i64>,
    data: Seq<i64>,
    mid: Seq<i64>,
    out: Seq<i64>,
)
    requires
        ranges_ok(dims, ranges),
        data.len() == product(dims),
        mid.len() == product(dims),
        out.len() == product(dims),
        forall|idx: Seq<int>|
            #[trigger] in_region(dims, ranges, idx) ==> mid[flat_index(dims, idx)] == vals[
                flat_index(narrowed_shape(dims, ranges), unshift_index(idx, ranges))],
        forall|idx: Seq<int>|
            #[trigger] valid_index(dims, idx) && !in_region(dims, ranges, idx) ==> mid[flat_index(
                dims,
                idx,
            )] == data[flat_index(dims, idx)],
        forall|idx: Seq<int>|
            #[trigger] in_region(dims, ranges, idx) ==> out[flat_index(dims, idx)] == vals[
                flat_index(narrowed_shape(dims, ranges), unshift_index(idx, ranges))],
        forall|idx: Seq<int>|
            #[trigger] valid_index(dims, idx) && !in_region(dims, ranges, idx) ==> out[flat_index(
                dims,
                idx,
            )] == mid[flat_index(dims, idx)],
    ensures
        out == mid,
{
    assert forall|p: int| 0 <= p < mid.len() implies out[p] == mid[p] by {
        lemma_flat_of_unflatten(dims, p);
        let idx = unflatten(dims, p);
        assert(valid_index(dims, idx));
        if in_region(dims, ranges, idx) {
            assert(out[flat_index(dims, idx)] == vals[flat_index(
                narrowed_shape(dims, ranges),
                unshift_index(idx, ranges),
            )]);
        }
    }
    assert(out =~= mid);
}

/// Checks an index specification against a shape, reporting the first kind
/// of violation: a specification longer than the rank, else a range that
/// runs backwards or past its axis extent.
pub fn validate_ranges(shape: &Vec<usize>, ranges: &Vec<AxisRange>) -> (r: Result<(), IndexError>)
    ensures
        r is Ok <==> ranges_ok(shape@, ranges@),
        r == Result::<(), IndexError>::Err(IndexError::RankMismatch) <==> ranges@.len()
            > shape@.len(),
        r == Result::<(), IndexError>::Err(IndexError::OutOfBoundsRange) <==> (ranges@.len()
            <= shape@.len() && !ranges_ok(shape@, ranges@)),
{
    if ranges.len() > shape.len() {
        return Err(IndexError::RankMismatch);
    }
    let n = ranges.len();
    let mut i: usize = 0;
    while i < n
        invariant
            0 <= i <= n,
            n == ranges@.len(),
            n <= shape@.len(),
            forall|j: int| 0 <= j < i ==> range_ok(shape@[j], #[trigger] ranges@[j]),
        decreases n - i,
    {
        let r = ranges[i];
        if r.start > r.end || r.end > shape[i] {
            return Err(IndexError::OutOfBoundsRange);
        }
        i += 1;
    }
    Ok(())
}

/// The shape that slicing with these ranges produces.
pub fn narrowed(shape: &Vec<usize>, ranges: &Vec<AxisRange>) -> (r: Vec<usize>)
    requires
        ranges_ok(shape@, ranges@),
    ensures
        r@ == narrowed_shape(shape@, ranges@),
{
    let n = shape.len();
    let mut out: Vec<usize> = Vec::new();
    let mut i: usize = 0;
    while i < n
        invariant
            0 <= i <= n,
            n == shape@.len(),
            ranges_ok(shape@, ranges@),
            out@.len() == i,
            forall|j: int| 0 <= j < i ==> #[trigger] out@[j] == narrowed_shape(shape@, ranges@)[j],
        decreases n - i,
    {
        if i < ranges.len() {
            out.push(ranges[i].end - ranges[i].start);
        } else {
            out.push(shape[i]);
        }
        i += 1;
    }
    proof {
        assert(out@ =~= narrowed_shape(shape@, ranges@));
    }
    out
}

/// Whether two shapes agree axis for axis.
pub fn shapes_equal(a: &Vec<usize>, b: &Vec<usize>) -> (r: bool)
    ensures
        r <==> a@ == b@,
{
    if a.len() != b.len() {
        return false;
    }
    let n = a.len();
    let mut i: usize = 0;
    while i < n
        invariant
            0 <= i <= n,
            n == a@.len(),
            n == b@.len(),
            forall|j: int| 0 <= j < i ==> #[trigger] a@[j] == b@[j],
        decreases n - i,
    {
        if a[i] != b[i] {
            return false;
        }
        i += 1;
    }
    proof {
        assert(a@ =~= b@);
    }
    true
}

/// Whether a valid source multi-index lies in the restricted region.
pub fn in_region_exec(shape: &Vec<usize>, ranges: &Vec<AxisRange>, idx: &Vec<usize>) -> (r: bool)
    requires
        ranges_ok(shape@, ranges@),
        valid_index(shape@, crate::shape::to_ints(idx@)),
    ensures
        r == in_region(shape@, ranges@, crate::shape::to_ints(idx@)),
{
    let n = ranges.len();
    let mut i: usize = 0;
    while i < n
        invariant
            0 <= i <= n,
            n == ranges@.len(),
            n <= shape@.len(),
            idx@.len() == shape@.len(),
            forall|j: int|
                0 <= j < i ==> ranges@[j].start <= #[trigger] idx@[j] && (idx@[j] as int)
                    < ranges@[j].end,
        decreases n - i,
    {
        if idx[i] < ranges[i].start || idx[i] >= ranges[i].end {
            proof {
                assert(crate::shape::to_ints(idx@)[i as int] == idx@[i as int] as int);
            }
            return false;
        }
        i += 1;
    }
    true
}

} // verus!
