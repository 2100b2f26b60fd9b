//! Tensors as a shape plus a flat row-major element buffer, with slicing
//! (`index`) and sub-region overwrite (`index_assign`).
//!
//! Both operations leave the source tensor untouched and return a new value.
//! Their contracts pin every element of the result: `index` maps each
//! multi-index of the narrowed shape to the source element at the
//! range-shifted position, and `index_assign` keeps the source shape,
//! replaces exactly the elements of the restricted region by the supplied
//! values in row-major correspondence, and keeps every other element.

use vstd::prelude::*;

verus! {

use crate::shape::{
    product,
    valid_index,
    flat_index,
    unflatten,
    to_ints,
    checked_product,
    flat_index_exec,
    unflatten_exec,
    lemma_product_pointwise_le,
    lemma_flat_index_bound,
    lemma_unflatten_of_flat,
};
use crate::slicing::{
    AxisRange,
    IndexError,
    ranges_ok,
    range_ok,
    range_start,
    narrowed_shape,
    shift_index,
    unshift_index,
    in_region,
    lemma_region_unshift,
    lemma_shift_in_region,
    validate_ranges,
    narrowed,
    shapes_equal,
    in_region_exec,
};

/// A multi-dimensional array of signed integers: per-axis extents and the
/// elements in row-major order (last axis fastest).
#[derive(Debug)]
pub struct Tensor {
    /// Extent of each axis; the length is the tensor's rank.
    pub shape: Vec<usize>,
    /// Flat row-major element buffer; holds exactly the product of the
    /// extents.
    pub data: Vec<i64>,
}

impl Tensor {
    /// The element buffer fills the shape exactly.
    pub open spec fn wf(self) -> bool {
        self.data@.len() == product(self.shape@)
    }

    /// Builds a tensor from a shape and row-major elements, rejecting a
    /// buffer that does not fill the shape exactly.
    pub fn new(shape: Vec<usize>, data: Vec<i64>) -> (r: Result<Tensor, IndexError>)
        ensures
            r is Ok <==> data@.len() == product(shape@),
            match r {
                Ok(t) => t.shape@ == shape@ && t.data@ == data@ && t.wf(),
                Err(e) => e == IndexError::ShapeMismatch,
            },
    {
        let len = data.len();
        match checked_product(&shape) {
            Some(p) => {
                if p == len {
                    Ok(Tensor { shape, data })
                } else {
                    Err(IndexError::ShapeMismatch)
                }
            },
            // The element count exceeds `usize::MAX`, so no buffer whose
            // length is a `usize` can fill the shape.
            None => Err(IndexError::ShapeMismatch),
        }
    }

    /// Hands out the flat row-major elements.
    pub fn into_data(self) -> (r: Vec<i64>)
        ensures
            r@ == self.data@,
    {
        self.data
    }

    /// Restricts the tensor to the cross product of the given per-axis
    /// ranges; axes beyond the specification keep their full extent.  The
    /// result's shape replaces each covered extent by the width of its
    /// range, and its element at any multi-index is the source element at
    /// the position shifted by the range starts.  A specification longer
    /// than the rank is a `RankMismatch`; one whose range runs backwards or
    /// past its axis extent is an `OutOfBoundsRange`.
    pub fn index(&self, ranges: &Vec<AxisRange>) -> (r: Result<Tensor, IndexError>)
        requires
            self.wf(),
        ensures
            r is Ok <==> ranges_ok(self.shape@, ranges@),
            r == Result::<Tensor, IndexError>::Err(IndexError::RankMismatch) <==> ranges@.len()
                > self.shape@.len(),
            r == Result::<Tensor, IndexError>::Err(IndexError::OutOfBoundsRange) <==> (
            ranges@.len() <= self.shape@.len() && !ranges_ok(self.shape@, ranges@)),
            match r {
                Ok(t) => {
                    &&& t.wf()
                    &&& t.shape@ == narrowed_shape(self.shape@, ranges@)
                    &&& forall|idx: Seq<int>|
                        #[trigger] valid_index(t.shape@, idx) ==> t.data@[flat_index(
                            t.shape@,
                            idx,
                        )] == self.data@[flat_index(self.shape@, shift_index(idx, ranges@))]
                },
                Err(_) => true,
            },
    {
        match validate_ranges(&self.shape, ranges) {
            Err(e) => {
                return Err(e);
            },
            Ok(()) => {},
        }
        let out_shape = narrowed(&self.shape, ranges);
        proof {
            assert forall|i: int| 0 <= i < out_shape@.len() implies #[trigger] out_shape@[i]
                <= self.shape@[i] by {
                if i < ranges@.len() {
                    assert(range_ok(self.shape@[i], ranges@[i]));
                }
            }
            lemma_product_pointwise_le(out_shape@, self.shape@);
        }
        // A buffer length is a `usize`, so the narrowed element count, which
        // is at most `product(self.shape@)`, fits a `usize` as well.
        let _total = self.data.len();
        let out_len = match checked_product(&out_shape) {
            Some(n) => n,
            None => {
                proof {
                    assert(false);
                }
                0
            },
        };
        let mut out_data: Vec<i64> = Vec::new();
        let mut p: usize = 0;
        while p < out_len
            invariant
                0 <= p <= out_len,
                self.wf(),
                product(self.shape@) <= usize::MAX,
                ranges_ok(self.shape@, ranges@),
                out_shape@ == narrowed_shape(self.shape@, ranges@),
                out_len as int == product(out_shape@),
                product(out_shape@) <= product(self.shape@),
                out_data@.len() == p,
                forall|q: int|
                    0 <= q < p ==> #[trigger] out_data@[q] == self.data@[flat_index(
                        self.shape@,
                        shift_index(unflatten(out_shape@, q), ranges@),
                    )],
            decreases out_len - p,
        {
            let idx = unflatten_exec(&out_shape, p);
            let rank = self.shape.len();
            let mut sidx: Vec<usize> = Vec::new();
            let mut i: usize = 0;
            while i < rank
                invariant
                    0 <= i <= rank,
                    rank == self.shape@.len(),
                    out_shape@ == narrowed_shape(self.shape@, ranges@),
                    ranges_ok(self.shape@, ranges@),
                    valid_index(out_shape@, to_ints(idx@)),
                    idx@.len() == rank,
                    sidx@.len() == i,
                    forall|j: int|
                        0 <= j < i ==> #[trigger] sidx@[j] as int == idx@[j] + range_start(
                            ranges@,
                            j,
                        ),
                decreases rank - i,
            {
                proof {
                    assert(to_ints(idx@)[i as int] == idx@[i as int] as int);
                    assert(0 <= to_ints(idx@)[i as int] < out_shape@[i as int]);
                    if (i as int) < ranges@.len() {
                        assert(range_ok(self.shape@[i as int], ranges@[i as int]));
                    }
                }
                if i < ranges.len() {
                    sidx.push(idx[i] + ranges[i].start);
                } else {
                    sidx.push(idx[i]);
                }
                i += 1;
            }
            proof {
                assert(to_ints(sidx@) =~= shift_index(to_ints(idx@), ranges@));
                lemma_shift_in_region(self.shape@, ranges@, to_ints(idx@));
            }
            let f = flat_index_exec(&self.shape, &sidx);
            out_data.push(self.data[f]);
            p += 1;
        }
        let t = Tensor { shape: out_shape, data: out_data };
        proof {
            assert forall|idx: Seq<int>| #[trigger] valid_index(t.shape@, idx) implies t.data@[
                flat_index(t.shape@, idx)] == self.data@[flat_index(
                self.shape@,
                shift_index(idx, ranges@),
            )] by {
                lemma_flat_index_bound(t.shape@, idx);
                lemma_unflatten_of_flat(t.shape@, idx);
                lemma_shift_in_region(self.shape@, ranges@, idx);
                lemma_flat_index_bound(self.shape@, shift_index(idx, ranges@));
            }
        }
        Ok(t)
    }

    /// Returns a copy of the tensor in which the region addressed by the
    /// ranges is overwritten, element for element in row-major
    /// correspondence, by `values`, while every element outside the region
    /// keeps its original value.  The shape is always that of the source.
    /// The `values` tensor must have exactly the narrowed shape that
    /// `index` would produce; otherwise the call fails with
    /// `ShapeMismatch`, after the same range checks as `index`.
    pub fn index_assign(&self, ranges: &Vec<AxisRange>, values: &Tensor) -> (r: Result<
        Tensor,
        IndexError,
    >)
        requires
            self.wf(),
            values.wf(),
        ensures
            r is Ok <==> (ranges_ok(self.shape@, ranges@) && values.shape@ == narrowed_shape(
                self.shape@,
                ranges@,
            )),
            r == Result::<Tensor, IndexError>::Err(IndexError::RankMismatch) <==> ranges@.len()
                > self.shape@.len(),
            r == Result::<Tensor, IndexError>::Err(IndexError::OutOfBoundsRange) <==> (
            ranges@.len() <= self.shape@.len() && !ranges_ok(self.shape@, ranges@)),
            r == Result::<Tensor, IndexError>::Err(IndexError::ShapeMismatch) <==> (ranges_ok(
                self.shape@,
                ranges@,
            ) && values.shape@ != narrowed_shape(self.shape@, ranges@)),
            match r {
                Ok(t) => {
                    &&& t.wf()
                    &&& t.shape@ == self.shape@
                    &&& forall|idx: Seq<int>|
                        #[trigger] in_region(self.shape@, ranges@, idx) ==> t.data@[flat_index(
                            self.shape@,
                            idx,
                        )] == values.data@[flat_index(
                            values.shape@,
                            unshift_index(idx, ranges@),
                        )]
                    &&& forall|idx: Seq<int>|
                        #[trigger] valid_index(self.shape@, idx) && !in_region(
                            self.shape@,
                            ranges@,
                            idx,
                        ) ==> t.data@[flat_index(self.shape@, idx)] == self.data@[flat_index(
                            self.shape@,
                            idx,
                        )]
                },
                Err(_) => true,
            },
    {
        match validate_ranges(&self.shape, ranges) {
            Err(e) => {
                return Err(e);
            },
            Ok(()) => {},
        }
        let out_shape = narrowed(&self.shape, ranges);
        if !shapes_equal(&values.shape, &out_shape) {
            return Err(IndexError::ShapeMismatch);
        }
        let len = self.data.len();
        // Both element counts fit a `usize`, since both are buffer lengths.
        let _vlen = values.data.len();
        let mut out_data: Vec<i64> = Vec::new();
        let mut p: usize = 0;
        while p < len
            invariant
                0 <= p <= len,
                self.wf(),
                values.wf(),
                len == self.data@.len(),
                product(self.shape@) <= usize::MAX,
                product(values.shape@) <= usize::MAX,
                ranges_ok(self.shape@, ranges@),
                values.shape@ == narrowed_shape(self.shape@, ranges@),
                out_data@.len() == p,
                forall|q: int|
                    0 <= q < p ==> #[trigger] out_data@[q] == (if in_region(
                        self.shape@,
                        ranges@,
                        unflatten(self.shape@, q),
                    ) {
                        values.data@[flat_index(
                            values.shape@,
                            unshift_index(unflatten(self.shape@, q), ranges@),
                        )]
                    } else {
                        self.data@[q]
                    }),
            decreases len - p,
        {
            let idx = unflatten_exec(&self.shape, p);
            if in_region_exec(&self.shape, ranges, &idx) {
                let rank = self.shape.len();
                let mut uidx: Vec<usize> = Vec::new();
                let mut i: usize = 0;
                while i < rank
                    invariant
                        0 <= i <= rank,
                        rank == self.shape@.len(),
                        ranges_ok(self.shape@, ranges@),
                        in_region(self.shape@, ranges@, to_ints(idx@)),
                        idx@.len() == rank,
                        uidx@.len() == i,
                        forall|j: int|
                            0 <= j < i ==> #[trigger] uidx@[j] as int == idx@[j] - range_start(
                                ranges@,
                                j,
                            ),
                    decreases rank - i,
                {
                    proof {
                        assert(to_ints(idx@)[i as int] == idx@[i as int] as int);
                        if (i as int) < ranges@.len() {
                            assert(ranges@[i as int].start <= to_ints(idx@)[i as int]);
                        }
                    }
                    if i < ranges.len() {
                        uidx.push(idx[i] - ranges[i].start);
                    } else {
                        uidx.push(idx[i]);
                    }
                    i += 1;
                }
                proof {
                    assert(to_ints(uidx@) =~= unshift_index(to_ints(idx@), ranges@));
                    lemma_region_unshift(self.shape@, ranges@, to_ints(idx@));
                }
                let f = flat_index_exec(&values.shape, &uidx);
                out_data.push(values.data[f]);
            } else {
                out_data.push(self.data[p]);
            }
            p += 1;
        }
        let new_shape = copy_dims(&self.shape);
        let t = Tensor { shape: new_shape, data: out_data };
        proof {
            assert forall|idx: Seq<int>| #[trigger] in_region(self.shape@, ranges@, idx) implies t
                .data@[flat_index(self.shape@, idx)] == values.data@[flat_index(
                values.shape@,
                unshift_index(idx, ranges@),
            )] by {
                lemma_flat_index_bound(self.shape@, idx);
                lemma_unflatten_of_flat(self.shape@, idx);
            }
            assert forall|idx: Seq<int>|
                #[trigger] valid_index(self.shape@, idx) && !in_region(
                    self.shape@,
                    ranges@,
                    idx,
                ) implies t.data@[flat_index(self.shape@, idx)] == self.data@[flat_index(
                self.shape@,
                idx,
            )] by {
                lemma_flat_index_bound(self.shape@, idx);
                lemma_unflatten_of_flat(self.shape@, idx);
            }
        }
        Ok(t)
    }
}

/// An axis-for-axis copy of an extent vector.
fn copy_dims(v: &Vec<usize>) -> (r: Vec<usize>)
    ensures
        r@ == v@,
{
    let n = v.len();
    let mut out: Vec<usize> = Vec::new();
    let mut i: usize = 0;
    while i < n
        invariant
            0 <= i <= n,
            n == v@.len(),
            out@.len() == i,
            forall|j: int| 0 <= j < i ==> #[trigger] out@[j] == v@[j],
        decreases n - i,
    {
        out.push(v[i]);
        i += 1;
    }
    proof {
        assert(out@ =~= v@);
    }
    out
}

} // verus!
