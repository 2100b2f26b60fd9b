//! Row-major addressing for multi-dimensional shapes.
//!
//! A shape is a sequence of per-axis extents.  A multi-index names one
//! position per axis; its row-major flat position is obtained by Horner
//! evaluation with the last axis varying fastest.  `flat_index` and
//! `unflatten` are mutually inverse on shapes whose extents are all
//! positive, which is what lets element-wise contracts over multi-indices
//! pin down every entry of a flat element buffer.

use vstd::prelude::*;

verus! {

use vstd::arithmetic::div_mod::{
    lemma_fundamental_div_mod,
    lemma_fundamental_div_mod_converse,
    lemma_multiply_divide_lt,
    lemma_div_pos_is_pos,
    lemma_mod_division_less_than_divisor,
};

/// Number of elements a tensor of the given shape holds: the product of all
/// axis extents (1 for the empty shape, which describes a scalar).
pub open spec fn product(dims: Seq<usize>) -> int
    decreases dims.len(),
{
    if dims.len() == 0 {
        1
    } else {
        product(dims.drop_last()) * dims.last()
    }
}

/// A multi-index is valid for a shape when it names one position per axis,
/// each within that axis's extent.
pub open spec fn valid_index(dims: Seq<usize>, idx: Seq<int>) -> bool {
    idx.len() == dims.len() && forall|i: int|
        0 <= i < idx.len() ==> 0 <= #[trigger] idx[i] < dims[i]
}

/// Row-major position of a multi-index in the flat element buffer.
pub open spec fn flat_index(dims: Seq<usize>, idx: Seq<int>) -> int
    decreases dims.len(),
{
    if dims.len() == 0 {
        0
    } else {
        flat_index(dims.drop_last(), idx.drop_last()) * dims.last() + idx.last()
    }
}

/// Multi-index of a flat row-major position; inverse of `flat_index` on
/// shapes whose extents are all positive.
pub open spec fn unflatten(dims: Seq<usize>, pos: int) -> Seq<int>
    decreases dims.len(),
{
    if dims.len() == 0 {
        Seq::empty()
    } else {
        unflatten(dims.drop_last(), pos / (dims.last() as int)).push(pos % (dims.last() as int))
    }
}

/// The entries of an extent or index vector, as mathematical integers.
pub open spec fn to_ints(s: Seq<usize>) -> Seq<int> {
    s.map_values(|v: usize| v as int)
}

pub proof fn lemma_product_nonneg(dims: Seq<usize>)
    ensures
        product(dims) >= 0,
    decreases dims.len(),
{
    if dims.len() > 0 {
        lemma_product_nonneg(dims.drop_last());
        assert(product(dims.drop_last()) * dims.last() >= 0) by (nonlinear_arith)
            requires
                product(dims.drop_last()) >= 0,
                dims.last() >= 0,
        ;
    }
}

pub proof fn lemma_product_positive(dims: Seq<usize>)
    requires
        forall|i: int| 0 <= i < dims.len() ==> #[trigger] dims[i] > 0,
    ensures
        product(dims) >= 1,
    decreases dims.len(),
{
    if dims.len() > 0 {
        lemma_product_positive(dims.drop_last());
        assert(product(dims.drop_last()) * dims.last() >= 1) by (nonlinear_arith)
            requires
                product(dims.drop_last()) >= 1,
                dims.last() >= 1,
        ;
    }
}

pub proof fn lemma_product_with_zero(dims: Seq<usize>, i: int)
    requires
        0 <= i < dims.len(),
        dims[i] == 0,
    ensures
        product(dims) == 0,
    decreases dims.len(),
{
    if i == dims.len() - 1 {
        assert(product(dims) == product(dims.drop_last()) * 0);
    } else {
        lemma_product_with_zero(dims.drop_last(), i);
    }
}

/// A shape with a positive element count has only positive extents.
pub proof fn lemma_positive_product_extents(dims: Seq<usize>)
    requires
        product(dims) > 0,
    ensures
        forall|i: int| 0 <= i < dims.len() ==> #[trigger] dims[i] > 0,
{
    assert forall|i: int| 0 <= i < dims.len() implies #[trigger] dims[i] > 0 by {
        if dims[i] == 0 {
            lemma_product_with_zero(dims, i);
        }
    }
}

pub proof fn lemma_product_concat(a: Seq<usize>, b: Seq<usize>)
    ensures
        product(a + b) == product(a) * product(b),
    decreases b.len(),
{
    if b.len() == 0 {
        assert(a + b =~= a);
    } else {
        lemma_product_concat(a, b.drop_last());
        assert((a + b).drop_last() =~= a + b.drop_last());
        assert((product(a) * product(b.drop_last())) * (b.last() as int) == product(a) * (
        product(b.drop_last()) * (b.last() as int))) by (nonlinear_arith);
    }
}

/// With positive extents, the element count of a leading sub-shape never
/// exceeds that of the whole shape.
pub proof fn lemma_product_take_le(dims: Seq<usize>, n: int)
    requires
        0 <= n <= dims.len(),
        forall|i: int| 0 <= i < dims.len() ==> #[trigger] dims[i] > 0,
    ensures
        product(dims.take(n)) <= product(dims),
{
    assert(dims =~= dims.take(n) + dims.skip(n));
    lemma_product_concat(dims.take(n), dims.skip(n));
    assert forall|i: int| 0 <= i < dims.skip(n).len() implies #[trigger] dims.skip(n)[i] > 0 by {
        assert(dims.skip(n)[i] == dims[i + n]);
    }
    lemma_product_positive(dims.skip(n));
    lemma_product_nonneg(dims.take(n));
    assert(product(dims.take(n)) * product(dims.skip(n)) >= product(dims.take(n)) * 1) by (
    nonlinear_arith)
        requires
            product(dims.take(n)) >= 0,
            product(dims.skip(n)) >= 1,
    ;
}

/// Shrinking some extents never grows the element count.
pub proof fn lemma_product_pointwise_le(a: Seq<usize>, b: Seq<usize>)
    requires
        a.len() == b.len(),
        forall|i: int| 0 <= i < a.len() ==> #[trigger] a[i] <= b[i],
    ensures
        product(a) <= product(b),
    decreases a.len(),
{
    if a.len() > 0 {
        assert forall|i: int| 0 <= i < a.drop_last().len() implies #[trigger] a.drop_last()[i]
            <= b.drop_last()[i] by {
            assert(a.drop_last()[i] == a[i]);
            assert(b.drop_last()[i] == b[i]);
        }
        lemma_product_pointwise_le(a.drop_last(), b.drop_last());
        lemma_product_nonneg(a.drop_last());
        assert(product(a.drop_last()) * (a.last() as int) <= product(b.drop_last()) * (
        b.last() as int)) by (nonlinear_arith)
            requires
                0 <= product(a.drop_last()) <= product(b.drop_last()),
                0 <= a.last() as int <= b.last() as int,
        ;
    }
}

/// A valid multi-index addresses a position inside the element buffer.
pub proof fn lemma_flat_index_bound(dims: Seq<usize>, idx: Seq<int>)
    requires
        valid_index(dims, idx),
    ensures
        0 <= flat_index(dims, idx) < product(dims),
    decreases dims.len(),
{
    if dims.len() > 0 {
        assert(valid_index(dims.drop_last(), idx.drop_last()));
        lemma_flat_index_bound(dims.drop_last(), idx.drop_last());
        assert(0 <= flat_index(dims.drop_last(), idx.drop_last()) * (dims.last() as int)
            + idx.last() < product(dims.drop_last()) * (dims.last() as int)) by (nonlinear_arith)
            requires
                0 <= flat_index(dims.drop_last(), idx.drop_last()) < product(dims.drop_last()),
                0 <= idx.last() < dims.last() as int,
        ;
    }
}

/// `unflatten` recovers a valid multi-index from its flat position.
pub proof fn lemma_unflatten_of_flat(dims: Seq<usize>, idx: Seq<int>)
    requires
        valid_index(dims, idx),
    ensures
        unflatten(dims, flat_index(dims, idx)) == idx,
    decreases dims.len(),
{
    if dims.len() == 0 {
        assert(unflatten(dims, flat_index(dims, idx)) =~= idx);
    } else {
        let c = dims.last() as int;
        let q = flat_index(dims.drop_last(), idx.drop_last());
        let r = idx.last();
        lemma_fundamental_div_mod_converse(q * c + r, c, q, r);
        assert(valid_index(dims.drop_last(), idx.drop_last()));
        lemma_unflatten_of_flat(dims.drop_last(), idx.drop_last());
        assert(unflatten(dims, flat_index(dims, idx)) =~= idx);
    }
}

/// Every position inside the element buffer is the flat position of exactly
/// the multi-index that `unflatten` yields.
pub proof fn lemma_flat_of_unflatten(dims: Seq<usize>, pos: int)
    requires
        0 <= pos < product(dims),
    ensures
        valid_index(dims, unflatten(dims, pos)),
        flat_index(dims, unflatten(dims, pos)) == pos,
    decreases dims.len(),
{
    if dims.len() == 0 {
        assert(unflatten(dims, pos) =~= Seq::<int>::empty());
    } else {
        lemma_positive_product_extents(dims);
        let c = dims.last() as int;
        let q = pos / c;
        let r = pos % c;
        lemma_fundamental_div_mod(pos, c);
        lemma_mod_division_less_than_divisor(pos, c);
        lemma_div_pos_is_pos(pos, c);
        assert(c * product(dims.drop_last()) == product(dims.drop_last()) * c) by (
        nonlinear_arith);
        lemma_multiply_divide_lt(pos, c, product(dims.drop_last()));
        assert forall|i: int| 0 <= i < dims.drop_last().len() implies #[trigger] dims.drop_last()[
            i
        ] > 0 by {
            assert(dims.drop_last()[i] == dims[i]);
        }
        lemma_product_positive(dims.drop_last());
        lemma_flat_of_unflatten(dims.drop_last(), q);
        let u = unflatten(dims.drop_last(), q);
        assert(unflatten(dims, pos) == u.push(r));
        assert(u.push(r).drop_last() =~= u);
        assert(u.push(r).last() == r);
        assert(valid_index(dims, u.push(r)));
        assert(flat_index(dims, u.push(r)) == flat_index(dims.drop_last(), u) * c + r);
        assert(q * c == c * q) by (nonlinear_arith);
    }
}

/// Element count of a shape, or `None` when it exceeds `usize::MAX` and so
/// cannot describe an addressable buffer.
pub fn checked_product(dims: &Vec<usize>) -> (r: Option<usize>)
    ensures
        match r {
            Some(p) => p as int == product(dims@),
            None => product(dims@) > usize::MAX,
        },
{
    let n = dims.len();
    let mut i: usize = 0;
    while i < n
        invariant
            0 <= i <= n,
            n == dims@.len(),
            forall|j: int| 0 <= j < i ==> #[trigger] dims@[j] > 0,
        decreases n - i,
    {
        if dims[i] == 0 {
            proof {
                lemma_product_with_zero(dims@, i as int);
            }
            return Some(0);
        }
        i += 1;
    }
    let mut acc: usize = 1;
    let mut k: usize = 0;
    while k < n
        invariant
            0 <= k <= n,
            n == dims@.len(),
            forall|j: int| 0 <= j < n ==> #[trigger] dims@[j] > 0,
            acc as int == product(dims@.take(k as int)),
        decreases n - k,
    {
        proof {
            assert(dims@.take(k as int + 1).drop_last() =~= dims@.take(k as int));
            assert(dims@.take(k as int + 1).last() == dims@[k as int]);
            lemma_product_take_le(dims@, k as int + 1);
        }
        match acc.checked_mul(dims[k]) {
            Some(v) => {
                acc = v;
            },
            None => {
                return None;
            },
        }
        k += 1;
    }
    proof {
        assert(dims@.take(n as int) =~= dims@);
    }
    Some(acc)
}

/// Row-major flat position of a valid multi-index, by Horner evaluation.
pub fn flat_index_exec(dims: &Vec<usize>, idx: &Vec<usize>) -> (r: usize)
    requires
        valid_index(dims@, to_ints(idx@)),
        product(dims@) <= usize::MAX,
    ensures
        r as int == flat_index(dims@, to_ints(idx@)),
        (r as int) < product(dims@),
{
    let n = dims.len();
    let mut acc: usize = 0;
    let mut i: usize = 0;
    while i < n
        invariant
            0 <= i <= n,
            n == dims@.len(),
            valid_index(dims@, to_ints(idx@)),
            product(dims@) <= usize::MAX,
            acc as int == flat_index(dims@.take(i as int), to_ints(idx@).take(i as int)),
            (acc as int) < product(dims@.take(i as int)),
        decreases n - i,
    {
        proof {
            assert(dims@.take(i as int + 1).drop_last() =~= dims@.take(i as int));
            assert(to_ints(idx@).take(i as int + 1).drop_last() =~= to_ints(idx@).take(i as int));
            assert(dims@.take(i as int + 1).last() == dims@[i as int]);
            assert(to_ints(idx@).take(i as int + 1).last() == idx@[i as int] as int);
            assert(valid_index(dims@.take(i as int + 1), to_ints(idx@).take(i as int + 1)));
            lemma_flat_index_bound(dims@.take(i as int + 1), to_ints(idx@).take(i as int + 1));
            assert forall|j: int| 0 <= j < dims@.len() implies #[trigger] dims@[j] > 0 by {
                assert(0 <= to_ints(idx@)[j] < dims@[j]);
            }
            lemma_product_take_le(dims@, i as int + 1);
        }
        acc = acc * dims[i] + idx[i];
        i += 1;
    }
    proof {
        assert(dims@.take(n as int) =~= dims@);
        assert(to_ints(idx@).take(n as int) =~= to_ints(idx@));
    }
    acc
}

/// Multi-index of a flat row-major position, by repeated division from the
/// fastest-varying axis upward.
pub fn unflatten_exec(dims: &Vec<usize>, pos: usize) -> (r: Vec<usize>)
    requires
        (pos as int) < product(dims@),
    ensures
        to_ints(r@) == unflatten(dims@, pos as int),
        valid_index(dims@, to_ints(r@)),
        flat_index(dims@, to_ints(r@)) == pos as int,
{
    proof {
        lemma_positive_product_extents(dims@);
        lemma_flat_of_unflatten(dims@, pos as int);
    }
    let ghost u: Seq<int> = unflatten(dims@, pos as int);
    let n = dims.len();
    proof {
        assert(dims@.take(n as int) =~= dims@);
        assert(u.take(n as int) =~= u);
    }
    let mut rev: Vec<usize> = Vec::new();
    let mut p: usize = pos;
    let mut k: usize = n;
    while k > 0
        invariant
            0 <= k <= n,
            n == dims@.len(),
            forall|j: int| 0 <= j < n ==> #[trigger] dims@[j] > 0,
            u == unflatten(dims@, pos as int),
            valid_index(dims@, u),
            rev@.len() == n - k,
            forall|j: int| k <= j < n ==> #[trigger] u[j] == rev@[n - 1 - j] as int,
            p as int == flat_index(dims@.take(k as int), u.take(k as int)),
        decreases k,
    {
        let c = dims[k - 1];
        proof {
            assert(dims@.take(k as int).drop_last() =~= dims@.take(k as int - 1));
            assert(u.take(k as int).drop_last() =~= u.take(k as int - 1));
            assert(dims@.take(k as int).last() == dims@[k as int - 1]);
            assert(u.take(k as int).last() == u[k as int - 1]);
            let q = flat_index(dims@.take(k as int - 1), u.take(k as int - 1));
            lemma_fundamental_div_mod_converse(p as int, c as int, q, u[k as int - 1]);
            assert(valid_index(dims@.take(k as int - 1), u.take(k as int - 1)));
            lemma_flat_index_bound(dims@.take(k as int - 1), u.take(k as int - 1));
        }
        rev.push(p % c);
        p = p / c;
        k -= 1;
    }
    let mut out: Vec<usize> = Vec::new();
    let mut i: usize = 0;
    while i < n
        invariant
            0 <= i <= n,
            n == dims@.len(),
            rev@.len() == n,
            u == unflatten(dims@, pos as int),
            forall|j: int| 0 <= j < n ==> #[trigger] u[j] == rev@[n - 1 - j] as int,
            out@.len() == i,
            forall|j: int| 0 <= j < i ==> #[trigger] out@[j] as int == u[j],
        decreases n - i,
    {
        out.push(rev[n - 1 - i]);
        i += 1;
    }
    proof {
        assert(to_ints(out@) =~= u);
    }
    out
}

} // verus!
