use tensor_index::slicing::{AxisRange, IndexError};
use tensor_index::tensor::Tensor;

fn tensor(shape: Vec<usize>, data: Vec<i64>) -> Tensor {
    Tensor::new(shape, data).unwrap()
}

fn r(start: usize, end: usize) -> AxisRange {
    AxisRange { start, end }
}

#[test]
fn should_support_full_indexing_1d() {
    let t = tensor(vec![3], vec![0, 1, 2]);
    let out = t.index(&vec![r(0, 3)]).unwrap();
    assert_eq!(out.shape, vec![3]);
    assert_eq!(out.into_data(), vec![0, 1, 2]);
}

#[test]
fn should_support_partial_indexing_1d() {
    let t = tensor(vec![3], vec![0, 1, 2]);
    let out = t.index(&vec![r(1, 3)]).unwrap();
    assert_eq!(out.shape, vec![2]);
    assert_eq!(out.into_data(), vec![1, 2]);
}

#[test]
fn should_support_full_indexing_2d() {
    let t = tensor(vec![2, 3], vec![0, 1, 2, 3, 4, 5]);
    let out_1 = t.index(&vec![r(0, 2)]).unwrap();
    let out_2 = t.index(&vec![r(0, 2), r(0, 3)]).unwrap();
    assert_eq!(out_1.into_data(), vec![0, 1, 2, 3, 4, 5]);
    assert_eq!(out_2.into_data(), vec![0, 1, 2, 3, 4, 5]);
}

#[test]
fn should_support_partial_indexing_2d() {
    let t = tensor(vec![2, 3], vec![0, 1, 2, 3, 4, 5]);
    let out = t.index(&vec![r(0, 2), r(0, 2)]).unwrap();
    assert_eq!(out.shape, vec![2, 2]);
    assert_eq!(out.into_data(), vec![0, 1, 3, 4]);
}

#[test]
fn should_support_indexe_assign_1d() {
    let t = tensor(vec![3], vec![0, 1, 2]);
    let v = tensor(vec![2], vec![10, 5]);
    let out = t.index_assign(&vec![r(0, 2)], &v).unwrap();
    assert_eq!(out.into_data(), vec![10, 5, 2]);
}

#[test]
fn should_support_indexe_assign_2d() {
    let t = tensor(vec![2, 3], vec![0, 1, 2, 3, 4, 5]);
    let v = tensor(vec![1, 2], vec![10, 5]);
    let out = t.index_assign(&vec![r(1, 2), r(0, 2)], &v).unwrap();
    assert_eq!(out.into_data(), vec![0, 1, 2, 10, 5, 5]);
}

#[test]
fn full_range_indexing_3d_is_identity() {
    let t = tensor(vec![2, 2, 2], vec![1, 2, 3, 4, 5, 6, 7, 8]);
    let out = t.index(&vec![r(0, 2), r(0, 2), r(0, 2)]).unwrap();
    assert_eq!(out.shape, vec![2, 2, 2]);
    assert_eq!(out.into_data(), vec![1, 2, 3, 4, 5, 6, 7, 8]);
}

#[test]
fn empty_range_spec_is_identity() {
    let t = tensor(vec![2, 3], vec![0, 1, 2, 3, 4, 5]);
    let out = t.index(&vec![]).unwrap();
    assert_eq!(out.shape, vec![2, 3]);
    assert_eq!(out.into_data(), vec![0, 1, 2, 3, 4, 5]);
}

#[test]
fn narrowed_shape_is_range_width_on_covered_axes() {
    let t = tensor(vec![2, 3], vec![0, 1, 2, 3, 4, 5]);
    let out = t.index(&vec![r(1, 2)]).unwrap();
    assert_eq!(out.shape, vec![1, 3]);
    assert_eq!(out.into_data(), vec![3, 4, 5]);
}

#[test]
fn zero_width_range_yields_empty_tensor() {
    let t = tensor(vec![3], vec![0, 1, 2]);
    let out = t.index(&vec![r(1, 1)]).unwrap();
    assert_eq!(out.shape, vec![0]);
    assert_eq!(out.into_data(), vec![]);
}

#[test]
fn scalar_tensor_full_indexing() {
    let t = tensor(vec![], vec![42]);
    let out = t.index(&vec![]).unwrap();
    assert_eq!(out.shape, vec![]);
    assert_eq!(out.into_data(), vec![42]);
}

#[test]
fn index_rejects_spec_longer_than_rank() {
    let t = tensor(vec![3], vec![0, 1, 2]);
    let err = t.index(&vec![r(0, 1), r(0, 1)]).unwrap_err();
    assert_eq!(err, IndexError::RankMismatch);
}

#[test]
fn index_rejects_range_past_extent() {
    let t = tensor(vec![3], vec![0, 1, 2]);
    let err = t.index(&vec![r(1, 4)]).unwrap_err();
    assert_eq!(err, IndexError::OutOfBoundsRange);
}

#[test]
fn index_rejects_backwards_range() {
    let t = tensor(vec![3], vec![0, 1, 2]);
    let err = t.index(&vec![r(2, 1)]).unwrap_err();
    assert_eq!(err, IndexError::OutOfBoundsRange);
}

#[test]
fn index_assign_preserves_shape() {
    let t = tensor(vec![2, 3], vec![0, 1, 2, 3, 4, 5]);
    let v = tensor(vec![1, 1], vec![9]);
    let out = t.index_assign(&vec![r(0, 1), r(2, 3)], &v).unwrap();
    assert_eq!(out.shape, vec![2, 3]);
    assert_eq!(out.into_data(), vec![0, 1, 9, 3, 4, 5]);
}

#[test]
fn index_assign_full_region_replaces_all() {
    let t = tensor(vec![2], vec![1, 2]);
    let v = tensor(vec![2], vec![5, 6]);
    let out = t.index_assign(&vec![r(0, 2)], &v).unwrap();
    assert_eq!(out.into_data(), vec![5, 6]);
}

#[test]
fn index_assign_is_idempotent() {
    let t = tensor(vec![2, 3], vec![0, 1, 2, 3, 4, 5]);
    let v = tensor(vec![1, 2], vec![10, 5]);
    let once = t.index_assign(&vec![r(1, 2), r(0, 2)], &v).unwrap();
    let twice = once.index_assign(&vec![r(1, 2), r(0, 2)], &v).unwrap();
    assert_eq!(twice.shape, vec![2, 3]);
    assert_eq!(twice.into_data(), vec![0, 1, 2, 10, 5, 5]);
}

#[test]
fn index_assign_rejects_spec_longer_than_rank() {
    let t = tensor(vec![3], vec![0, 1, 2]);
    let v = tensor(vec![1], vec![9]);
    let err = t.index_assign(&vec![r(0, 1), r(0, 1)], &v).unwrap_err();
    assert_eq!(err, IndexError::RankMismatch);
}

#[test]
fn index_assign_rejects_range_past_extent() {
    let t = tensor(vec![3], vec![0, 1, 2]);
    let v = tensor(vec![2], vec![9, 9]);
    let err = t.index_assign(&vec![r(2, 4)], &v).unwrap_err();
    assert_eq!(err, IndexError::OutOfBoundsRange);
}

#[test]
fn index_assign_rejects_mismatched_values_shape() {
    let t = tensor(vec![3], vec![0, 1, 2]);
    let v = tensor(vec![3], vec![9, 9, 9]);
    let err = t.index_assign(&vec![r(0, 2)], &v).unwrap_err();
    assert_eq!(err, IndexError::ShapeMismatch);
}

#[test]
fn new_rejects_data_not_filling_shape() {
    let err = Tensor::new(vec![2, 2], vec![1, 2, 3]).unwrap_err();
    assert_eq!(err, IndexError::ShapeMismatch);
}

#[test]
fn new_accepts_zero_extent_axis() {
    let t = tensor(vec![2, 0], vec![]);
    let out = t.index(&vec![r(0, 2), r(0, 0)]).unwrap();
    assert_eq!(out.shape, vec![2, 0]);
    assert_eq!(out.into_data(), vec![]);
}
