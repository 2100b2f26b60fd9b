//! Shape-aware multi-dimensional slicing over row-major tensors.
//!
//! A [`tensor::Tensor`] couples a shape (per-axis extents) with a flat,
//! row-major element buffer.  [`tensor::Tensor::index`] restricts a tensor to
//! the cross product of per-axis half-open ranges, and
//! [`tensor::Tensor::index_assign`] overwrites such a region with externally
//! supplied values while leaving every other element unchanged.  Both
//! operations validate their inputs and report out-of-range or mismatched
//! arguments as typed errors.

pub mod shape;
pub mod slicing;
pub mod tensor;
