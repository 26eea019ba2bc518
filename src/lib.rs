//! Sparse tensors in coordinate (COO) form, and tensor-times-matrix
//! multiplication over them.
//!
//! - [`axis`]: axes, identified by identity rather than by range.
//! - [`tensor`]: the coordinate-format tensor and its storage invariant.
//! - [`iter`]: every stored value with its logical index.
//! - [`sort`]: sorting the blocks of a tensor under a key of axes.
//! - [`fiber`]: grouping sorted rows into fibers along one column.
//! - [`ttm`]: the product of a tensor and a dense matrix along a common axis.
//! - [`reference`]: the product compared with a plain scatter.
//! - [`product_order`]: the product keeps the sort of the tensor.
//! - [`matrix`]: dense matrices.
//! - [`reorder`]: reordering a vector by a permutation.
//! - [`text`]: the text format of a tensor.

pub mod axis;
pub mod fiber;
pub mod iter;
pub mod matrix;
pub mod product_order;
pub mod reference;
pub mod reorder;
pub mod round_trip;
pub mod sort;
pub mod tensor;
pub mod text;
pub mod ttm;
