//! Exact k-nearest-neighbour search over integer points of a fixed dimension.
//!
//! A [`KDTree`] is built once from a collection of points by recursive median
//! partitioning and is immutable afterwards.  A query walks the tree depth
//! first, keeps the best candidates in a bounded buffer and skips every
//! subtree that provably holds nothing closer.
//!
//! Distances are compared as exact squared Euclidean distances, so that no
//! rounding can change which points are nearest.

pub mod dist;
pub mod error;
pub mod laws;
pub mod nearest;
pub mod node;
pub mod perm;
pub mod select;
pub mod topk;
pub mod tree;

pub use dist::Dist;
pub use error::KdError;
pub use tree::KDTree;
