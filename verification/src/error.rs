//! The ways in which building or querying a tree can be refused.

use vstd::prelude::*;

verus! {

/// Why an input was rejected.  Both kinds are detected before any work is
/// done, and no partial result is produced.
#[derive(Debug, Clone, Copy, PartialEq, Eq, Structural)]
pub enum KdError {
    /// A tree was to be built from no points at all.
    EmptyInput,
    /// The points do not all have the same positive number of coordinates,
    /// or a query point has another number of coordinates than the tree.
    DimensionMismatch,
}

} // verus!
