//! Shared vocabulary: indices, distances, the branching factor and the errors.

use vstd::prelude::*;

verus! {

/// Position of a point in a dataset.
pub type Index = usize;

/// An ordered collection of point indices.
pub type Indices = Vec<Index>;

/// A distance between two points.
///
/// Distances are carried as unsigned integers that order the same way as the
/// quantities they stand for; zero is the distance of a point to itself.
pub type Radius = u64;

/// Branching factor of the cluster tree: every internal node has exactly this
/// many children.
pub const K: usize = 2;

/// Everything that can go wrong while querying distances or building a tree.
#[derive(Debug, Clone, Copy, PartialEq, Eq, Structural)]
pub enum Error {
    /// A distance was asked for an index that is not in the dataset.
    IndexOutOfRange,
    /// A tree was asked for over zero points.
    EmptyDataset,
    /// A stopping criterion is configured in a self-contradictory way.
    InvalidCriteria,
    /// The metric could not produce a distance for some pair of points.
    MetricFailure,
}

} // verus!
