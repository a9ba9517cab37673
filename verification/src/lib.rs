//! Hierarchical divisive clustering of a finite point set under a pairwise
//! distance, with a memoised triangular distance cache.
//!
//! A [`Dataset`] owns the points, the metric and the cache of distances. A
//! [`Cluster`] is a node of the partition tree, and [`Cluster::partition`]
//! builds the subtree below a node under a list of stopping criteria. A
//! [`Manifold`] is a dataset together with the finished tree over all of its
//! points.

pub mod cluster;
pub mod criteria;
pub mod dataset;
pub mod manifold;
pub mod metric;
pub mod partition;
pub mod triangular;
pub mod types;

pub use crate::cluster::Cluster;
pub use crate::criteria::{Criterion, MaxDepth, MinPoints};
pub use crate::dataset::Dataset;
pub use crate::manifold::Manifold;
pub use crate::metric::Metric;
pub use crate::types::{Error, Index, Indices, Radius, K};
