//! Stopping criteria: the predicates that decide whether a cluster is split
//! further.

use vstd::prelude::*;
use crate::cluster::Cluster;
use crate::types::{Index, K};

verus! {

/// A predicate over a candidate cluster: `true` means "keep splitting".
///
/// A criterion is a pure function of the candidate's name and indices. Its
/// configuration may be self-contradictory, which `valid` tells.
pub trait Criterion {
    /// The configuration makes sense.
    spec fn valid(&self) -> bool;

    /// A cluster with this name and these indices may be split.
    spec fn admits(&self, name: Seq<char>, indices: Seq<Index>) -> bool;

    /// Tells whether the configuration makes sense.
    fn is_valid(&self) -> (ok: bool)
        ensures
            ok == self.valid(),
    ;

    /// Tells whether `cluster` may be split.
    fn check(&self, cluster: &Cluster) -> (go: bool)
        ensures
            go == self.admits(cluster.name@, cluster.indices@),
    ;
}

/// Keep splitting while a cluster holds more than `threshold` points.
#[derive(Debug, Clone, Copy)]
pub struct MinPoints {
    /// The cardinality that a cluster must exceed to be split; negative
    /// values are a configuration error.
    pub threshold: i64,
}

impl MinPoints {
    /// A criterion with the given threshold.
    pub fn new(threshold: i64) -> (criterion: MinPoints)
        ensures
            criterion.threshold == threshold,
    {
        MinPoints { threshold }
    }
}

impl Criterion for MinPoints {
    open spec fn valid(&self) -> bool {
        self.threshold >= 0
    }

    open spec fn admits(&self, name: Seq<char>, indices: Seq<Index>) -> bool {
        indices.len() > self.threshold
    }

    fn is_valid(&self) -> (ok: bool) {
        self.threshold >= 0
    }

    fn check(&self, cluster: &Cluster) -> (go: bool) {
        self.threshold < 0 || cluster.cardinality() as u128 > self.threshold as u128
    }
}

/// Keep splitting while a cluster lies less than `limit` levels below the
/// root.
#[derive(Debug, Clone, Copy)]
pub struct MaxDepth {
    /// The depth at which splitting stops; negative values are a
    /// configuration error.
    pub limit: i64,
}

impl MaxDepth {
    /// A criterion with the given limit.
    pub fn new(limit: i64) -> (criterion: MaxDepth)
        ensures
            criterion.limit == limit,
    {
        MaxDepth { limit }
    }
}

impl Criterion for MaxDepth {
    open spec fn valid(&self) -> bool {
        self.limit >= 0
    }

    open spec fn admits(&self, name: Seq<char>, indices: Seq<Index>) -> bool {
        name.len() < self.limit
    }

    fn is_valid(&self) -> (ok: bool) {
        self.limit >= 0
    }

    fn check(&self, cluster: &Cluster) -> (go: bool) {
        self.limit >= 0 && (cluster.depth() as u128) < self.limit as u128
    }
}

/// Every criterion of the list admits a cluster with this name and indices.
pub open spec fn all_admit<C: Criterion>(
    criteria: Seq<C>,
    name: Seq<char>,
    indices: Seq<Index>,
) -> bool {
    forall|k: int| 0 <= k < criteria.len() ==> (#[trigger] criteria[k]).admits(name, indices)
}

/// Every criterion of the list is validly configured.
pub open spec fn all_valid<C: Criterion>(criteria: Seq<C>) -> bool {
    forall|k: int| 0 <= k < criteria.len() ==> (#[trigger] criteria[k]).valid()
}

/// A cluster with this name and these indices is split: the list is not
/// empty, every criterion admits the cluster, and the cluster holds enough
/// points to give each of the `K` branches one.
pub open spec fn splits<C: Criterion>(
    criteria: Seq<C>,
    name: Seq<char>,
    indices: Seq<Index>,
) -> bool {
    criteria.len() > 0 && all_admit(criteria, name, indices) && indices.len() >= K
}

/// Tells whether every criterion of the list is validly configured.
pub fn validate<C: Criterion>(criteria: &Vec<C>) -> (ok: bool)
    ensures
        ok == all_valid(criteria@),
{
    let mut k: usize = 0;
    while k < criteria.len()
        invariant
            k <= criteria.len(),
            forall|m: int| 0 <= m < k ==> (#[trigger] criteria@[m]).valid(),
        decreases criteria.len() - k,
    {
        if !criteria[k].is_valid() {
            return false;
        }
        k += 1;
    }
    true
}

/// Tells whether `cluster` is to be split under `criteria`.
pub fn should_split<C: Criterion>(cluster: &Cluster, criteria: &Vec<C>) -> (go: bool)
    ensures
        go == splits(criteria@, cluster.name@, cluster.indices@),
{
    if criteria.len() == 0 || cluster.cardinality() < K {
        return false;
    }
    let mut k: usize = 0;
    while k < criteria.len()
        invariant
            k <= criteria.len(),
            forall|m: int|
                0 <= m < k ==> (#[trigger] criteria@[m]).admits(cluster.name@, cluster.indices@),
        decreases criteria.len() - k,
    {
        if !criteria[k].check(cluster) {
            return false;
        }
        k += 1;
    }
    true
}

} // verus!
