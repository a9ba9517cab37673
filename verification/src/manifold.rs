//! The manifold: a dataset together with the cluster tree built over it.

use std::collections::HashMap;
use vstd::multiset::Multiset;
use vstd::prelude::*;
use crate::cluster::{in_range, is_path, Cluster};
use crate::criteria::{all_valid, validate, Criterion};
use crate::dataset::{space_of, Dataset, Space};
use crate::metric::Metric;
use crate::types::{Error, Index, Indices};

verus! {

broadcast use vstd::std_specs::hash::group_hash_axioms;

/// The indices `0, 1, ..., n - 1`, in this order.
pub open spec fn all_indices(n: nat) -> Seq<Index> {
    Seq::new(n, |i: int| i as Index)
}

/// Why no tree can be built over `space` under `criteria`, if none can.
///
/// There must be a point. Then every criterion must be validly configured.
/// Then the metric must have every distance that the construction asks for.
pub open spec fn obstacle<T, M: Metric<T>, C: Criterion>(
    space: Space<T, M>,
    criteria: Seq<C>,
) -> Option<Error> {
    if space.len() == 0 {
        Some(Error::EmptyDataset)
    } else if !all_valid(criteria) {
        Some(Error::InvalidCriteria)
    } else if !space.feasible(criteria, Seq::<char>::empty(), all_indices(space.len())) {
        Some(Error::MetricFailure)
    } else {
        None
    }
}

/// A dataset and the finished cluster tree over all of its points.
pub struct Manifold<T, M> {
    /// The points, the metric and the distance cache.
    pub dataset: Dataset<T, M>,
    /// The root of the tree; always present in a manifold that `new` made.
    pub root: Option<Cluster>,
}

impl<T, M: Metric<T>> Manifold<T, M> {
    /// The manifold's invariant: the dataset is well-formed and not empty,
    /// and the tree is well-formed, with a root that has the empty name and
    /// owns every point.
    pub open spec fn wf(&self) -> bool {
        &&& self.dataset.wf()
        &&& self.dataset.points@.len() > 0
        &&& self.root matches Some(root) && {
            &&& root.wf()
            &&& root.name@ == Seq::<char>::empty()
            &&& root.indices@ == all_indices(self.dataset.points@.len())
        }
    }

    /// The tree of a manifold has fewer than twice as many nodes as the
    /// dataset has points; every node is well-formed, is named by its path
    /// from the root, and holds indices of the dataset only.
    pub proof fn lemma_tree_fits(&self)
        requires
            self.wf(),
        ensures
            self.root->0.node_count() < 2 * self.dataset.points@.len(),
            forall|i: int|
                0 <= i < self.root->0.subtree().len() ==> {
                    let node = #[trigger] self.root->0.subtree()[i];
                    &&& node.wf()
                    &&& is_path(node.name@)
                    &&& in_range(node.indices@, self.dataset.points@.len())
                },
    {
        let root = self.root->0;
        root.lemma_node_count_bound();
        root.lemma_nodes_wf();
        root.lemma_names_are_paths();
        root.lemma_nodes_in_range(self.dataset.points@.len());
    }

    /// The cache holds exactly the keys in `asked`, and the metric has been
    /// invoked once on each of them and on nothing else.
    pub open spec fn holds_exactly(&self, asked: Set<u128>) -> bool {
        &&& self.dataset.cache@.dom() == asked
        &&& forall|k: u128| #[trigger]
            self.dataset.evaluated@.count(k) == if asked.contains(k) {
                1nat
            } else {
                0nat
            }
    }

    /// Builds the manifold over `data`: makes the dataset with an empty
    /// cache, makes the root over all the points, and partitions it under
    /// `criteria`.
    ///
    /// The dataset of the manifold has cached the distances that the
    /// construction asked for, and no others.
    ///
    /// Nothing is built, and the reason is returned, where `data` is empty,
    /// where a criterion is invalid, or where the metric fails on a distance
    /// that the construction asks for; these are looked for in this order.
    pub fn new<C: Criterion>(data: Box<Vec<T>>, metric: M, criteria: Vec<C>) -> (r: Result<
        Self,
        Error,
    >)
        ensures
            match r {
                Ok(manifold) => {
                    &&& obstacle(space_of(data@, metric), criteria@) is None
                    &&& manifold.wf()
                    &&& manifold.dataset.space() == space_of(data@, metric)
                    &&& manifold.root->0.built(space_of(data@, metric), criteria@)
                    &&& manifold.holds_exactly(
                        space_of(data@, metric).asked(
                            criteria@,
                            Seq::<char>::empty(),
                            all_indices(data@.len()),
                        ),
                    )
                },
                Err(e) => obstacle(space_of(data@, metric), criteria@) == Some(e),
            },
    {
        let n = data.len();
        if n == 0 {
            return Err(Error::EmptyDataset);
        }
        if !validate(&criteria) {
            return Err(Error::InvalidCriteria);
        }
        let mut dataset = Dataset {
            points: data,
            metric,
            cache: HashMap::new(),
            evaluated: Ghost(Multiset::empty()),
        };
        let mut indices: Indices = Vec::new();
        let mut i: usize = 0;
        while i < n
            invariant
                i <= n,
                indices@ == all_indices(i as nat),
            decreases n - i,
        {
            indices.push(i);
            i += 1;
            assert(indices@ =~= all_indices(i as nat));
        }
        let root = Cluster::new(indices);
        let ghost fresh = dataset;
        match root.partition(&mut dataset, &criteria) {
            Ok(tree) => {
                proof {
                    let asked = fresh.space().asked(criteria@, root.name@, root.indices@);
                    assert(dataset.cache@.dom() =~= asked);
                }
                Ok(Manifold { dataset, root: Some(tree) })
            },
            Err(e) => Err(e),
        }
    }

    /// Number of nodes in the tree.
    pub fn cluster_count(&self) -> (count: u32)
        requires
            self.root is Some,
            self.root->0.node_count() <= u32::MAX,
        ensures
            count == self.root->0.node_count(),
    {
        match &self.root {
            Some(root) => root.cluster_count(),
            None => 0,
        }
    }

    /// The nodes at which a descent from the root towards `depth` comes to
    /// rest, from left to right: the leaves of the tree where no depth is
    /// given.
    pub fn leaves<'a>(&'a self, depth: Option<usize>) -> (found: Vec<&'a Cluster>)
        requires
            self.root is Some,
        ensures
            found@.len() == self.root->0.leaves_at(depth).len(),
            forall|i: int|
                0 <= i < found@.len() ==> *(#[trigger] found@[i]) == self.root->0.leaves_at(
                    depth,
                )[i],
    {
        match &self.root {
            Some(root) => root.leaves(depth),
            None => Vec::new(),
        }
    }
}

} // verus!
