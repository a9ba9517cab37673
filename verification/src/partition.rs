//! Splitting a cluster: the choice of the two poles, the assignment of every
//! point to the nearer pole, and the recursive construction of the tree.

use vstd::prelude::*;
use vstd::string::StringExecFns;
use crate::cluster::{digit, in_range, pooled, Cluster};
use crate::criteria::{should_split, splits, Criterion};
use crate::dataset::{keys_from, Dataset, Space};
use crate::metric::Metric;
use crate::types::{Error, Index, Indices, Radius, K};

verus! {

impl<T, M: Metric<T>> Space<T, M> {
    /// The metric has a distance from `pole` to every one of `indices`.
    pub open spec fn reaches(&self, pole: Index, indices: Seq<Index>) -> bool {
        forall|k: int| 0 <= k < indices.len() ==> self.dist(pole, #[trigger] indices[k]) is Some
    }

    /// The distance between `i` and `j`, where the metric has one.
    pub open spec fn gap(&self, i: Index, j: Index) -> Radius {
        self.dist(i, j).unwrap()
    }

    /// `q` is at least as good a second pole as `x`: it lies farther from
    /// `pole`, or as far and has no larger index.
    pub open spec fn outranks(&self, pole: Index, q: Index, x: Index) -> bool {
        self.gap(pole, x) < self.gap(pole, q) || (self.gap(pole, x) == self.gap(pole, q) && q <= x)
    }

    /// `q` is the second pole for `pole` among `indices`: the index other than
    /// `pole` that is farthest from it, the smallest such index if several
    /// are equally far.
    pub open spec fn is_farthest(&self, pole: Index, indices: Seq<Index>, q: Index) -> bool {
        &&& indices.contains(q)
        &&& q != pole
        &&& forall|k: int|
            0 <= k < indices.len() && indices[k] != pole ==> self.outranks(
                pole,
                q,
                #[trigger] indices[k],
            )
    }

    /// The second pole for `pole` among `indices`.
    pub open spec fn farthest(&self, pole: Index, indices: Seq<Index>) -> Index {
        choose|q: Index| self.is_farthest(pole, indices, q)
    }

    /// The point `x` goes to the branch of the first pole `p` rather than to
    /// that of the second pole `q`.
    ///
    /// Each pole goes to its own branch. Any other point goes to the nearer
    /// pole, and to the pole with the lower index if both are equally near.
    pub open spec fn sides_with_first(&self, p: Index, q: Index, x: Index) -> bool {
        x == p || (x != q && (self.gap(p, x) < self.gap(q, x) || (self.gap(p, x) == self.gap(q, x)
            && p < q)))
    }

    /// The indices that go to the branch of the first pole, in their order.
    pub open spec fn first_branch(&self, p: Index, q: Index, indices: Seq<Index>) -> Seq<Index> {
        indices.filter(|x: Index| self.sides_with_first(p, q, x))
    }

    /// The indices that go to the branch of the second pole, in their order.
    pub open spec fn second_branch(&self, p: Index, q: Index, indices: Seq<Index>) -> Seq<Index> {
        indices.filter(|x: Index| !self.sides_with_first(p, q, x))
    }

    /// Among the first `n` of `indices` there is a best second pole, provided
    /// one of them differs from `pole`.
    proof fn lemma_best_of_prefix(&self, pole: Index, indices: Seq<Index>, n: int) -> (q: Index)
        requires
            0 <= n <= indices.len(),
            exists|k: int| 0 <= k < n && indices[k] != pole,
        ensures
            self.is_farthest(pole, indices.take(n), q),
        decreases n,
    {
        let last = indices[n - 1];
        let shorter = indices.take(n - 1);
        let prefix = indices.take(n);
        assert(prefix.drop_last() =~= shorter);
        if exists|k: int| 0 <= k < n - 1 && indices[k] != pole {
            let best = self.lemma_best_of_prefix(pole, indices, n - 1);
            let at = choose|k: int| 0 <= k < shorter.len() && shorter[k] == best;
            assert(prefix[at] == best);
            if last != pole && !self.outranks(pole, best, last) {
                assert(prefix[n - 1] == last);
                assert forall|k: int|
                    0 <= k < prefix.len() && prefix[k] != pole implies self.outranks(
                    pole,
                    last,
                    #[trigger] prefix[k],
                ) by {
                    if k < n - 1 {
                        assert(shorter[k] == prefix[k]);
                    }
                }
                last
            } else {
                assert forall|k: int|
                    0 <= k < prefix.len() && prefix[k] != pole implies self.outranks(
                    pole,
                    best,
                    #[trigger] prefix[k],
                ) by {
                    if k < n - 1 {
                        assert(shorter[k] == prefix[k]);
                    }
                }
                best
            }
        } else {
            assert(prefix[n - 1] == last);
            last
        }
    }

    /// Where some index differs from `pole`, the second pole exists.
    pub proof fn lemma_farthest_exists(&self, pole: Index, indices: Seq<Index>)
        requires
            exists|k: int| 0 <= k < indices.len() && indices[k] != pole,
        ensures
            self.is_farthest(pole, indices, self.farthest(pole, indices)),
    {
        let q = self.lemma_best_of_prefix(pole, indices, indices.len() as int);
        assert(indices.take(indices.len() as int) =~= indices);
    }

    /// There is only one second pole.
    pub proof fn lemma_farthest_unique(&self, pole: Index, indices: Seq<Index>, q: Index)
        requires
            self.is_farthest(pole, indices, q),
        ensures
            q == self.farthest(pole, indices),
    {
        let other = self.farthest(pole, indices);
        assert(self.is_farthest(pole, indices, other));
        let at = choose|k: int| 0 <= k < indices.len() && indices[k] == q;
        let at_other = choose|k: int| 0 <= k < indices.len() && indices[k] == other;
        assert(self.outranks(pole, other, indices[at]));
        assert(self.outranks(pole, q, indices[at_other]));
    }

    /// What splitting gives for a cluster of two or more different indices
    /// whose first is the pole `p`: the second pole exists, neither branch is
    /// empty, and the two branches hold each index of the cluster once.
    pub proof fn lemma_branches(&self, indices: Seq<Index>)
        requires
            indices.no_duplicates(),
            indices.len() >= 2,
        ensures
            ({
                let p = indices[0];
                let q = self.farthest(p, indices);
                let first = self.first_branch(p, q, indices);
                let second = self.second_branch(p, q, indices);
                &&& self.is_farthest(p, indices, q)
                &&& first.contains(p)
                &&& second.contains(q)
                &&& 0 < first.len() < indices.len()
                &&& 0 < second.len() < indices.len()
                &&& first.len() + second.len() == indices.len()
                &&& first.no_duplicates()
                &&& second.no_duplicates()
                &&& first.to_multiset().add(second.to_multiset()) == indices.to_multiset()
                &&& forall|x: Index| first.contains(x) ==> indices.contains(x)
                &&& forall|x: Index| second.contains(x) ==> indices.contains(x)
            }),
    {
        broadcast use Seq::lemma_filter_contains_rev;

        let p = indices[0];
        assert(indices[1] != p);
        self.lemma_farthest_exists(p, indices);
        let q = self.farthest(p, indices);
        let keep = |x: Index| self.sides_with_first(p, q, x);
        let drop = |x: Index| !self.sides_with_first(p, q, x);
        let first = self.first_branch(p, q, indices);
        let second = self.second_branch(p, q, indices);
        lemma_filter_complement(indices, keep, drop);
        let at = choose|k: int| 0 <= k < indices.len() && indices[k] == q;
        assert(keep(indices[0]));
        indices.lemma_filter_contains(keep, 0);
        assert(drop(indices[at]));
        indices.lemma_filter_contains(drop, at);
    }

    /// How the two branches grow when one more index is appended.
    pub proof fn lemma_branch_push(&self, p: Index, q: Index, indices: Seq<Index>, x: Index)
        ensures
            self.first_branch(p, q, indices.push(x)) == if self.sides_with_first(p, q, x) {
                self.first_branch(p, q, indices).push(x)
            } else {
                self.first_branch(p, q, indices)
            },
            self.second_branch(p, q, indices.push(x)) == if self.sides_with_first(p, q, x) {
                self.second_branch(p, q, indices)
            } else {
                self.second_branch(p, q, indices).push(x)
            },
    {
        broadcast use Seq::lemma_filter_push;

    }

    /// The indices of both branches are in range where those of the cluster
    /// are.
    pub proof fn lemma_branches_in_range(&self, indices: Seq<Index>, n: nat)
        requires
            indices.no_duplicates(),
            indices.len() >= 2,
            in_range(indices, n),
        ensures
            ({
                let p = indices[0];
                let q = self.farthest(p, indices);
                &&& q < n
                &&& in_range(self.first_branch(p, q, indices), n)
                &&& in_range(self.second_branch(p, q, indices), n)
            }),
    {
        self.lemma_branches(indices);
        let p = indices[0];
        let q = self.farthest(p, indices);
        let first = self.first_branch(p, q, indices);
        let second = self.second_branch(p, q, indices);
        assert forall|k: int| 0 <= k < first.len() implies #[trigger] first[k] < n by {
            assert(first.contains(first[k]));
        }
        assert forall|k: int| 0 <= k < second.len() implies #[trigger] second[k] < n by {
            assert(second.contains(second[k]));
        }
    }

    /// The keys of the distances that the construction of the tree below a
    /// cluster with this name and these indices asks for.
    ///
    /// A cluster that is not split asks for none. One that is split asks for
    /// the distances from both of its poles to each of its other points, and
    /// for what its two branches ask for.
    pub open spec fn asked<C: Criterion>(
        &self,
        criteria: Seq<C>,
        name: Seq<char>,
        indices: Seq<Index>,
    ) -> Set<u128>
        decreases indices.len(),
        when indices.no_duplicates()
    {
        if splits(criteria, name, indices) {
            let p = indices[0];
            let q = self.farthest(p, indices);
            proof {
                self.lemma_branches(indices);
            }
            keys_from(p, indices).union(keys_from(q, indices)).union(
                self.asked(criteria, name.push(digit(0)), self.first_branch(p, q, indices)),
            ).union(self.asked(criteria, name.push(digit(1)), self.second_branch(p, q, indices)))
        } else {
            Set::empty()
        }
    }

    /// Every distance that the construction of the tree below a cluster with
    /// this name and these indices asks for exists.
    ///
    /// A cluster that is not split asks for none. One that is split asks for
    /// the distances from both of its poles to each of its points, and for
    /// what its two branches ask for.
    pub open spec fn feasible<C: Criterion>(
        &self,
        criteria: Seq<C>,
        name: Seq<char>,
        indices: Seq<Index>,
    ) -> bool
        decreases indices.len(),
        when indices.no_duplicates()
    {
        if splits(criteria, name, indices) {
            let p = indices[0];
            let q = self.farthest(p, indices);
            proof {
                self.lemma_branches(indices);
            }
            &&& self.reaches(p, indices)
            &&& self.reaches(q, indices)
            &&& self.feasible(criteria, name.push(digit(0)), self.first_branch(p, q, indices))
            &&& self.feasible(criteria, name.push(digit(1)), self.second_branch(p, q, indices))
        } else {
            true
        }
    }
}

/// A sequence falls apart into what a predicate keeps and what it drops.
pub proof fn lemma_filter_complement<A>(s: Seq<A>, keep: spec_fn(A) -> bool, drop: spec_fn(A) -> bool)
    requires
        forall|x: A| #[trigger] drop(x) == !keep(x),
    ensures
        s.filter(keep).to_multiset().add(s.filter(drop).to_multiset()) == s.to_multiset(),
        s.filter(keep).len() + s.filter(drop).len() == s.len(),
        s.no_duplicates() ==> s.filter(keep).no_duplicates() && s.filter(drop).no_duplicates(),
    decreases s.len(),
{
    broadcast use {
        vstd::seq_lib::group_to_multiset_ensures,
        vstd::multiset::group_multiset_axioms,
        Seq::lemma_filter_push,
    };

    let kept = s.filter(keep);
    let dropped = s.filter(drop);
    if s.len() == 0 {
        reveal(Seq::filter);
        assert(kept =~= s);
        assert(dropped =~= s);
        assert(kept.to_multiset().add(dropped.to_multiset()) =~= s.to_multiset());
    } else {
        let rest = s.drop_last();
        let last = s.last();
        lemma_filter_complement(rest, keep, drop);
        assert(rest.push(last) =~= s);
        assert(rest.push(last).filter(keep) == kept);
        assert(rest.push(last).filter(drop) == dropped);
        assert(drop(last) == !keep(last));
        assert(kept.to_multiset().add(dropped.to_multiset()) =~= s.to_multiset());
    }
    if s.no_duplicates() {
        s.lemma_multiset_has_no_duplicates();
        assert forall|x: A| kept.to_multiset().contains(x) implies kept.to_multiset().count(x)
            == 1 by {
            assert(kept.to_multiset().count(x) + dropped.to_multiset().count(x)
                == s.to_multiset().count(x));
        }
        assert forall|x: A| dropped.to_multiset().contains(x) implies dropped.to_multiset().count(
            x,
        ) == 1 by {
            assert(kept.to_multiset().count(x) + dropped.to_multiset().count(x)
                == s.to_multiset().count(x));
        }
        kept.lemma_multiset_has_no_duplicates_conv();
        dropped.lemma_multiset_has_no_duplicates_conv();
    }
}

/// The second pole of a cluster, from the distances of its points to the
/// first pole, which is the cluster's first index.
fn second_pole<T, M: Metric<T>>(
    indices: &Indices,
    from_first: &Vec<Radius>,
    Ghost(space): Ghost<Space<T, M>>,
) -> (q: Index)
    requires
        indices@.no_duplicates(),
        indices@.len() >= 2,
        from_first@.len() == indices@.len(),
        forall|k: int|
            0 <= k < indices@.len() ==> space.dist(indices@[0], #[trigger] indices@[k]) == Some(
                from_first@[k],
            ),
    ensures
        q == space.farthest(indices@[0], indices@),
{
    let ghost pole = indices@[0];
    let mut best: usize = 1;
    let mut k: usize = 2;
    while k < indices.len()
        invariant
            1 <= best < k <= indices@.len(),
            pole == indices@[0],
            from_first@.len() == indices@.len(),
            forall|m: int|
                0 <= m < indices@.len() ==> space.dist(pole, #[trigger] indices@[m]) == Some(
                    from_first@[m],
                ),
            forall|m: int|
                1 <= m < k ==> space.outranks(pole, indices@[best as int], #[trigger] indices@[m]),
        decreases indices@.len() - k,
    {
        if from_first[k] > from_first[best] || (from_first[k] == from_first[best] && indices[k]
            < indices[best]) {
            best = k;
        }
        k += 1;
    }
    proof {
        assert(indices@.contains(indices@[best as int]));
        space.lemma_farthest_unique(pole, indices@, indices@[best as int]);
    }
    indices[best]
}

/// The two branches of a cluster, from the distances of its points to the
/// first pole, which is the cluster's first index, and to the second pole `q`.
fn assign<T, M: Metric<T>>(
    indices: &Indices,
    from_first: &Vec<Radius>,
    from_second: &Vec<Radius>,
    q: Index,
    Ghost(space): Ghost<Space<T, M>>,
) -> (branches: (Indices, Indices))
    requires
        indices@.len() >= 1,
        from_first@.len() == indices@.len(),
        from_second@.len() == indices@.len(),
        forall|k: int|
            0 <= k < indices@.len() ==> space.dist(indices@[0], #[trigger] indices@[k]) == Some(
                from_first@[k],
            ),
        forall|k: int|
            0 <= k < indices@.len() ==> space.dist(q, #[trigger] indices@[k]) == Some(
                from_second@[k],
            ),
    ensures
        branches.0@ == space.first_branch(indices@[0], q, indices@),
        branches.1@ == space.second_branch(indices@[0], q, indices@),
{
    let p = indices[0];
    let mut first: Indices = Vec::new();
    let mut second: Indices = Vec::new();
    let mut k: usize = 0;
    proof {
        reveal(Seq::filter);
        assert(indices@.take(0) =~= Seq::<Index>::empty());
    }
    while k < indices.len()
        invariant
            k <= indices@.len(),
            p == indices@[0],
            from_first@.len() == indices@.len(),
            from_second@.len() == indices@.len(),
            forall|m: int|
                0 <= m < indices@.len() ==> space.dist(p, #[trigger] indices@[m]) == Some(
                    from_first@[m],
                ),
            forall|m: int|
                0 <= m < indices@.len() ==> space.dist(q, #[trigger] indices@[m]) == Some(
                    from_second@[m],
                ),
            first@ == space.first_branch(p, q, indices@.take(k as int)),
            second@ == space.second_branch(p, q, indices@.take(k as int)),
        decreases indices@.len() - k,
    {
        let x = indices[k];
        let near = from_first[k];
        let far = from_second[k];
        proof {
            assert(indices@.take(k + 1) =~= indices@.take(k as int).push(x));
            space.lemma_branch_push(p, q, indices@.take(k as int), x);
            assert(space.dist(p, indices@[k as int]) == Some(near));
            assert(space.dist(q, indices@[k as int]) == Some(far));
        }
        if x == p || (x != q && (near < far || (near == far && p < q))) {
            first.push(x);
        } else {
            second.push(x);
        }
        k += 1;
    }
    proof {
        assert(indices@.take(k as int) =~= indices@);
    }
    (first, second)
}

/// The name of the child on branch `b` of a node called `parent`.
fn branch_name(parent: &String, b: usize) -> (name: String)
    requires
        b < K,
    ensures
        name@ == parent@.push(digit(b as int)),
{
    let mut name = parent.clone();
    proof {
        reveal_strlit("0");
        reveal_strlit("1");
    }
    if b == 0 {
        name.append("0");
        assert(name@ =~= parent@.push('0'));
    } else {
        name.append("1");
        assert(name@ =~= parent@.push('1'));
    }
    name
}

impl Cluster {
    /// Builds the subtree below this cluster.
    ///
    /// Where the criteria list is empty, where one of the criteria does not
    /// admit the cluster, or where the cluster holds fewer than `K` points,
    /// the cluster comes back as it is. Otherwise it comes back with two
    /// children, each partitioned in turn under the same criteria: the first
    /// pole is the cluster's first index, the second pole the point farthest
    /// from it, and every point goes to the pole it sides with.
    ///
    /// Every distance is obtained through the cache of `dataset`: afterwards
    /// the cache holds what it held and the distances that the construction
    /// asked for, and the metric was invoked once for each of these that was
    /// not cached.
    ///
    /// The call fails, with `MetricFailure`, exactly where the metric has no
    /// answer for a distance that the construction asks for; no tree comes
    /// back then, and the dataset keeps every distance that was computed.
    pub fn partition<T, M: Metric<T>, C: Criterion>(
        self,
        dataset: &mut Dataset<T, M>,
        criteria: &Vec<C>,
    ) -> (r: Result<Cluster, Error>)
        requires
            old(dataset).wf(),
            self.indices@.no_duplicates(),
            in_range(self.indices@, old(dataset).points@.len()),
        ensures
            final(dataset).wf(),
            final(dataset).extends(old(dataset)),
            match r {
                Ok(tree) => {
                    &&& old(dataset).space().feasible(criteria@, self.name@, self.indices@)
                    &&& tree.name == self.name
                    &&& tree.indices == self.indices
                    &&& final(dataset).advanced_by(
                        old(dataset),
                        old(dataset).space().asked(criteria@, self.name@, self.indices@),
                    )
                    &&& if splits(criteria@, self.name@, self.indices@) {
                        tree.built(old(dataset).space(), criteria@) && tree.wf()
                    } else {
                        tree == self
                    }
                },
                Err(e) => {
                    &&& e == Error::MetricFailure
                    &&& !old(dataset).space().feasible(criteria@, self.name@, self.indices@)
                },
            },
        decreases self.indices@.len(),
    {
        let ghost space = dataset.space();
        let ghost before = *dataset;
        if !should_split(&self, criteria) {
            proof {
                assert(dataset.cache@.dom() =~= dataset.cache@.dom().union(Set::<u128>::empty()));
            }
            return Ok(self);
        }
        proof {
            space.lemma_branches(self.indices@);
            space.lemma_branches_in_range(self.indices@, dataset.points@.len());
        }
        let p = self.indices[0];
        let from_first = match dataset.distances(p, &self.indices) {
            Ok(found) => found,
            Err(e) => {
                return Err(e);
            },
        };
        let q = second_pole::<T, M>(&self.indices, &from_first, Ghost(space));
        let ghost probed = *dataset;
        let from_second = match dataset.distances(q, &self.indices) {
            Ok(found) => found,
            Err(e) => {
                proof {
                    dataset.lemma_extends_transitive(&probed, &before);
                }
                return Err(e);
            },
        };
        let (first_indices, second_indices) = assign::<T, M>(
            &self.indices,
            &from_first,
            &from_second,
            q,
            Ghost(space),
        );
        let ghost assigned = *dataset;
        proof {
            dataset.lemma_advanced_twice(
                &probed,
                &before,
                keys_from(p, self.indices@),
                keys_from(q, self.indices@),
            );
        }
        let first = Cluster {
            indices: first_indices,
            name: branch_name(&self.name, 0),
            children: None,
        };
        let first = match first.partition(dataset, criteria) {
            Ok(tree) => tree,
            Err(e) => {
                proof {
                    dataset.lemma_extends_transitive(&assigned, &before);
                }
                return Err(e);
            },
        };
        let ghost halfway = *dataset;
        proof {
            dataset.lemma_advanced_twice(
                &assigned,
                &before,
                keys_from(p, self.indices@).union(keys_from(q, self.indices@)),
                space.asked(criteria@, first.name@, first.indices@),
            );
        }
        let second = Cluster {
            indices: second_indices,
            name: branch_name(&self.name, 1),
            children: None,
        };
        let second = match second.partition(dataset, criteria) {
            Ok(tree) => tree,
            Err(e) => {
                proof {
                    dataset.lemma_extends_transitive(&halfway, &before);
                }
                return Err(e);
            },
        };
        proof {
            dataset.lemma_advanced_twice(
                &halfway,
                &before,
                keys_from(p, self.indices@).union(keys_from(q, self.indices@)).union(
                    space.asked(criteria@, first.name@, first.indices@),
                ),
                space.asked(criteria@, second.name@, second.indices@),
            );
        }
        let mut kids: Vec<Cluster> = Vec::new();
        kids.push(first);
        kids.push(second);
        let tree = Cluster { indices: self.indices, name: self.name, children: Some(kids) };
        proof {
            assert(tree.kids()[0] == first);
            assert(tree.kids()[1] == second);
            assert(first.built(space, criteria@));
            assert(second.built(space, criteria@));
            tree.lemma_built_wf(space, criteria@);
        }
        Ok(tree)
    }

    /// This subtree is what partitioning a leaf with this node's name and
    /// indices gives.
    ///
    /// A node that the criteria do not split has no children. A node that
    /// they split has two: branch `0` holds the points that side with the
    /// first pole, which is the node's first index, and branch `1` those that
    /// side with the second pole, which is the point farthest from the first;
    /// each child carries its parent's name with its branch digit appended,
    /// and is itself such a subtree.
    pub open spec fn built<T, M: Metric<T>, C: Criterion>(
        &self,
        space: Space<T, M>,
        criteria: Seq<C>,
    ) -> bool
        decreases self,
    {
        if splits(criteria, self.name@, self.indices@) {
            let p = self.indices@[0];
            let q = space.farthest(p, self.indices@);
            &&& self.children is Some
            &&& self.kids().len() == K
            &&& self.kids()[0].name@ == self.name@.push(digit(0))
            &&& self.kids()[1].name@ == self.name@.push(digit(1))
            &&& self.kids()[0].indices@ == space.first_branch(p, q, self.indices@)
            &&& self.kids()[1].indices@ == space.second_branch(p, q, self.indices@)
            &&& self.kids()[0].built(space, criteria)
            &&& self.kids()[1].built(space, criteria)
        } else {
            self.children is None
        }
    }

    /// A tree built over distinct indices is well-formed: at every internal
    /// node the children are not empty and hold together exactly the indices
    /// of the node, each once.
    pub proof fn lemma_built_wf<T, M: Metric<T>, C: Criterion>(
        &self,
        space: Space<T, M>,
        criteria: Seq<C>,
    )
        requires
            self.built(space, criteria),
            self.indices@.no_duplicates(),
        ensures
            self.wf(),
        decreases self,
    {
        broadcast use vstd::multiset::group_multiset_axioms;

        if splits(criteria, self.name@, self.indices@) {
            space.lemma_branches(self.indices@);
            let kids = self.kids();
            kids[0].lemma_built_wf(space, criteria);
            kids[1].lemma_built_wf(space, criteria);
            assert(kids.drop_last().drop_last() =~= Seq::<Cluster>::empty());
            reveal_with_fuel(pooled, 3);
            assert(pooled(kids) =~= self.indices@.to_multiset());
        }
    }
}

} // verus!
