//! A node of the cluster tree.

use vstd::multiset::Multiset;
use vstd::prelude::*;
use vstd::string::StrSliceExecFns;
use crate::types::{Index, Indices, K};

verus! {

/// A node of the partition tree: the point indices it owns, the path that
/// names it, and its children if it has been split.
#[derive(Debug)]
pub struct Cluster {
    /// The indices of the points in this cluster.
    pub indices: Indices,
    /// The path from the root: one digit per level, empty for the root.
    pub name: String,
    /// The `K` children of an internal node; `None` for a leaf.
    pub children: Option<Vec<Cluster>>,
}

/// The digit that the child on branch `b` appends to its parent's name.
pub open spec fn digit(b: int) -> char {
    if b == 0 {
        '0'
    } else {
        '1'
    }
}

/// `name` is written in branch digits only.
pub open spec fn is_path(name: Seq<char>) -> bool {
    forall|i: int| 0 <= i < name.len() ==> #[trigger] name[i] == digit(0) || name[i] == digit(1)
}

/// Every one of `indices` is the index of one of `n` points.
pub open spec fn in_range(indices: Seq<Index>, n: nat) -> bool {
    forall|k: int| 0 <= k < indices.len() ==> #[trigger] indices[k] < n
}

/// The indices of all the clusters of `forest`, pooled with multiplicity.
pub open spec fn pooled(forest: Seq<Cluster>) -> Multiset<Index>
    decreases forest.len(),
{
    if forest.len() == 0 {
        Multiset::empty()
    } else {
        pooled(forest.drop_last()).add(forest.last().indices@.to_multiset())
    }
}

/// Number of nodes in all the trees of `forest`.
pub open spec fn forest_count(forest: Seq<Cluster>) -> nat
    decreases forest,
{
    if forest.len() == 0 {
        0
    } else {
        forest_count(forest.drop_last()) + forest.last().node_count()
    }
}

/// The nodes at which a descent through the trees of `forest` towards `depth`
/// comes to rest, tree after tree.
pub open spec fn forest_leaves(forest: Seq<Cluster>, depth: Option<usize>) -> Seq<Cluster>
    decreases forest,
{
    if forest.len() == 0 {
        Seq::empty()
    } else {
        forest_leaves(forest.drop_last(), depth) + forest.last().leaves_at(depth)
    }
}

/// The nodes of all the trees of `forest`, tree after tree.
pub open spec fn forest_nodes(forest: Seq<Cluster>) -> Seq<Cluster>
    decreases forest,
{
    if forest.len() == 0 {
        Seq::empty()
    } else {
        forest_nodes(forest.drop_last()) + forest.last().subtree()
    }
}

/// A prefix of a forest has no more nodes than the forest.
pub proof fn lemma_forest_count_take(forest: Seq<Cluster>, n: int)
    requires
        0 <= n <= forest.len(),
    ensures
        forest_count(forest.take(n)) <= forest_count(forest),
    decreases forest.len(),
{
    if n == forest.len() {
        assert(forest.take(n) =~= forest);
    } else {
        assert(forest.drop_last().take(n) =~= forest.take(n));
        lemma_forest_count_take(forest.drop_last(), n);
    }
}

impl Cluster {
    /// The children as a sequence, empty for a leaf.
    pub open spec fn kids(&self) -> Seq<Cluster> {
        match self.children {
            Some(kids) => kids@,
            None => Seq::empty(),
        }
    }

    /// Number of nodes of the subtree rooted here: this node and, for each
    /// child, the nodes of the child's subtree.
    pub open spec fn node_count(&self) -> nat
        decreases self,
    {
        match self.children {
            Some(kids) => 1 + forest_count(kids@),
            None => 1,
        }
    }

    /// Every node of the subtree rooted here, each parent before its
    /// children and the children from left to right: a full traversal.
    pub open spec fn subtree(&self) -> Seq<Cluster>
        decreases self,
    {
        match self.children {
            Some(kids) => seq![*self] + forest_nodes(kids@),
            None => seq![*self],
        }
    }

    /// A descent towards `depth` comes to rest at this node: it has no
    /// children, or it lies at that depth.
    pub open spec fn rests(&self, depth: Option<usize>) -> bool {
        self.children is None || (depth matches Some(d) && d == self.name@.len())
    }

    /// The nodes at which a descent from this node towards `depth` comes to
    /// rest, from left to right.
    ///
    /// With no depth given these are the leaves of the subtree. With a depth
    /// they are the nodes at that depth, together with the leaves that lie
    /// above it.
    pub open spec fn leaves_at(&self, depth: Option<usize>) -> Seq<Cluster>
        decreases self,
    {
        if self.rests(depth) {
            seq![*self]
        } else {
            forest_leaves(self.kids(), depth)
        }
    }

    /// This node alone is split correctly: it is a leaf, or it has `K`
    /// children, none of them empty, each named after its branch, which
    /// together hold exactly the indices of this node.
    pub open spec fn well_split(&self) -> bool {
        match self.children {
            Some(kids) => {
                &&& kids@.len() == K
                &&& forall|b: int|
                    0 <= b < kids@.len() ==> (#[trigger] kids@[b]).name@ == self.name@.push(
                        digit(b),
                    )
                &&& forall|b: int| 0 <= b < kids@.len() ==> (#[trigger] kids@[b]).indices@.len() > 0
                &&& pooled(kids@) == self.indices@.to_multiset()
            },
            None => true,
        }
    }

    /// The tree invariant: no index occurs twice in a node, and every node of
    /// the subtree is split correctly.
    pub open spec fn wf(&self) -> bool
        decreases self,
    {
        &&& self.indices@.no_duplicates()
        &&& self.well_split()
        &&& match self.children {
            Some(kids) => forall|b: int| 0 <= b < kids@.len() ==> (#[trigger] kids@[b]).wf(),
            None => true,
        }
    }

    /// Makes a root cluster over `indices`: a leaf with the empty name.
    pub fn new(indices: Indices) -> (cluster: Cluster)
        ensures
            cluster.indices == indices,
            cluster.name@ == Seq::<char>::empty(),
            cluster.children is None,
            indices@.no_duplicates() ==> cluster.wf(),
    {
        Cluster { indices, name: String::new(), children: None }
    }

    /// Number of points in the cluster.
    pub fn cardinality(&self) -> (n: usize)
        ensures
            n == self.indices@.len(),
    {
        self.indices.len()
    }

    /// Number of levels between the root and this node: the length of the name.
    pub fn depth(&self) -> (d: usize)
        ensures
            d == self.name@.len(),
    {
        self.name.as_str().unicode_len()
    }

    /// Number of nodes of the subtree rooted here: one for this node, plus
    /// the counts of its children.
    pub fn cluster_count(&self) -> (count: u32)
        requires
            self.node_count() <= u32::MAX,
        ensures
            count == self.node_count(),
        decreases self,
    {
        match &self.children {
            None => 1,
            Some(kids) => {
                let mut count: u32 = 1;
                let mut b: usize = 0;
                proof {
                    assert(kids@.take(0) =~= Seq::<Cluster>::empty());
                }
                while b < kids.len()
                    invariant
                        b <= kids@.len(),
                        self.children == Some(*kids),
                        self.node_count() <= u32::MAX,
                        count == 1 + forest_count(kids@.take(b as int)),
                    decreases kids@.len() - b,
                {
                    proof {
                        lemma_forest_count_take(kids@, b + 1);
                        assert(kids@.take(b + 1).drop_last() =~= kids@.take(b as int));
                    }
                    count = count + kids[b].cluster_count();
                    b += 1;
                }
                proof {
                    assert(kids@.take(b as int) =~= kids@);
                }
                count
            },
        }
    }

    /// The nodes at which a descent from this node towards `depth` comes to
    /// rest, from left to right: the leaves of the subtree where no depth is
    /// given; with a depth, the nodes at that depth and the leaves above it.
    pub fn leaves<'a>(&'a self, depth: Option<usize>) -> (found: Vec<&'a Cluster>)
        ensures
            found@.len() == self.leaves_at(depth).len(),
            forall|i: int| 0 <= i < found@.len() ==> *(#[trigger] found@[i]) == self.leaves_at(depth)[i],
        decreases self,
    {
        let at_depth = match depth {
            Some(d) => self.depth() == d,
            None => false,
        };
        let mut found: Vec<&'a Cluster> = Vec::new();
        if at_depth {
            found.push(self);
            return found;
        }
        match &self.children {
            Some(kids) => {
                let mut b: usize = 0;
                proof {
                    assert(kids@.take(0) =~= Seq::<Cluster>::empty());
                }
                while b < kids.len()
                    invariant
                        b <= kids@.len(),
                        self.children == Some(*kids),
                        found@.len() == forest_leaves(kids@.take(b as int), depth).len(),
                        forall|i: int|
                            0 <= i < found@.len() ==> *(#[trigger] found@[i]) == forest_leaves(
                                kids@.take(b as int),
                                depth,
                            )[i],
                    decreases kids@.len() - b,
                {
                    proof {
                        assert(kids@.take(b + 1).drop_last() =~= kids@.take(b as int));
                        assert(decreases_to!(self => (self.children->0)@[b as int]));
                    }
                    let mut below = kids[b].leaves(depth);
                    found.append(&mut below);
                    b += 1;
                }
                proof {
                    assert(kids@.take(b as int) =~= kids@);
                }
            },
            None => {
                found.push(self);
            },
        }
        found
    }

    /// The cluster's name, which is how a cluster is written out.
    pub fn to_string(&self) -> (text: String)
        ensures
            text@ == self.name@,
    {
        self.name.clone()
    }
}

/// Pooling two forests one after the other pools their indices together.
pub proof fn lemma_pooled_concat(left: Seq<Cluster>, right: Seq<Cluster>)
    ensures
        pooled(left + right) == pooled(left).add(pooled(right)),
    decreases right.len(),
{
    broadcast use vstd::multiset::group_multiset_axioms;

    if right.len() == 0 {
        assert(left + right =~= left);
        assert(pooled(left).add(pooled(right)) =~= pooled(left));
    } else {
        assert((left + right).drop_last() =~= left + right.drop_last());
        lemma_pooled_concat(left, right.drop_last());
        assert(pooled(left + right) =~= pooled(left).add(pooled(right)));
    }
}

/// A forest holds at least as many indices as any one of its roots.
pub proof fn lemma_pooled_nonempty(forest: Seq<Cluster>, b: int)
    requires
        0 <= b < forest.len(),
    ensures
        pooled(forest).len() >= forest[b].indices@.len(),
    decreases forest.len(),
{
    broadcast use {vstd::multiset::group_multiset_axioms, vstd::seq_lib::group_to_multiset_ensures};

    if b < forest.len() - 1 {
        lemma_pooled_nonempty(forest.drop_last(), b);
    }
}

/// A forest of two or more holds at least as many indices as any two of its
/// roots together.
pub proof fn lemma_pooled_two(forest: Seq<Cluster>, b: int, c: int)
    requires
        0 <= b < forest.len(),
        0 <= c < forest.len(),
        b != c,
    ensures
        pooled(forest).len() >= forest[b].indices@.len() + forest[c].indices@.len(),
    decreases forest.len(),
{
    broadcast use {vstd::multiset::group_multiset_axioms, vstd::seq_lib::group_to_multiset_ensures};

    let last = forest.len() - 1;
    if b == last {
        lemma_pooled_nonempty(forest.drop_last(), c);
    } else if c == last {
        lemma_pooled_nonempty(forest.drop_last(), b);
    } else {
        lemma_pooled_two(forest.drop_last(), b, c);
    }
}

/// A forest holds every index at least as often as any one of its roots.
pub proof fn lemma_pooled_counts(forest: Seq<Cluster>, b: int, x: Index)
    requires
        0 <= b < forest.len(),
    ensures
        pooled(forest).count(x) >= forest[b].indices@.to_multiset().count(x),
    decreases forest.len(),
{
    broadcast use vstd::multiset::group_multiset_axioms;

    if b < forest.len() - 1 {
        lemma_pooled_counts(forest.drop_last(), b, x);
    }
}

/// A full traversal of a forest visits as many nodes as the forest counts.
pub proof fn lemma_forest_traversal_counts(forest: Seq<Cluster>)
    ensures
        forest_nodes(forest).len() == forest_count(forest),
    decreases forest,
{
    if forest.len() > 0 {
        lemma_forest_traversal_counts(forest.drop_last());
        forest.last().lemma_traversal_counts();
    }
}

/// In a forest of well-formed trees every node is well-formed.
pub proof fn lemma_forest_nodes_wf(forest: Seq<Cluster>)
    requires
        forall|b: int| 0 <= b < forest.len() ==> (#[trigger] forest[b]).wf(),
    ensures
        forall|i: int| 0 <= i < forest_nodes(forest).len() ==> (#[trigger] forest_nodes(forest)[i]).wf(),
    decreases forest,
{
    if forest.len() > 0 {
        let rest = forest.drop_last();
        assert forall|b: int| 0 <= b < rest.len() implies (#[trigger] rest[b]).wf() by {
            assert(rest[b] == forest[b]);
        }
        lemma_forest_nodes_wf(rest);
        forest.last().lemma_nodes_wf();
        let before = forest_nodes(rest);
        let all = forest_nodes(forest);
        assert forall|i: int| 0 <= i < all.len() implies (#[trigger] all[i]).wf() by {
            if i < before.len() {
                assert(all[i] == before[i]);
            } else {
                assert(all[i] == forest.last().subtree()[i - before.len()]);
            }
        }
    }
}

/// The leaves of a forest of well-formed trees have no children and hold
/// together what the roots of the forest hold.
pub proof fn lemma_forest_leaves_partition(forest: Seq<Cluster>)
    requires
        forall|b: int| 0 <= b < forest.len() ==> (#[trigger] forest[b]).wf(),
    ensures
        forall|i: int|
            0 <= i < forest_leaves(forest, None).len() ==> (#[trigger] forest_leaves(
                forest,
                None,
            )[i]).children is None,
        pooled(forest_leaves(forest, None)) == pooled(forest),
    decreases forest,
{
    if forest.len() > 0 {
        let rest = forest.drop_last();
        assert forall|b: int| 0 <= b < rest.len() implies (#[trigger] rest[b]).wf() by {
            assert(rest[b] == forest[b]);
        }
        lemma_forest_leaves_partition(rest);
        forest.last().lemma_leaves_partition();
        lemma_pooled_concat(forest_leaves(rest, None), forest.last().leaves_at(None));
    }
}

/// A forest of well-formed trees whose roots are not empty has fewer than
/// twice as many nodes as its roots hold indices.
pub proof fn lemma_forest_count_bound(forest: Seq<Cluster>)
    requires
        forall|b: int| 0 <= b < forest.len() ==> (#[trigger] forest[b]).wf(),
        forall|b: int| 0 <= b < forest.len() ==> (#[trigger] forest[b]).indices@.len() > 0,
    ensures
        forest_count(forest) + forest.len() <= 2 * pooled(forest).len(),
    decreases forest,
{
    broadcast use {vstd::multiset::group_multiset_axioms, vstd::seq_lib::group_to_multiset_ensures};

    if forest.len() > 0 {
        let rest = forest.drop_last();
        assert forall|b: int| 0 <= b < rest.len() implies (#[trigger] rest[b]).wf() && rest[b].indices@.len()
            > 0 by {
            assert(rest[b] == forest[b]);
        }
        lemma_forest_count_bound(rest);
        forest.last().lemma_node_count_bound();
    }
}

/// Where the indices of the roots of a forest of well-formed trees are in
/// range, so are those of every node.
pub proof fn lemma_forest_nodes_in_range(forest: Seq<Cluster>, n: nat)
    requires
        forall|b: int| 0 <= b < forest.len() ==> (#[trigger] forest[b]).wf(),
        forall|b: int| 0 <= b < forest.len() ==> in_range((#[trigger] forest[b]).indices@, n),
    ensures
        forall|i: int|
            0 <= i < forest_nodes(forest).len() ==> in_range(
                (#[trigger] forest_nodes(forest)[i]).indices@,
                n,
            ),
    decreases forest,
{
    if forest.len() > 0 {
        let rest = forest.drop_last();
        assert forall|b: int| 0 <= b < rest.len() implies (#[trigger] rest[b]).wf() && in_range(
            rest[b].indices@,
            n,
        ) by {
            assert(rest[b] == forest[b]);
        }
        lemma_forest_nodes_in_range(rest, n);
        forest.last().lemma_nodes_in_range(n);
        let before = forest_nodes(rest);
        let all = forest_nodes(forest);
        assert forall|i: int| 0 <= i < all.len() implies in_range((#[trigger] all[i]).indices@, n) by {
            if i < before.len() {
                assert(all[i] == before[i]);
            } else {
                assert(all[i] == forest.last().subtree()[i - before.len()]);
            }
        }
    }
}

/// In a forest of well-formed trees with paths for the names of the roots,
/// every node is named by a path.
pub proof fn lemma_forest_names_are_paths(forest: Seq<Cluster>)
    requires
        forall|b: int| 0 <= b < forest.len() ==> (#[trigger] forest[b]).wf(),
        forall|b: int| 0 <= b < forest.len() ==> is_path((#[trigger] forest[b]).name@),
    ensures
        forall|i: int|
            0 <= i < forest_nodes(forest).len() ==> is_path(
                (#[trigger] forest_nodes(forest)[i]).name@,
            ),
    decreases forest,
{
    if forest.len() > 0 {
        let rest = forest.drop_last();
        assert forall|b: int| 0 <= b < rest.len() implies (#[trigger] rest[b]).wf() && is_path(
            rest[b].name@,
        ) by {
            assert(rest[b] == forest[b]);
        }
        lemma_forest_names_are_paths(rest);
        forest.last().lemma_names_are_paths();
        let before = forest_nodes(rest);
        let all = forest_nodes(forest);
        assert forall|i: int| 0 <= i < all.len() implies is_path((#[trigger] all[i]).name@) by {
            if i < before.len() {
                assert(all[i] == before[i]);
            } else {
                assert(all[i] == forest.last().subtree()[i - before.len()]);
            }
        }
    }
}

impl Cluster {
    /// In a well-formed tree whose root is named by a path, in particular by
    /// the empty name, every node is named by a path.
    pub proof fn lemma_names_are_paths(&self)
        requires
            self.wf(),
            is_path(self.name@),
        ensures
            forall|i: int|
                0 <= i < self.subtree().len() ==> is_path((#[trigger] self.subtree()[i]).name@),
        decreases self,
    {
        match self.children {
            Some(kids) => {
                assert forall|b: int| 0 <= b < kids@.len() implies is_path(
                    (#[trigger] kids@[b]).name@,
                ) by {
                    let name = kids@[b].name@;
                    assert(name == self.name@.push(digit(b)));
                    assert forall|i: int| 0 <= i < name.len() implies #[trigger] name[i] == digit(0)
                        || name[i] == digit(1) by {
                        if i < self.name@.len() {
                            assert(name[i] == self.name@[i]);
                        }
                    }
                }
                lemma_forest_names_are_paths(kids@);
                let below = forest_nodes(kids@);
                assert forall|i: int| 0 <= i < self.subtree().len() implies is_path(
                    (#[trigger] self.subtree()[i]).name@,
                ) by {
                    if i > 0 {
                        assert(self.subtree()[i] == below[i - 1]);
                    }
                }
            },
            None => {},
        }
    }

    /// A full traversal of the subtree visits as many nodes as the subtree
    /// counts.
    pub proof fn lemma_traversal_counts(&self)
        ensures
            self.subtree().len() == self.node_count(),
        decreases self,
    {
        match self.children {
            Some(kids) => {
                lemma_forest_traversal_counts(kids@);
            },
            None => {},
        }
    }

    /// In a well-formed tree every node is well-formed: its indices are
    /// distinct, and if it has children, they hold together exactly its
    /// indices, each index once.
    pub proof fn lemma_nodes_wf(&self)
        requires
            self.wf(),
        ensures
            forall|i: int| 0 <= i < self.subtree().len() ==> (#[trigger] self.subtree()[i]).wf(),
        decreases self,
    {
        match self.children {
            Some(kids) => {
                lemma_forest_nodes_wf(kids@);
                let below = forest_nodes(kids@);
                assert forall|i: int| 0 <= i < self.subtree().len() implies (
                #[trigger] self.subtree()[i]).wf() by {
                    if i > 0 {
                        assert(self.subtree()[i] == below[i - 1]);
                    }
                }
            },
            None => {},
        }
    }

    /// A child holds some, but not all, of the indices of its parent.
    pub proof fn lemma_child_proper_subset(&self, b: int)
        requires
            self.wf(),
            0 <= b < self.kids().len(),
        ensures
            0 < self.kids()[b].indices@.len() < self.indices@.len(),
            forall|x: Index| self.kids()[b].indices@.contains(x) ==> self.indices@.contains(x),
    {
        broadcast use {
            vstd::multiset::group_multiset_axioms,
            vstd::seq_lib::group_to_multiset_ensures,
        };

        let kids = self.kids();
        let other = if b == 0 {
            1int
        } else {
            0int
        };
        lemma_pooled_two(kids, b, other);
        assert forall|x: Index| kids[b].indices@.contains(x) implies self.indices@.contains(x) by {
            lemma_pooled_counts(kids, b, x);
        }
    }

    /// Where the indices of the root are in range, so are those of every
    /// node of a well-formed tree.
    pub proof fn lemma_nodes_in_range(&self, n: nat)
        requires
            self.wf(),
            in_range(self.indices@, n),
        ensures
            forall|i: int|
                0 <= i < self.subtree().len() ==> in_range((#[trigger] self.subtree()[i]).indices@, n),
        decreases self,
    {
        match self.children {
            Some(kids) => {
                assert forall|b: int| 0 <= b < kids@.len() implies in_range(
                    (#[trigger] kids@[b]).indices@,
                    n,
                ) by {
                    self.lemma_child_proper_subset(b);
                    assert(self.kids()[b] == kids@[b]);
                    let child = self.kids()[b].indices@;
                    assert forall|k: int| 0 <= k < child.len() implies #[trigger] child[k] < n by {
                        assert(child.contains(child[k]));
                        assert(self.indices@.contains(child[k]));
                        let at = choose|at: int|
                            0 <= at < self.indices@.len() && self.indices@[at] == child[k];
                        assert(self.indices@[at] < n);
                    }
                }
                lemma_forest_nodes_in_range(kids@, n);
                let below = forest_nodes(kids@);
                assert forall|i: int| 0 <= i < self.subtree().len() implies in_range(
                    (#[trigger] self.subtree()[i]).indices@,
                    n,
                ) by {
                    if i > 0 {
                        assert(self.subtree()[i] == below[i - 1]);
                    }
                }
            },
            None => {},
        }
    }

    /// A child lies exactly one level below its parent.
    pub proof fn lemma_child_depth(&self, b: int)
        requires
            self.well_split(),
            0 <= b < self.kids().len(),
        ensures
            self.kids()[b].name@.len() == self.name@.len() + 1,
    {
    }

    /// The leaves of a well-formed tree have no children, and every index of
    /// the root lies in exactly one of them.
    pub proof fn lemma_leaves_partition(&self)
        requires
            self.wf(),
        ensures
            forall|i: int|
                0 <= i < self.leaves_at(None).len() ==> (#[trigger] self.leaves_at(
                    None,
                )[i]).children is None,
            pooled(self.leaves_at(None)) == self.indices@.to_multiset(),
            forall|x: Index|
                pooled(self.leaves_at(None)).count(x) == if self.indices@.contains(x) {
                    1nat
                } else {
                    0nat
                },
        decreases self,
    {
        broadcast use {
            vstd::multiset::group_multiset_axioms,
            vstd::seq_lib::group_to_multiset_ensures,
        };

        match self.children {
            Some(kids) => {
                lemma_forest_leaves_partition(kids@);
            },
            None => {
                reveal_with_fuel(pooled, 2);
                assert(pooled(seq![*self]) =~= self.indices@.to_multiset());
            },
        }
        self.indices@.lemma_multiset_has_no_duplicates();
    }

    /// A well-formed tree has fewer than twice as many nodes as its root
    /// holds indices, and a single node where the root holds none.
    pub proof fn lemma_node_count_bound(&self)
        requires
            self.wf(),
        ensures
            self.indices@.len() > 0 ==> self.node_count() + 1 <= 2 * self.indices@.len(),
            self.indices@.len() == 0 ==> self.node_count() == 1,
        decreases self,
    {
        broadcast use {
            vstd::multiset::group_multiset_axioms,
            vstd::seq_lib::group_to_multiset_ensures,
        };

        match self.children {
            Some(kids) => {
                lemma_forest_count_bound(kids@);
                assert(kids@[0].indices@.len() > 0);
                lemma_pooled_nonempty(kids@, 0);
            },
            None => {},
        }
    }
}

/// Two clusters are equal when their names and their indices are; children
/// play no part.
impl PartialEq for Cluster {
    fn eq(&self, other: &Self) -> (same: bool) {
        let same = self.name == other.name && self.indices == other.indices;
        proof {
            if self.indices@.len() == other.indices@.len() {
                assert(self.indices@ =~= other.indices@ <==> forall|i: int|
                    0 <= i < self.indices@.len() ==> self.indices@[i] == other.indices@[i]);
            }
        }
        same
    }
}

impl vstd::std_specs::cmp::PartialEqSpecImpl for Cluster {
    open spec fn obeys_eq_spec() -> bool {
        true
    }

    open spec fn eq_spec(&self, other: &Self) -> bool {
        self.name@ == other.name@ && self.indices@ == other.indices@
    }
}

impl Eq for Cluster {

}

/// `String`'s `hash` of the standard library feeds the string to the hasher.
/// Nothing is claimed of what the hasher holds afterwards.
pub assume_specification<H: core::hash::Hasher>[ <String as core::hash::Hash>::hash ](
    text: &String,
    state: &mut H,
);

/// A cluster hashes as its name does: the name fixes the node's place in the
/// tree.
impl core::hash::Hash for Cluster {
    fn hash<H: core::hash::Hasher>(&self, state: &mut H) {
        self.name.hash(state)
    }
}

} // verus!
