//! The dataset: the points, the metric, and the cache of distances already
//! computed.

use std::collections::HashMap;
use vstd::multiset::Multiset;
use vstd::prelude::*;
use crate::metric::Metric;
use crate::triangular::{
    key_of, lemma_key_of_facts, lemma_key_of_injective, lemma_max_key_fits, lemma_pair_key_in_run,
    lemma_pairs_below_monotone, lemma_pairs_below_step, max_key, pair_key, pairs_below,
};
use crate::types::{Error, Index, Indices, Radius};

verus! {

broadcast use vstd::std_specs::hash::group_hash_axioms;

/// The part of a dataset that never changes: its points and its metric.
///
/// Every distance is a function of these two alone, so whatever is stated
/// over a `Space` stays true while the cache grows.
pub ghost struct Space<T, M> {
    pub points: Seq<T>,
    pub metric: M,
}

impl<T, M: Metric<T>> Space<T, M> {
    /// Number of points.
    pub open spec fn len(&self) -> nat {
        self.points.len()
    }

    /// Distance between the points at `i` and `j`, for indices in range.
    ///
    /// A point is at distance zero from itself, without the metric being
    /// consulted. Otherwise the metric is applied to the point of the larger
    /// index first and that of the smaller index second, whichever order the
    /// indices are given in.
    pub open spec fn dist(&self, i: Index, j: Index) -> Option<Radius> {
        if i == j {
            Some(0)
        } else if i < j {
            self.metric.measure(&self.points[j as int], &self.points[i as int])
        } else {
            self.metric.measure(&self.points[i as int], &self.points[j as int])
        }
    }

    /// What a distance query on `(i, j)` answers.
    pub open spec fn query(&self, i: Index, j: Index) -> Result<Radius, Error> {
        if i >= self.len() || j >= self.len() {
            Err(Error::IndexOutOfRange)
        } else {
            match self.dist(i, j) {
                Some(d) => Ok(d),
                None => Err(Error::MetricFailure),
            }
        }
    }

    /// Distances are symmetric, and a point is at distance zero from itself:
    /// a query answers the same for `(i, j)` and for `(j, i)`.
    pub proof fn lemma_symmetric(&self, i: Index, j: Index)
        ensures
            self.dist(i, j) == self.dist(j, i),
            self.query(i, j) == self.query(j, i),
            self.dist(i, i) == Some(0u64),
            i < self.len() ==> self.query(i, i) == Ok::<Radius, Error>(0),
    {
    }
}

/// The space of the given points under the given metric.
pub open spec fn space_of<T, M>(points: Seq<T>, metric: M) -> Space<T, M> {
    Space { points, metric }
}

/// The keys of the pairs made of `pole` and each of `others` that differs
/// from it.
pub open spec fn keys_from(pole: Index, others: Seq<Index>) -> Set<u128> {
    Set::new(
        |k: u128|
            exists|m: int|
                0 <= m < others.len() && others[m] != pole && k == #[trigger] key_of(
                    pole,
                    others[m],
                ) as u128,
    )
}

/// The keys of the pairs made of one index of `left` and a different one of
/// `right`.
pub open spec fn keys_between(left: Seq<Index>, right: Seq<Index>) -> Set<u128> {
    Set::new(
        |k: u128|
            exists|a: int, b: int|
                0 <= a < left.len() && 0 <= b < right.len() && left[a] != right[b] && k
                    == #[trigger] key_of(left[a], right[b]) as u128,
    )
}

/// The key that one more index adds to the keys from a pole.
pub open spec fn key_added(pole: Index, x: Index) -> Set<u128> {
    if x == pole {
        Set::empty()
    } else {
        set![key_of(pole, x) as u128]
    }
}

/// One more index among the others adds its pair with the pole.
pub proof fn lemma_keys_from_push(pole: Index, others: Seq<Index>, x: Index)
    ensures
        keys_from(pole, others.push(x)) == keys_from(pole, others).union(key_added(pole, x)),
{
    let longer = others.push(x);
    assert forall|k: u128|
        keys_from(pole, longer).contains(k) <==> keys_from(pole, others).union(
            key_added(pole, x),
        ).contains(k) by {
        if keys_from(pole, longer).contains(k) {
            let m = choose|m: int|
                0 <= m < longer.len() && longer[m] != pole && k == #[trigger] key_of(
                    pole,
                    longer[m],
                ) as u128;
            if m < others.len() {
                assert(others[m] == longer[m]);
            }
        }
        if keys_from(pole, others).contains(k) {
            let m = choose|m: int|
                0 <= m < others.len() && others[m] != pole && k == #[trigger] key_of(
                    pole,
                    others[m],
                ) as u128;
            assert(longer[m] == others[m]);
        }
        if key_added(pole, x).contains(k) {
            assert(longer[others.len() as int] == x);
        }
    }
    assert(keys_from(pole, longer) =~= keys_from(pole, others).union(key_added(pole, x)));
}

/// One more index on the left adds its pairs with everything on the right.
pub proof fn lemma_keys_between_push(left: Seq<Index>, right: Seq<Index>, x: Index)
    ensures
        keys_between(left.push(x), right) == keys_between(left, right).union(keys_from(x, right)),
{
    let longer = left.push(x);
    assert forall|k: u128|
        keys_between(longer, right).contains(k) <==> keys_between(left, right).union(
            keys_from(x, right),
        ).contains(k) by {
        if keys_between(longer, right).contains(k) {
            let (a, b) = choose|a: int, b: int|
                0 <= a < longer.len() && 0 <= b < right.len() && longer[a] != right[b] && k
                    == #[trigger] key_of(longer[a], right[b]) as u128;
            if a < left.len() {
                assert(left[a] == longer[a]);
                assert(k == key_of(left[a], right[b]) as u128);
            } else {
                assert(k == key_of(x, right[b]) as u128);
            }
        }
        if keys_between(left, right).contains(k) {
            let (a, b) = choose|a: int, b: int|
                0 <= a < left.len() && 0 <= b < right.len() && left[a] != right[b] && k
                    == #[trigger] key_of(left[a], right[b]) as u128;
            assert(longer[a] == left[a]);
            assert(k == key_of(longer[a], right[b]) as u128);
        }
        if keys_from(x, right).contains(k) {
            let b = choose|b: int|
                0 <= b < right.len() && right[b] != x && k == #[trigger] key_of(x, right[b]) as u128;
            assert(longer[left.len() as int] == x);
            assert(k == key_of(longer[left.len() as int], right[b]) as u128);
        }
    }
    assert(keys_between(longer, right) =~= keys_between(left, right).union(keys_from(x, right)));
}

/// A collection of points with a metric and a memo of pairwise distances.
pub struct Dataset<T, M> {
    /// The points, fixed once the dataset is made.
    pub points: Box<Vec<T>>,
    /// The metric that interprets the points.
    pub metric: M,
    /// Distances computed so far, by the key of the pair.
    pub cache: HashMap<u128, Radius>,
    /// How often the metric has been invoked on each key.
    pub evaluated: Ghost<Multiset<u128>>,
}

impl<T, M: Metric<T>> Dataset<T, M> {
    /// The immutable part of the dataset.
    pub open spec fn space(&self) -> Space<T, M> {
        space_of(self.points@, self.metric)
    }

    /// The cache holds an entry for the pair `(i, j)`.
    pub open spec fn cached(&self, i: Index, j: Index) -> bool {
        self.cache@.contains_key(key_of(i, j) as u128)
    }

    /// A query on `(i, j)` has to consult the metric: the indices are in
    /// range and distinct, and the cache has nothing for them.
    pub open spec fn misses(&self, i: Index, j: Index) -> bool {
        i < self.points.len() && j < self.points.len() && i != j && !self.cached(i, j)
    }

    /// Well-formedness of the cache and of the evaluation record.
    ///
    /// Every key in the cache belongs to a pair of distinct points of this
    /// dataset and maps to the distance of that pair. The metric has been
    /// invoked exactly once on every cached key, and more than once only on a
    /// pair for which it fails.
    pub open spec fn wf(&self) -> bool {
        let n = self.points.len();
        &&& forall|k: u128| #[trigger]
            self.cache@.contains_key(k) ==> 1 <= k <= pairs_below(n as int)
                && self.evaluated@.count(k) == 1
        &&& forall|k: u128| #[trigger]
            self.evaluated@.count(k) > 0 ==> 1 <= k <= pairs_below(n as int)
        &&& forall|i: Index, j: Index|
            j < i < n && self.cache@.contains_key(#[trigger] key_of(i, j) as u128)
                ==> self.space().dist(i, j) == Some(self.cache@[key_of(i, j) as u128])
        &&& forall|i: Index, j: Index|
            j < i < n && self.evaluated@.count(#[trigger] key_of(i, j) as u128) > 0
                ==> self.cache@.contains_key(key_of(i, j) as u128)
                || self.space().dist(i, j) is None
    }

    /// The cache of `self` holds everything that the cache of `before` held.
    pub open spec fn extends(&self, before: &Self) -> bool {
        &&& self.space() == before.space()
        &&& before.cache@.submap_of(self.cache@)
        &&& before.evaluated@.subset_of(self.evaluated@)
    }

    /// Since `before`, the dataset has answered queries for exactly the keys
    /// in `asked`, each with a distance.
    ///
    /// Nothing that was cached is lost or altered. The cache holds the keys
    /// it held and those in `asked`, and the metric has been invoked once on
    /// each key of `asked` that was not cached, and on nothing else.
    pub open spec fn advanced_by(&self, before: &Self, asked: Set<u128>) -> bool {
        &&& self.extends(before)
        &&& self.cache@.dom() == before.cache@.dom().union(asked)
        &&& forall|k: u128| #[trigger]
            self.evaluated@.count(k) == before.evaluated@.count(k) + if asked.contains(k)
                && !before.cache@.contains_key(k) {
                1nat
            } else {
                0nat
            }
    }

    /// What one distance query on `(i, j)` does to a dataset: `self` is the
    /// dataset before the query and `after` the dataset after it.
    ///
    /// The points and the metric stay. Only a query that misses touches the
    /// cache and the record: the metric is invoked once, and what it answers,
    /// if it answers, is stored under the key of the pair.
    pub open spec fn steps_to(&self, after: &Self, i: Index, j: Index) -> bool {
        let k = key_of(i, j) as u128;
        &&& after.space() == self.space()
        &&& after.evaluated@ == if self.misses(i, j) {
            self.evaluated@.insert(k)
        } else {
            self.evaluated@
        }
        &&& after.cache@ == if self.misses(i, j) && self.space().dist(i, j) is Some {
            self.cache@.insert(k, self.space().dist(i, j).unwrap())
        } else {
            self.cache@
        }
    }

    /// Memoisation: once a query on a pair has answered with a distance, a
    /// second query on the same pair, in either order, answers the same
    /// distance and leaves the cache and the record of metric invocations as
    /// they are. Here `self`, `second` and `third` are the dataset before the
    /// first query, between the two, and after the second.
    pub proof fn lemma_second_query_is_free(&self, second: &Self, third: &Self, i: Index, j: Index)
        requires
            self.wf(),
            self.space().query(i, j) is Ok,
            self.steps_to(second, i, j),
            second.steps_to(third, i, j) || second.steps_to(third, j, i),
        ensures
            second.space().query(i, j) == self.space().query(i, j),
            second.space().query(j, i) == self.space().query(i, j),
            !second.misses(i, j),
            !second.misses(j, i),
            third.cache@ == second.cache@,
            third.evaluated@ == second.evaluated@,
    {
        lemma_key_of_facts(i, j);
    }

    /// The metric is invoked at most once on a pair for which it has a
    /// distance, and exactly once if that distance is cached.
    pub proof fn lemma_evaluated_once(&self, i: Index, j: Index)
        requires
            self.wf(),
            i < self.points@.len(),
            j < self.points@.len(),
            i != j,
            self.space().dist(i, j) is Some,
        ensures
            self.evaluated@.count(key_of(i, j) as u128) <= 1,
            self.cached(i, j) <==> self.evaluated@.count(key_of(i, j) as u128) == 1,
    {
        lemma_key_of_facts(i, j);
        if i < j {
            assert(key_of(j, i) == key_of(i, j));
        }
    }

    /// Answering the keys of `earlier` and then those of `later` is
    /// answering the keys of both.
    pub proof fn lemma_advanced_twice(
        &self,
        middle: &Self,
        first: &Self,
        earlier: Set<u128>,
        later: Set<u128>,
    )
        requires
            middle.advanced_by(first, earlier),
            self.advanced_by(middle, later),
        ensures
            self.advanced_by(first, earlier.union(later)),
    {
        self.lemma_extends_transitive(middle, first);
        assert(self.cache@.dom() =~= first.cache@.dom().union(earlier.union(later)));
        assert forall|k: u128| #[trigger]
            self.evaluated@.count(k) == first.evaluated@.count(k) + if earlier.union(
                later,
            ).contains(k) && !first.cache@.contains_key(k) {
                1nat
            } else {
                0nat
            } by {
            assert(self.evaluated@.count(k) == middle.evaluated@.count(k) + if later.contains(k)
                && !middle.cache@.contains_key(k) {
                1nat
            } else {
                0nat
            });
            assert(middle.evaluated@.count(k) == first.evaluated@.count(k) + if earlier.contains(
                k,
            ) && !first.cache@.contains_key(k) {
                1nat
            } else {
                0nat
            });
            assert(middle.cache@.dom().contains(k) <==> first.cache@.dom().contains(k)
                || earlier.contains(k));
        }
    }

    /// A query that answers with a distance advances the dataset by the key
    /// of its pair.
    pub proof fn lemma_step_advances(&self, after: &Self, i: Index, j: Index)
        requires
            self.wf(),
            self.space().query(i, j) is Ok,
            self.steps_to(after, i, j),
        ensures
            after.advanced_by(self, key_added(i, j)),
    {
        let k = key_of(i, j) as u128;
        lemma_key_of_facts(i, j);
        assert(after.cache@.dom() =~= self.cache@.dom().union(key_added(i, j)));
        assert forall|key: u128| #[trigger]
            self.cache@.dom().contains(key) implies after.cache@.dom().contains(key)
            && self.cache@[key] == after.cache@[key] by {
            assert(after.cache@.dom().contains(key));
        }
    }

    /// A dataset that extends one that extends `first` extends `first`.
    pub proof fn lemma_extends_transitive(&self, middle: &Self, first: &Self)
        requires
            self.extends(middle),
            middle.extends(first),
        ensures
            self.extends(first),
    {
        assert forall|k: u128| #[trigger]
            first.evaluated@.count(k) <= self.evaluated@.count(k) by {
            assert(first.evaluated@.count(k) <= middle.evaluated@.count(k));
        }
        assert forall|k: u128| #[trigger]
            first.cache@.dom().contains(k) implies self.cache@.dom().contains(k) && first.cache@[k]
            == self.cache@[k] by {
            assert(middle.cache@.dom().contains(k));
            assert(self.cache@.dom().contains(k));
        }
    }

    /// Makes a dataset over `data` with nothing cached.
    pub fn new(data: Vec<T>, metric: M) -> (dataset: Self)
        ensures
            dataset.wf(),
            dataset.space() == space_of(data@, metric),
            dataset.cache@ == Map::<u128, Radius>::empty(),
            dataset.evaluated@ == Multiset::<u128>::empty(),
    {
        Dataset {
            points: Box::new(data),
            metric,
            cache: HashMap::new(),
            evaluated: Ghost(Multiset::empty()),
        }
    }

    /// Number of points.
    pub fn len(&self) -> (n: Index)
        ensures
            n == self.points.len(),
            n == self.space().len(),
    {
        self.points.len()
    }

    /// Key under which the distance between `i` and `j` is cached; `0`, which
    /// is never a cache key, for `i == j`.
    pub fn key(&self, i: Index, j: Index) -> (k: u128)
        ensures
            k == key_of(i, j),
    {
        let (hi, lo) = if i < j {
            (j as u128, i as u128)
        } else {
            (i as u128, j as u128)
        };
        if hi == lo {
            0
        } else {
            proof {
                lemma_key_of_facts(i, j);
                lemma_pairs_below_monotone(hi as int, usize::MAX + 1);
                assert(0 <= hi * (hi - 1)) by (nonlinear_arith)
                    requires
                        hi >= 1,
                ;
                assert(hi * (hi - 1) <= 0xffff_ffff_ffff_ffff * 0xffff_ffff_ffff_ffff)
                    by (nonlinear_arith)
                    requires
                        1 <= hi <= 0xffff_ffff_ffff_ffff,
                ;
            }
            hi * (hi - 1) / 2 + lo + 1
        }
    }

    /// The pair `(hi, lo)`, `lo < hi`, that has the key `k`.
    pub fn ij(&self, k: u128) -> (pair: (Index, Index))
        requires
            1 <= k <= max_key(),
        ensures
            pair.1 < pair.0,
            pair_key(pair.0 as int, pair.1 as int) == k,
            key_of(pair.0, pair.1) == k,
    {
        let mut a: u128 = 1;
        let mut b: u128 = usize::MAX as u128 + 1;
        proof {
            lemma_max_key_fits();
        }
        while b - a > 1
            invariant
                1 <= a < b <= usize::MAX + 1,
                pairs_below(a as int) < k <= pairs_below(b as int),
            decreases b - a,
        {
            let mid = a + (b - a) / 2;
            proof {
                lemma_pairs_below_monotone(mid as int, usize::MAX + 1);
                assert(0 <= mid * (mid - 1)) by (nonlinear_arith)
                    requires
                        mid >= 1,
                ;
                assert(mid * (mid - 1) <= 0x1_0000_0000_0000_0000 * 0xffff_ffff_ffff_ffff)
                    by (nonlinear_arith)
                    requires
                        1 <= mid <= 0x1_0000_0000_0000_0000,
                ;
            }
            if mid * (mid - 1) / 2 < k {
                a = mid;
            } else {
                b = mid;
            }
        }
        proof {
            lemma_pairs_below_step(a as int);
            lemma_pairs_below_monotone(0, a as int);
            assert(0 <= a * (a - 1) <= 0xffff_ffff_ffff_ffff * 0xffff_ffff_ffff_ffff)
                by (nonlinear_arith)
                requires
                    1 <= a <= 0xffff_ffff_ffff_ffff,
            ;
        }
        let below = a * (a - 1) / 2;
        let lo = k - 1 - below;
        (a as usize, lo as usize)
    }

    /// Distance between the points at `i` and `j`, memoised.
    ///
    /// An index out of range is an error. A point is at distance zero from
    /// itself. For two distinct points the cached distance is returned if
    /// there is one; otherwise the metric is invoked, once, and its answer is
    /// cached, or reported as a failure if it has none.
    pub fn distance(&mut self, i: Index, j: Index) -> (r: Result<Radius, Error>)
        requires
            old(self).wf(),
        ensures
            final(self).wf(),
            r == old(self).space().query(i, j),
            old(self).steps_to(final(self), i, j),
            final(self).extends(old(self)),
            r is Ok && i != j ==> final(self).cached(i, j),
    {
        let n = self.points.len();
        if i >= n || j >= n {
            return Err(Error::IndexOutOfRange);
        }
        if i == j {
            return Ok(0);
        }
        let k = self.key(i, j);
        let (hi, lo) = if i < j {
            (j, i)
        } else {
            (i, j)
        };
        proof {
            lemma_key_of_facts(i, j);
            lemma_pair_key_in_run(hi as int, lo as int);
            lemma_pairs_below_monotone(hi + 1, n as int);
            assert(key_of(hi, lo) == k);
        }
        match self.cache.get(&k) {
            Some(d) => Ok(*d),
            None => {
                let answer = self.metric.distance(&self.points[hi], &self.points[lo]);
                self.evaluated = Ghost(self.evaluated@.insert(k));
                match answer {
                    Some(d) => {
                        self.cache.insert(k, d);
                        proof {
                            assert forall|i2: Index, j2: Index|
                                j2 < i2 < n && self.cache@.contains_key(
                                    #[trigger] key_of(i2, j2) as u128,
                                ) implies self.space().dist(i2, j2) == Some(
                                self.cache@[key_of(i2, j2) as u128],
                            ) by {
                                lemma_key_of_facts(i2, j2);
                                if key_of(i2, j2) as u128 == k {
                                    lemma_key_of_injective(i2, j2, hi, lo);
                                }
                            }
                        }
                        Ok(d)
                    },
                    None => {
                        proof {
                            assert forall|i2: Index, j2: Index|
                                j2 < i2 < n && self.evaluated@.count(
                                    #[trigger] key_of(i2, j2) as u128,
                                ) > 0 implies self.cache@.contains_key(key_of(i2, j2) as u128)
                                || self.space().dist(i2, j2) is None by {
                                lemma_key_of_facts(i2, j2);
                                if key_of(i2, j2) as u128 == k {
                                    lemma_key_of_injective(i2, j2, hi, lo);
                                }
                            }
                        }
                        Err(Error::MetricFailure)
                    },
                }
            },
        }
    }

    /// Distances from the point at `pole` to each of `others`, in order.
    ///
    /// Each distance is obtained as by `distance`, so all of them go through
    /// the one cache: a pair that is cached costs nothing, and a pair that is
    /// not is cached afterwards. The first query that fails ends the call
    /// with its error; what was computed until then stays cached.
    pub fn distances(&mut self, pole: Index, others: &Indices) -> (r: Result<Vec<Radius>, Error>)
        requires
            old(self).wf(),
        ensures
            final(self).wf(),
            final(self).extends(old(self)),
            match r {
                Ok(found) => {
                    &&& found@.len() == others@.len()
                    &&& forall|k: int|
                        0 <= k < others@.len() ==> old(self).space().query(pole, #[trigger] others@[k])
                            == Ok::<Radius, Error>(found@[k])
                    &&& final(self).advanced_by(old(self), keys_from(pole, others@))
                },
                Err(e) => exists|k: int|
                    {
                        &&& 0 <= k < others@.len()
                        &&& old(self).space().query(pole, #[trigger] others@[k]) == Err::<
                            Radius,
                            Error,
                        >(e)
                        &&& forall|m: int|
                            0 <= m < k ==> old(self).space().query(pole, #[trigger] others@[m])
                                is Ok
                    },
            },
    {
        let ghost before = *self;
        let mut found: Vec<Radius> = Vec::new();
        let mut k: usize = 0;
        proof {
            assert(keys_from(pole, others@.take(0)) =~= Set::<u128>::empty());
            assert(self.cache@.dom() =~= before.cache@.dom().union(Set::<u128>::empty()));
        }
        while k < others.len()
            invariant
                k <= others@.len(),
                self.wf(),
                before == *old(self),
                self.advanced_by(&before, keys_from(pole, others@.take(k as int))),
                found@.len() == k,
                forall|m: int|
                    0 <= m < k ==> before.space().query(pole, #[trigger] others@[m]) == Ok::<
                        Radius,
                        Error,
                    >(found@[m]),
            decreases others@.len() - k,
        {
            let ghost earlier = *self;
            let answer = self.distance(pole, others[k]);
            match answer {
                Ok(d) => {
                    found.push(d);
                },
                Err(e) => {
                    proof {
                        self.lemma_extends_transitive(&earlier, &before);
                    }
                    return Err(e);
                },
            }
            proof {
                let x = others@[k as int];
                earlier.lemma_step_advances(self, pole, x);
                self.lemma_advanced_twice(
                    &earlier,
                    &before,
                    keys_from(pole, others@.take(k as int)),
                    key_added(pole, x),
                );
                lemma_keys_from_push(pole, others@.take(k as int), x);
                assert(others@.take(k + 1) =~= others@.take(k as int).push(x));
            }
            k += 1;
        }
        proof {
            assert(others@.take(k as int) =~= others@);
        }
        Ok(found)
    }

    /// Computes and caches the distance of every pair made of one index of
    /// `left` and a different one of `right`, row by row.
    ///
    /// Pairs that are cached already cost nothing. The first query that fails
    /// ends the call with its error; what was computed until then stays
    /// cached.
    pub fn insert(&mut self, left: &Indices, right: &Indices) -> (r: Result<(), Error>)
        requires
            old(self).wf(),
        ensures
            final(self).wf(),
            final(self).extends(old(self)),
            match r {
                Ok(_) => {
                    &&& forall|a: int, b: int|
                        0 <= a < left@.len() && 0 <= b < right@.len() ==> old(self).space().query(
                            #[trigger] left@[a],
                            #[trigger] right@[b],
                        ) is Ok
                    &&& final(self).advanced_by(old(self), keys_between(left@, right@))
                },
                Err(e) => exists|a: int, b: int|
                    {
                        &&& 0 <= a < left@.len() && 0 <= b < right@.len()
                        &&& old(self).space().query(#[trigger] left@[a], #[trigger] right@[b])
                            == Err::<Radius, Error>(e)
                        &&& forall|c: int, d: int|
                            0 <= c < left@.len() && 0 <= d < right@.len() && (c < a || (c == a && d
                                < b)) ==> old(self).space().query(
                                #[trigger] left@[c],
                                #[trigger] right@[d],
                            ) is Ok
                    },
            },
    {
        let ghost before = *self;
        let mut a: usize = 0;
        proof {
            assert(keys_between(left@.take(0), right@) =~= Set::<u128>::empty());
            assert(self.cache@.dom() =~= before.cache@.dom().union(Set::<u128>::empty()));
        }
        while a < left.len()
            invariant
                a <= left@.len(),
                self.wf(),
                before == *old(self),
                self.advanced_by(&before, keys_between(left@.take(a as int), right@)),
                forall|c: int, d: int|
                    0 <= c < a && 0 <= d < right@.len() ==> before.space().query(
                        #[trigger] left@[c],
                        #[trigger] right@[d],
                    ) is Ok,
            decreases left@.len() - a,
        {
            let ghost earlier = *self;
            let row = self.distances(left[a], right);
            match row {
                Ok(_) => {},
                Err(e) => {
                    proof {
                        self.lemma_extends_transitive(&earlier, &before);
                    }
                    return Err(e);
                },
            }
            proof {
                let x = left@[a as int];
                self.lemma_advanced_twice(
                    &earlier,
                    &before,
                    keys_between(left@.take(a as int), right@),
                    keys_from(x, right@),
                );
                lemma_keys_between_push(left@.take(a as int), right@, x);
                assert(left@.take(a + 1) =~= left@.take(a as int).push(x));
            }
            a += 1;
        }
        proof {
            assert(left@.take(a as int) =~= left@);
        }
        Ok(())
    }
}

} // verus!
