use std::cell::Cell;
use std::rc::Rc;

use manifold::{Dataset, Error, Metric, Radius};

fn gap(a: &u64, b: &u64) -> Radius {
    if a <= b {
        b - a
    } else {
        a - b
    }
}

/// Absolute difference, counting how often it is asked.
struct Counting {
    calls: Rc<Cell<usize>>,
}

impl Metric<u64> for Counting {
    fn measure(&self, a: &u64, b: &u64) -> Option<Radius> {
        Some(gap(a, b))
    }

    fn distance(&self, a: &u64, b: &u64) -> Option<Radius> {
        self.calls.set(self.calls.get() + 1);
        self.measure(a, b)
    }
}

/// Ten times the difference when the first argument is the larger one, else
/// fails: tells the order in which the points are handed over.
struct Ordered;

impl Metric<u64> for Ordered {
    fn measure(&self, a: &u64, b: &u64) -> Option<Radius> {
        if a >= b {
            Some((a - b) * 10)
        } else {
            None
        }
    }

    fn distance(&self, a: &u64, b: &u64) -> Option<Radius> {
        self.measure(a, b)
    }
}

/// Fails whenever one of the two points is 13.
struct Superstitious;

impl Metric<u64> for Superstitious {
    fn measure(&self, a: &u64, b: &u64) -> Option<Radius> {
        if *a == 13 || *b == 13 {
            None
        } else {
            Some(gap(a, b))
        }
    }

    fn distance(&self, a: &u64, b: &u64) -> Option<Radius> {
        self.measure(a, b)
    }
}

fn counting(points: Vec<u64>) -> (Dataset<u64, Counting>, Rc<Cell<usize>>) {
    let calls = Rc::new(Cell::new(0));
    (Dataset::new(points, Counting { calls: Rc::clone(&calls) }), calls)
}

#[test]
fn dataset_new() {
    let dataset = Dataset::new(vec![0, 0], String::from("euclidean"));
    assert_eq!(dataset.len(), 2);
    assert_eq!(*dataset.points, vec![0, 0]);
    assert_eq!(dataset.metric, "euclidean");
    assert!(dataset.cache.is_empty());
}

#[test]
fn len_counts_points() {
    assert_eq!(Dataset::new(Vec::<u64>::new(), String::from("euclidean")).len(), 0);
    assert_eq!(Dataset::new(vec![7u64, 8, 9], String::from("euclidean")).len(), 3);
}

#[test]
fn key_is_the_triangular_number_of_the_pair() {
    let d = Dataset::new(vec![0u64; 8], String::from("euclidean"));
    assert_eq!(d.key(1, 0), 1);
    assert_eq!(d.key(2, 0), 2);
    assert_eq!(d.key(2, 1), 3);
    assert_eq!(d.key(3, 0), 4);
    assert_eq!(d.key(3, 2), 6);
    // hi * (hi - 1) / 2 + lo + 1 with hi = 7, lo = 4
    assert_eq!(d.key(7, 4), 26);
    assert_eq!(d.key(4, 7), 26);
}

#[test]
fn key_of_equal_indices_is_zero() {
    let d = Dataset::new(vec![0u64; 3], String::from("euclidean"));
    assert_eq!(d.key(0, 0), 0);
    assert_eq!(d.key(2, 2), 0);
}

#[test]
fn key_is_symmetric_and_dense() {
    let d = Dataset::new(vec![0u64; 3], String::from("euclidean"));
    let mut seen = Vec::new();
    for hi in 1..40usize {
        for lo in 0..hi {
            assert_eq!(d.key(hi, lo), d.key(lo, hi));
            seen.push(d.key(hi, lo));
        }
    }
    let expected: Vec<u128> = (1..=(40 * 39 / 2) as u128).collect();
    assert_eq!(seen, expected);
}

#[test]
fn key_does_not_overflow_on_the_largest_indices() {
    let d = Dataset::new(vec![0u64; 1], String::from("euclidean"));
    let hi = usize::MAX as u128;
    assert_eq!(d.key(usize::MAX, usize::MAX - 1), hi * (hi - 1) / 2 + (hi - 1) + 1);
    assert_eq!(d.ij(d.key(usize::MAX, usize::MAX - 1)), (usize::MAX, usize::MAX - 1));
    assert_eq!(d.ij(d.key(usize::MAX, 0)), (usize::MAX, 0));
}

#[test]
fn ij_inverts_key() {
    let d = Dataset::new(vec![0u64; 3], String::from("euclidean"));
    assert_eq!(d.ij(1), (1, 0));
    assert_eq!(d.ij(2), (2, 0));
    assert_eq!(d.ij(3), (2, 1));
    assert_eq!(d.ij(4), (3, 0));
    assert_eq!(d.ij(26), (7, 4));
    for hi in 1..60usize {
        for lo in 0..hi {
            assert_eq!(d.ij(d.key(hi, lo)), (hi, lo));
            assert_eq!(d.ij(d.key(lo, hi)), (hi, lo));
        }
    }
    for k in 1..2000u128 {
        let (hi, lo) = d.ij(k);
        assert!(lo < hi);
        assert_eq!(d.key(hi, lo), k);
    }
}

#[test]
fn distance_of_a_point_to_itself_is_zero_and_uncached() {
    let (mut d, calls) = counting(vec![5, 9]);
    assert_eq!(d.distance(0, 0), Ok(0));
    assert_eq!(d.distance(1, 1), Ok(0));
    assert_eq!(calls.get(), 0);
    assert!(d.cache.is_empty());
}

#[test]
fn distance_is_the_metric_on_the_two_points() {
    let mut d = Dataset::new(vec![1u64, 2, 3, 50], String::from("euclidean"));
    assert_eq!(d.distance(0, 1), Ok(1));
    assert_eq!(d.distance(0, 2), Ok(2));
    assert_eq!(d.distance(3, 1), Ok(48));
}

#[test]
fn distance_is_symmetric() {
    let mut d = Dataset::new(vec![4u64, 10, 1, 7], String::from("euclidean"));
    for i in 0..4 {
        for j in 0..4 {
            let there = d.distance(i, j);
            let back = d.distance(j, i);
            assert_eq!(there, back);
        }
    }
}

#[test]
fn distance_hands_the_point_of_the_larger_index_first() {
    let mut d = Dataset::new(vec![1u64, 8], Ordered);
    assert_eq!(d.distance(0, 1), Ok(70));
    let mut d = Dataset::new(vec![1u64, 8], Ordered);
    assert_eq!(d.distance(1, 0), Ok(70));
    let mut d = Dataset::new(vec![8u64, 1], Ordered);
    assert_eq!(d.distance(0, 1), Err(Error::MetricFailure));
    assert_eq!(d.distance(1, 0), Err(Error::MetricFailure));
}

#[test]
fn distance_is_memoised() {
    let (mut d, calls) = counting(vec![3, 11, 20]);
    assert_eq!(d.distance(0, 1), Ok(8));
    assert_eq!(calls.get(), 1);
    assert_eq!(d.cache.len(), 1);
    assert_eq!(d.cache.get(&d.key(0, 1)), Some(&8));
    assert_eq!(d.distance(0, 1), Ok(8));
    assert_eq!(d.distance(1, 0), Ok(8));
    assert_eq!(calls.get(), 1);
    assert_eq!(d.cache.len(), 1);
    assert_eq!(d.distance(2, 1), Ok(9));
    assert_eq!(calls.get(), 2);
    assert_eq!(d.cache.len(), 2);
}

#[test]
fn distance_rejects_an_index_out_of_range() {
    let (mut d, calls) = counting(vec![3, 11]);
    assert_eq!(d.distance(0, 2), Err(Error::IndexOutOfRange));
    assert_eq!(d.distance(2, 0), Err(Error::IndexOutOfRange));
    assert_eq!(d.distance(5, 5), Err(Error::IndexOutOfRange));
    assert_eq!(calls.get(), 0);
    assert!(d.cache.is_empty());
}

#[test]
fn distance_reports_a_failing_metric_and_caches_nothing() {
    let mut d = Dataset::new(vec![1u64, 13, 4], Superstitious);
    assert_eq!(d.distance(0, 1), Err(Error::MetricFailure));
    assert!(d.cache.is_empty());
    assert_eq!(d.distance(0, 2), Ok(3));
    assert_eq!(d.cache.len(), 1);
}

#[test]
fn named_metric_knows_euclidean_only() {
    let mut d = Dataset::new(vec![1u64, 4], String::from("euclidean"));
    assert_eq!(d.distance(1, 0), Ok(3));
    let mut d = Dataset::new(vec![1u64, 4], String::from("cosine"));
    assert_eq!(d.distance(1, 0), Err(Error::MetricFailure));
    assert_eq!(d.distance(1, 1), Ok(0));
    assert_eq!(String::from("euclidean").distance(&9, &2), Some(7));
    assert_eq!(String::from("euclidean").distance(&2, &9), Some(7));
    assert_eq!(String::from("").distance(&2, &9), None);
}

#[test]
fn distances_are_one_against_many() {
    let (mut d, calls) = counting(vec![10, 13, 7, 10, 30]);
    assert_eq!(d.distances(0, &vec![1, 2, 0, 3, 4]), Ok(vec![3, 3, 0, 0, 20]));
    assert_eq!(calls.get(), 4);
    assert_eq!(d.distances(0, &vec![4, 3, 2, 1]), Ok(vec![20, 0, 3, 3]));
    assert_eq!(calls.get(), 4);
    assert_eq!(d.distances(2, &vec![]), Ok(vec![]));
}

#[test]
fn distances_stop_at_the_first_failure() {
    let mut d = Dataset::new(vec![1u64, 2, 13, 4], Superstitious);
    assert_eq!(d.distances(0, &vec![1, 2, 9]), Err(Error::MetricFailure));
    assert_eq!(d.distances(0, &vec![1, 9, 2]), Err(Error::IndexOutOfRange));
    assert_eq!(d.distances(9, &vec![1]), Err(Error::IndexOutOfRange));
    assert_eq!(d.cache.len(), 1);
}

#[test]
fn insert_warms_the_cache() {
    let (mut d, calls) = counting(vec![1, 2, 4, 8]);
    assert_eq!(d.insert(&vec![0, 1], &vec![1, 2, 3]), Ok(()));
    // pairs: 0-1, 0-2, 0-3, 1-2, 1-3; 1-1 needs no metric
    assert_eq!(calls.get(), 5);
    assert_eq!(d.cache.len(), 5);
    assert_eq!(d.distance(3, 1), Ok(6));
    assert_eq!(d.distance(2, 0), Ok(3));
    assert_eq!(calls.get(), 5);
    assert_eq!(d.insert(&vec![0, 1], &vec![1, 2, 3]), Ok(()));
    assert_eq!(calls.get(), 5);
}

#[test]
fn insert_reports_the_first_failure() {
    let mut d = Dataset::new(vec![1u64, 2, 13], Superstitious);
    assert_eq!(d.insert(&vec![0, 1], &vec![1, 2]), Err(Error::MetricFailure));
    assert_eq!(d.insert(&vec![0, 7], &vec![1]), Err(Error::IndexOutOfRange));
    assert_eq!(d.insert(&vec![], &vec![2]), Ok(()));
}
