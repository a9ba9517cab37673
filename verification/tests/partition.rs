use std::cell::Cell;
use std::rc::Rc;

use manifold::criteria::{should_split, validate};
use manifold::{Cluster, Criterion, Dataset, Error, Index, MaxDepth, Metric, MinPoints, Radius};

fn scalars(points: Vec<u64>) -> Dataset<u64, String> {
    Dataset::new(points, String::from("euclidean"))
}

/// Absolute difference, counting how often it is asked.
struct Tally {
    asked: Rc<Cell<usize>>,
}

impl Metric<u64> for Tally {
    fn measure(&self, a: &u64, b: &u64) -> Option<Radius> {
        Some(if a <= b { b - a } else { a - b })
    }

    fn distance(&self, a: &u64, b: &u64) -> Option<Radius> {
        self.asked.set(self.asked.get() + 1);
        self.measure(a, b)
    }
}

/// Admits a cluster as long as it holds the point `0`. `valid` and `admits`
/// are the ghost side of the trait: compiled code never calls them.
struct HoldsZero;

impl Criterion for HoldsZero {
    fn valid(&self) -> bool {
        unreachable!()
    }

    fn admits(&self, _name: vstd::seq::Seq<char>, _indices: vstd::seq::Seq<Index>) -> bool {
        unreachable!()
    }

    fn is_valid(&self) -> bool {
        true
    }

    fn check(&self, cluster: &Cluster) -> bool {
        cluster.indices.contains(&0)
    }
}

/// The tree as nested text: `name[indices]` and, for an internal node, its children in braces.
fn show(c: &Cluster) -> String {
    let mut text = format!("{}{:?}", c.name, c.indices);
    if let Some(kids) = c.children.as_ref() {
        let inner: Vec<String> = kids.iter().map(show).collect();
        text = format!("{}{{{}}}", text, inner.join(" "));
    }
    text
}

#[test]
fn three_points_split_two_and_one() {
    let mut d = scalars(vec![1, 2, 3]);
    let tree = Cluster::new(vec![0, 1, 2]).partition(&mut d, &vec![MinPoints::new(2)]).unwrap();
    assert_eq!(show(&tree), "[0, 1, 2]{0[0, 1] 1[2]}");
    assert_eq!(tree.cluster_count(), 3);
}

#[test]
fn partition_recurses_until_the_criteria_stop_it() {
    let mut d = scalars(vec![10, 20, 30, 40, 50]);
    let tree =
        Cluster::new(vec![0, 1, 2, 3, 4]).partition(&mut d, &vec![MinPoints::new(1)]).unwrap();
    assert_eq!(
        show(&tree),
        "[0, 1, 2, 3, 4]{0[0, 1, 2]{00[0, 1]{000[0] 001[1]} 01[2]} 1[3, 4]{10[3] 11[4]}}"
    );
    assert_eq!(tree.cluster_count(), 9);
}

#[test]
fn empty_criteria_leave_the_cluster_a_leaf() {
    let mut d = scalars(vec![1, 2, 3]);
    let tree = Cluster::new(vec![0, 1, 2]).partition(&mut d, &Vec::<MinPoints>::new()).unwrap();
    assert_eq!(show(&tree), "[0, 1, 2]");
    assert!(d.cache.is_empty());
}

#[test]
fn criteria_are_anded() {
    let mut d = scalars(vec![10, 20, 30, 40, 50]);
    let both = vec![MinPoints::new(1), MinPoints::new(2)];
    let tree = Cluster::new(vec![0, 1, 2, 3, 4]).partition(&mut d, &both).unwrap();
    assert_eq!(show(&tree), "[0, 1, 2, 3, 4]{0[0, 1, 2]{00[0, 1] 01[2]} 1[3, 4]}");
    let mut d = scalars(vec![10, 20, 30, 40, 50]);
    let both = vec![MinPoints::new(2), MinPoints::new(1)];
    let tree = Cluster::new(vec![0, 1, 2, 3, 4]).partition(&mut d, &both).unwrap();
    assert_eq!(show(&tree), "[0, 1, 2, 3, 4]{0[0, 1, 2]{00[0, 1] 01[2]} 1[3, 4]}");
}

#[test]
fn max_depth_limits_the_levels() {
    let mut d = scalars(vec![10, 20, 30, 40, 50]);
    let tree =
        Cluster::new(vec![0, 1, 2, 3, 4]).partition(&mut d, &vec![MaxDepth::new(2)]).unwrap();
    assert_eq!(
        show(&tree),
        "[0, 1, 2, 3, 4]{0[0, 1, 2]{00[0, 1] 01[2]} 1[3, 4]{10[3] 11[4]}}"
    );
    let mut d = scalars(vec![10, 20, 30, 40, 50]);
    let tree =
        Cluster::new(vec![0, 1, 2, 3, 4]).partition(&mut d, &vec![MaxDepth::new(0)]).unwrap();
    assert_eq!(show(&tree), "[0, 1, 2, 3, 4]");
}

#[test]
fn a_cluster_of_fewer_than_two_points_is_never_split() {
    let mut d = scalars(vec![1, 2, 3]);
    let tree = Cluster::new(vec![1]).partition(&mut d, &vec![MinPoints::new(0)]).unwrap();
    assert_eq!(show(&tree), "[1]");
    let tree = Cluster::new(vec![]).partition(&mut d, &vec![MaxDepth::new(9)]).unwrap();
    assert_eq!(show(&tree), "[]");
    let tree = Cluster::new(vec![0, 2]).partition(&mut d, &vec![MaxDepth::new(9)]).unwrap();
    assert_eq!(show(&tree), "[0, 2]{0[0] 1[2]}");
}

#[test]
fn farthest_point_ties_go_to_the_smallest_index() {
    // every other point is 4 away from point 0
    let mut d = scalars(vec![5, 1, 9, 9, 1]);
    let tree =
        Cluster::new(vec![0, 1, 2, 3, 4]).partition(&mut d, &vec![MinPoints::new(4)]).unwrap();
    assert_eq!(show(&tree), "[0, 1, 2, 3, 4]{0[0, 2, 3] 1[1, 4]}");
    let mut d = scalars(vec![5, 1, 9, 9, 1]);
    let tree =
        Cluster::new(vec![0, 4, 3, 2, 1]).partition(&mut d, &vec![MinPoints::new(4)]).unwrap();
    assert_eq!(show(&tree), "[0, 4, 3, 2, 1]{0[0, 3, 2] 1[4, 1]}");
}

#[test]
fn equidistant_points_go_to_the_pole_with_the_lower_index() {
    let mut d = scalars(vec![0, 10, 20]);
    let tree = Cluster::new(vec![0, 1, 2]).partition(&mut d, &vec![MinPoints::new(2)]).unwrap();
    assert_eq!(show(&tree), "[0, 1, 2]{0[0, 1] 1[2]}");
    // first pole is point 2, second pole is point 0
    let mut d = scalars(vec![0, 10, 20]);
    let tree = Cluster::new(vec![2, 0, 1]).partition(&mut d, &vec![MinPoints::new(2)]).unwrap();
    assert_eq!(show(&tree), "[2, 0, 1]{0[2] 1[0, 1]}");
}

#[test]
fn coincident_points_still_fill_both_branches() {
    let mut d = scalars(vec![7, 7, 7]);
    let tree = Cluster::new(vec![0, 1, 2]).partition(&mut d, &vec![MinPoints::new(1)]).unwrap();
    assert_eq!(show(&tree), "[0, 1, 2]{0[0, 2]{00[0] 01[2]} 1[1]}");
}

#[test]
fn children_partition_the_parent() {
    let mut d = scalars(vec![31, 4, 15, 92, 65, 35, 89, 79, 32, 38, 46]);
    let all: Vec<usize> = (0..11).collect();
    let tree = Cluster::new(all).partition(&mut d, &vec![MinPoints::new(1)]).unwrap();
    let mut pending = vec![&tree];
    let mut nodes = 0;
    while let Some(node) = pending.pop() {
        nodes += 1;
        if let Some(kids) = node.children.as_ref() {
            assert_eq!(kids.len(), 2);
            let mut pooled: Vec<usize> = Vec::new();
            for (b, kid) in kids.iter().enumerate() {
                assert!(!kid.indices.is_empty());
                assert!(kid.indices.len() < node.indices.len());
                assert_eq!(kid.name, format!("{}{}", node.name, b));
                pooled.extend(kid.indices.iter());
                pending.push(kid);
            }
            pooled.sort();
            let mut own = node.indices.clone();
            own.sort();
            assert_eq!(pooled, own);
        } else {
            assert_eq!(node.indices.len(), 1);
        }
    }
    assert_eq!(nodes, 21);
    assert_eq!(tree.cluster_count(), 21);
    assert_eq!(tree.leaves(None).len(), 11);
}

#[test]
fn a_custom_criterion_is_consulted() {
    let mut d = scalars(vec![10, 20, 30, 40, 50]);
    let tree = Cluster::new(vec![0, 1, 2, 3, 4]).partition(&mut d, &vec![HoldsZero]).unwrap();
    assert_eq!(
        show(&tree),
        "[0, 1, 2, 3, 4]{0[0, 1, 2]{00[0, 1]{000[0] 001[1]} 01[2]} 1[3, 4]}"
    );
}

#[test]
fn a_failing_metric_fails_the_partition() {
    let mut d = Dataset::new(vec![1u64, 2, 3], String::from("cosine"));
    let r = Cluster::new(vec![0, 1, 2]).partition(&mut d, &vec![MinPoints::new(2)]);
    assert_eq!(r, Err(Error::MetricFailure));
    let r = Cluster::new(vec![0, 1, 2]).partition(&mut d, &vec![MinPoints::new(3)]);
    assert_eq!(r, Ok(Cluster::new(vec![0, 1, 2])));
}

#[test]
fn a_cluster_that_is_not_split_comes_back_unchanged() {
    let mut d = scalars(vec![1, 2, 3]);
    let before = Cluster {
        indices: vec![2, 0],
        name: String::from("01"),
        children: Some(vec![
            Cluster { indices: vec![2], name: String::from("010"), children: None },
            Cluster { indices: vec![0], name: String::from("011"), children: None },
        ]),
    };
    let after = before.partition(&mut d, &vec![MinPoints::new(2)]).unwrap();
    assert_eq!(show(&after), "01[2, 0]{010[2] 011[0]}");
}

#[test]
fn partition_names_children_after_the_parent() {
    let mut d = scalars(vec![1, 2, 3]);
    let start = Cluster { indices: vec![0, 1, 2], name: String::from("10"), children: None };
    let tree = start.partition(&mut d, &vec![MinPoints::new(2)]).unwrap();
    assert_eq!(show(&tree), "10[0, 1, 2]{100[0, 1] 101[2]}");
}

#[test]
fn partition_asks_each_distance_once() {
    let asked = Rc::new(Cell::new(0));
    let mut d = Dataset::new(vec![10u64, 20, 30, 40, 50], Tally { asked: Rc::clone(&asked) });
    let tree =
        Cluster::new(vec![0, 1, 2, 3, 4]).partition(&mut d, &vec![MinPoints::new(1)]).unwrap();
    assert_eq!(tree.cluster_count(), 9);
    // root: 0-1 0-2 0-3 0-4 4-1 4-2 4-3; below: 2-1 added by "0", nothing new by "00" and "1"
    assert_eq!(asked.get(), 8);
    assert_eq!(d.cache.len(), 8);
    assert_eq!(d.distance(4, 0), Ok(40));
    assert_eq!(d.distance(1, 2), Ok(10));
    assert_eq!(asked.get(), 8);
}

#[test]
fn should_split_needs_criteria_and_two_points() {
    let three = Cluster::new(vec![0, 1, 2]);
    assert!(should_split(&three, &vec![MinPoints::new(2)]));
    assert!(!should_split(&three, &vec![MinPoints::new(3)]));
    assert!(!should_split(&three, &vec![MinPoints::new(2), MinPoints::new(3)]));
    assert!(!should_split(&three, &Vec::<MinPoints>::new()));
    assert!(!should_split(&Cluster::new(vec![0]), &vec![MinPoints::new(0)]));
    assert!(should_split(&Cluster::new(vec![0, 1]), &vec![MinPoints::new(0)]));
}

#[test]
fn min_points_admits_above_the_threshold() {
    let two = Cluster::new(vec![0, 1]);
    assert!(MinPoints::new(1).check(&two));
    assert!(!MinPoints::new(2).check(&two));
    assert!(!MinPoints::new(3).check(&two));
    assert!(MinPoints::new(-1).check(&two));
    assert!(MinPoints::new(0).is_valid());
    assert!(!MinPoints::new(-1).is_valid());
}

#[test]
fn max_depth_admits_below_the_limit() {
    let deep = Cluster { indices: vec![0, 1], name: String::from("01"), children: None };
    assert!(MaxDepth::new(3).check(&deep));
    assert!(!MaxDepth::new(2).check(&deep));
    assert!(!MaxDepth::new(0).check(&deep));
    assert!(!MaxDepth::new(-4).check(&deep));
    assert!(MaxDepth::new(0).is_valid());
    assert!(!MaxDepth::new(-4).is_valid());
}

#[test]
fn validate_wants_every_criterion_valid() {
    assert!(validate(&Vec::<MinPoints>::new()));
    assert!(validate(&vec![MinPoints::new(0), MinPoints::new(5)]));
    assert!(!validate(&vec![MinPoints::new(0), MinPoints::new(-5)]));
    assert!(!validate(&vec![MaxDepth::new(-1)]));
}
