use std::collections::hash_map::DefaultHasher;
use std::hash::{Hash, Hasher};

use manifold::{Cluster, Dataset, MinPoints};

fn hash<T: Hash>(t: &T) -> u64 {
    let mut h = DefaultHasher::new();
    t.hash(&mut h);
    h.finish()
}

fn leaf(indices: Vec<usize>, name: &str) -> Cluster {
    Cluster { indices, name: String::from(name), children: None }
}

#[test]
fn hash_eq() {
    let a = Cluster::new(vec![0, 1]);
    let b = Cluster::new(vec![0, 1]);
    assert_eq!(a, b);
    assert_eq!(hash(&a), hash(&b));
}

#[test]
fn cardinality() {
    let c = Cluster::new(vec![0, 1]);
    assert_eq!(c.cardinality(), 2);
    let c = Cluster::new(vec![0]);
    assert_eq!(c.cardinality(), 1);
}

#[test]
fn display() {
    let c = Cluster::new(vec![0, 1]);
    let s = c.to_string();
    assert_eq!(s, String::from(""));
}

#[test]
fn depth() {
    let c = Cluster::new(vec![0, 1]);
    assert_eq!(c.depth(), 0);
    let c = Cluster { indices: vec![0, 1], name: String::from("010"), children: None };
    assert_eq!(c.depth(), 3);
}

#[test]
fn new_cluster_is_a_root_leaf() {
    let c = Cluster::new(vec![4, 2, 7]);
    assert_eq!(c.indices, vec![4, 2, 7]);
    assert_eq!(c.name, "");
    assert!(c.children.is_none());
    assert_eq!(c.cluster_count(), 1);
}

#[test]
fn equality_looks_at_name_and_indices_only() {
    let plain = leaf(vec![0, 1], "0");
    let split = Cluster {
        indices: vec![0, 1],
        name: String::from("0"),
        children: Some(vec![leaf(vec![0], "00"), leaf(vec![1], "01")]),
    };
    assert_eq!(plain, split);
    assert_eq!(hash(&plain), hash(&split));
    assert_ne!(plain, leaf(vec![0, 1], "1"));
    assert_ne!(plain, leaf(vec![0, 2], "0"));
    assert_ne!(plain, leaf(vec![0], "0"));
}

#[test]
fn hash_follows_the_name_alone() {
    assert_eq!(hash(&leaf(vec![0, 1], "01")), hash(&leaf(vec![5], "01")));
    assert_eq!(hash(&leaf(vec![0, 1], "01")), hash(&String::from("01")));
}

#[test]
fn to_string_is_the_name() {
    assert_eq!(leaf(vec![3], "0110").to_string(), "0110");
}

#[test]
fn cluster_count_adds_up_children() {
    let tree = Cluster {
        indices: vec![0, 1, 2],
        name: String::new(),
        children: Some(vec![
            Cluster {
                indices: vec![0, 1],
                name: String::from("0"),
                children: Some(vec![leaf(vec![0], "00"), leaf(vec![1], "01")]),
            },
            leaf(vec![2], "1"),
        ]),
    };
    assert_eq!(tree.cluster_count(), 5);
    let kids = tree.children.as_ref().unwrap();
    assert_eq!(tree.cluster_count(), 1 + kids[0].cluster_count() + kids[1].cluster_count());
    assert_eq!(kids[0].cluster_count(), 3);
    assert_eq!(kids[1].cluster_count(), 1);
}

#[test]
fn child_depth_is_parent_depth_plus_one() {
    let mut data = Dataset::new(vec![10u64, 20, 30, 40, 50], String::from("euclidean"));
    let tree = Cluster::new(vec![0, 1, 2, 3, 4])
        .partition(&mut data, &vec![MinPoints::new(1)])
        .unwrap();
    let mut pending = vec![&tree];
    let mut internal = 0;
    while let Some(node) = pending.pop() {
        assert_eq!(node.depth(), node.name.len());
        if let Some(kids) = node.children.as_ref() {
            internal += 1;
            for kid in kids {
                assert_eq!(kid.depth(), node.depth() + 1);
                pending.push(kid);
            }
        }
    }
    assert_eq!(internal, 4);
}

#[test]
fn leaves_without_depth_are_the_true_leaves() {
    let tree = Cluster {
        indices: vec![0, 1, 2],
        name: String::new(),
        children: Some(vec![
            Cluster {
                indices: vec![0, 1],
                name: String::from("0"),
                children: Some(vec![leaf(vec![0], "00"), leaf(vec![1], "01")]),
            },
            leaf(vec![2], "1"),
        ]),
    };
    let names: Vec<&str> = tree.leaves(None).iter().map(|c| c.name.as_str()).collect();
    assert_eq!(names, vec!["00", "01", "1"]);
    let mut held: Vec<usize> = Vec::new();
    for l in tree.leaves(None) {
        assert!(l.children.is_none());
        held.extend(l.indices.iter());
    }
    held.sort();
    assert_eq!(held, vec![0, 1, 2]);
}

#[test]
fn leaves_at_a_depth_stop_there_or_at_a_leaf_above() {
    let tree = Cluster {
        indices: vec![0, 1, 2],
        name: String::new(),
        children: Some(vec![
            Cluster {
                indices: vec![0, 1],
                name: String::from("0"),
                children: Some(vec![leaf(vec![0], "00"), leaf(vec![1], "01")]),
            },
            leaf(vec![2], "1"),
        ]),
    };
    let at = |d: usize| -> Vec<String> {
        tree.leaves(Some(d)).iter().map(|c| c.name.clone()).collect()
    };
    assert_eq!(at(0), vec![""]);
    assert_eq!(at(1), vec!["0", "1"]);
    assert_eq!(at(2), vec!["00", "01", "1"]);
    assert_eq!(at(7), vec!["00", "01", "1"]);
}
