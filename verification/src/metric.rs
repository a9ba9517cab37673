//! The narrow interface through which distances between points are obtained.

use vstd::prelude::*;
use vstd::string::StringExecFns;
use crate::types::Radius;

verus! {

/// A distance function over points of type `T`.
///
/// `measure` says, as a mathematical function of the two points, what the
/// metric answers: a distance, or `None` where it cannot produce one.
/// `distance` computes exactly that. Nothing else is asked of a metric: it
/// need not be symmetric, because the dataset only ever hands it a pair with
/// the point of the larger index first.
pub trait Metric<T> {
    /// The metric's answer for the ordered pair `(a, b)`.
    spec fn measure(&self, a: &T, b: &T) -> Option<Radius>;

    /// Computes the metric's answer for the ordered pair `(a, b)`.
    fn distance(&self, a: &T, b: &T) -> (d: Option<Radius>)
        ensures
            d == self.measure(a, b),
    ;
}

/// Absolute difference of two scalars.
pub open spec fn scalar_gap(a: u64, b: u64) -> Radius {
    if a <= b {
        (b - a) as u64
    } else {
        (a - b) as u64
    }
}

/// A metric chosen by name over scalar points.
///
/// The name `"euclidean"` selects the absolute difference; no other name is
/// known, and the metric fails on every pair under any other name.
impl Metric<u64> for String {
    open spec fn measure(&self, a: &u64, b: &u64) -> Option<Radius> {
        if self@ == "euclidean"@ {
            Some(scalar_gap(*a, *b))
        } else {
            None
        }
    }

    fn distance(&self, a: &u64, b: &u64) -> (d: Option<Radius>) {
        let euclidean = String::from_str("euclidean");
        if *self == euclidean {
            if *a <= *b {
                Some(*b - *a)
            } else {
                Some(*a - *b)
            }
        } else {
            None
        }
    }
}

} // verus!
