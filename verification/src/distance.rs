//! Contract of the distance kernel.
//!
//! The arithmetic of a metric is floating point and lives with the caller.
//! The library takes the kernel as a function from two component sequences
//! (bit patterns) and a metric to a distance (a bit pattern), and asks only
//! that it is defined on sequences of equal length and that it is a
//! function of the sequences.

use vstd::prelude::*;
use crate::types::DistanceMetric;

verus! {

/// `dist` may return `r` for vectors whose components are `a` and `b`.
pub open spec fn kernel_relates<D: Fn(&Vec<u32>, &Vec<u32>, DistanceMetric) -> u32>(
    dist: &D,
    a: Seq<u32>,
    b: Seq<u32>,
    metric: DistanceMetric,
    r: u32,
) -> bool {
    exists|x: &Vec<u32>, y: &Vec<u32>|
        x@ == a && y@ == b && #[trigger] call_ensures(*dist, (x, y, metric), r)
}

/// The distance that `dist` assigns to `a` and `b` under `metric`.
pub open spec fn kernel_value<D: Fn(&Vec<u32>, &Vec<u32>, DistanceMetric) -> u32>(
    dist: &D,
    a: Seq<u32>,
    b: Seq<u32>,
    metric: DistanceMetric,
) -> u32 {
    choose|r: u32| kernel_relates(dist, a, b, metric, r)
}

/// `dist` may be called on any two vectors of equal length, and what it
/// returns depends on the components alone.
pub open spec fn is_kernel<D: Fn(&Vec<u32>, &Vec<u32>, DistanceMetric) -> u32>(dist: &D) -> bool {
    &&& forall|x: &Vec<u32>, y: &Vec<u32>, m: DistanceMetric|
        x@.len() == y@.len() ==> #[trigger] call_requires(*dist, (x, y, m))
    &&& forall|x: &Vec<u32>, y: &Vec<u32>, m: DistanceMetric, r: u32| #[trigger]
        call_ensures(*dist, (x, y, m), r) ==> r == kernel_value(dist, x@, y@, m)
}

/// Distance between two vectors of equal length under `metric`.
pub fn distance<D: Fn(&Vec<u32>, &Vec<u32>, DistanceMetric) -> u32>(
    a: &Vec<u32>,
    b: &Vec<u32>,
    metric: DistanceMetric,
    dist: &D,
) -> (r: u32)
    requires
        is_kernel(dist),
        a@.len() == b@.len(),
    ensures
        r == kernel_value(dist, a@, b@, metric),
{
    dist(a, b, metric)
}

} // verus!
