//! The order in which the greedy placement serves its cells.

use crate::index::NearestNeighbour;
use std::cmp::Ordering;
use vstd::prelude::*;

verus! {

/// Compares two lists of candidates by the distance of the last candidate of
/// each, the greater distance first: `Less` where `a` ends with the greater
/// distance, `Greater` where `b` does, `Equal` where the two are the same.
/// Neither list may be empty.
pub fn compare_matches(a: &[NearestNeighbour], b: &[NearestNeighbour]) -> (order: Ordering)
    requires
        a@.len() > 0,
        b@.len() > 0,
    ensures
        order == Ordering::Less <==> b@.last().distance < a@.last().distance,
        order == Ordering::Equal <==> b@.last().distance == a@.last().distance,
        order == Ordering::Greater <==> b@.last().distance > a@.last().distance,
{
    let last_a = a[a.len() - 1].distance;
    let last_b = b[b.len() - 1].distance;
    if last_b < last_a {
        Ordering::Less
    } else if last_b == last_a {
        Ordering::Equal
    } else {
        Ordering::Greater
    }
}

} // verus!
