//! Heuristics that price a hop between two versions that no link joins.
use vstd::prelude::*;
use crate::graph::Graph;

verus! {

/// The distance between two version numbers.
pub open spec fn version_gap(from: u32, to: u32) -> u32 {
    if from > to {
        (from - to) as u32
    } else {
        (to - from) as u32
    }
}

/// Prices a hop by how far apart the two version numbers are.
pub fn version_diff<D>(_graph: &Graph<D>, from: u32, to: u32) -> (r: u32)
    ensures
        r == version_gap(from, to),
{
    if from > to {
        from - to
    } else {
        to - from
    }
}

} // verus!
