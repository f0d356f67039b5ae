use vstd::prelude::*;

pub mod bypass_heuristics;
pub mod converter;
pub mod demo;
pub mod graph;
pub mod laws;
pub mod search;

verus! {

} // verus!
