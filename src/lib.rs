use vstd::prelude::*;

pub mod keys;
pub mod edge;
pub mod node;
pub mod graph;
pub mod algorithm;
pub mod bfs;
pub mod dfs;
pub mod logger;
pub mod presentation;

verus! {

} // verus!
