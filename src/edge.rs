use vstd::prelude::*;

verus! {

/// Placeholder id carried by every edge that was not given one explicitly.
pub const DEFAULT_EDGE_ID: u32 = 0;

/// Endpoint and weight data of an edge.
#[derive(Debug, Hash, PartialEq, Eq, Clone, Copy, Structural)]
pub struct Runtime {
    pub node_start: u32,
    pub node_end: u32,
    pub weight: u32,
}

/// A directed, weighted connection between two node ids.
#[derive(Debug, Hash, PartialEq, Eq, Clone, Copy, Structural)]
pub struct Edge {
    pub id: u32,
    pub runtime: Runtime,
}

/// Immutable projection of an edge, as handed out in snapshots.
#[derive(Debug, Hash, PartialEq, Eq, Clone, Copy, Structural)]
pub struct EdgeSnapshot {
    pub id: u32,
    pub node_start: u32,
    pub node_end: u32,
    pub weight: u32,
}

impl Edge {
    pub open spec fn spec_new(node_start: u32, node_end: u32, weight: u32) -> Edge {
        Edge { id: DEFAULT_EDGE_ID, runtime: Runtime { node_start, node_end, weight } }
    }

    pub open spec fn spec_snapshot(self) -> EdgeSnapshot {
        EdgeSnapshot {
            id: self.id,
            node_start: self.runtime.node_start,
            node_end: self.runtime.node_end,
            weight: self.runtime.weight,
        }
    }

    /// An edge from `node_start` to `node_end` with the placeholder id.
    pub fn new(node_start: u32, node_end: u32, weight: u32) -> (r: Edge)
        ensures
            r == Edge::spec_new(node_start, node_end, weight),
    {
        Edge { id: DEFAULT_EDGE_ID, runtime: Runtime { node_start, node_end, weight } }
    }

    pub fn to_snapshot(&self) -> (r: EdgeSnapshot)
        ensures
            r == self.spec_snapshot(),
    {
        EdgeSnapshot {
            id: self.id,
            node_start: self.runtime.node_start,
            node_end: self.runtime.node_end,
            weight: self.runtime.weight,
        }
    }
}

} // verus!
