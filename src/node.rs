use vstd::prelude::*;
use std::collections::HashMap;
use crate::edge::{Edge, EdgeSnapshot};
use crate::keys::key_list;

verus! {

broadcast use vstd::std_specs::hash::group_hash_axioms;

/// The id of a node together with its outgoing edges, in no particular order.
#[derive(Debug, Hash, PartialEq, Eq, Clone)]
pub struct NodeSnapshot {
    pub nodes: Vec<u32>,
    pub edges: Vec<EdgeSnapshot>,
}

/// Outgoing edges of a node, keyed by target id.
#[derive(PartialEq, Debug)]
pub struct Runtime {
    pub edges: HashMap<u32, Edge>,
}

/// A vertex that owns its outgoing edges.
#[derive(PartialEq, Debug)]
pub struct Node {
    pub id: u32,
    pub runtime: Runtime,
}

impl View for Node {
    type V = Map<u32, Edge>;

    /// Target id to edge.
    open spec fn view(&self) -> Map<u32, Edge> {
        self.runtime.edges@
    }
}

impl Node {
    /// Every stored edge starts at this node and ends at the key it is stored under.
    pub open spec fn wf(&self) -> bool {
        forall|t: u32| #[trigger] self@.contains_key(t) ==> self@[t].runtime.node_start == self.id
            && self@[t].runtime.node_end == t
    }

    /// A node without edges.
    pub fn new(id: u32) -> (r: Node)
        ensures
            r.id == id,
            r@ == Map::<u32, Edge>::empty(),
            r.wf(),
    {
        Node { id, runtime: Runtime { edges: HashMap::new() } }
    }

    /// A node without edges.
    pub fn new_node_from_id(id: u32) -> (r: Node)
        ensures
            r.id == id,
            r@ == Map::<u32, Edge>::empty(),
            r.wf(),
    {
        Node::new(id)
    }

    /// A node without edges; where it is drawn is kept by the presentation layer.
    pub fn create_new(id: u32) -> (r: Node)
        ensures
            r.id == id,
            r@ == Map::<u32, Edge>::empty(),
            r.wf(),
    {
        Node::new(id)
    }

    /// Adds an edge of weight 1 to `id`, unless an edge to `id` is already there.
    pub fn add_new_edge_to_node(&mut self, id: u32)
        ensures
            final(self).id == old(self).id,
            final(self)@ == (if old(self)@.contains_key(id) {
                old(self)@
            } else {
                old(self)@.insert(id, Edge::spec_new(old(self).id, id, 1))
            }),
            old(self).wf() ==> final(self).wf(),
    {
        self.add_new_edge_to_node_with_weight(id, 1);
    }

    /// Adds an edge of weight `weight` to `id`, unless an edge to `id` is already there.
    pub fn add_new_edge_to_node_with_weight(&mut self, id: u32, weight: u32)
        ensures
            final(self).id == old(self).id,
            final(self)@ == (if old(self)@.contains_key(id) {
                old(self)@
            } else {
                old(self)@.insert(id, Edge::spec_new(old(self).id, id, weight))
            }),
            old(self).wf() ==> final(self).wf(),
    {
        if !self.runtime.edges.contains_key(&id) {
            let e = Edge::new(self.id, id, weight);
            self.runtime.edges.insert(id, e);
        }
    }

    /// Removes the edge to `id`, which must be present.
    pub fn remove_edge_from_node(&mut self, id: u32)
        requires
            old(self)@.contains_key(id),
        ensures
            final(self).id == old(self).id,
            final(self)@ == old(self)@.remove(id),
            old(self).wf() ==> final(self).wf(),
    {
        let removed = self.runtime.edges.remove(&id);
        let _edge: Edge = removed.unwrap();
    }

    /// Ids of the targets of the outgoing edges, each once.
    pub fn neighbor_ids(&self) -> (r: Vec<u32>)
        ensures
            r@.to_set() == self@.dom(),
            r@.no_duplicates(),
    {
        key_list(&self.runtime.edges)
    }
}

/// Snapshots of the edges of `m` stored under the keys `ks`, in that order.
pub open spec fn edge_snapshots(m: Map<u32, Edge>, ks: Seq<u32>) -> Seq<EdgeSnapshot> {
    ks.map_values(|k: u32| m[k].spec_snapshot())
}

impl Node {
    /// The node's own id and a snapshot of each of its edges, in the map's order.
    pub fn to_snapshot(&self) -> (r: NodeSnapshot)
        ensures
            r.nodes@ == seq![self.id],
            exists|ks: Seq<u32>|
                ks.no_duplicates() && ks.to_set() == self@.dom() && r.edges@ == edge_snapshots(
                    self@,
                    ks,
                ),
    {
        let ks = self.neighbor_ids();
        let mut edges: Vec<EdgeSnapshot> = Vec::new();
        let mut i: usize = 0;
        while i < ks.len()
            invariant
                i <= ks.len(),
                ks@.to_set() == self@.dom(),
                edges@ == edge_snapshots(self@, ks@.subrange(0, i as int)),
            decreases ks.len() - i,
        {
            let k = ks[i];
            proof {
                assert(ks@.to_set().contains(k));
            }
            let e = self.runtime.edges.get(&k).unwrap();
            edges.push(e.to_snapshot());
            proof {
                assert(edge_snapshots(self@, ks@.subrange(0, i + 1)) =~= edge_snapshots(
                    self@,
                    ks@.subrange(0, i as int),
                ).push(self@[k].spec_snapshot()));
            }
            i = i + 1;
        }
        proof {
            assert(ks@.subrange(0, ks@.len() as int) == ks@);
        }
        NodeSnapshot { nodes: vec![self.id], edges }
    }
}

} // verus!
