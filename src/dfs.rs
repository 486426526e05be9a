use vstd::prelude::*;
use std::collections::HashMap;
use crate::graph::{Graph, GraphModel, GraphSnapshot, closed, lists_set, all_edge_snapshots};
use crate::algorithm::{Algorithm, Snapshot, describe_graph, described};
use crate::bfs::{is_walk, has_edge};

verus! {

broadcast use {vstd::std_specs::hash::group_hash_axioms, vstd::seq_lib::group_seq_properties};

/// Working state of a depth-first traversal; a distance of 0 marks a visited node.
#[derive(Debug, PartialEq, Clone)]
pub struct Runtime {
    pub active_node: u32,
    pub distances: HashMap<u32, i32>,
    pub log: Vec<String>,
}

/// A depth-first traversal that owns its graph.
#[derive(Debug, PartialEq)]
pub struct DFS {
    pub graph: Graph,
    pub runtime: Runtime,
    pub source: u32,
}

/// Marker stored as the active node before a traversal starts.
pub const NO_ACTIVE_NODE: u32 = 9999;

/// The ids still at the sentinel -1.
pub open spec fn unvisited(d: Map<u32, i32>) -> Set<u32> {
    d.dom().filter(|k: u32| d[k] == -1)
}

/// Every mark is 0 or -1.
pub open spec fn marks_only(d: Map<u32, i32>) -> bool {
    forall|k: u32| #[trigger] d.contains_key(k) ==> d[k] == 0 || d[k] == -1
}

/// `d1` keeps every mark of `d0` and only turns sentinels into 0.
pub open spec fn grows(d0: Map<u32, i32>, d1: Map<u32, i32>) -> bool {
    &&& d1.dom() == d0.dom()
    &&& forall|k: u32| #[trigger] d0.contains_key(k) ==> d1[k] == d0[k] || (d0[k] == -1 && d1[k] == 0)
}

/// All neighbors of `x` are visited.
pub open spec fn neighbors_visited(g: GraphModel, d: Map<u32, i32>, x: u32) -> bool {
    forall|t: u32| #[trigger] g[x].contains_key(t) ==> d[t] != -1
}

/// Every visited node has all its neighbors visited.
pub open spec fn visits_closed(g: GraphModel, d: Map<u32, i32>) -> bool {
    forall|x: u32| #[trigger] d.contains_key(x) && d[x] != -1 ==> neighbors_visited(g, d, x)
}

/// When visits are closed and `src` is visited, so is the end of every walk from
/// `src`.
pub proof fn lemma_walk_end_visited(g: GraphModel, d: Map<u32, i32>, src: u32, p: Seq<u32>)
    requires
        d.dom() == g.dom(),
        visits_closed(g, d),
        d.contains_key(src),
        d[src] != -1,
        is_walk(g, p),
        p[0] == src,
    ensures
        d[p.last()] != -1,
    decreases p.len(),
{
    if p.len() > 1 {
        let q = p.drop_last();
        assert(is_walk(g, q)) by {
            assert forall|i: int| 0 <= i < q.len() - 1 implies #[trigger] has_edge(g, q[i], q[i + 1]) by {
                assert(has_edge(g, p[i], p[i + 1]));
            }
        }
        lemma_walk_end_visited(g, d, src, q);
        let i = p.len() - 2;
        assert(has_edge(g, p[i], p[i + 1]));
        assert(q.last() == p[i]);
        assert(d.contains_key(p[i]));
        assert(neighbors_visited(g, d, p[i]));
    }
}

/// `x` ends a walk from `u` whose nodes after the first are all at the sentinel in `d`.
pub open spec fn fresh_walk(g: GraphModel, d: Map<u32, i32>, u: u32, x: u32) -> bool {
    exists|p: Seq<u32>| fresh_walk_on(g, d, u, x, p)
}

/// `p` is a walk from `u` to `x` whose nodes after the first are at the sentinel in `d`.
pub open spec fn fresh_walk_on(g: GraphModel, d: Map<u32, i32>, u: u32, x: u32, p: Seq<u32>) -> bool {
    &&& is_walk(g, p)
    &&& p[0] == u
    &&& p.last() == x
    &&& forall|i: int| 1 <= i < p.len() ==> #[trigger] d[p[i]] == -1
}

proof fn lemma_fresh_walk_weaken(g: GraphModel, d1: Map<u32, i32>, d0: Map<u32, i32>, u: u32, x: u32)
    requires
        closed(g),
        d0.dom() == g.dom(),
        forall|k: u32| #[trigger] d0.contains_key(k) && d1[k] == -1 ==> d0[k] == -1,
        fresh_walk(g, d1, u, x),
    ensures
        fresh_walk(g, d0, u, x),
{
    let p = choose|p: Seq<u32>| fresh_walk_on(g, d1, u, x, p);
    assert forall|i: int| 1 <= i < p.len() implies #[trigger] d0[p[i]] == -1 by {
        assert(has_edge(g, p[i - 1], p[(i - 1) + 1]));
        assert(d0.contains_key(p[i]));
        assert(d1[p[i]] == -1);
    }
    assert(fresh_walk_on(g, d0, u, x, p));
}

proof fn lemma_fresh_walk_prepend(g: GraphModel, d0: Map<u32, i32>, u: u32, id: u32, x: u32)
    requires
        has_edge(g, u, id),
        d0[id] == -1,
        fresh_walk(g, d0, id, x),
    ensures
        fresh_walk(g, d0, u, x),
{
    let p = choose|p: Seq<u32>| fresh_walk_on(g, d0, id, x, p);
    let q = seq![u] + p;
    assert forall|i: int| 0 <= i < q.len() - 1 implies #[trigger] has_edge(g, q[i], q[i + 1]) by {
        if i > 0 {
            assert(q[i] == p[i - 1] && q[i + 1] == p[(i - 1) + 1]);
            assert(has_edge(g, p[i - 1], p[(i - 1) + 1]));
        }
    }
    assert forall|i: int| 1 <= i < q.len() implies #[trigger] d0[q[i]] == -1 by {
        assert(q[i] == p[i - 1]);
        if i > 1 {
            assert(d0[p[i - 1]] == -1);
        }
    }
    assert(fresh_walk_on(g, d0, u, x, q));
}

proof fn lemma_unvisited_finite(d: Map<u32, i32>)
    requires
        d.dom().finite(),
    ensures
        unvisited(d).finite(),
{
    d.dom().lemma_len_filter(|k: u32| d[k] == -1);
}

impl DFS {
    /// The state that `dfs_loop` and `run` accept.
    pub open spec fn ready(&self) -> bool {
        &&& self.graph.wf()
        &&& closed(self.graph@)
        &&& self.graph@.contains_key(self.source)
        &&& self.graph@.dom().len() < u32::MAX
        &&& self.runtime.distances@.dom() == self.graph@.dom()
        &&& marks_only(self.runtime.distances@)
        &&& visits_closed(self.graph@, self.runtime.distances@)
    }

    /// Visits `u`, then each neighbor that is still unvisited and is not `parent`,
    /// depth first, in the order the neighbor list gives. Returns the number of
    /// nodes this call visited, `u` included.
    fn dfs_recursion(&mut self, u: u32, parent: u32) -> (count: u32)
        requires
            old(self).graph.wf(),
            closed(old(self).graph@),
            old(self).graph@.dom().len() < u32::MAX,
            old(self).runtime.distances@.dom() == old(self).graph@.dom(),
            marks_only(old(self).runtime.distances@),
            old(self).graph@.contains_key(u),
            old(self).runtime.distances@.contains_key(parent),
            parent == u || old(self).runtime.distances@[parent] == 0,
        ensures
            final(self).graph == old(self).graph,
            final(self).source == old(self).source,
            final(self).runtime.log == old(self).runtime.log,
            grows(old(self).runtime.distances@, final(self).runtime.distances@),
            marks_only(final(self).runtime.distances@),
            final(self).runtime.distances@[u] == 0,
            forall|x: u32|
                (old(self).runtime.distances@[x] == -1 || x == u)
                    && #[trigger] final(self).runtime.distances@.contains_key(x)
                    && final(self).runtime.distances@[x] != -1
                    ==> neighbors_visited(final(self).graph@, final(self).runtime.distances@, x),
            forall|x: u32|
                old(self).runtime.distances@[x] == -1 && #[trigger] final(self).runtime.distances@.contains_key(x) && final(self).runtime.distances@[x] != -1
                    && x != u ==> fresh_walk(old(self).graph@, old(self).runtime.distances@, u, x),
            count == unvisited(old(self).runtime.distances@).insert(u).len() - unvisited(
                final(self).runtime.distances@,
            ).len(),
        decreases unvisited(old(self).runtime.distances@).insert(u).len(),
    {
        let ghost g = self.graph@;
        let ghost d0 = self.runtime.distances@;
        let ghost a = unvisited(d0).insert(u);
        proof {
            lemma_unvisited_finite(d0);
        }
        self.runtime.active_node = u;
        self.runtime.distances.insert(u, 0);
        proof {
            let d = self.runtime.distances@;
            assert(d.dom() =~= d0.dom());
            assert(d == d0.insert(u, 0));
            assert forall|k: u32| #[trigger] d0.contains_key(k) implies d[k] == d0[k] || (d0[k] == -1
                && d[k] == 0) by {}
            assert(grows(d0, d));
            assert(unvisited(d) =~= unvisited(d0).remove(u));
            lemma_unvisited_finite(d);
            assert(a.remove(u) =~= unvisited(d0).remove(u));
            assert(a.contains(u));
        }
        let neighbors = self.graph.nodes.get(&u).unwrap().neighbor_ids();
        proof {
            assert(self.graph.nodes@[u]@ == g[u]);
        }
        let mut count: u32 = 1;
        let mut j: usize = 0;
        while j < neighbors.len()
            invariant
                self.graph == old(self).graph,
                self.graph@ == g,
                self.source == old(self).source,
                self.runtime.log == old(self).runtime.log,
                self.graph.wf(),
                closed(g),
                g.dom().len() < u32::MAX,
                g.contains_key(u),
                neighbors@.to_set() == g[u].dom(),
                j <= neighbors.len(),
                d0 == old(self).runtime.distances@,
                a == unvisited(d0).insert(u),
                a.finite(),
                d0.dom() == g.dom(),
                grows(d0, self.runtime.distances@),
                marks_only(self.runtime.distances@),
                self.runtime.distances@[u] == 0,
                self.runtime.distances@.contains_key(parent),
                parent == u || self.runtime.distances@[parent] == 0,
                forall|x: u32|
                    d0[x] == -1 && x != u && #[trigger] self.runtime.distances@.contains_key(x)
                        && self.runtime.distances@[x] != -1 ==> neighbors_visited(
                        g,
                        self.runtime.distances@,
                        x,
                    ),
                forall|k: int| 0 <= k < j ==> self.runtime.distances@[#[trigger] neighbors@[k]] != -1,
                forall|x: u32|
                    d0[x] == -1 && #[trigger] self.runtime.distances@.contains_key(x)
                        && self.runtime.distances@[x] != -1 && x != u ==> fresh_walk(g, d0, u, x),
                unvisited(self.runtime.distances@).finite(),
                !unvisited(self.runtime.distances@).contains(u),
                unvisited(self.runtime.distances@).subset_of(a),
                count == a.len() - unvisited(self.runtime.distances@).len(),
            decreases neighbors.len() - j,
        {
            let id = neighbors[j];
            proof {
                assert(neighbors@.to_set().contains(id));
                assert(g.contains_key(id));
            }
            let mark: i32 = *self.runtime.distances.get(&id).unwrap();
            if mark == -1 && id != parent {
                let ghost d1 = self.runtime.distances@;
                proof {
                    let u1 = unvisited(d1);
                    assert(u1.contains(id));
                    assert(u1.insert(id) =~= u1);
                    assert(u1.subset_of(a.remove(u)));
                    vstd::set_lib::lemma_len_subset(u1, a.remove(u));
                }
                let sub = self.dfs_recursion(id, u);
                proof {
                    let d2 = self.runtime.distances@;
                    let u1 = unvisited(d1);
                    let u2 = unvisited(d2);
                    lemma_unvisited_finite(d2);
                    assert(u1.insert(id) =~= u1);
                    assert(u2.subset_of(u1));
                    vstd::set_lib::lemma_len_subset(u2, u1);
                    vstd::set_lib::lemma_len_subset(a, g.dom());
                    assert(a.len() <= g.dom().len()) by {
                        assert(a.subset_of(g.dom()));
                    }
                    assert forall|x: u32|
                        d0[x] == -1 && x != u && #[trigger] d2.contains_key(x) && d2[x] != -1
                            implies neighbors_visited(g, d2, x) by {
                        if d1[x] != -1 {
                            assert(neighbors_visited(g, d1, x));
                            assert forall|t: u32| #[trigger] g[x].contains_key(t) implies d2[t] != -1 by {
                                assert(d1.contains_key(t));
                            }
                        }
                    }
                    assert(d1.contains_key(parent));
                    assert forall|x: u32|
                        d0[x] == -1 && #[trigger] d2.contains_key(x) && d2[x] != -1 && x != u
                            implies fresh_walk(g, d0, u, x) by {
                        if d1[x] == -1 {
                            assert(has_edge(g, u, id));
                            assert(d0.contains_key(id));
                            if x == id {
                                let p = seq![u, id];
                                assert(p[1] == id);
                                assert(has_edge(g, p[0], p[1]));
                                assert(fresh_walk_on(g, d0, u, x, p));
                            } else {
                                assert(d1.contains_key(x));
                                assert(fresh_walk(g, d1, id, x));
                                assert forall|k: u32| #[trigger] d0.contains_key(k) && d1[k] == -1
                                    implies d0[k] == -1 by {}
                                lemma_fresh_walk_weaken(g, d1, d0, id, x);
                                lemma_fresh_walk_prepend(g, d0, u, id, x);
                            }
                        } else {
                            assert(d1.contains_key(x));
                        }
                    }
                    assert forall|k: u32| #[trigger] d0.contains_key(k) implies d2[k] == d0[k] || (d0[k]
                        == -1 && d2[k] == 0) by {
                        assert(d1.contains_key(k));
                    }
                    assert forall|k: int| 0 <= k < j + 1 implies d2[#[trigger] neighbors@[k]] != -1 by {
                        if k < j {
                            assert(neighbors@.to_set().contains(neighbors@[k]));
                            assert(g[u].contains_key(neighbors@[k]));
                            assert(d1.contains_key(neighbors@[k]));
                        }
                    }
                }
                count = count + sub;
            } else {
                proof {
                    if id == parent && parent != u {
                        assert(self.runtime.distances@[id] == 0);
                    }
                }
            }
            j = j + 1;
        }
        proof {
            let d = self.runtime.distances@;
            assert forall|t: u32| #[trigger] g[u].contains_key(t) implies d[t] != -1 by {
                assert(neighbors@.to_set().contains(t));
                let k = choose|k: int| 0 <= k < neighbors@.len() && neighbors@[k] == t;
            }
            assert forall|x: u32|
                (d0[x] == -1 || x == u) && #[trigger] d.contains_key(x) && d[x] != -1
                    implies neighbors_visited(g, d, x) by {}
        }
        count
    }

    /// Marks `u` visited and walks depth first from it. Returns the number of
    /// nodes visited by the walk, `u` included.
    pub fn dfs_loop(&mut self, u: u32) -> (count: u32)
        requires
            old(self).ready(),
            old(self).graph@.contains_key(u),
        ensures
            final(self).ready(),
            final(self).graph == old(self).graph,
            final(self).source == old(self).source,
            final(self).runtime.log == old(self).runtime.log,
            grows(old(self).runtime.distances@, final(self).runtime.distances@),
            final(self).runtime.distances@[u] == 0,
            forall|x: u32|
                old(self).runtime.distances@[x] == -1 && #[trigger] final(self).runtime.distances@.contains_key(x) && final(self).runtime.distances@[x] != -1
                    && x != u ==> fresh_walk(old(self).graph@, old(self).runtime.distances@, u, x),
            count == unvisited(old(self).runtime.distances@).insert(u).len() - unvisited(
                final(self).runtime.distances@,
            ).len(),
    {
        let ghost d0 = self.runtime.distances@;
        self.runtime.distances.insert(u, 0);
        proof {
            assert(unvisited(self.runtime.distances@).insert(u) =~= unvisited(d0).insert(u));
        }
        let ghost d1 = self.runtime.distances@;
        proof {
            assert(d1.dom() =~= d0.dom());
        }
        let count = self.dfs_recursion(u, u);
        proof {
            let g = self.graph@;
            let d = self.runtime.distances@;
            assert forall|x: u32|
                d0[x] == -1 && #[trigger] d.contains_key(x) && d[x] != -1 && x != u implies fresh_walk(
                g,
                d0,
                u,
                x,
            ) by {
                assert(d1[x] == -1);
                assert forall|k: u32| #[trigger] d0.contains_key(k) && d1[k] == -1 implies d0[k]
                    == -1 by {}
                lemma_fresh_walk_weaken(g, d1, d0, u, x);
            }
            assert forall|k: u32| #[trigger] d0.contains_key(k) implies d[k] == d0[k] || (d0[k] == -1
                && d[k] == 0) by {
                assert(d1.contains_key(k));
            }
            assert forall|x: u32| #[trigger] d.contains_key(x) && d[x] != -1 implies neighbors_visited(
                g,
                d,
                x,
            ) by {
                if d0[x] != -1 && x != u {
                    assert(d1[x] != -1);
                    assert(neighbors_visited(g, d0, x));
                    assert forall|t: u32| #[trigger] g[x].contains_key(t) implies d[t] != -1 by {
                        assert(d0.contains_key(t));
                        assert(d1.contains_key(t));
                    }
                } else if x != u {
                    assert(d1[x] == d0[x]);
                }
            }
        }
        count
    }
}

impl DFS {
    /// A traversal of `graph` from `source` with every node unvisited. None when
    /// `source` is not a node of `graph`, when an edge targets a missing node, or
    /// when the graph has `u32::MAX` nodes or more, too many to count in a `u32`.
    pub fn new(graph: Graph, source: u32) -> (r: Option<DFS>)
        requires
            graph.wf(),
        ensures
            r is None <==> !(graph@.contains_key(source) && closed(graph@) && graph@.dom().len()
                < u32::MAX),
            r matches Some(b) ==> {
                &&& b.ready()
                &&& b.graph == graph
                &&& b.source == source
                &&& b.runtime.active_node == NO_ACTIVE_NODE
                &&& b.runtime.log@.len() == 0
                &&& b.runtime.distances@ == Map::new(|k: u32| graph@.contains_key(k), |k: u32| -1i32)
            },
    {
        if !graph.nodes.contains_key(&source) {
            return None;
        }
        proof {
            assert(graph@.dom() =~= graph.nodes@.dom());
        }
        if !graph.is_closed() || graph.nodes.len() >= u32::MAX as usize {
            return None;
        }
        let ids = graph.node_ids();
        let mut distances: HashMap<u32, i32> = HashMap::new();
        let mut i: usize = 0;
        while i < ids.len()
            invariant
                i <= ids.len(),
                distances@ == Map::new(|k: u32| ids@.subrange(0, i as int).contains(k), |k: u32| -1i32),
            decreases ids.len() - i,
        {
            distances.insert(ids[i], -1);
            proof {
                assert(ids@.subrange(0, i + 1) == ids@.subrange(0, i as int).push(ids@[i as int]));
                assert(distances@ =~= Map::new(
                    |k: u32| ids@.subrange(0, i + 1).contains(k),
                    |k: u32| -1i32,
                ));
            }
            i = i + 1;
        }
        proof {
            assert(ids@.subrange(0, ids@.len() as int) == ids@);
            assert(distances@ =~= Map::new(|k: u32| graph@.contains_key(k), |k: u32| -1i32)) by {
                assert forall|k: u32| ids@.contains(k) <==> graph@.contains_key(k) by {
                    assert(ids@.contains(k) <==> ids@.to_set().contains(k));
                }
            }
        }
        Some(DFS {
            graph,
            runtime: Runtime { active_node: NO_ACTIVE_NODE, distances, log: Vec::new() },
            source,
        })
    }
}

impl Algorithm<Runtime> for DFS {
    open spec fn inv(&self) -> bool {
        self.ready()
    }

    /// The source is visited; with `ready`, so is the end of every walk from it
    /// (`lemma_walk_end_visited`).
    open spec fn finished(&self) -> bool {
        self.runtime.distances@[self.source] == 0
    }

    open spec fn exported(&self, s: Snapshot<Runtime>) -> bool {
        &&& s.data.active_node == self.runtime.active_node
        &&& s.data.distances@ == self.runtime.distances@
        &&& s.data.log@ == self.runtime.log@
        &&& lists_set(s.graph.nodes@, self.graph@.dom())
        &&& lists_set(s.graph.edges@, all_edge_snapshots(self.graph@))
    }

    /// Logs the graph's nodes and neighbor lists, then walks depth first from the
    /// source given at construction.
    fn run(&mut self)
        ensures
            final(self).graph == old(self).graph,
            final(self).source == old(self).source,
            grows(old(self).runtime.distances@, final(self).runtime.distances@),
            final(self).runtime.distances@[old(self).source] == 0,
            forall|x: u32|
                old(self).runtime.distances@[x] == -1 && #[trigger] final(self).runtime.distances@.contains_key(x) && final(self).runtime.distances@[x] != -1
                    && x != old(self).source ==> fresh_walk(
                    old(self).graph@,
                    old(self).runtime.distances@,
                    old(self).source,
                    x,
                ),
            exists|ks: Seq<u32>|
                lists_set(ks, old(self).graph@.dom()) && described(
                    old(self).runtime.log@,
                    final(self).runtime.log@,
                    old(self).graph@,
                    ks,
                ),
    {
        describe_graph(&mut self.runtime.log, &self.graph);
        let source = self.source;
        let _count = self.dfs_loop(source);
    }

    fn get_snapshot(&self) -> (r: Snapshot<Runtime>) {
        let graph: GraphSnapshot = self.graph.to_snapshot().unwrap();
        let data = Runtime {
            active_node: self.runtime.active_node,
            distances: self.runtime.distances.clone(),
            log: self.runtime.log.clone(),
        };
        Snapshot { data, graph }
    }
}

} // verus!
