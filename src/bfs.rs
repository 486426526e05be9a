use vstd::prelude::*;
use std::collections::{HashMap, VecDeque};
use vstd::arithmetic::power::{pow, lemma_pow_positive, lemma_pow_increases};
use crate::graph::{Graph, GraphModel, GraphSnapshot, closed, lists_set, all_edge_snapshots};
use crate::algorithm::{Algorithm, Snapshot, describe_graph, log_distances, distances_logged, described};

verus! {

broadcast use {vstd::std_specs::hash::group_hash_axioms, vstd::seq_lib::group_seq_properties};

/// Working state of a breadth-first traversal.
#[derive(Debug, PartialEq, Clone)]
pub struct Runtime {
    pub active_node: u32,
    pub distances: HashMap<u32, i32>,
    pub queue: VecDeque<u32>,
    pub log: Vec<String>,
}

/// A FIFO traversal that owns its graph.
#[derive(Debug, PartialEq)]
pub struct BFS {
    pub graph: Graph,
    pub runtime: Runtime,
    pub source: u32,
}

/// Marker stored as the active node before a traversal starts.
pub const NO_ACTIVE_NODE: u32 = 9999;

/// Weight of the edge `u -> t`.
pub open spec fn weight(g: GraphModel, u: u32, t: u32) -> int {
    g[u][t].runtime.weight as int
}

/// `u -> t` is an edge of `g`.
pub open spec fn has_edge(g: GraphModel, u: u32, t: u32) -> bool {
    g.contains_key(u) && g[u].contains_key(t)
}

/// No edge targets a missing node, and a path through every node fits in an `i32`.
pub open spec fn traversable(g: GraphModel) -> bool {
    &&& closed(g)
    &&& forall|u: u32, t: u32|
        #[trigger] has_edge(g, u, t) ==> g.dom().len() * weight(g, u, t) <= i32::MAX
}

/// `h` ranks every node below the number of nodes, and each edge of weight 0 leads
/// to a lower rank.
pub open spec fn zero_ranked(g: GraphModel, h: Map<u32, nat>) -> bool {
    &&& forall|k: u32| #[trigger] g.contains_key(k) ==> h.contains_key(k) && h[k] < g.dom().len()
    &&& forall|u: u32, t: u32|
        #[trigger] has_edge(g, u, t) && weight(g, u, t) == 0 ==> h[t] < h[u]
}

/// The edges of weight 0 descend some rank of the nodes, so they form no cycle: on
/// such a cycle the relaxation would re-queue its nodes forever.
pub open spec fn zero_edges_ranked(g: GraphModel) -> bool {
    exists|h: Map<u32, nat>| zero_ranked(g, h)
}

/// `k` has a distance, that is, not the sentinel.
pub open spec fn reached(d: Map<u32, i32>, k: u32) -> bool {
    d.contains_key(k) && d[k] >= 0
}

/// The ids that have a distance.
pub open spec fn visited(d: Map<u32, i32>) -> Set<u32> {
    d.dom().filter(|k: u32| d[k] >= 0)
}

/// The edge `u -> t` gives no shorter distance to `t` than the one it has.
pub open spec fn relaxed(g: GraphModel, d: Map<u32, i32>, u: u32, t: u32) -> bool {
    reached(d, t) && d[t] <= d[u] + weight(g, u, t)
}

/// Each distance is the length of some walk from `src` or more, and small enough
/// that one more edge cannot overflow.
pub open spec fn distances_consistent(g: GraphModel, d: Map<u32, i32>, src: u32) -> bool {
    &&& d.dom() == g.dom()
    &&& forall|k: u32| #[trigger] d.contains_key(k) ==> d[k] >= -1
    &&& forall|k: u32|
        #[trigger] reached(d, k) ==> d[k] * g.dom().len() <= (visited(d).len() - 1) * i32::MAX
    &&& forall|v: u32|
        #[trigger] reached(d, v) && v != src ==> exists|u: u32|
            #[trigger] has_edge(g, u, v) && reached(d, u) && d[u] + weight(g, u, v) <= d[v]
}

/// No edge leaving a reached node can shorten a distance.
pub open spec fn settled(g: GraphModel, d: Map<u32, i32>) -> bool {
    forall|u: u32, t: u32| #[trigger] has_edge(g, u, t) && reached(d, u) ==> relaxed(g, d, u, t)
}

/// Distances exactly as a shortest-path search from `src` leaves them: `src` at 0,
/// every edge from a reached node relaxed, and every other reached node at the
/// distance of some reached predecessor plus the weight of the edge from it.
/// `lemma_distance_at_most_walk` and `lemma_distance_is_walk_weight` show what
/// this means for walks from `src`.
pub open spec fn shortest_distances(g: GraphModel, d: Map<u32, i32>, src: u32) -> bool {
    &&& d.dom() == g.dom()
    &&& d[src] == 0
    &&& forall|k: u32| #[trigger] d.contains_key(k) ==> d[k] >= -1
    &&& settled(g, d)
    &&& forall|v: u32|
        #[trigger] reached(d, v) && v != src ==> exists|u: u32|
            #[trigger] has_edge(g, u, v) && reached(d, u) && d[u] + weight(g, u, v) == d[v]
}

/// `p` is a walk of `g`: at least one node, and an edge between each two neighbors.
pub open spec fn is_walk(g: GraphModel, p: Seq<u32>) -> bool {
    &&& p.len() >= 1
    &&& forall|i: int| 0 <= i < p.len() - 1 ==> #[trigger] has_edge(g, p[i], p[i + 1])
}

/// Total weight of the edges of the walk `p`.
pub open spec fn walk_weight(g: GraphModel, p: Seq<u32>) -> int
    decreases p.len(),
{
    if p.len() <= 1 {
        0
    } else {
        walk_weight(g, p.drop_last()) + weight(g, p[p.len() - 2], p[p.len() - 1])
    }
}

/// Every walk from `src` ends at a node with a distance, and that distance is at
/// most the walk's total weight.
pub proof fn lemma_distance_at_most_walk(g: GraphModel, d: Map<u32, i32>, src: u32, p: Seq<u32>)
    requires
        g.contains_key(src),
        shortest_distances(g, d, src),
        is_walk(g, p),
        p[0] == src,
    ensures
        reached(d, p.last()),
        d[p.last()] <= walk_weight(g, p),
    decreases p.len(),
{
    if p.len() > 1 {
        let q = p.drop_last();
        assert(is_walk(g, q)) by {
            assert forall|i: int| 0 <= i < q.len() - 1 implies #[trigger] has_edge(g, q[i], q[i + 1]) by {
                assert(has_edge(g, p[i], p[i + 1]));
            }
        }
        lemma_distance_at_most_walk(g, d, src, q);
        let i = p.len() - 2;
        assert(has_edge(g, p[i], p[i + 1]));
        assert(q.last() == p[i]);
    }
}

/// When the edges of weight 0 descend a rank, every node with a distance is the end of a walk from
/// `src` whose total weight is exactly that distance; with the lemma above, each
/// distance is the least total weight of a walk from `src`, and -1 marks exactly
/// the nodes that no walk from `src` reaches.
pub proof fn lemma_distance_is_walk_weight(
    g: GraphModel,
    h: Map<u32, nat>,
    d: Map<u32, i32>,
    src: u32,
    v: u32,
)
    requires
        zero_ranked(g, h),
        shortest_distances(g, d, src),
        reached(d, v),
    ensures
        exists|p: Seq<u32>|
            is_walk(g, p) && p[0] == src && p.last() == v && walk_weight(g, p) == d[v],
    decreases d[v], g.dom().len() - h[v],
{
    if v == src {
        let p = seq![src];
        assert(is_walk(g, p) && p[0] == src && p.last() == v && walk_weight(g, p) == d[v]);
    } else {
        let u = choose|u: u32|
            #[trigger] has_edge(g, u, v) && reached(d, u) && d[u] + weight(g, u, v) == d[v];
        assert(d.dom() == g.dom());
        assert(g.contains_key(v) && g.contains_key(u));
        if weight(g, u, v) == 0 {
            assert(h[v] < h[u]);
        }
        lemma_distance_is_walk_weight(g, h, d, src, u);
        let q = choose|q: Seq<u32>|
            is_walk(g, q) && q[0] == src && q.last() == u && walk_weight(g, q) == d[u];
        let p = q.push(v);
        assert(p.drop_last() == q);
        assert(is_walk(g, p)) by {
            assert forall|i: int| 0 <= i < p.len() - 1 implies #[trigger] has_edge(g, p[i], p[i + 1]) by {
                if i < q.len() - 1 {
                    assert(has_edge(g, q[i], q[i + 1]));
                }
            }
        }
        assert(walk_weight(g, p) == d[v]);
        assert(p[0] == q[0]);
        assert(is_walk(g, p) && p[0] == src && p.last() == v && walk_weight(g, p) == d[v]);
    }
}

spec fn rank(x: i32) -> nat {
    if x < 0 {
        (i32::MAX + 1) as nat
    } else {
        x as nat
    }
}

/// Sum of the ranks of the distances of `ks`; every improvement lowers it.
spec fn distance_sum(ks: Seq<u32>, d: Map<u32, i32>) -> nat
    decreases ks.len(),
{
    if ks.len() == 0 {
        0
    } else {
        distance_sum(ks.drop_last(), d) + rank(d[ks.last()])
    }
}

/// Weight of a queue: an entry at distance `x` counts `base` to the power of
/// `i32::MAX - x`, so that one entry outweighs `base - 1` entries farther out.
spec fn queue_weight(q: Seq<u32>, d: Map<u32, i32>, h: Map<u32, nat>, n: nat, base: nat) -> nat
    decreases q.len(),
{
    if q.len() == 0 {
        0
    } else {
        queue_weight(q.drop_last(), d, h, n, base) + entry_weight(d[q.last()], h[q.last()], n, base)
    }
}

/// Exponent `(i32::MAX - x) * n + r`: a farther entry, or one at the same distance
/// and of lower rank, weighs less.
spec fn entry_weight(x: i32, r: nat, n: nat, base: nat) -> nat {
    let e = (i32::MAX - x) * n + r;
    if e < 0 {
        0
    } else {
        pow(base as int, e as nat) as nat
    }
}

proof fn lemma_distance_sum_update(ks: Seq<u32>, d: Map<u32, i32>, v: u32, x: i32)
    requires
        rank(x) < rank(d[v]),
    ensures
        ks.contains(v) ==> distance_sum(ks, d.insert(v, x)) < distance_sum(ks, d),
        !ks.contains(v) ==> distance_sum(ks, d.insert(v, x)) == distance_sum(ks, d),
    decreases ks.len(),
{
    if ks.len() > 0 {
        let pre = ks.drop_last();
        lemma_distance_sum_update(pre, d, v, x);
        if ks.last() != v && ks.contains(v) {
            let i = choose|i: int| 0 <= i < ks.len() && ks[i] == v;
            assert(pre[i] == v);
        }
        if !ks.contains(v) {
            assert(!pre.contains(v)) by {
                if pre.contains(v) {
                    let i = choose|i: int| 0 <= i < pre.len() && pre[i] == v;
                    assert(ks[i] == v);
                }
            }
        }
    }
}

proof fn lemma_queue_weight_front(q: Seq<u32>, d: Map<u32, i32>, h: Map<u32, nat>, n: nat, base: nat)
    requires
        q.len() > 0,
    ensures
        queue_weight(q, d, h, n, base) == entry_weight(d[q[0]], h[q[0]], n, base) + queue_weight(
            q.subrange(1, q.len() as int),
            d,
            h,
            n,
            base,
        ),
    decreases q.len(),
{
    if q.len() > 1 {
        let pre = q.drop_last();
        lemma_queue_weight_front(pre, d, h, n, base);
        assert(pre.subrange(1, pre.len() as int) == q.subrange(1, q.len() as int).drop_last());
    } else {
        assert(q.drop_last().len() == 0);
    }
}

proof fn lemma_visited_grows(d: Map<u32, i32>, t: u32, x: i32)
    requires
        d.dom().finite(),
        d.contains_key(t),
        d[t] < 0,
        x >= 0,
    ensures
        visited(d.insert(t, x)) == visited(d).insert(t),
        visited(d.insert(t, x)).len() == visited(d).len() + 1,
{
    assert(visited(d.insert(t, x)) =~= visited(d).insert(t));
    assert(!visited(d).contains(t));
    assert(visited(d).finite()) by {
        d.dom().lemma_len_filter(|k: u32| d[k] >= 0);
    }
}

impl BFS {
    /// The state that `bfs_loop` and `run` accept: a traversable graph whose edges of
    /// weight 0 form no cycle, the source among its nodes, consistent distances with
    /// no edge from a reached node left to relax, and an empty queue. `new` gives
    /// such a state, and a run leaves one.
    pub open spec fn ready(&self) -> bool {
        &&& self.graph.wf()
        &&& traversable(self.graph@)
        &&& zero_edges_ranked(self.graph@)
        &&& self.graph@.contains_key(self.source)
        &&& distances_consistent(self.graph@, self.runtime.distances@, self.source)
        &&& settled(self.graph@, self.runtime.distances@)
        &&& self.runtime.queue@.len() == 0
    }

    /// Runs the FIFO relaxation from `source`: an edge `u -> v` of weight `w` sets the
    /// distance of `v` to `d(u) + w` and queues `v` when `v` has no distance yet or
    /// one of at least `d(u) + w`.
    pub fn bfs_loop(&mut self, source: u32)
        requires
            old(self).ready(),
            source == old(self).source,
        ensures
            final(self).ready(),
            final(self).graph == old(self).graph,
            final(self).source == old(self).source,
            shortest_distances(final(self).graph@, final(self).runtime.distances@, source),
            exists|ks: Seq<u32>|
                lists_set(ks, final(self).graph@.dom()) && distances_logged(
                    old(self).runtime.log@,
                    final(self).runtime.log@,
                    source,
                    final(self).runtime.distances@,
                    ks,
                ),
    {
        let ghost g = self.graph@;
        let ghost n = g.dom().len();
        let ghost base: nat = n + 1;
        let ghost h = choose|h: Map<u32, nat>| zero_ranked(g, h);
        let ghost ks = g.dom().to_seq();
        proof {
            assert(g.dom() == self.graph.nodes@.dom());
            g.dom().lemma_to_seq_to_set_id();
            assert(g.contains_key(source));
            assert(n >= 1) by {
                vstd::set_lib::lemma_len_subset(set![source], g.dom());
            }
        }
        let ghost d_start = self.runtime.distances@;
        self.runtime.queue.push_front(source);
        self.runtime.distances.insert(source, 0);
        self.runtime.active_node = source;
        proof {
            let d = self.runtime.distances@;
            if d_start[source] < 0 {
                lemma_visited_grows(d_start, source, 0);
            } else {
                assert(visited(d) =~= visited(d_start));
            }
            assert(visited(d).contains(source));
            d.dom().lemma_len_filter(|k: u32| d[k] >= 0);
            d_start.dom().lemma_len_filter(|k: u32| d_start[k] >= 0);
            vstd::set_lib::lemma_len_subset(set![source], visited(d));
            assert(visited(d).len() >= 1);
            assert(visited(d_start).len() <= visited(d).len());
            assert forall|v: u32| #[trigger] reached(d, v) && v != source implies exists|u: u32|
                #[trigger] has_edge(g, u, v) && reached(d, u) && d[u] + weight(g, u, v) <= d[v] by {
                assert(reached(d_start, v));
                let u = choose|u: u32|
                    #[trigger] has_edge(g, u, v) && reached(d_start, u) && d_start[u] + weight(g, u, v)
                        <= d_start[v];
                assert(reached(d, u));
            }
            assert forall|k: u32| #[trigger] reached(d, k) implies d[k] * g.dom().len() <= (visited(
                d,
            ).len() - 1) * i32::MAX by {
                if k == source {
                    assert(0 <= (visited(d).len() - 1) * i32::MAX) by (nonlinear_arith)
                        requires
                            visited(d).len() >= 1,
                    ;
                } else {
                    assert(reached(d_start, k));
                    assert(d[k] == d_start[k]);
                    assert(d_start[k] * n <= (visited(d_start).len() - 1) * i32::MAX);
                    assert((visited(d_start).len() - 1) * i32::MAX <= (visited(d).len() - 1)
                        * i32::MAX) by (nonlinear_arith)
                        requires
                            visited(d_start).len() <= visited(d).len(),
                    ;
                }
            }
            assert(self.runtime.queue@ == seq![source]);
            assert(d.dom() =~= g.dom());
            assert(forall|k: u32| #[trigger] d.contains_key(k) ==> d[k] >= -1);
            assert(distances_consistent(g, d, source));
        }
        while self.runtime.queue.len() > 0
            invariant
                self.graph == old(self).graph,
                self.graph@ == g,
                self.graph.wf(),
                traversable(g),
                zero_ranked(g, h),
                g.contains_key(source),
                n == g.dom().len(),
                n >= 1,
                base == n + 1,
                ks.to_set() == g.dom(),
                self.source == source,
                self.runtime.log == old(self).runtime.log,
                distances_consistent(g, self.runtime.distances@, source),
                self.runtime.distances@[source] == 0,
                forall|i: int|
                    0 <= i < self.runtime.queue@.len() ==> #[trigger] reached(
                        self.runtime.distances@,
                        self.runtime.queue@[i],
                    ),
                forall|u: u32, t: u32| #[trigger]
                    has_edge(g, u, t) && reached(self.runtime.distances@, u)
                        ==> self.runtime.queue@.contains(u) || relaxed(
                        g,
                        self.runtime.distances@,
                        u,
                        t,
                    ),
            decreases
                distance_sum(ks, self.runtime.distances@),
                queue_weight(self.runtime.queue@, self.runtime.distances@, h, n, base),
        {
            let ghost q0 = self.runtime.queue@;
            let ghost d0 = self.runtime.distances@;
            let u = self.runtime.queue.pop_front().unwrap();
            let ghost q1 = self.runtime.queue@;
            proof {
                assert(u == q0[0]);
                assert(reached(d0, q0[0]));
                lemma_queue_weight_front(q0, d0, h, n, base);
            }
            self.runtime.active_node = u;
            let du: i32 = *self.runtime.distances.get(&u).unwrap();
            let ghost e: nat = ((i32::MAX - du) * n + h[u]) as nat;
            proof {
                assert(du <= i32::MAX);
                assert((i32::MAX - du) * n >= 0) by (nonlinear_arith)
                    requires
                        du <= i32::MAX,
                ;
            }
            let nbrs = self.graph.nodes.get(&u).unwrap().neighbor_ids();
            proof {
                assert(self.graph.nodes@[u]@ == g[u]);
                nbrs@.unique_seq_to_set();
                assert(g[u].dom().subset_of(g.dom()));
                vstd::set_lib::lemma_len_subset(g[u].dom(), g.dom());
            }
            let ghost mut changed = false;
            let ghost mut pushes: nat = 0;
            let mut j: usize = 0;
            while j < nbrs.len()
                invariant
                    self.graph == old(self).graph,
                    self.graph@ == g,
                    self.graph.wf(),
                    traversable(g),
                    zero_ranked(g, h),
                    g.contains_key(source),
                    g.contains_key(u),
                    n == g.dom().len(),
                    n >= 1,
                    base == n + 1,
                    ks.to_set() == g.dom(),
                    self.source == source,
                    self.runtime.log == old(self).runtime.log,
                    nbrs@.to_set() == g[u].dom(),
                    nbrs.len() <= n,
                    j <= nbrs.len(),
                    distances_consistent(g, self.runtime.distances@, source),
                    self.runtime.distances@[source] == 0,
                    self.runtime.distances@[u] == du,
                    du >= 0,
                    e == (i32::MAX - du) * n + h[u],
                    forall|i: int|
                        0 <= i < self.runtime.queue@.len() ==> #[trigger] reached(
                            self.runtime.distances@,
                            self.runtime.queue@[i],
                        ),
                    forall|x: u32, t: u32| #[trigger]
                        has_edge(g, x, t) && reached(self.runtime.distances@, x)
                            ==> self.runtime.queue@.contains(x) || (x == u && !nbrs@.subrange(
                            0,
                            j as int,
                        ).contains(t)) || relaxed(g, self.runtime.distances@, x, t),
                    !changed ==> self.runtime.distances@ == d0,
                    changed ==> distance_sum(ks, self.runtime.distances@) < distance_sum(ks, d0),
                    pushes <= j,
                    pushes > 0 ==> e >= 1,
                    !changed ==> queue_weight(self.runtime.queue@, d0, h, n, base) <= queue_weight(
                        q1,
                        d0,
                        h,
                        n,
                        base,
                    ) + pushes * pow(base as int, (e - 1) as nat),
                decreases nbrs.len() - j,
            {
                let t = nbrs[j];
                proof {
                    assert(nbrs@.to_set().contains(t));
                    assert(has_edge(g, u, t));
                    assert(g.contains_key(t));
                    assert(self.graph.nodes@[u]@ == g[u]);
                    assert(self.graph.nodes@[u].wf());
                }
                let w: u32 = self.graph.nodes.get(&u).unwrap().runtime.edges.get(&t).unwrap().runtime.weight;
                let dt: i32 = *self.runtime.distances.get(&t).unwrap();
                let ghost d1 = self.runtime.distances@;
                proof {
                    assert(w == weight(g, u, t));
                    let vis = visited(d1);
                    d1.dom().lemma_len_filter(|k: u32| d1[k] >= 0);
                    vstd::set_lib::lemma_len_subset(vis, d1.dom());
                    assert(reached(d1, u));
                    let c = vis.len() as int;
                    assert(du * n <= (c - 1) * i32::MAX);
                    assert(n * w <= i32::MAX);
                    assert(c <= n);
                    assert((du + w) * n <= n * i32::MAX) by (nonlinear_arith)
                        requires
                            du * n <= (c - 1) * i32::MAX,
                            n * w <= i32::MAX,
                            c <= n,
                    ;
                    assert(du + w <= i32::MAX) by (nonlinear_arith)
                        requires
                            (du + w) * n <= n * i32::MAX,
                            n >= 1,
                    ;
                }
                let cand: i32 = w as i32 + du;
                if dt == -1 || dt >= cand {
                    let ghost qb = self.runtime.queue@;
                    self.runtime.distances.insert(t, cand);
                    self.runtime.queue.push_back(t);
                    proof {
                        let d2 = self.runtime.distances@;
                        let qn = self.runtime.queue@;
                        assert(qn.drop_last() == qb);
                        assert(qn.last() == t);
                        assert(t != u) by {
                            if t == u {
                                if w == 0 {
                                    assert(h[t] < h[u]);
                                }
                            }
                        }
                        if t == source {
                            assert(cand == 0);
                        }
                        if dt == -1 {
                            lemma_visited_grows(d1, t, cand);
                        } else {
                            assert(visited(d2) =~= visited(d1));
                        }
                        assert forall|k: u32| #[trigger] reached(d2, k) implies d2[k] * n <= (
                        visited(d2).len() - 1) * i32::MAX by {
                            let c1 = visited(d1).len() as int;
                            let c2 = visited(d2).len() as int;
                            if k == t {
                                if dt == -1 {
                                    assert(du * n <= (c1 - 1) * i32::MAX);
                                    assert(cand * n <= (c2 - 1) * i32::MAX) by (nonlinear_arith)
                                        requires
                                            du * n <= (c1 - 1) * i32::MAX,
                                            n * w <= i32::MAX,
                                            c2 == c1 + 1,
                                            cand == du + w,
                                    ;
                                } else {
                                    assert(reached(d1, t));
                                    assert(dt * n <= (c1 - 1) * i32::MAX);
                                    assert(cand * n <= dt * n) by (nonlinear_arith)
                                        requires
                                            cand <= dt,
                                            n >= 1,
                                    ;
                                }
                            } else {
                                assert(reached(d1, k));
                                assert((c1 - 1) * i32::MAX <= (c2 - 1) * i32::MAX) by (
                                nonlinear_arith)
                                    requires
                                        c1 <= c2,
                                ;
                            }
                        }
                        assert forall|v: u32| #[trigger] reached(d2, v) && v != source implies exists|
                            x: u32,
                        | #[trigger] has_edge(g, x, v) && reached(d2, x) && d2[x] + weight(g, x, v)
                            <= d2[v] by {
                            if v == t {
                                assert(has_edge(g, u, t) && reached(d2, u));
                            } else {
                                assert(reached(d1, v));
                                let x = choose|x: u32|
                                    #[trigger] has_edge(g, x, v) && reached(d1, x) && d1[x] + weight(
                                        g,
                                        x,
                                        v,
                                    ) <= d1[v];
                                assert(reached(d2, x));
                            }
                        }
                        assert forall|x: u32, y: u32| #[trigger]
                            has_edge(g, x, y) && reached(d2, x) implies self.runtime.queue@.contains(
                            x,
                        ) || (x == u && !nbrs@.subrange(0, j + 1).contains(y)) || relaxed(
                            g,
                            d2,
                            x,
                            y,
                        ) by {
                            if x == t {
                                assert(self.runtime.queue@.last() == t);
                            } else {
                                assert(reached(d1, x));
                                if qb.contains(x) {
                                    let i = choose|i: int| 0 <= i < qb.len() && #[trigger] qb[i] == x;
                                    assert(qn[i] == x);
                                } else if x == u && !nbrs@.subrange(0, j as int).contains(y) {
                                    if y == t {
                                        assert(relaxed(g, d2, x, y));
                                    } else {
                                        assert(!nbrs@.subrange(0, j + 1).contains(y)) by {
                                            if nbrs@.subrange(0, j + 1).contains(y) {
                                                let i = choose|i: int|
                                                    0 <= i < j + 1 && #[trigger] nbrs@.subrange(0, j + 1)[i]
                                                        == y;
                                                assert(nbrs@.subrange(0, j as int)[i] == y);
                                            }
                                        }
                                    }
                                } else {
                                    assert(relaxed(g, d1, x, y));
                                }
                            }
                        }
                        assert forall|i: int| 0 <= i < self.runtime.queue@.len() implies #[trigger] reached(
                            d2,
                            self.runtime.queue@[i],
                        ) by {
                            if i < qb.len() {
                                assert(qn[i] == qb[i]);
                                assert(reached(d1, qb[i]));
                            }
                        }
                        assert(d2.dom() =~= g.dom());
                        assert(forall|k: u32| #[trigger] d2.contains_key(k) ==> d2[k] >= -1);
                        assert(distances_consistent(g, d2, source));
                        if dt == -1 || dt > cand {
                            assert(rank(cand) < rank(d1[t]));
                            assert(ks.to_set().contains(t));
                            lemma_distance_sum_update(ks, d1, t, cand);
                            changed = true;
                        } else {
                            assert(d2 =~= d1);
                            if !changed {
                                assert(g.contains_key(t));
                                assert(h[t] < n && h[u] < n);
                                let et = ((i32::MAX - cand) * n + h[t]) as nat;
                                assert((i32::MAX - cand) * n >= 0) by (nonlinear_arith)
                                    requires
                                        cand <= i32::MAX,
                                ;
                                if w == 0 {
                                    assert(h[t] < h[u]);
                                } else {
                                    assert((i32::MAX - cand) * n + n <= (i32::MAX - du) * n)
                                        by (nonlinear_arith)
                                        requires
                                            cand >= du + 1,
                                    ;
                                }
                                assert(et + 1 <= e);
                                let p = pow(base as int, (e - 1) as nat);
                                lemma_pow_increases(base, et, (e - 1) as nat);
                                assert(d0[t] == cand);
                                lemma_pow_positive(base as int, et);
                                assert(entry_weight(d0[t], h[t], n, base) == pow(base as int, et));
                                assert(queue_weight(qn, d0, h, n, base) == queue_weight(qb, d0, h, n, base)
                                    + entry_weight(d0[t], h[t], n, base));
                                assert((pushes + 1) * p == pushes * p + p) by (nonlinear_arith);
                                pushes = pushes + 1;
                            }
                        }
                    }
                } else {
                    proof {
                        assert(relaxed(g, d1, u, t));
                        assert forall|x: u32, y: u32| #[trigger]
                            has_edge(g, x, y) && reached(d1, x) implies self.runtime.queue@.contains(
                            x,
                        ) || (x == u && !nbrs@.subrange(0, j + 1).contains(y)) || relaxed(
                            g,
                            d1,
                            x,
                            y,
                        ) by {
                            if x == u && !nbrs@.subrange(0, j as int).contains(y) && y != t {
                                if nbrs@.subrange(0, j + 1).contains(y) {
                                    let i = choose|i: int|
                                        0 <= i < j + 1 && #[trigger] nbrs@.subrange(0, j + 1)[i] == y;
                                    assert(nbrs@.subrange(0, j as int)[i] == y);
                                }
                            }
                        }
                    }
                }
                j = j + 1;
            }
            proof {
                let d = self.runtime.distances@;
                assert(nbrs@.subrange(0, nbrs@.len() as int) == nbrs@);
                assert forall|x: u32, y: u32| #[trigger]
                    has_edge(g, x, y) && reached(d, x) implies self.runtime.queue@.contains(x)
                    || relaxed(g, d, x, y) by {
                    if x == u && !self.runtime.queue@.contains(x) && !relaxed(g, d, x, y) {
                        assert(nbrs@.to_set().contains(y));
                    }
                }
                if !changed {
                    lemma_pow_positive(base as int, e);
                    if pushes > 0 {
                        lemma_pow_positive(base as int, (e - 1) as nat);
                        vstd::arithmetic::power::lemma_pow_adds(base as int, 1, (e - 1) as nat);
                        vstd::arithmetic::power::lemma_pow1(base as int);
                        assert(pow(base as int, e) == base * pow(base as int, (e - 1) as nat));
                        assert(pushes * pow(base as int, (e - 1) as nat) < pow(base as int, e))
                            by (nonlinear_arith)
                            requires
                                pushes <= n,
                                base == n + 1,
                                pow(base as int, e) == base * pow(base as int, (e - 1) as nat),
                                pow(base as int, (e - 1) as nat) > 0,
                        {
                        }
                    }
                    assert(entry_weight(d0[u], h[u], n, base) == pow(base as int, e));
                }
            }
        }
        proof {
            let d = self.runtime.distances@;
            assert forall|v: u32| #[trigger] reached(d, v) && v != source implies exists|u: u32|
                #[trigger] has_edge(g, u, v) && reached(d, u) && d[u] + weight(g, u, v) == d[v] by {
                let u = choose|u: u32|
                    #[trigger] has_edge(g, u, v) && reached(d, u) && d[u] + weight(g, u, v) <= d[v];
                assert(relaxed(g, d, u, v));
            }
            assert(settled(g, d));
        }
        log_distances(&mut self.runtime.log, source, &self.runtime.distances);
    }
}

/// Whether every weight is at least 1 and a path through every node fits in an `i32`.
fn weights_fit(g: &Graph) -> (r: bool)
    requires
        g.wf(),
    ensures
        r == (forall|u: u32, t: u32|
            #[trigger] has_edge(g@, u, t) ==> g@.dom().len() * weight(
                g@,
                u,
                t,
            ) <= i32::MAX),
{
    let n: usize = g.nodes.len();
    assert(g@.dom() =~= g.nodes@.dom());
    let ids = g.node_ids();
    let mut i: usize = 0;
    while i < ids.len()
        invariant
            g.wf(),
            n == g@.dom().len(),
            lists_set(ids@, g@.dom()),
            i <= ids.len(),
            forall|u: u32, t: u32|
                ids@.subrange(0, i as int).contains(u) && #[trigger] has_edge(g@, u, t) ==> n * weight(g@, u, t) <= i32::MAX,
        decreases ids.len() - i,
    {
        let u = ids[i];
        proof {
            assert(ids@.to_set().contains(u));
        }
        let node = g.nodes.get(&u).unwrap();
        let ts = node.neighbor_ids();
        let mut j: usize = 0;
        while j < ts.len()
            invariant
                g.wf(),
                n == g@.dom().len(),
                lists_set(ids@, g@.dom()),
                i < ids.len(),
                u == ids@[i as int],
                g@.contains_key(u),
                node@ == g@[u],
                ts@.to_set() == node@.dom(),
                j <= ts.len(),
                forall|x: u32, t: u32|
                    ids@.subrange(0, i as int).contains(x) && #[trigger] has_edge(g@, x, t) ==> n * weight(g@, x, t) <= i32::MAX,
                forall|k: int|
                    0 <= k < j ==> n * weight(g@, u, #[trigger] ts@[k]) <= i32::MAX,
            decreases ts.len() - j,
        {
            let t = ts[j];
            proof {
                assert(ts@.to_set().contains(t));
            }
            let w: u32 = node.runtime.edges.get(&t).unwrap().runtime.weight;
            let too_heavy: bool = if n > i32::MAX as usize {
                w > 0
            } else {
                assert((n as u64) * (w as u64) <= u64::MAX) by (nonlinear_arith)
                    requires
                        n <= i32::MAX,
                        w <= u32::MAX,
                ;
                (n as u64) * (w as u64) > i32::MAX as u64
            };
            if too_heavy {
                proof {
                    assert(has_edge(g@, u, t));
                    if n > i32::MAX {
                        assert(n * w > i32::MAX) by (nonlinear_arith)
                            requires
                                n > i32::MAX,
                                w >= 1,
                        ;
                    }
                }
                return false;
            }
            proof {
                if n > i32::MAX {
                    assert(w == 0);
                    assert(n * w == 0) by (nonlinear_arith)
                        requires
                            w == 0,
                    ;
                }
            }
            j = j + 1;
        }
        proof {
            assert forall|x: u32, t: u32|
                ids@.subrange(0, i + 1).contains(x) && #[trigger] has_edge(g@, x, t) implies n
                    * weight(g@, x, t) <= i32::MAX by {
                let k = choose|k: int| 0 <= k < i + 1 && #[trigger] ids@.subrange(0, i + 1)[k] == x;
                if k < i {
                    assert(ids@.subrange(0, i as int)[k] == x);
                } else {
                    assert(ts@.to_set().contains(t));
                    let m = choose|m: int| 0 <= m < ts@.len() && #[trigger] ts@[m] == t;
                }
            }
        }
        i = i + 1;
    }
    proof {
        assert(ids@.subrange(0, ids@.len() as int) == ids@);
        assert forall|u: u32, t: u32| #[trigger] has_edge(g@, u, t) implies n * weight(
            g@,
            u,
            t,
        ) <= i32::MAX by {
            assert(ids@.to_set().contains(u));
        }
    }
    true
}

impl BFS {
    /// A traversal of `graph` from `source`, every distance at the sentinel -1.
    /// None when `source` is not a node of `graph`, or when the graph is not
    /// traversable: an edge targets a missing node, or is heavy enough that a path
    /// through every node could overflow an `i32`. Edges of weight 0 are accepted;
    /// the traversal is ready to run when they form no cycle.
    pub fn new(graph: Graph, source: u32) -> (r: Option<BFS>)
        requires
            graph.wf(),
        ensures
            r is None <==> !(graph@.contains_key(source) && traversable(graph@)),
            r matches Some(b) ==> {
                &&& (b.ready() <==> zero_edges_ranked(graph@))
                &&& b.graph == graph
                &&& b.source == source
                &&& b.runtime.active_node == NO_ACTIVE_NODE
                &&& b.runtime.log@.len() == 0
                &&& b.runtime.distances@ == Map::new(|k: u32| graph@.contains_key(k), |k: u32| -1i32)
            },
    {
        if !graph.nodes.contains_key(&source) {
            return None;
        }
        if !graph.is_closed() || !weights_fit(&graph) {
            return None;
        }
        let ids = graph.node_ids();
        let mut distances: HashMap<u32, i32> = HashMap::new();
        let mut i: usize = 0;
        while i < ids.len()
            invariant
                i <= ids.len(),
                distances@ == Map::new(|k: u32| ids@.subrange(0, i as int).contains(k), |k: u32| -1i32),
            decreases ids.len() - i,
        {
            distances.insert(ids[i], -1);
            proof {
                assert(ids@.subrange(0, i + 1) == ids@.subrange(0, i as int).push(ids@[i as int]));
                assert(distances@ =~= Map::new(
                    |k: u32| ids@.subrange(0, i + 1).contains(k),
                    |k: u32| -1i32,
                ));
            }
            i = i + 1;
        }
        proof {
            assert(ids@.subrange(0, ids@.len() as int) == ids@);
            assert(distances@ =~= Map::new(|k: u32| graph@.contains_key(k), |k: u32| -1i32)) by {
                assert forall|k: u32| ids@.contains(k) <==> graph@.contains_key(k) by {
                    assert(ids@.contains(k) <==> ids@.to_set().contains(k));
                }
            }
            assert(visited(distances@) =~= Set::empty());
        }
        Some(BFS {
            graph,
            runtime: Runtime {
                active_node: NO_ACTIVE_NODE,
                distances,
                queue: VecDeque::new(),
                log: Vec::new(),
            },
            source,
        })
    }
}

impl Algorithm<Runtime> for BFS {
    open spec fn inv(&self) -> bool {
        self.ready()
    }

    open spec fn finished(&self) -> bool {
        shortest_distances(self.graph@, self.runtime.distances@, self.source)
    }

    open spec fn exported(&self, s: Snapshot<Runtime>) -> bool {
        &&& s.data.active_node == self.runtime.active_node
        &&& s.data.distances@ == self.runtime.distances@
        &&& s.data.queue@ == self.runtime.queue@
        &&& s.data.log@ == self.runtime.log@
        &&& lists_set(s.graph.nodes@, self.graph@.dom())
        &&& lists_set(s.graph.edges@, all_edge_snapshots(self.graph@))
    }

    /// Logs the graph's nodes and neighbor lists, then runs the relaxation from the
    /// source given at construction and logs the distances.
    fn run(&mut self)
        ensures
            final(self).graph == old(self).graph,
            final(self).source == old(self).source,
            shortest_distances(final(self).graph@, final(self).runtime.distances@, old(self).source),
            exists|ks1: Seq<u32>, ks2: Seq<u32>, mid: Seq<String>|
                lists_set(ks1, old(self).graph@.dom()) && described(
                    old(self).runtime.log@,
                    mid,
                    old(self).graph@,
                    ks1,
                ) && lists_set(ks2, old(self).graph@.dom()) && distances_logged(
                    mid,
                    final(self).runtime.log@,
                    old(self).source,
                    final(self).runtime.distances@,
                    ks2,
                ),
    {
        describe_graph(&mut self.runtime.log, &self.graph);
        let ghost mid = self.runtime.log@;
        let source = self.source;
        self.bfs_loop(source);
        proof {
            let ks1 = choose|ks1: Seq<u32>|
                lists_set(ks1, old(self).graph@.dom()) && described(
                    old(self).runtime.log@,
                    mid,
                    old(self).graph@,
                    ks1,
                );
            let ks2 = choose|ks2: Seq<u32>|
                lists_set(ks2, old(self).graph@.dom()) && distances_logged(
                    mid,
                    self.runtime.log@,
                    source,
                    self.runtime.distances@,
                    ks2,
                );
        }
    }

    fn get_snapshot(&self) -> (r: Snapshot<Runtime>) {
        let graph: GraphSnapshot = self.graph.to_snapshot().unwrap();
        let data = Runtime {
            active_node: self.runtime.active_node,
            distances: self.runtime.distances.clone(),
            queue: self.runtime.queue.clone(),
            log: self.runtime.log.clone(),
        };
        Snapshot { data, graph }
    }
}

} // verus!
