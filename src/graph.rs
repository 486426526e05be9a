use vstd::prelude::*;
use std::collections::{HashMap, HashSet};
use std::hash::Hash;
use vstd::std_specs::hash::obeys_key_model;
use vstd::std_specs::iter::IteratorSpec;
use crate::edge::{Edge, EdgeSnapshot};
use crate::node::{Node, NodeSnapshot, edge_snapshots};
use crate::keys::key_list;

verus! {

broadcast use {vstd::std_specs::hash::group_hash_axioms, vstd::seq_lib::group_seq_properties};

/// Node ids and edges of a graph, each listed once, in no particular order.
#[derive(PartialEq, Debug, Clone)]
pub struct GraphSnapshot {
    pub nodes: Vec<u32>,
    pub edges: Vec<EdgeSnapshot>,
}

/// Both endpoints of every edge in `edges` are among `nodes`.
pub open spec fn endpoints_declared(nodes: Seq<u32>, edges: Seq<EdgeSnapshot>) -> bool {
    forall|i: int|
        0 <= i < edges.len() ==> nodes.contains(#[trigger] edges[i].node_start) && nodes.contains(
            edges[i].node_end,
        )
}

/// `r` lists exactly the members of `s`, each once.
pub open spec fn lists_set<T>(r: Seq<T>, s: Set<T>) -> bool {
    r.no_duplicates() && r.to_set() == s
}

impl Default for GraphSnapshot {
    fn default() -> (r: GraphSnapshot)
        ensures
            r.nodes@ == Seq::<u32>::empty(),
            r.edges@ == Seq::<EdgeSnapshot>::empty(),
    {
        GraphSnapshot { nodes: Vec::new(), edges: Vec::new() }
    }
}

fn contains_edge(v: &Vec<EdgeSnapshot>, e: EdgeSnapshot) -> (r: bool)
    ensures
        r == v@.contains(e),
{
    let mut i: usize = 0;
    while i < v.len()
        invariant
            i <= v.len(),
            forall|j: int| 0 <= j < i ==> v@[j] != e,
        decreases v.len() - i,
    {
        if v[i] == e {
            return true;
        }
        i = i + 1;
    }
    false
}

fn dedup_edges(v: &Vec<EdgeSnapshot>) -> (r: Vec<EdgeSnapshot>)
    ensures
        lists_set(r@, v@.to_set()),
{
    let mut r: Vec<EdgeSnapshot> = Vec::new();
    let mut i: usize = 0;
    assert(r@.to_set() =~= v@.subrange(0, 0).to_set());
    while i < v.len()
        invariant
            i <= v.len(),
            lists_set(r@, v@.subrange(0, i as int).to_set()),
        decreases v.len() - i,
    {
        let e = v[i];
        proof {
            assert(v@.subrange(0, i + 1) == v@.subrange(0, i as int).push(e));
            v@.subrange(0, i as int).lemma_push_to_set_commute(e);
            r@.lemma_push_to_set_commute(e);
        }
        if !contains_edge(&r, e) {
            r.push(e);
        } else {
            assert(r@.to_set().contains(e));
            assert(r@.to_set().insert(e) =~= r@.to_set());
        }
        i = i + 1;
    }
    proof {
        assert(v@.subrange(0, v@.len() as int) == v@);
    }
    r
}

impl GraphSnapshot {
    /// The set of the items of `lst`.
    pub fn vector_to_set<T>(lst: Vec<T>) -> (r: HashSet<T>) where T: Eq + Hash + Copy
        requires
            obeys_key_model::<T>(),
        ensures
            r@ == lst@.to_set(),
    {
        let mut set: HashSet<T> = HashSet::new();
        let mut i: usize = 0;
        assert(set@ =~= lst@.subrange(0, 0).to_set());
        while i < lst.len()
            invariant
                i <= lst.len(),
                obeys_key_model::<T>(),
                set@ == lst@.subrange(0, i as int).to_set(),
            decreases lst.len() - i,
        {
            let x: T = lst[i];
            set.insert(x);
            proof {
                assert(lst@.subrange(0, i + 1) == lst@.subrange(0, i as int).push(x));
                lst@.subrange(0, i as int).lemma_push_to_set_commute(x);
            }
            i = i + 1;
        }
        proof {
            assert(lst@.subrange(0, lst@.len() as int) == lst@);
        }
        set
    }

    /// The members of `set`, each once, in the set's iteration order.
    pub fn set_to_vector<T>(set: HashSet<T>) -> (r: Vec<T>) where T: Eq + Hash + Copy
        requires
            obeys_key_model::<T>(),
        ensures
            lists_set(r@, set@),
    {
        let mut r: Vec<T> = Vec::new();
        let keys = set.iter();
        let ghost ks = keys.remaining().unref();
        proof {
            assert(ks.to_set() == set@);
        }
        for k in it: keys
            invariant
                r@ == it.seq().unref().subrange(0, it.index() as int),
                it.seq().unref() == ks,
                lists_set(ks, set@),
        {
            r.push(*k);
        }
        assert(r@ =~= ks);
        r
    }
}

impl GraphSnapshot {
    /// Checks that every edge endpoint is a declared node, then lists each node id
    /// and each distinct edge once.
    pub fn validate_and_reduce(graph_snapshot: GraphSnapshot) -> (r: Result<GraphSnapshot, String>)
        ensures
            r is Err <==> !endpoints_declared(graph_snapshot.nodes@, graph_snapshot.edges@),
            r matches Ok(s) ==> lists_set(s.nodes@, graph_snapshot.nodes@.to_set()) && lists_set(
                s.edges@,
                graph_snapshot.edges@.to_set(),
            ),
    {
        let nodes_set = GraphSnapshot::vector_to_set(graph_snapshot.nodes.clone());
        let edges = &graph_snapshot.edges;
        let mut i: usize = 0;
        while i < edges.len()
            invariant
                i <= edges.len(),
                edges@ == graph_snapshot.edges@,
                nodes_set@ == graph_snapshot.nodes@.to_set(),
                endpoints_declared(graph_snapshot.nodes@, edges@.subrange(0, i as int)),
            decreases edges.len() - i,
        {
            let e = edges[i];
            if !nodes_set.contains(&e.node_start) || !nodes_set.contains(&e.node_end) {
                proof {
                    assert(graph_snapshot.edges@[i as int] == e);
                }
                return Err("an edge references a node id that is not declared".to_owned());
            }
            proof {
                let sub = edges@.subrange(0, i + 1);
                assert forall|j: int| 0 <= j < sub.len() implies graph_snapshot.nodes@.contains(
                    #[trigger] sub[j].node_start,
                ) && graph_snapshot.nodes@.contains(sub[j].node_end) by {
                    if j < i {
                        assert(sub[j] == edges@.subrange(0, i as int)[j]);
                    } else {
                        assert(sub[j] == e);
                        assert(graph_snapshot.nodes@.to_set().contains(e.node_start));
                        assert(graph_snapshot.nodes@.to_set().contains(e.node_end));
                    }
                }
                assert(endpoints_declared(graph_snapshot.nodes@, sub));
            }
            i = i + 1;
        }
        proof {
            assert(edges@.subrange(0, edges@.len() as int) == edges@);
        }
        let edges_unique = dedup_edges(edges);
        Ok(GraphSnapshot { nodes: GraphSnapshot::set_to_vector(nodes_set), edges: edges_unique })
    }

    /// Merges the fragments of several nodes, then validates and reduces the result.
    pub fn from_node_snapshots(lst_nodes: Vec<NodeSnapshot>) -> (r: Result<GraphSnapshot, String>)
        ensures
            r is Err <==> !endpoints_declared(merged_nodes(lst_nodes@), merged_edges(lst_nodes@)),
            r is Err <==> !fragments_closed(lst_nodes@),
            r matches Ok(s) ==> lists_set(s.nodes@, merged_nodes(lst_nodes@).to_set()) && lists_set(
                s.edges@,
                merged_edges(lst_nodes@).to_set(),
            ),
    {
        let mut nodes: Vec<u32> = Vec::new();
        let mut edges: Vec<EdgeSnapshot> = Vec::new();
        let mut i: usize = 0;
        while i < lst_nodes.len()
            invariant
                i <= lst_nodes.len(),
                nodes@ == merged_nodes(lst_nodes@.subrange(0, i as int)),
                edges@ == merged_edges(lst_nodes@.subrange(0, i as int)),
            decreases lst_nodes.len() - i,
        {
            let mut part_nodes = lst_nodes[i].nodes.clone();
            let mut part_edges = lst_nodes[i].edges.clone();
            nodes.append(&mut part_nodes);
            edges.append(&mut part_edges);
            proof {
                let pre = lst_nodes@.subrange(0, i as int);
                assert(lst_nodes@.subrange(0, i + 1).drop_last() == pre);
            }
            i = i + 1;
        }
        proof {
            assert(lst_nodes@.subrange(0, lst_nodes@.len() as int) == lst_nodes@);
        }
        proof {
            let parts = lst_nodes@;
            let mn = merged_nodes(parts);
            let me = merged_edges(parts);
            lemma_merged_members(parts);
            if endpoints_declared(mn, me) {
                assert forall|e: EdgeSnapshot| #[trigger] carried_by(parts, e) implies declared_by(
                    parts,
                    e.node_start,
                ) && declared_by(parts, e.node_end) by {
                    assert(me.contains(e));
                    let i = choose|i: int| 0 <= i < me.len() && me[i] == e;
                    assert(mn.contains(me[i].node_start));
                }
            } else {
                let i = choose|i: int|
                    !(0 <= i < me.len() ==> mn.contains(#[trigger] me[i].node_start) && mn.contains(
                        me[i].node_end,
                    ));
                assert(me.contains(me[i]));
                assert(carried_by(parts, me[i]));
                assert(!fragments_closed(parts));
            }
        }
        GraphSnapshot::validate_and_reduce(GraphSnapshot { nodes, edges })
    }
}

/// Some fragment declares node `x`.
pub open spec fn declared_by(parts: Seq<NodeSnapshot>, x: u32) -> bool {
    exists|j: int| 0 <= j < parts.len() && #[trigger] parts[j].nodes@.contains(x)
}

/// Some fragment carries edge `e`.
pub open spec fn carried_by(parts: Seq<NodeSnapshot>, e: EdgeSnapshot) -> bool {
    exists|j: int| 0 <= j < parts.len() && #[trigger] parts[j].edges@.contains(e)
}

/// Both endpoints of every edge of every fragment are declared by some fragment.
pub open spec fn fragments_closed(parts: Seq<NodeSnapshot>) -> bool {
    forall|e: EdgeSnapshot|
        #[trigger] carried_by(parts, e) ==> declared_by(parts, e.node_start) && declared_by(
            parts,
            e.node_end,
        )
}

/// The merged lists hold exactly what the fragments hold.
pub proof fn lemma_merged_members(parts: Seq<NodeSnapshot>)
    ensures
        forall|x: u32| #[trigger] merged_nodes(parts).contains(x) <==> declared_by(parts, x),
        forall|e: EdgeSnapshot| #[trigger] merged_edges(parts).contains(e) <==> carried_by(parts, e),
    decreases parts.len(),
{
    if parts.len() > 0 {
        let pre = parts.drop_last();
        let last = parts.last();
        lemma_merged_members(pre);
        assert forall|x: u32| #[trigger] merged_nodes(parts).contains(x) <==> declared_by(parts, x) by {
            assert(merged_nodes(parts) == merged_nodes(pre) + last.nodes@);
            if declared_by(pre, x) {
                let j = choose|j: int| 0 <= j < pre.len() && #[trigger] pre[j].nodes@.contains(x);
                assert(parts[j] == pre[j]);
            }
            if last.nodes@.contains(x) {
                assert(parts[parts.len() - 1] == last);
            }
            if declared_by(parts, x) {
                let j = choose|j: int| 0 <= j < parts.len() && #[trigger] parts[j].nodes@.contains(x);
                if j < parts.len() - 1 {
                    assert(pre[j] == parts[j]);
                    assert(declared_by(pre, x));
                }
            }
        }
        assert forall|e: EdgeSnapshot| #[trigger] merged_edges(parts).contains(e) <==> carried_by(parts, e) by {
            assert(merged_edges(parts) == merged_edges(pre) + last.edges@);
            if carried_by(pre, e) {
                let j = choose|j: int| 0 <= j < pre.len() && #[trigger] pre[j].edges@.contains(e);
                assert(parts[j] == pre[j]);
            }
            if last.edges@.contains(e) {
                assert(parts[parts.len() - 1] == last);
            }
            if carried_by(parts, e) {
                let j = choose|j: int| 0 <= j < parts.len() && #[trigger] parts[j].edges@.contains(e);
                if j < parts.len() - 1 {
                    assert(pre[j] == parts[j]);
                    assert(carried_by(pre, e));
                }
            }
        }
    }
}

/// Node ids of all fragments, in order.
pub open spec fn merged_nodes(parts: Seq<NodeSnapshot>) -> Seq<u32>
    decreases parts.len(),
{
    if parts.len() == 0 {
        Seq::empty()
    } else {
        merged_nodes(parts.drop_last()) + parts.last().nodes@
    }
}

/// Edges of all fragments, in order.
pub open spec fn merged_edges(parts: Seq<NodeSnapshot>) -> Seq<EdgeSnapshot>
    decreases parts.len(),
{
    if parts.len() == 0 {
        Seq::empty()
    } else {
        merged_edges(parts.drop_last()) + parts.last().edges@
    }
}

/// Node id to (target id to edge).
pub type GraphModel = Map<u32, Map<u32, Edge>>;

/// `g` with an empty node `k` added when it has none.
pub open spec fn with_node(g: GraphModel, k: u32) -> GraphModel {
    if g.contains_key(k) {
        g
    } else {
        g.insert(k, Map::empty())
    }
}

/// `g` with the edge `u -> v` of weight `w` added when `u` has no edge to `v` yet.
pub open spec fn with_edge(g: GraphModel, u: u32, v: u32, w: u32) -> GraphModel {
    if g[u].contains_key(v) {
        g
    } else {
        g.insert(u, g[u].insert(v, Edge::spec_new(u, v, w)))
    }
}

/// `g` after one triple of a bulk build.
pub open spec fn build_step(g: GraphModel, t: (u32, u32, u32), undirected: bool) -> GraphModel {
    let g1 = with_node(with_node(g, t.0), t.1);
    let g2 = with_edge(g1, t.0, t.1, t.2);
    if undirected {
        with_edge(g2, t.1, t.0, t.2)
    } else {
        g2
    }
}

/// The graph that a bulk build makes of `es`, triple by triple.
pub open spec fn built(es: Seq<(u32, u32, u32)>, undirected: bool) -> GraphModel
    decreases es.len(),
{
    if es.len() == 0 {
        Map::empty()
    } else {
        build_step(built(es.drop_last(), undirected), es.last(), undirected)
    }
}

/// The pairs of `es`, each with weight 1.
pub open spec fn unit_weighted(es: Seq<(u32, u32)>) -> Seq<(u32, u32, u32)> {
    es.map_values(|p: (u32, u32)| (p.0, p.1, 1u32))
}

/// Every edge of `g` targets a node of `g`.
pub open spec fn closed(g: GraphModel) -> bool {
    forall|u: u32, t: u32|
        g.contains_key(u) && #[trigger] g[u].contains_key(t) ==> g.contains_key(t)
}

/// Snapshots of all edges of `g`.
pub open spec fn all_edge_snapshots(g: GraphModel) -> Set<EdgeSnapshot> {
    Set::new(
        |s: EdgeSnapshot|
            exists|u: u32, t: u32|
                g.contains_key(u) && g[u].contains_key(t) && s == #[trigger] g[u][t].spec_snapshot(),
    )
}

/// Nodes keyed by id; each node owns its outgoing edges.
#[derive(PartialEq, Debug)]
pub struct Graph {
    pub nodes: HashMap<u32, Node>,
}

impl View for Graph {
    type V = GraphModel;

    open spec fn view(&self) -> GraphModel {
        self.nodes@.map_values(|n: Node| n@)
    }
}

impl Graph {
    /// Each node is stored under its own id and is well formed.
    pub open spec fn wf(&self) -> bool {
        forall|k: u32| #[trigger] self.nodes@.contains_key(k) ==> self.nodes@[k].id == k
            && self.nodes@[k].wf()
    }

    /// An empty graph.
    pub fn new() -> (r: Graph)
        ensures
            r@ == GraphModel::empty(),
            r.wf(),
    {
        let r = Graph { nodes: HashMap::new() };
        assert(r@ =~= GraphModel::empty());
        r
    }

    /// Adds an empty node `id` unless one is present; a present node is left as it is.
    pub fn add_new_node_to_graph(&mut self, id: u32)
        requires
            old(self).wf(),
        ensures
            final(self)@ == with_node(old(self)@, id),
            final(self).wf(),
    {
        if !self.nodes.contains_key(&id) {
            self.nodes.insert(id, Node::new(id));
            assert(self@ =~= old(self)@.insert(id, Map::empty()));
        }
    }

    /// Removes node `id` with its own edges; edges of other nodes that target it stay.
    pub fn remove_node_from_graph(&mut self, id: u32)
        requires
            old(self).wf(),
        ensures
            final(self)@ == old(self)@.remove(id),
            final(self).wf(),
    {
        let _removed = self.nodes.remove(&id);
        assert(self@ =~= old(self)@.remove(id));
    }

    fn insert_edge(&mut self, u: u32, v: u32, w: u32)
        requires
            old(self).wf(),
            old(self)@.contains_key(u),
        ensures
            final(self)@ == with_edge(old(self)@, u, v, w),
            final(self).wf(),
    {
        let mut node = self.nodes.remove(&u).unwrap();
        node.add_new_edge_to_node_with_weight(v, w);
        self.nodes.insert(u, node);
        assert(self@ =~= with_edge(old(self)@, u, v, w));
    }

    /// Adds an edge of weight 1 from `start` to `end` when both nodes are present and
    /// `start` has no edge to `end` yet.
    pub fn add_directed_edge(&mut self, start: u32, end: u32)
        requires
            old(self).wf(),
        ensures
            final(self)@ == (if old(self)@.contains_key(start) && old(self)@.contains_key(end) {
                with_edge(old(self)@, start, end, 1)
            } else {
                old(self)@
            }),
            final(self).wf(),
    {
        if self.nodes.contains_key(&start) && self.nodes.contains_key(&end) {
            self.insert_edge(start, end, 1);
        }
    }

    /// Two directed adds, `u -> v` then `v -> u`.
    pub fn add_undirected_edge(&mut self, u: u32, v: u32)
        requires
            old(self).wf(),
        ensures
            final(self)@ == (if old(self)@.contains_key(u) && old(self)@.contains_key(v) {
                with_edge(with_edge(old(self)@, u, v, 1), v, u, 1)
            } else {
                old(self)@
            }),
            final(self).wf(),
    {
        self.add_directed_edge(u, v);
        self.add_directed_edge(v, u);
    }

    /// Builds a graph from `(start, end, weight)` triples, creating nodes as they are
    /// named; with `is_undirected` each triple also gives the reverse edge. A later
    /// triple never replaces an edge that is already there.
    pub fn from_list_of_weighted_edges(edges: Vec<(u32, u32, u32)>, is_undirected: bool) -> (r: Graph)
        ensures
            r@ == built(edges@, is_undirected),
            r.wf(),
    {
        let mut g = Graph::new();
        let mut i: usize = 0;
        while i < edges.len()
            invariant
                i <= edges.len(),
                g.wf(),
                g@ == built(edges@.subrange(0, i as int), is_undirected),
            decreases edges.len() - i,
        {
            let (u, v, w) = edges[i];
            g.add_new_node_to_graph(u);
            g.add_new_node_to_graph(v);
            g.insert_edge(u, v, w);
            if is_undirected {
                g.insert_edge(v, u, w);
            }
            proof {
                assert(edges@.subrange(0, i + 1).drop_last() == edges@.subrange(0, i as int));
            }
            i = i + 1;
        }
        proof {
            assert(edges@.subrange(0, edges@.len() as int) == edges@);
        }
        g
    }

    /// Builds a graph from `(start, end)` pairs, each edge of weight 1.
    pub fn from_list_of_edges(edges: Vec<(u32, u32)>, is_undirected: bool) -> (r: Graph)
        ensures
            r@ == built(unit_weighted(edges@), is_undirected),
            r.wf(),
    {
        let mut weighted: Vec<(u32, u32, u32)> = Vec::new();
        let mut i: usize = 0;
        while i < edges.len()
            invariant
                i <= edges.len(),
                weighted@ == unit_weighted(edges@.subrange(0, i as int)),
            decreases edges.len() - i,
        {
            let (a, b) = edges[i];
            weighted.push((a, b, 1));
            proof {
                assert(unit_weighted(edges@.subrange(0, i + 1)) =~= unit_weighted(
                    edges@.subrange(0, i as int),
                ).push((a, b, 1u32)));
            }
            i = i + 1;
        }
        proof {
            assert(edges@.subrange(0, edges@.len() as int) == edges@);
        }
        Graph::from_list_of_weighted_edges(weighted, is_undirected)
    }
}

/// Each listed edge is the snapshot of an edge of a node in `us`.
pub open spec fn edges_from(g: GraphModel, us: Seq<u32>, es: Seq<EdgeSnapshot>) -> bool {
    forall|j: int| 0 <= j < es.len() ==> edge_from(g, us, #[trigger] es[j])
}

/// `e` is the snapshot of an edge of a node in `us`.
pub open spec fn edge_from(g: GraphModel, us: Seq<u32>, e: EdgeSnapshot) -> bool {
    exists|u: u32, t: u32|
        #![trigger g[u][t]]
        us.contains(u) && g[u].contains_key(t) && e == g[u][t].spec_snapshot()
}

/// The snapshot of each edge of each node in `us` is listed.
pub open spec fn edges_cover(g: GraphModel, us: Seq<u32>, es: Seq<EdgeSnapshot>) -> bool {
    forall|u: u32, t: u32|
        us.contains(u) && #[trigger] g[u].contains_key(t) ==> es.contains(g[u][t].spec_snapshot())
}

impl Graph {
    /// A validated snapshot: each node id once and each edge once. It fails exactly
    /// when some edge targets a node that is not in the graph.
    pub fn to_snapshot(&self) -> (r: Result<GraphSnapshot, String>)
        requires
            self.wf(),
        ensures
            r is Ok <==> closed(self@),
            r matches Ok(s) ==> lists_set(s.nodes@, self@.dom()) && s.nodes@.len()
                == self@.dom().len() && lists_set(s.edges@, all_edge_snapshots(self@)),
    {
        let g = Ghost(self@);
        let mut parts: Vec<NodeSnapshot> = Vec::new();
        let ids = key_list(&self.nodes);
        let ghost ks = ids@;
        let mut i: usize = 0;
        while i < ids.len()
            invariant
                ids@ == ks,
                ks.to_set() == self.nodes@.dom(),
                ks.no_duplicates(),
                g@ == self@,
                self.wf(),
                i <= ids.len(),
                merged_nodes(parts@) == ks.subrange(0, i as int),
                edges_from(g@, ks.subrange(0, i as int), merged_edges(parts@)),
                edges_cover(g@, ks.subrange(0, i as int), merged_edges(parts@)),
            decreases ids.len() - i,
        {
            let k = &ids[i];
            let ghost idx = i as int;
            let ghost pre = ks.subrange(0, idx);
            let ghost post = ks.subrange(0, idx + 1);
            proof {
                assert(post == pre.push(*k));
                assert(ks.to_set().contains(*k));
            }
            let node = self.nodes.get(k).unwrap();
            let p = node.to_snapshot();
            let ghost old_edges = merged_edges(parts@);
            let ghost old_parts = parts@;
            parts.push(p);
            proof {
                assert(parts@.drop_last() == old_parts);
                assert(parts@.last() == p);
                assert(merged_nodes(parts@) == pre + seq![*k]);
                assert(merged_nodes(parts@) =~= post);
                let me = merged_edges(parts@);
                assert(me == old_edges + p.edges@);
                let nks = choose|nks: Seq<u32>|
                    nks.no_duplicates() && nks.to_set() == node@.dom() && p.edges@
                        == edge_snapshots(node@, nks);
                assert(node@ == g@[*k]);
                assert forall|j: int| 0 <= j < me.len() implies edge_from(g@, post, #[trigger] me[j]) by {
                    if j < old_edges.len() {
                        assert(me[j] == old_edges[j]);
                        assert(edge_from(g@, pre, old_edges[j]));
                        let (u, t) = choose|u: u32, t: u32|
                            pre.contains(u) && g@[u].contains_key(t) && old_edges[j]
                                == g@[u][t].spec_snapshot();
                        assert(post.contains(u));
                    } else {
                        let jj = j - old_edges.len();
                        assert(me[j] == p.edges@[jj]);
                        assert(nks.to_set().contains(nks[jj]));
                        assert(post[idx] == *k);
                        assert(post.contains(*k));
                        assert(me[j] == g@[*k][nks[jj]].spec_snapshot());
                    }
                }
                assert(edges_from(g@, post, me));
                assert forall|u: u32, t: u32|
                    post.contains(u) && #[trigger] g@[u].contains_key(t) implies me.contains(
                    g@[u][t].spec_snapshot(),
                ) by {
                    if u == *k {
                        assert(nks.to_set().contains(t));
                        let jj = choose|jj: int| 0 <= jj < nks.len() && nks[jj] == t;
                        assert(me[old_edges.len() + jj] == p.edges@[jj]);
                    } else {
                        let x = choose|x: int| 0 <= x < post.len() && post[x] == u;
                        assert(pre[x] == u);
                        assert(old_edges.contains(g@[u][t].spec_snapshot()));
                        let y = choose|y: int|
                            0 <= y < old_edges.len() && old_edges[y] == g@[u][t].spec_snapshot();
                        assert(me[y] == old_edges[y]);
                    }
                }
            }
            i = i + 1;
        }
        proof {
            assert(ks.subrange(0, ks.len() as int) == ks);
        }
        let r = GraphSnapshot::from_node_snapshots(parts);
        proof {
            let mn = merged_nodes(parts@);
            let me = merged_edges(parts@);
            assert(mn == ks);
            assert forall|u: u32| #[trigger] ks.contains(u) <==> g@.contains_key(u) by {
                assert(ks.contains(u) <==> ks.to_set().contains(u));
            }
            if closed(g@) {
                assert forall|i: int| 0 <= i < me.len() implies mn.contains(
                    #[trigger] me[i].node_start,
                ) && mn.contains(me[i].node_end) by {
                    assert(edge_from(g@, ks, me[i]));
                    let (u, t) = choose|u: u32, t: u32|
                        ks.contains(u) && g@[u].contains_key(t) && me[i] == g@[u][t].spec_snapshot();
                    assert(self.nodes@[u]@ == g@[u]);
                    assert(self.nodes@[u].wf());
                    assert(g@.contains_key(t));
                }
                assert(endpoints_declared(mn, me));
            } else {
                let (u, t) = choose|u: u32, t: u32|
                    !(g@.contains_key(u) && #[trigger] g@[u].contains_key(t) ==> g@.contains_key(t));
                assert(ks.contains(u));
                assert(me.contains(g@[u][t].spec_snapshot()));
                let i = choose|i: int| 0 <= i < me.len() && me[i] == g@[u][t].spec_snapshot();
                assert(self.nodes@[u]@ == g@[u]);
                assert(self.nodes@[u].wf());
                assert(me[i].node_end == t);
                assert(!mn.contains(me[i].node_end));
                assert(me[i].node_start == u);
                assert(!endpoints_declared(mn, me));
            }
            if r is Ok {
                assert(me.to_set() =~= all_edge_snapshots(g@)) by {
                    assert forall|e: EdgeSnapshot| me.to_set().contains(e) implies all_edge_snapshots(
                        g@,
                    ).contains(e) by {
                        let i = choose|i: int| 0 <= i < me.len() && me[i] == e;
                        assert(edge_from(g@, ks, me[i]));
                        let (u, t) = choose|u: u32, t: u32|
                            ks.contains(u) && g@[u].contains_key(t) && me[i]
                                == g@[u][t].spec_snapshot();
                        assert(g@.contains_key(u));
                    }
                    assert forall|e: EdgeSnapshot| all_edge_snapshots(g@).contains(e) implies me.to_set().contains(
                        e,
                    ) by {
                        let (u, t) = choose|u: u32, t: u32|
                            g@.contains_key(u) && g@[u].contains_key(t) && e == #[trigger] g@[u][t].spec_snapshot();
                        assert(ks.contains(u));
                        assert(me.contains(g@[u][t].spec_snapshot()));
                    }
                }
                let s = r->Ok_0;
                assert(self@.dom() == ks.to_set());
                s.nodes@.unique_seq_to_set();
            }
        }
        r
    }
}

/// Some pair of `es` joins `a` and `b`, in either direction.
pub open spec fn joined(es: Seq<(u32, u32)>, a: u32, b: u32) -> bool {
    exists|i: int|
        0 <= i < es.len() && ((#[trigger] es[i].0 == a && es[i].1 == b) || (es[i].0 == b && es[i].1
            == a))
}

/// The undirected graph of unit edges that `es` describes: its nodes are the ids
/// named in `es`, and `k -> t` is an edge exactly when some pair joins them.
pub open spec fn undirected_model(es: Seq<(u32, u32)>) -> GraphModel {
    Map::new(
        |k: u32| exists|t: u32| joined(es, k, t),
        |k: u32| Map::new(|t: u32| joined(es, k, t), |t: u32| Edge::spec_new(k, t, 1)),
    )
}

proof fn lemma_undirected_build(es: Seq<(u32, u32)>)
    ensures
        built(unit_weighted(es), true) == undirected_model(es),
    decreases es.len(),
{
    if es.len() == 0 {
        assert(undirected_model(es) =~= Map::empty());
    } else {
        let pre = es.drop_last();
        let (a, b) = es.last();
        lemma_undirected_build(pre);
        let ue = unit_weighted(es);
        assert(ue.drop_last() =~= unit_weighted(pre));
        assert(ue.last() == (a, b, 1u32));
        let m = undirected_model(pre);
        let n = undirected_model(es);
        assert forall|k: u32, t: u32| joined(es, k, t) <==> (joined(pre, k, t) || (k == a && t == b)
            || (k == b && t == a)) by {
            if joined(pre, k, t) {
                let i = choose|i: int|
                    0 <= i < pre.len() && ((#[trigger] pre[i].0 == k && pre[i].1 == t) || (pre[i].0
                        == t && pre[i].1 == k));
                assert(es[i] == pre[i]);
            }
            if (k == a && t == b) || (k == b && t == a) {
                assert(es[es.len() - 1] == (a, b));
            }
            if joined(es, k, t) {
                let i = choose|i: int|
                    0 <= i < es.len() && ((#[trigger] es[i].0 == k && es[i].1 == t) || (es[i].0 == t
                        && es[i].1 == k));
                if i < es.len() - 1 {
                    assert(pre[i] == es[i]);
                }
            }
        }
        let g1 = with_node(with_node(m, a), b);
        let g2 = with_edge(g1, a, b, 1);
        let g3 = with_edge(g2, b, a, 1);
        assert(build_step(m, (a, b, 1u32), true) == g3);
        assert forall|k: u32| #[trigger] g3.contains_key(k) <==> n.contains_key(k) by {
            if n.contains_key(k) {
                let t = choose|t: u32| joined(es, k, t);
                if !(k == a || k == b) {
                    assert(joined(pre, k, t));
                }
            }
            if m.contains_key(k) {
                let t = choose|t: u32| joined(pre, k, t);
                assert(joined(es, k, t));
            }
            if k == a {
                assert(joined(es, a, b));
            }
            if k == b {
                assert(joined(es, b, a));
            }
        }
        assert forall|k: u32| #[trigger] g3.contains_key(k) implies g3[k] =~= n[k] by {
            assert forall|t: u32| #[trigger] g3[k].contains_key(t) <==> n[k].contains_key(t) by {
                if m.contains_key(k) {
                    assert(m[k].contains_key(t) <==> joined(pre, k, t));
                }
            }
        }
        assert(g3 =~= n);
    }
}

/// An undirected build of unit edges depends only on which pairs of ids the list
/// joins: neither the order of the pairs nor the direction each is written in
/// matters.
pub proof fn lemma_undirected_build_order_free(es1: Seq<(u32, u32)>, es2: Seq<(u32, u32)>)
    requires
        forall|a: u32, b: u32| joined(es1, a, b) <==> joined(es2, a, b),
    ensures
        built(unit_weighted(es1), true) == built(unit_weighted(es2), true),
{
    lemma_undirected_build(es1);
    lemma_undirected_build(es2);
    assert(undirected_model(es1) =~= undirected_model(es2)) by {
        assert forall|k: u32| #[trigger] undirected_model(es1).contains_key(k)
            <==> undirected_model(es2).contains_key(k) by {
            if undirected_model(es1).contains_key(k) {
                let t = choose|t: u32| joined(es1, k, t);
                assert(joined(es2, k, t));
            }
            if undirected_model(es2).contains_key(k) {
                let t = choose|t: u32| joined(es2, k, t);
                assert(joined(es1, k, t));
            }
        }
        assert forall|k: u32| #[trigger] undirected_model(es1).contains_key(k) implies undirected_model(
            es1,
        )[k] =~= undirected_model(es2)[k] by {}
    }
}

impl Graph {
    /// Ids of all nodes, each once.
    pub fn node_ids(&self) -> (r: Vec<u32>)
        ensures
            lists_set(r@, self@.dom()),
    {
        let r = key_list(&self.nodes);
        assert(self@.dom() =~= self.nodes@.dom());
        r
    }

    /// Whether every edge targets a node of the graph.
    pub fn is_closed(&self) -> (r: bool)
        requires
            self.wf(),
        ensures
            r == closed(self@),
    {
        let ids = self.node_ids();
        let mut i: usize = 0;
        while i < ids.len()
            invariant
                self.wf(),
                lists_set(ids@, self@.dom()),
                i <= ids.len(),
                forall|u: u32, t: u32|
                    ids@.subrange(0, i as int).contains(u) && #[trigger] self@[u].contains_key(t)
                        ==> self@.contains_key(t),
            decreases ids.len() - i,
        {
            let u = ids[i];
            proof {
                assert(ids@.to_set().contains(u));
            }
            let node = self.nodes.get(&u).unwrap();
            let ts = node.neighbor_ids();
            let mut j: usize = 0;
            while j < ts.len()
                invariant
                    self.wf(),
                    lists_set(ids@, self@.dom()),
                    i < ids.len(),
                    u == ids@[i as int],
                    node@ == self@[u],
                    ts@.to_set() == node@.dom(),
                    j <= ts.len(),
                    forall|x: u32, t: u32|
                        ids@.subrange(0, i as int).contains(x) && #[trigger] self@[x].contains_key(t)
                            ==> self@.contains_key(t),
                    forall|k: int| 0 <= k < j ==> self@.contains_key(#[trigger] ts@[k]),
                decreases ts.len() - j,
            {
                if !self.nodes.contains_key(&ts[j]) {
                    proof {
                        assert(ts@.to_set().contains(ts@[j as int]));
                        assert(self@.contains_key(u));
                    }
                    return false;
                }
                j = j + 1;
            }
            proof {
                assert forall|x: u32, t: u32|
                    ids@.subrange(0, i + 1).contains(x) && #[trigger] self@[x].contains_key(t)
                        implies self@.contains_key(t) by {
                    let k = choose|k: int| 0 <= k < i + 1 && #[trigger] ids@.subrange(0, i + 1)[k] == x;
                    if k < i {
                        assert(ids@.subrange(0, i as int)[k] == x);
                    } else {
                        assert(ts@.to_set().contains(t));
                        let m = choose|m: int| 0 <= m < ts@.len() && #[trigger] ts@[m] == t;
                    }
                }
            }
            i = i + 1;
        }
        proof {
            assert(ids@.subrange(0, ids@.len() as int) == ids@);
            assert forall|u: u32, t: u32| self@.contains_key(u) && #[trigger] self@[u].contains_key(t)
                implies self@.contains_key(t) by {
                assert(ids@.to_set().contains(u));
            }
        }
        true
    }
}

} // verus!
