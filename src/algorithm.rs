use vstd::prelude::*;
use std::collections::HashMap;
use crate::keys::key_list;
use crate::graph::{Graph, GraphModel, GraphSnapshot, lists_set};

verus! {

broadcast use {vstd::std_specs::hash::group_hash_axioms, vstd::seq_lib::group_seq_properties};

/// What a traversal exports: its own state and a validated copy of its graph.
pub struct Snapshot<T> {
    pub data: T,
    pub graph: GraphSnapshot,
}

/// A traversal strategy: `run` works its state to completion and `get_snapshot`
/// exports that state without touching it.
pub trait Algorithm<T> {
    /// The state is one that `run` and `get_snapshot` accept.
    spec fn inv(&self) -> bool;

    /// `run` has completed on the current state.
    spec fn finished(&self) -> bool;

    /// `s` is an export of the current state.
    spec fn exported(&self, s: Snapshot<T>) -> bool;

    fn run(&mut self)
        requires
            old(self).inv(),
        ensures
            final(self).inv(),
            final(self).finished(),
    ;

    fn get_snapshot(&self) -> (r: Snapshot<T>)
        requires
            self.inv(),
        ensures
            self.exported(r),
    ;
}

/// The decimal digits of `n`, most significant first.
pub open spec fn decimal(n: nat) -> Seq<char>
    decreases n,
{
    if n < 10 {
        seq![digit(n)]
    } else {
        decimal(n / 10) + seq![digit(n % 10)]
    }
}

/// The character of the decimal digit `d`.
pub open spec fn digit(d: nat) -> char {
    seq!['0', '1', '2', '3', '4', '5', '6', '7', '8', '9'][d as int]
}

/// `x` in decimal, with a leading `-` when negative.
pub open spec fn signed_decimal(x: int) -> Seq<char> {
    if x < 0 {
        seq!['-'] + decimal((-x) as nat)
    } else {
        decimal(x as nat)
    }
}

/// The numbers of `ns` in decimal, separated by `", "`.
pub open spec fn joined_decimals(ns: Seq<u32>) -> Seq<char>
    decreases ns.len(),
{
    if ns.len() == 0 {
        Seq::empty()
    } else if ns.len() == 1 {
        decimal(ns[0] as nat)
    } else {
        joined_decimals(ns.drop_last()) + seq![',', ' '] + decimal(ns.last() as nat)
    }
}

/// Text of the log line that names node `id`.
pub open spec fn node_line(id: u32) -> Seq<char> {
    "the graph has a node: "@ + decimal(id as nat)
}

/// Text of the log line that lists the neighbors `ns` of node `id`.
pub open spec fn neighbors_line(id: u32, ns: Seq<u32>) -> Seq<char> {
    "Node "@ + decimal(id as nat) + " with neighbors ["@ + joined_decimals(ns) + seq![']']
}

/// Text of the log line that gives the distance `dist` of `node` from `source`.
pub open spec fn distance_line(source: u32, node: u32, dist: i32) -> Seq<char> {
    "The distance from node "@ + decimal(source as nat) + " to node: "@ + decimal(node as nat)
        + " is "@ + signed_decimal(dist as int)
}

/// Relies on std's `format!`: `{}` writes a `u32` in decimal.
#[verifier::external_body]
fn node_line_text(id: u32) -> (r: String)
    ensures
        r@ == node_line(id),
{
    format!("the graph has a node: {}", id)
}

/// Relies on std's `format!`: `{}` writes a `u32` in decimal, and `{:?}` writes a
/// `Vec<u32>` as its items in decimal, separated by `", "`, between brackets.
#[verifier::external_body]
fn neighbors_line_text(id: u32, ns: &Vec<u32>) -> (r: String)
    ensures
        r@ == neighbors_line(id, ns@),
{
    format!("Node {} with neighbors {:?}", id, ns)
}

/// Relies on std's `format!`: `{}` writes a `u32` or an `i32` in decimal, with a
/// leading `-` when negative.
#[verifier::external_body]
fn distance_line_text(source: u32, node: u32, dist: i32) -> (r: String)
    ensures
        r@ == distance_line(source, node, dist),
{
    format!("The distance from node {} to node: {} is {}", source, node, dist)
}

/// `after` is `before` followed by one line naming each node of `ks`, then one
/// line listing the neighbors of each node of `ks`.
pub open spec fn described(before: Seq<String>, after: Seq<String>, g: GraphModel, ks: Seq<u32>) -> bool {
    &&& after.len() == before.len() + 2 * ks.len()
    &&& after.subrange(0, before.len() as int) == before
    &&& forall|i: int|
        0 <= i < ks.len() ==> (#[trigger] after[before.len() + i])@ == node_line(ks[i])
    &&& forall|i: int|
        0 <= i < ks.len() ==> neighbors_logged(#[trigger] after[before.len() + ks.len() + i], g, ks[i])
}

/// `line` lists the neighbors of `u`, in some order.
pub open spec fn neighbors_logged(line: String, g: GraphModel, u: u32) -> bool {
    exists|ns: Seq<u32>| lists_set(ns, g[u].dom()) && line@ == neighbors_line(u, ns)
}

/// `after` is `before` followed by one distance line for each id of `ks`.
pub open spec fn distances_logged(
    before: Seq<String>,
    after: Seq<String>,
    source: u32,
    d: Map<u32, i32>,
    ks: Seq<u32>,
) -> bool {
    &&& after.len() == before.len() + ks.len()
    &&& after.subrange(0, before.len() as int) == before
    &&& forall|i: int|
        0 <= i < ks.len() ==> (#[trigger] after[before.len() + i])@ == distance_line(
            source,
            ks[i],
            d[ks[i]],
        )
}

/// Appends a line naming each node, then a line listing each node's neighbors.
pub fn describe_graph(log: &mut Vec<String>, g: &Graph)
    requires
        g.wf(),
    ensures
        exists|ks: Seq<u32>| lists_set(ks, g@.dom()) && described(old(log)@, final(log)@, g@, ks),
{
    let ghost before = log@;
    let ids = g.node_ids();
    let mut i: usize = 0;
    while i < ids.len()
        invariant
            lists_set(ids@, g@.dom()),
            i <= ids.len(),
            log@.len() == before.len() + i,
            log@.subrange(0, before.len() as int) == before,
            forall|k: int| 0 <= k < i ==> (#[trigger] log@[before.len() + k])@ == node_line(ids@[k]),
        decreases ids.len() - i,
    {
        let line = node_line_text(ids[i]);
        log.push(line);
        proof {
            assert(log@.subrange(0, before.len() as int) =~= before);
        }
        i = i + 1;
    }
    let mut i: usize = 0;
    while i < ids.len()
        invariant
            g.wf(),
            lists_set(ids@, g@.dom()),
            i <= ids.len(),
            log@.len() == before.len() + ids.len() + i,
            log@.subrange(0, before.len() as int) == before,
            forall|k: int|
                0 <= k < ids.len() ==> (#[trigger] log@[before.len() + k])@ == node_line(ids@[k]),
            forall|k: int|
                0 <= k < i ==> neighbors_logged(#[trigger] log@[before.len() + ids.len() + k], g@, ids@[k]),
        decreases ids.len() - i,
    {
        let u = ids[i];
        proof {
            assert(ids@.to_set().contains(u));
        }
        let ns = g.nodes.get(&u).unwrap().neighbor_ids();
        let line = neighbors_line_text(u, &ns);
        let ghost prev = log@;
        log.push(line);
        proof {
            assert(g.nodes@[u]@ == g@[u]);
            assert(log@.subrange(0, before.len() as int) =~= before);
            assert forall|k: int| 0 <= k < ids.len() implies (#[trigger] log@[before.len() + k])@
                == node_line(ids@[k]) by {
                assert(log@[before.len() + k] == prev[before.len() + k]);
            }
            assert forall|k: int| 0 <= k < i + 1 implies neighbors_logged(#[trigger] log@[before.len() + ids.len() + k], g@, ids@[k]) by {
                if k < i {
                    assert(log@[before.len() + ids.len() + k] == prev[before.len() + ids.len() + k]);
                } else {
                    assert(lists_set(ns@, g@[ids@[k]].dom()));
                }
            }
        }
        i = i + 1;
    }
    proof {
        assert(described(before, log@, g@, ids@));
    }
}

/// Appends one line per id of `distances` giving its distance from `source`.
pub fn log_distances(log: &mut Vec<String>, source: u32, distances: &HashMap<u32, i32>)
    ensures
        exists|ks: Seq<u32>|
            lists_set(ks, distances@.dom()) && distances_logged(
                old(log)@,
                final(log)@,
                source,
                distances@,
                ks,
            ),
{
    let ghost before = log@;
    let ids = key_list(distances);
    let mut i: usize = 0;
    while i < ids.len()
        invariant
            lists_set(ids@, distances@.dom()),
            i <= ids.len(),
            log@.len() == before.len() + i,
            log@.subrange(0, before.len() as int) == before,
            forall|k: int|
                0 <= k < i ==> (#[trigger] log@[before.len() + k])@ == distance_line(
                    source,
                    ids@[k],
                    distances@[ids@[k]],
                ),
        decreases ids.len() - i,
    {
        let u = ids[i];
        proof {
            assert(ids@.to_set().contains(u));
        }
        let dist = *distances.get(&u).unwrap();
        let line = distance_line_text(source, u, dist);
        log.push(line);
        proof {
            assert(log@.subrange(0, before.len() as int) =~= before);
        }
        i = i + 1;
    }
    proof {
        assert(distances_logged(before, log@, source, distances@, ids@));
    }
}

} // verus!
