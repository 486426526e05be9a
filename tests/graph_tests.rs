use graph_traversal::edge::{Edge, EdgeSnapshot};
use graph_traversal::graph::{Graph, GraphSnapshot};
use graph_traversal::node::{Node, NodeSnapshot};
use std::collections::HashSet;

fn has_unique_elements<T: Eq + std::hash::Hash>(vec: &[T]) -> bool {
    let mut seen = HashSet::new();
    vec.iter().all(|x| seen.insert(x))
}

fn setup_left_chain() -> Graph {
    let edges = vec![(0, 1), (1, 2), (2, 3), (3, 4), (4, 5), (5, 6)];
    Graph::from_list_of_edges(edges, false)
}

fn setup_right_chain() -> Graph {
    let edges = vec![(1, 0), (2, 1), (3, 2), (4, 3), (5, 4), (6, 5)];
    Graph::from_list_of_edges(edges, false)
}

fn setup_undirected_right_chain() -> Graph {
    let edges = vec![(0, 1), (1, 2), (2, 3), (3, 4), (4, 5), (5, 6)];
    Graph::from_list_of_edges(edges, true)
}

fn setup_undirected_left_chain() -> Graph {
    let edges = vec![(1, 0), (2, 1), (3, 2), (4, 3), (5, 4), (6, 5)];
    Graph::from_list_of_edges(edges, true)
}

fn setup_tree() -> Graph {
    let edges = vec![
        (0, 1),
        (0, 2),
        (1, 3),
        (1, 4),
        (3, 7),
        (3, 8),
        (4, 9),
        (4, 10),
        (2, 5),
        (2, 6),
        (5, 11),
        (6, 12),
        (6, 13),
        (6, 14),
    ];
    Graph::from_list_of_edges(edges, false)
}

#[test]
fn test_graph_chain_has_added_nodes() -> Result<(), String> {
    let my_graph = setup_left_chain();
    assert_eq!(my_graph.nodes.iter().len(), 7, "all the chain nodes should be included");
    Ok(())
}

#[test]
fn test_graph_tree_has_desired_nodes() -> Result<(), String> {
    let my_graph = setup_tree();
    assert_eq!(my_graph.nodes.iter().len(), 15, "all the chain nodes should be included");
    Ok(())
}

#[test]
fn test_graph_directed_chains_are_different() -> Result<(), String> {
    let direct = setup_left_chain();
    let reversed = setup_right_chain();
    assert_ne!(direct, reversed, "Chains are different");
    Ok(())
}

#[test]
fn test_graph_undirected_chains_are_the_same() -> Result<(), String> {
    let direct = setup_undirected_right_chain();
    let reversed = setup_undirected_left_chain();
    assert_eq!(direct, reversed, "Both chains should be the same");
    Ok(())
}

#[test]
fn test_graph_snapshot() -> Result<(), String> {
    let my_graph = setup_left_chain();
    let snapshot = my_graph.to_snapshot()?;
    assert!(has_unique_elements(&snapshot.nodes.clone()), "It should have deduplicated nodes");
    Ok(())
}

#[test]
fn test_sonsoni3() -> Result<(), String> {
    Ok(())
}

#[test]
fn test_sonsoneos() -> Result<(), String> {
    let mut xx = 5;
    xx += 1;
    assert_eq!(xx, 6, "deben ser iguales {} and {}", xx, 6);
    Ok(())
}

#[test]
fn undirected_build_ignores_order_and_direction() {
    let a = Graph::from_list_of_edges(vec![(0, 1), (2, 1), (3, 0)], true);
    let b = Graph::from_list_of_edges(vec![(0, 3), (1, 2), (1, 0), (0, 1)], true);
    assert_eq!(a, b);
}

#[test]
fn snapshot_lists_each_node_once() {
    let g = Graph::from_list_of_edges(vec![(0, 1), (1, 0), (1, 2), (2, 0)], true);
    let s = g.to_snapshot().unwrap();
    assert_eq!(s.nodes.len(), 3);
    let set: HashSet<u32> = s.nodes.iter().cloned().collect();
    assert_eq!(set, [0, 1, 2].iter().cloned().collect());
    assert_eq!(s.edges.len(), 6);
}

#[test]
fn validation_rejects_undeclared_endpoint() {
    let raw = GraphSnapshot {
        nodes: vec![0, 1],
        edges: vec![EdgeSnapshot { id: 0, node_start: 0, node_end: 2, weight: 1 }],
    };
    assert!(GraphSnapshot::validate_and_reduce(raw).is_err());
    let raw = GraphSnapshot {
        nodes: vec![0, 1],
        edges: vec![EdgeSnapshot { id: 0, node_start: 5, node_end: 1, weight: 1 }],
    };
    assert!(GraphSnapshot::validate_and_reduce(raw).is_err());
}

#[test]
fn validation_dedups_nodes_and_edges() {
    let e = EdgeSnapshot { id: 0, node_start: 0, node_end: 1, weight: 1 };
    let heavier = EdgeSnapshot { id: 0, node_start: 0, node_end: 1, weight: 2 };
    let raw = GraphSnapshot { nodes: vec![1, 0, 1, 0], edges: vec![e, e, heavier, e] };
    let s = GraphSnapshot::validate_and_reduce(raw).unwrap();
    let nodes: HashSet<u32> = s.nodes.iter().cloned().collect();
    assert_eq!(s.nodes.len(), 2);
    assert_eq!(nodes, [0, 1].iter().cloned().collect());
    assert_eq!(s.edges.len(), 2);
    assert!(s.edges.contains(&e) && s.edges.contains(&heavier));
}

#[test]
fn empty_snapshot_is_valid() {
    let s = GraphSnapshot::validate_and_reduce(GraphSnapshot::default()).unwrap();
    assert!(s.nodes.is_empty() && s.edges.is_empty());
}

#[test]
fn fragments_are_merged_before_validation() {
    let a = NodeSnapshot {
        nodes: vec![0],
        edges: vec![EdgeSnapshot { id: 0, node_start: 0, node_end: 1, weight: 4 }],
    };
    let b = NodeSnapshot { nodes: vec![1], edges: vec![] };
    let s = GraphSnapshot::from_node_snapshots(vec![a.clone(), b]).unwrap();
    assert_eq!(s.nodes.len(), 2);
    assert_eq!(s.edges.len(), 1);
    assert!(GraphSnapshot::from_node_snapshots(vec![a]).is_err());
}

#[test]
fn set_and_vector_round_trip() {
    let set = GraphSnapshot::vector_to_set(vec![3u32, 1, 3, 2]);
    assert_eq!(set.len(), 3);
    let mut v = GraphSnapshot::set_to_vector(set);
    v.sort();
    assert_eq!(v, vec![1, 2, 3]);
}

#[test]
fn directed_edge_needs_both_nodes_and_is_idempotent() {
    let mut g = Graph::new();
    g.add_new_node_to_graph(1);
    g.add_directed_edge(1, 2);
    assert!(g.nodes.get(&1).unwrap().runtime.edges.is_empty());
    g.add_new_node_to_graph(2);
    g.add_directed_edge(1, 2);
    g.add_directed_edge(1, 2);
    let n1 = g.nodes.get(&1).unwrap();
    assert_eq!(n1.runtime.edges.len(), 1);
    assert_eq!(*n1.runtime.edges.get(&2).unwrap(), Edge::new(1, 2, 1));
    assert!(g.nodes.get(&2).unwrap().runtime.edges.is_empty());
}

#[test]
fn undirected_edge_adds_both_directions() {
    let mut g = Graph::new();
    g.add_new_node_to_graph(1);
    g.add_new_node_to_graph(2);
    g.add_undirected_edge(1, 2);
    assert!(g.nodes.get(&1).unwrap().runtime.edges.contains_key(&2));
    assert!(g.nodes.get(&2).unwrap().runtime.edges.contains_key(&1));
}

#[test]
fn adding_a_present_node_keeps_it() {
    let mut g = Graph::from_list_of_edges(vec![(1, 2)], false);
    g.add_new_node_to_graph(1);
    assert_eq!(g.nodes.len(), 2);
    assert_eq!(g.nodes.get(&1).unwrap().runtime.edges.len(), 1);
}

#[test]
fn removing_a_node_leaves_edges_that_target_it() {
    let mut g = Graph::from_list_of_edges(vec![(1, 2)], false);
    g.remove_node_from_graph(2);
    assert_eq!(g.nodes.len(), 1);
    assert!(g.nodes.get(&1).unwrap().runtime.edges.contains_key(&2));
    assert!(g.to_snapshot().is_err());
    assert!(!g.is_closed());
}

#[test]
fn weighted_build_keeps_first_edge() {
    let g = Graph::from_list_of_weighted_edges(vec![(0, 1, 5), (0, 1, 7)], false);
    assert_eq!(g.nodes.get(&0).unwrap().runtime.edges.get(&1).unwrap().runtime.weight, 5);
    let g = Graph::from_list_of_weighted_edges(vec![(0, 1, 5)], true);
    let back = g.nodes.get(&1).unwrap().runtime.edges.get(&0).unwrap();
    assert_eq!(*back, Edge::new(1, 0, 5));
}

#[test]
fn edge_snapshot_copies_fields() {
    let e = Edge::new(3, 4, 9);
    assert_eq!(e.to_snapshot(), EdgeSnapshot { id: 0, node_start: 3, node_end: 4, weight: 9 });
}

#[test]
fn node_ids_lists_every_node() {
    let g = setup_tree();
    let mut ids = g.node_ids();
    ids.sort();
    assert_eq!(ids, (0..15).collect::<Vec<u32>>());
    let n = Node::new_node_from_id(4);
    assert_eq!(n.id, 4);
}
