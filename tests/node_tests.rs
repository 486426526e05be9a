use graph_traversal::edge::Edge;
use graph_traversal::node::Node;
use std::collections::HashSet;

#[test]
fn test_node_adds_edge_correctly() -> Result<(), String> {
    let mut node_1 = Node::create_new(0);
    node_1.add_new_edge_to_node_with_weight(1, 10);
    let edge_expected = Edge::new(0, 1, 10);
    if let Some(value) = node_1.runtime.edges.get(&1) {
        assert_eq!(*value, edge_expected);
    } else {
        panic!("key not found");
    }
    Ok(())
}

#[test]
fn test_node_has_not_edges() -> Result<(), String> {
    let node_1 = Node::create_new(0);
    assert_eq!(node_1.runtime.edges.values().len(), 0, "List of edges should be empty");
    Ok(())
}

#[test]
fn test_node_add_and_remove_edges() -> Result<(), String> {
    let mut node_1 = Node::create_new(0);
    node_1.add_new_edge_to_node_with_weight(1, 10);
    node_1.remove_edge_from_node(1);
    assert_eq!(node_1.runtime.edges.values().len(), 0, "List of edges should be empty");
    Ok(())
}

#[test]
#[should_panic]
fn test_node_remove_non_existent_edge() {
    let mut node_1 = Node::create_new(0);
    node_1.add_new_edge_to_node_with_weight(1, 10);
    node_1.remove_edge_from_node(3);
    assert_eq!(node_1.runtime.edges.values().len(), 0, "List of edges should be empty");
}

#[test]
fn test_node_snapshot_works_fine() {
    let mut node_1 = Node::create_new(0);
    node_1.add_new_edge_to_node_with_weight(1, 10);
    node_1.add_new_edge_to_node_with_weight(2, 100);
    node_1.add_new_edge_to_node_with_weight(3, 100);
    node_1.add_new_edge_to_node_with_weight(4, 100);

    let node_snapshot = node_1.to_snapshot();
    assert_eq!(node_snapshot.nodes, vec![0], "The snapshot should contain its own id");

    let edges_snapshot_end: Vec<u32> = node_snapshot.edges.iter().map(|edge| edge.node_end).collect();
    assert!(
        node_snapshot.edges.iter().all(|edge| edge.node_start == 0),
        "The snapshot node_starts should be the own id"
    );
    let final_list: HashSet<u32> = vec![1, 2, 3, 4].iter().cloned().collect();
    assert_eq!(
        edges_snapshot_end.iter().cloned().collect::<HashSet<_>>(),
        final_list,
        "The list of edges should be the same"
    );
}

#[test]
fn existing_edge_is_never_overwritten() {
    let mut n = Node::new(7);
    n.add_new_edge_to_node_with_weight(1, 10);
    n.add_new_edge_to_node_with_weight(1, 20);
    n.add_new_edge_to_node(1);
    assert_eq!(n.runtime.edges.len(), 1);
    assert_eq!(n.runtime.edges.get(&1).unwrap().runtime.weight, 10);
    n.add_new_edge_to_node(2);
    assert_eq!(*n.runtime.edges.get(&2).unwrap(), Edge::new(7, 2, 1));
    let mut ids = n.neighbor_ids();
    ids.sort();
    assert_eq!(ids, vec![1, 2]);
}
