use graph_traversal::algorithm::Algorithm;
use graph_traversal::bfs::BFS;
use graph_traversal::dfs::DFS;
use graph_traversal::graph::Graph;
use graph_traversal::logger::{Logger, Message};
use graph_traversal::presentation::EdgeModel;

fn setup_left_chain() -> Graph {
    let edges = vec![(0, 1), (1, 2), (2, 3), (3, 4), (4, 5), (5, 6)];
    Graph::from_list_of_edges(edges, false)
}

#[test]
fn test_bfs_works_fine() -> Result<(), String> {
    let my_graph = setup_left_chain();
    let mut my_bfs = BFS::new(my_graph, 0).unwrap();

    my_bfs.bfs_loop(0);

    assert_eq!(my_bfs.runtime.distances.get(&0).unwrap().clone(), 0);
    assert_eq!(my_bfs.runtime.distances.get(&1).unwrap().clone(), 1);
    assert_eq!(my_bfs.runtime.distances.get(&2).unwrap().clone(), 2);
    assert_eq!(my_bfs.runtime.distances.get(&3).unwrap().clone(), 3);
    assert_eq!(my_bfs.runtime.distances.get(&4).unwrap().clone(), 4);
    assert_eq!(my_bfs.runtime.distances.get(&5).unwrap().clone(), 5);
    Ok(())
}

#[test]
fn test_dfs_works_fine() -> Result<(), String> {
    let my_graph = setup_left_chain();
    let mut my_dfs = DFS::new(my_graph, 0).unwrap();

    let result = my_dfs.dfs_loop(0);
    assert_eq!(7, result, "Number of nodes should be {}", 7);
    assert!(
        my_dfs.runtime.distances.values().all(|distance| *distance != -1),
        "All the nodes should have been visited"
    );
    Ok(())
}

#[test]
fn bfs_chain_distances_through_six() {
    let mut b = BFS::new(setup_left_chain(), 0).unwrap();
    b.run();
    for i in 0..7u32 {
        assert_eq!(*b.runtime.distances.get(&i).unwrap(), i as i32);
    }
    assert!(b.runtime.queue.is_empty());
}

#[test]
fn bfs_weighted_gives_least_total_weight() {
    let g = Graph::from_list_of_weighted_edges(vec![(0, 1, 10), (0, 2, 1), (2, 1, 2), (1, 3, 1)], false);
    let mut b = BFS::new(g, 0).unwrap();
    b.run();
    assert_eq!(*b.runtime.distances.get(&1).unwrap(), 3);
    assert_eq!(*b.runtime.distances.get(&2).unwrap(), 1);
    assert_eq!(*b.runtime.distances.get(&3).unwrap(), 4);
}

#[test]
fn bfs_honors_source_and_leaves_unreached_at_sentinel() {
    let mut b = BFS::new(setup_left_chain(), 3).unwrap();
    b.run();
    assert_eq!(*b.runtime.distances.get(&3).unwrap(), 0);
    assert_eq!(*b.runtime.distances.get(&6).unwrap(), 3);
    assert_eq!(*b.runtime.distances.get(&0).unwrap(), -1);
    assert_eq!(b.runtime.active_node, 6);
    assert!(b.runtime.log.iter().any(|l| l == "The distance from node 3 to node: 0 is -1"));
    assert!(b.runtime.log.iter().any(|l| l == "Node 6 with neighbors []"));
}

#[test]
fn neighbor_line_lists_all_targets() {
    let g = Graph::from_list_of_edges(vec![(10, 2), (10, 35)], false);
    let mut d = DFS::new(g, 10).unwrap();
    d.run();
    let line = d.runtime.log.iter().find(|l| l.starts_with("Node 10 ")).unwrap().clone();
    assert!(line == "Node 10 with neighbors [2, 35]" || line == "Node 10 with neighbors [35, 2]");
}

#[test]
fn bfs_and_dfs_need_the_source() {
    assert!(BFS::new(setup_left_chain(), 42).is_none());
    assert!(DFS::new(setup_left_chain(), 42).is_none());
}

#[test]
fn bfs_and_dfs_refuse_dangling_edges() {
    let mut g = setup_left_chain();
    g.remove_node_from_graph(6);
    assert!(BFS::new(g, 0).is_none());
    let mut g = setup_left_chain();
    g.remove_node_from_graph(6);
    assert!(DFS::new(g, 0).is_none());
}

#[test]
fn bfs_accepts_zero_weight_edges() {
    let g = Graph::from_list_of_weighted_edges(vec![(0, 1, 0)], false);
    assert!(BFS::new(g, 0).is_some());
    let g = Graph::from_list_of_weighted_edges(vec![(0, 1, 0), (1, 2, 3), (0, 2, 5), (2, 3, 0)], false);
    let mut b = BFS::new(g, 0).unwrap();
    b.run();
    assert_eq!(*b.runtime.distances.get(&0).unwrap(), 0);
    assert_eq!(*b.runtime.distances.get(&1).unwrap(), 0);
    assert_eq!(*b.runtime.distances.get(&2).unwrap(), 3);
    assert_eq!(*b.runtime.distances.get(&3).unwrap(), 3);
}

#[test]
fn fresh_traversals_start_at_sentinel() {
    let b = BFS::new(setup_left_chain(), 0).unwrap();
    assert!(b.runtime.distances.values().all(|d| *d == -1));
    assert_eq!(b.runtime.distances.len(), 7);
    assert!(b.runtime.log.is_empty());
    let d = DFS::new(setup_left_chain(), 0).unwrap();
    assert!(d.runtime.distances.values().all(|x| *x == -1));
}

#[test]
fn bfs_run_logs_nodes_neighbors_and_distances() {
    let mut b = BFS::new(setup_left_chain(), 0).unwrap();
    b.run();
    assert_eq!(b.runtime.log.len(), 21);
    assert!(b.runtime.log[..7].iter().any(|l| l == "the graph has a node: 6"));
    assert!(b.runtime.log[7..14].iter().any(|l| l.contains("Node 5") && l.contains('6')));
    assert!(b.runtime.log[14..].iter().any(|l| l == "The distance from node 0 to node: 6 is 6"));
    assert!(b.runtime.log[7..14].iter().any(|l| l == "Node 5 with neighbors [6]"));
    b.run();
    assert_eq!(b.runtime.log.len(), 42);
}

#[test]
fn dfs_run_visits_reachable_nodes_only() {
    let g = Graph::from_list_of_edges(vec![(0, 1), (1, 2), (3, 0)], false);
    let mut d = DFS::new(g, 0).unwrap();
    d.run();
    assert_eq!(*d.runtime.distances.get(&2).unwrap(), 0);
    assert_eq!(*d.runtime.distances.get(&3).unwrap(), -1);
    assert_eq!(d.runtime.log.len(), 8);
}

#[test]
fn dfs_undirected_tree_count() {
    let g = Graph::from_list_of_edges(vec![(0, 1), (0, 2), (2, 3), (3, 0)], true);
    let mut d = DFS::new(g, 0).unwrap();
    assert_eq!(d.dfs_loop(0), 4);
    assert_eq!(d.dfs_loop(0), 1);
}

#[test]
fn snapshots_export_state_and_graph() {
    let mut b = BFS::new(setup_left_chain(), 0).unwrap();
    b.run();
    let s = b.get_snapshot();
    assert_eq!(s.data.distances, b.runtime.distances);
    assert_eq!(s.data.log, b.runtime.log);
    assert_eq!(s.data.queue, b.runtime.queue);
    assert_eq!(s.graph.nodes.len(), 7);
    assert_eq!(s.graph.edges.len(), 6);
    let mut d = DFS::new(setup_left_chain(), 0).unwrap();
    d.run();
    let s = d.get_snapshot();
    assert_eq!(s.data.distances, d.runtime.distances);
    assert_eq!(s.graph.nodes.len(), 7);
}

#[test]
fn logger_buffers_until_flush() {
    let mut l = Logger::new();
    assert!(l.handle(Message::Log("a".to_string())).is_empty());
    assert!(l.handle(Message::Log("b".to_string())).is_empty());
    assert_eq!(l.pending().len(), 2);
    assert_eq!(l.handle(Message::Flush), vec!["a".to_string(), "b".to_string()]);
    assert!(l.pending().is_empty());
    assert!(l.handle(Message::Flush).is_empty());
}

#[test]
fn edge_model_default() {
    let m = EdgeModel::default();
    assert_eq!(m.line_type, 0);
    assert_eq!(m.thickness, 10);
}
