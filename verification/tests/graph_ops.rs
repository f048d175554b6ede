use adjacency_graph::AdjacencyVecGraph;

fn sample_graph() -> AdjacencyVecGraph<u64> {
    let mut g: AdjacencyVecGraph<u64> = AdjacencyVecGraph::new();
    g.add_node(1, 10);
    g.add_node(2, 20);
    g.add_node(3, 30);
    g.add_directed_edge(1, 2);
    g.add_directed_edge(2, 3);
    g.add_directed_edge(3, 1);
    g
}

#[test]
fn add_node_then_get_and_contains() {
    let mut g: AdjacencyVecGraph<&str> = AdjacencyVecGraph::new();
    assert!(!g.contains_node(7));
    g.add_node(7, "seven");
    assert_eq!(g.get(7), Some(&"seven"));
    assert!(g.contains_node(7));
    assert_eq!(g.node_count(), 1);
}

#[test]
fn readding_overwrites_payload_and_clears_edges() {
    let mut g = sample_graph();
    assert!(g.contains_edge(1, 2));
    g.add_node(1, 100);
    assert_eq!(g.get(1), Some(&100));
    assert!(!g.contains_edge(1, 2));
    for (from, _to) in g.edges() {
        assert_ne!(from, 1);
    }
    // edges into the re-added node survive
    assert!(g.contains_edge(3, 1));
}

#[test]
fn self_loop_requests_are_rejected() {
    let mut g = sample_graph();
    let before = g.edge_count();
    g.add_directed_edge(2, 2);
    assert_eq!(g.edge_count(), before);
    assert!(!g.contains_edge(2, 2));
    g.add_undirected_edge(3, 3);
    assert_eq!(g.edge_count(), before);
    assert!(!g.contains_edge(3, 3));
}

#[test]
fn connecting_from_unregistered_source_is_a_noop() {
    let mut g = sample_graph();
    let before = g.edge_count();
    g.add_directed_edge(99, 1);
    assert_eq!(g.edge_count(), before);
    assert!(!g.contains_edge(99, 1));
}

#[test]
fn edges_to_unregistered_destinations_are_recorded() {
    let mut g: AdjacencyVecGraph<u64> = AdjacencyVecGraph::new();
    g.add_node(1, 10);
    g.add_directed_edge(1, 99);
    assert!(g.contains_edge(1, 99));
    assert!(g.is_adjacent_to(1, 99));
    assert_eq!(g.edge_count(), 1);
    assert!(!g.contains_node(99));
}

#[test]
fn remove_node_purges_every_back_reference() {
    let mut g = sample_graph();
    g.add_directed_edge(2, 1);
    let removed = g.remove_node(1);
    assert_eq!(removed, Some(10));
    assert!(!g.contains_node(1));
    assert!(!g.contains_edge(2, 1));
    assert!(!g.contains_edge(3, 1));
    assert_eq!(g.node_count(), 2);
    // the others keep their edges
    assert!(g.contains_edge(2, 3));
}

#[test]
fn remove_node_of_missing_key_is_absent() {
    let mut g = sample_graph();
    assert_eq!(g.remove_node(99), None);
    assert_eq!(g.node_count(), 3);
}

#[test]
fn remove_directed_and_undirected_edges() {
    let mut g: AdjacencyVecGraph<u64> = AdjacencyVecGraph::new();
    g.add_node(1, 1);
    g.add_node(2, 2);
    g.add_undirected_edge(1, 2);
    assert!(g.contains_edge(1, 2) && g.contains_edge(2, 1));
    assert_eq!(g.edge_count(), 2);
    g.remove_directed_edge(1, 2);
    assert!(!g.contains_edge(1, 2) && g.contains_edge(2, 1));
    g.add_undirected_edge(1, 2);
    g.remove_undirected_edge(1, 2);
    assert!(!g.contains_edge(1, 2) && !g.contains_edge(2, 1));
    assert_eq!(g.edge_count(), 0);
}

#[test]
fn edge_count_sums_all_successor_sets() {
    let g = sample_graph();
    assert_eq!(g.edge_count(), 3);
    let mut pairs = g.edges();
    pairs.sort();
    assert_eq!(pairs, vec![(1, 2), (2, 3), (3, 1)]);
}

#[test]
fn get_mut_updates_the_payload_in_place() {
    let mut g = sample_graph();
    match g.get_mut(2) {
        Some(v) => *v = 200,
        None => panic!("node 2 must be present"),
    }
    assert_eq!(g.get(2), Some(&200));
    assert!(g.get_mut(99).is_none());
}

#[test]
fn clear_and_is_empty() {
    let mut g = sample_graph();
    assert!(!g.is_empty());
    g.clear();
    assert!(g.is_empty());
    assert_eq!(g.node_count(), 0);
    assert_eq!(g.edge_count(), 0);
}

#[test]
fn constructors_start_empty() {
    let a: AdjacencyVecGraph<u64> = AdjacencyVecGraph::new();
    let b: AdjacencyVecGraph<u64> = AdjacencyVecGraph::with_capacity(16);
    let c: AdjacencyVecGraph<u64> = Default::default();
    assert!(a.is_empty() && b.is_empty() && c.is_empty());
}

#[test]
fn add_node_with_adjacent_capacity_behaves_like_add_node() {
    let mut g: AdjacencyVecGraph<u64> = AdjacencyVecGraph::new();
    g.add_node_with_adjacent_capacity(4, 40, 8);
    assert_eq!(g.get(4), Some(&40));
    g.add_directed_edge(4, 5);
    g.add_node_with_adjacent_capacity(4, 44, 2);
    assert_eq!(g.get(4), Some(&44));
    assert!(!g.contains_edge(4, 5));
}

#[test]
fn value_and_pair_enumeration() {
    let g = sample_graph();
    let mut vals: Vec<u64> = g.values().clone();
    vals.sort();
    assert_eq!(vals, vec![10, 20, 30]);

    let mut pairs: Vec<(u64, u64)> = g.iter().into_iter().map(|(k, v)| (k, *v)).collect();
    pairs.sort();
    assert_eq!(pairs, vec![(1, 10), (2, 20), (3, 30)]);

    let mut owned: Vec<(u64, u64)> = sample_graph().into_iter();
    owned.sort();
    assert_eq!(owned, vec![(1, 10), (2, 20), (3, 30)]);

    let mut ov: Vec<u64> = sample_graph().into_values();
    ov.sort();
    assert_eq!(ov, vec![10, 20, 30]);
}

#[test]
fn drain_empties_the_graph_and_hands_back_all_nodes() {
    let mut g = sample_graph();
    let mut drained = g.drain();
    drained.sort();
    assert_eq!(drained, vec![(1, 10), (2, 20), (3, 30)]);
    assert!(g.is_empty());
    assert_eq!(g.edge_count(), 0);
}

#[test]
fn map_values_preserves_keys_and_topology() {
    let g = sample_graph();
    let mapped: AdjacencyVecGraph<String> = g.map_values(|v| format!("v{}", v));
    assert_eq!(mapped.get(1), Some(&"v10".to_string()));
    assert_eq!(mapped.get(2), Some(&"v20".to_string()));
    assert!(mapped.contains_edge(1, 2));
    assert!(mapped.contains_edge(2, 3));
    assert!(mapped.contains_edge(3, 1));
    assert_eq!(mapped.edge_count(), 3);
    assert_eq!(mapped.node_count(), 3);
}

#[test]
fn map_values_with_key_sees_the_key() {
    let g = sample_graph();
    let mapped: AdjacencyVecGraph<u64> = g.map_values_with_key(|k, v| k * 1000 + v);
    assert_eq!(mapped.get(1), Some(&1010));
    assert_eq!(mapped.get(2), Some(&2020));
    assert_eq!(mapped.get(3), Some(&3030));
    assert!(mapped.contains_edge(3, 1));
}
