use adjacency_graph::AdjacencyVecGraph;
use adjacency_graph::GraphTraversal;
use adjacency_graph::ReferenceGraph;

fn drain_pre(g: &AdjacencyVecGraph<u64>, root: u64) -> Vec<u64> {
    let mut it = g.pre_order_dfs(root);
    let mut out = Vec::new();
    while let Some(k) = it.next() {
        out.push(k);
    }
    out
}

fn drain_post(g: &AdjacencyVecGraph<u64>, root: u64) -> Vec<u64> {
    let mut it = g.post_order_dfs(root);
    let mut out = Vec::new();
    while let Some(k) = it.next() {
        out.push(k);
    }
    out
}

fn drain_bfs(g: &AdjacencyVecGraph<u64>, root: u64) -> Vec<u64> {
    let mut it = g.bfs(root);
    let mut out = Vec::new();
    while let Some(k) = it.next() {
        out.push(k);
    }
    out
}

fn drain_top(g: &AdjacencyVecGraph<u64>) -> Vec<u64> {
    let mut it = g.top_sort();
    let mut out = Vec::new();
    while let Some(k) = it.next() {
        out.push(k);
    }
    out
}

fn distinct_sorted(mut v: Vec<u64>) -> Vec<u64> {
    v.sort();
    v.dedup();
    v
}

/// The worked example: a strongly entangled four-node component.
fn worked_example() -> AdjacencyVecGraph<u64> {
    let mut g: AdjacencyVecGraph<u64> = AdjacencyVecGraph::new();
    g.add_node(1, 1);
    g.add_node(2, 2);
    g.add_node(3, 3);
    g.add_node(4, 4);
    g.add_directed_edge(1, 2);
    g.add_directed_edge(2, 1);
    g.add_directed_edge(2, 3);
    g.add_directed_edge(2, 4);
    g.add_directed_edge(3, 4);
    g.add_directed_edge(4, 3);
    g
}

#[test]
fn worked_example_is_connected_and_pre_order_starts_at_root() {
    let g = worked_example();
    // connectivity, computed by running a traversal and comparing the
    // emission count with the node count
    let seen = drain_bfs(&g, 1);
    assert_eq!(seen.len(), g.node_count());
    assert_eq!(distinct_sorted(seen), vec![1, 2, 3, 4]);

    let pre = drain_pre(&g, 1);
    assert_eq!(pre[0], 1);
    assert_eq!(pre.len(), 4);
    assert_eq!(distinct_sorted(pre), vec![1, 2, 3, 4]);
}

#[test]
fn unreachable_nodes_are_not_emitted() {
    let mut g: AdjacencyVecGraph<&str> = AdjacencyVecGraph::new();
    g.add_node(12, "A");
    g.add_node(46, "B");
    g.add_directed_edge(12, 46);
    let mut it = g.pre_order_dfs(46);
    assert_eq!(it.next(), Some(46));
    assert_eq!(it.next(), None);
}

#[test]
fn empty_graph_has_no_keys_and_an_empty_topological_sequence() {
    let g: AdjacencyVecGraph<u64> = AdjacencyVecGraph::new();
    assert_eq!(g.keys().len(), 0);
    assert_eq!(drain_top(&g), Vec::<u64>::new());
}

#[test]
fn every_traversal_emits_each_component_member_exactly_once() {
    let g = worked_example();
    for root in [1, 2] {
        let pre = drain_pre(&g, root);
        let post = drain_post(&g, root);
        let bfs = drain_bfs(&g, root);
        assert_eq!(pre.len(), 4);
        assert_eq!(post.len(), 4);
        assert_eq!(bfs.len(), 4);
        assert_eq!(distinct_sorted(pre), vec![1, 2, 3, 4]);
        assert_eq!(distinct_sorted(post), vec![1, 2, 3, 4]);
        assert_eq!(distinct_sorted(bfs), vec![1, 2, 3, 4]);
    }
}

#[test]
fn traversals_emit_only_reachable_keys() {
    let mut g: AdjacencyVecGraph<u64> = AdjacencyVecGraph::new();
    for k in 1..=5 {
        g.add_node(k, k);
    }
    g.add_directed_edge(1, 2);
    g.add_directed_edge(2, 3);
    g.add_directed_edge(4, 5);
    assert_eq!(distinct_sorted(drain_pre(&g, 1)), vec![1, 2, 3]);
    assert_eq!(distinct_sorted(drain_post(&g, 4)), vec![4, 5]);
    assert_eq!(distinct_sorted(drain_bfs(&g, 3)), vec![3]);
}

#[test]
fn post_order_emits_descendants_first() {
    let mut g: AdjacencyVecGraph<u64> = AdjacencyVecGraph::new();
    g.add_node(1, 1);
    g.add_node(2, 2);
    g.add_node(3, 3);
    g.add_directed_edge(1, 2);
    g.add_directed_edge(2, 3);
    assert_eq!(drain_post(&g, 1), vec![3, 2, 1]);
}

#[test]
fn post_order_on_a_two_cycle_finishes_the_successor_first() {
    let mut g: AdjacencyVecGraph<u64> = AdjacencyVecGraph::new();
    g.add_node(1, 1);
    g.add_node(2, 2);
    g.add_directed_edge(1, 2);
    g.add_directed_edge(2, 1);
    assert_eq!(drain_post(&g, 1), vec![2, 1]);
    assert_eq!(drain_post(&g, 2), vec![1, 2]);
}

#[test]
fn bfs_emits_in_distance_layers() {
    let mut g: AdjacencyVecGraph<u64> = AdjacencyVecGraph::new();
    for k in 1..=4 {
        g.add_node(k, k);
    }
    g.add_directed_edge(1, 2);
    g.add_directed_edge(1, 3);
    g.add_directed_edge(2, 4);
    assert_eq!(drain_bfs(&g, 1), vec![1, 2, 3, 4]);
}

#[test]
fn topological_sort_respects_every_edge_of_a_dag() {
    let mut g: AdjacencyVecGraph<u64> = AdjacencyVecGraph::new();
    for k in 1..=6 {
        g.add_node(k, k);
    }
    let dag_edges = [(1, 2), (1, 3), (2, 4), (3, 4), (4, 5), (3, 6)];
    for (a, b) in dag_edges {
        g.add_directed_edge(a, b);
    }
    let order = drain_top(&g);
    assert_eq!(distinct_sorted(order.clone()), vec![1, 2, 3, 4, 5, 6]);
    let pos = |k: u64| order.iter().position(|&x| x == k).unwrap();
    for (a, b) in dag_edges {
        assert!(pos(a) < pos(b), "edge ({a}, {b}) out of order in {order:?}");
    }
}

#[test]
fn topological_sort_covers_disconnected_components() {
    let mut g: AdjacencyVecGraph<u64> = AdjacencyVecGraph::new();
    for k in [10, 20, 30, 40] {
        g.add_node(k, k);
    }
    g.add_directed_edge(10, 20);
    g.add_directed_edge(30, 40);
    let order = drain_top(&g);
    assert_eq!(distinct_sorted(order.clone()), vec![10, 20, 30, 40]);
    let pos = |k: u64| order.iter().position(|&x| x == k).unwrap();
    assert!(pos(10) < pos(20));
    assert!(pos(30) < pos(40));
}

#[test]
fn repeated_traversals_of_an_unmodified_graph_agree() {
    let g = worked_example();
    assert_eq!(drain_pre(&g, 2), drain_pre(&g, 2));
    assert_eq!(drain_post(&g, 2), drain_post(&g, 2));
    assert_eq!(drain_bfs(&g, 2), drain_bfs(&g, 2));
    assert_eq!(drain_top(&g), drain_top(&g));
}

#[test]
fn with_visited_treats_preseeded_keys_as_finished() {
    let mut g: AdjacencyVecGraph<u64> = AdjacencyVecGraph::new();
    for k in 1..=3 {
        g.add_node(k, k);
    }
    g.add_directed_edge(1, 2);
    g.add_directed_edge(2, 3);

    let mut pre = adjacency_graph::PreOrderDFS::with_visited(&g, 1, vec![2]);
    let mut seen = Vec::new();
    while let Some(k) = pre.next() {
        seen.push(k);
    }
    assert_eq!(seen, vec![1]);

    let mut post = adjacency_graph::PostOrderDFS::with_visited(&g, 1, vec![3]);
    let mut fin = Vec::new();
    while let Some(k) = post.next() {
        fin.push(k);
    }
    assert_eq!(fin, vec![2, 1]);

    let mut b = adjacency_graph::BFS::with_visited(&g, 1, vec![1]);
    assert_eq!(b.next(), None);
}

#[test]
fn traversal_skips_edges_to_unregistered_destinations() {
    let mut g: AdjacencyVecGraph<u64> = AdjacencyVecGraph::new();
    g.add_node(1, 1);
    g.add_directed_edge(1, 99);
    assert_eq!(drain_pre(&g, 1), vec![1]);
    assert_eq!(drain_bfs(&g, 1), vec![1]);
    assert_eq!(drain_post(&g, 1), vec![1]);
}
