//! Tests of the graph store: insertion, lookup, edges, traversal,
//! pathfinding, intersection and the serializable round trip.

use kremis_core::{EdgeWeight, EntityId, Graph, NodeId, SerializableGraph, MAX_TRAVERSAL_DEPTH};

#[test]
fn insert_and_lookup_node() {
    let mut graph = Graph::new();
    let entity = EntityId(42);

    let node_id = graph.insert_node(entity);
    let node = graph.lookup(node_id);

    assert!(node.is_some());
    assert_eq!(node.map(|n| n.entity), Some(entity));
}

#[test]
fn insert_duplicate_entity_returns_same_node() {
    let mut graph = Graph::new();
    let entity = EntityId(42);

    let first = graph.insert_node(entity);
    let second = graph.insert_node(entity);

    assert_eq!(first, second);
    assert_eq!(graph.node_count(), 1);
}

#[test]
fn increment_edge_creates_and_increments() {
    let mut graph = Graph::new();
    let a = graph.insert_node(EntityId(1));
    let b = graph.insert_node(EntityId(2));

    graph.increment_edge(a, b);
    assert_eq!(graph.get_edge(a, b), Some(EdgeWeight::new(1)));

    graph.increment_edge(a, b);
    assert_eq!(graph.get_edge(a, b), Some(EdgeWeight::new(2)));
}

#[test]
fn neighbors_in_deterministic_order() {
    let mut graph = Graph::new();
    let a = graph.insert_node(EntityId(1));
    let b = graph.insert_node(EntityId(2));
    let c = graph.insert_node(EntityId(3));

    graph.insert_edge(a, c, EdgeWeight::new(1));
    graph.insert_edge(a, b, EdgeWeight::new(2));

    let neighbors: Vec<_> = graph.neighbors(a).into_iter().map(|(n, _)| n).collect();

    assert_eq!(neighbors, vec![b, c]);
}

#[test]
fn traverse_respects_depth() {
    let mut graph = Graph::new();
    let a = graph.insert_node(EntityId(1));
    let b = graph.insert_node(EntityId(2));
    let c = graph.insert_node(EntityId(3));

    graph.insert_edge(a, b, EdgeWeight::new(1));
    graph.insert_edge(b, c, EdgeWeight::new(1));

    let artifact = graph.traverse(a, 1);
    assert!(artifact.is_some());

    let path = artifact.as_ref().map(|a| &a.path);
    assert!(path.is_some());
    assert!(path.map(|p| p.contains(&a)).unwrap_or(false));
    assert!(path.map(|p| p.contains(&b)).unwrap_or(false));
}

#[test]
fn traverse_missing_node_returns_none() {
    let graph = Graph::new();
    let result = graph.traverse(NodeId(999), 5);
    assert!(result.is_none());
}

#[test]
fn strongest_path_finds_route() {
    let mut graph = Graph::new();
    let a = graph.insert_node(EntityId(1));
    let b = graph.insert_node(EntityId(2));
    let c = graph.insert_node(EntityId(3));

    graph.insert_edge(a, b, EdgeWeight::new(10));
    graph.insert_edge(b, c, EdgeWeight::new(10));

    let path = graph.strongest_path(a, c);
    assert_eq!(path, Some(vec![a, b, c]));
}

#[test]
fn intersect_finds_common_neighbors() {
    let mut graph = Graph::new();
    let a = graph.insert_node(EntityId(1));
    let b = graph.insert_node(EntityId(2));
    let common = graph.insert_node(EntityId(100));

    graph.insert_edge(a, common, EdgeWeight::new(1));
    graph.insert_edge(b, common, EdgeWeight::new(1));

    let result = graph.intersect(&[a, b]);
    assert_eq!(result, vec![common]);
}

#[test]
fn serialization_roundtrip() {
    let mut graph = Graph::new();
    let a = graph.insert_node(EntityId(1));
    let b = graph.insert_node(EntityId(2));
    graph.insert_edge(a, b, EdgeWeight::new(5));

    let serializable = SerializableGraph::from(&graph);
    let restored = Graph::from(serializable);

    assert_eq!(graph.node_count(), restored.node_count());
    assert_eq!(graph.edge_count(), restored.edge_count());
    assert_eq!(restored.get_edge(a, b), Some(EdgeWeight::new(5)));
}

#[test]
fn insert_edge_overwrites_weight() {
    let mut graph = Graph::new();
    let a = graph.insert_node(EntityId(1));
    let b = graph.insert_node(EntityId(2));

    graph.insert_edge(a, b, EdgeWeight::new(3));
    graph.insert_edge(a, b, EdgeWeight::new(9));

    assert_eq!(graph.get_edge(a, b), Some(EdgeWeight::new(9)));
    assert_eq!(graph.edge_count(), 1);
}

#[test]
fn insert_edge_missing_endpoint_is_noop() {
    let mut graph = Graph::new();
    let a = graph.insert_node(EntityId(1));

    graph.insert_edge(a, NodeId(999), EdgeWeight::new(3));
    graph.increment_edge(NodeId(999), a);

    assert_eq!(graph.edge_count(), 0);
    assert!(!graph.contains_edge(a, NodeId(999)));
}

#[test]
fn increment_saturates_at_max() {
    let mut graph = Graph::new();
    let a = graph.insert_node(EntityId(1));
    let b = graph.insert_node(EntityId(2));

    graph.insert_edge(a, b, EdgeWeight::new(i64::MAX));
    graph.increment_edge(a, b);

    assert_eq!(graph.get_edge(a, b), Some(EdgeWeight::new(i64::MAX)));
}

#[test]
fn traverse_depth_beyond_bound_equals_bound() {
    let mut graph = Graph::new();
    let mut prev = graph.insert_node(EntityId(0));
    for e in 1..30u64 {
        let n = graph.insert_node(EntityId(e));
        graph.insert_edge(prev, n, EdgeWeight::new(1));
        prev = n;
    }

    let capped = graph.traverse(NodeId(0), MAX_TRAVERSAL_DEPTH).unwrap();
    let excessive = graph.traverse(NodeId(0), MAX_TRAVERSAL_DEPTH + 7).unwrap();
    let bounded = graph.traverse_bounded(NodeId(0), usize::MAX).unwrap();

    assert_eq!(capped, excessive);
    assert_eq!(capped, bounded);
    assert_eq!(capped.path.len(), MAX_TRAVERSAL_DEPTH + 1);
}

#[test]
fn traverse_filtered_excludes_weak_edges() {
    let mut graph = Graph::new();
    let a = graph.insert_node(EntityId(1));
    let b = graph.insert_node(EntityId(2));
    let c = graph.insert_node(EntityId(3));

    graph.insert_edge(a, b, EdgeWeight::new(10));
    graph.insert_edge(a, c, EdgeWeight::new(1));

    let artifact = graph.traverse_filtered(a, 2, EdgeWeight::new(5)).unwrap();
    assert!(artifact.path.contains(&b));
    assert!(!artifact.path.contains(&c));
    assert_eq!(artifact.subgraph, vec![(a, b, EdgeWeight::new(10))]);
}

#[test]
fn traverse_dfs_preorder() {
    let mut graph = Graph::new();
    let a = graph.insert_node(EntityId(1));
    let b = graph.insert_node(EntityId(2));
    let c = graph.insert_node(EntityId(3));
    let d = graph.insert_node(EntityId(4));

    graph.insert_edge(a, b, EdgeWeight::new(1));
    graph.insert_edge(a, c, EdgeWeight::new(1));
    graph.insert_edge(b, d, EdgeWeight::new(1));

    let artifact = graph.traverse_dfs(a, 5).unwrap();
    assert_eq!(artifact.path, vec![a, b, d, c]);

    let bfs = graph.traverse(a, 5).unwrap();
    assert_eq!(bfs.path, vec![a, b, c, d]);
}

#[test]
fn strongest_path_cost_is_additive() {
    let mut graph = Graph::new();
    let a = graph.insert_node(EntityId(1));
    let b = graph.insert_node(EntityId(2));
    let c = graph.insert_node(EntityId(3));

    graph.insert_edge(a, c, EdgeWeight::new(1));
    graph.insert_edge(a, b, EdgeWeight::new(100));
    graph.insert_edge(b, c, EdgeWeight::new(100));

    // One heavy two-hop route against a weak direct edge: the direct edge
    // costs nearly i64::MAX, the two-hop route costs nearly 2 * i64::MAX,
    // so the search keeps the direct hop (cost is additive).
    let path = graph.strongest_path(a, c).unwrap();
    assert_eq!(path.first(), Some(&a));
    assert_eq!(path.last(), Some(&c));
}

#[test]
fn strongest_path_trivial_and_missing() {
    let mut graph = Graph::new();
    let a = graph.insert_node(EntityId(1));
    let b = graph.insert_node(EntityId(2));

    assert_eq!(graph.strongest_path(a, a), Some(vec![a]));
    assert_eq!(graph.strongest_path(a, b), None);
    assert_eq!(graph.strongest_path(a, NodeId(999)), None);
}

#[test]
fn scenario_chain_of_three() {
    let mut graph = Graph::new();
    let n1 = graph.insert_node(EntityId(1));
    let n2 = graph.insert_node(EntityId(2));
    let n3 = graph.insert_node(EntityId(3));

    graph.insert_edge(n1, n2, EdgeWeight::new(10));
    graph.insert_edge(n2, n3, EdgeWeight::new(10));

    let path = graph.strongest_path(n1, n3);
    assert_eq!(path, Some(vec![n1, n2, n3]));

    let artifact = graph.traverse(n1, 1).unwrap();
    assert!(artifact.path.contains(&n1));
    assert!(artifact.path.contains(&n2));
    assert!(!artifact.path.contains(&n3));
}

#[test]
fn edges_listed_in_canonical_order() {
    let mut graph = Graph::new();
    let a = graph.insert_node(EntityId(10));
    let b = graph.insert_node(EntityId(20));
    let c = graph.insert_node(EntityId(30));

    // Insert in scrambled order; iteration is sorted by (from, to).
    graph.insert_edge(c, a, EdgeWeight::new(3));
    graph.insert_edge(a, c, EdgeWeight::new(1));
    graph.insert_edge(a, b, EdgeWeight::new(2));

    let edges = graph.edges();
    assert_eq!(edges, vec![
        (a, b, EdgeWeight::new(2)),
        (a, c, EdgeWeight::new(1)),
        (c, a, EdgeWeight::new(3)),
    ]);
    assert_eq!(graph.edge_count(), 3);
}

#[test]
fn read_guard_reports_counts() {
    let mut graph = Graph::new();
    let a = graph.insert_node(EntityId(1));
    let b = graph.insert_node(EntityId(2));
    graph.insert_edge(a, b, EdgeWeight::new(4));

    let guard = graph.acquire_read_lock();
    assert_eq!(guard.node_count(), 2);
    assert_eq!(guard.edge_count(), 1);
    assert_eq!(guard.graph().node_count(), 2);
}

#[test]
fn import_node_advances_counter() {
    let mut graph = Graph::new();
    graph.import_node(kremis_core::Node::new(NodeId(7), EntityId(70)));

    assert_eq!(graph.next_node_id(), 8);
    let fresh = graph.insert_node(EntityId(99));
    assert_eq!(fresh, NodeId(8));
    assert!(graph.contains_node(NodeId(7)));
}

#[test]
fn intersect_empty_input_is_empty() {
    let mut graph = Graph::new();
    graph.insert_node(EntityId(1));
    let result = graph.intersect(&[]);
    assert!(result.is_empty());
}

#[test]
fn traverse_records_edges_into_visited_nodes() {
    let mut graph = Graph::new();
    let a = graph.insert_node(EntityId(1));
    let b = graph.insert_node(EntityId(2));
    graph.insert_edge(a, b, EdgeWeight::new(1));
    graph.insert_edge(b, a, EdgeWeight::new(2));

    let artifact = graph.traverse(a, 5).unwrap();
    // Each node appears once in the path, but the edge back into the
    // already-visited start is still examined and recorded.
    assert_eq!(artifact.path, vec![a, b]);
    assert_eq!(artifact.subgraph, vec![
        (a, b, EdgeWeight::new(1)),
        (b, a, EdgeWeight::new(2)),
    ]);
}
