//! Tests of the compositor façade.

use kremis_core::{Compositor, EdgeWeight, EntityId, Graph, NodeId};

#[test]
fn compose_returns_none_for_missing_node() {
    let graph = Graph::new();
    let result = Compositor::compose(&graph, NodeId(999), 5);
    assert!(result.is_none());
}

#[test]
fn compose_returns_artifact_for_existing_node() {
    let mut graph = Graph::new();
    let node = graph.insert_node(EntityId(1));

    let result = Compositor::compose(&graph, node, 1);
    assert!(result.is_some());
    assert!(!result.as_ref().map(|a| a.path.is_empty()).unwrap_or(true));
}

#[test]
fn extract_path_finds_route() {
    let mut graph = Graph::new();
    let a = graph.insert_node(EntityId(1));
    let b = graph.insert_node(EntityId(2));
    let c = graph.insert_node(EntityId(3));

    graph.insert_edge(a, b, EdgeWeight::new(10));
    graph.insert_edge(b, c, EdgeWeight::new(10));

    let artifact = Compositor::extract_path(&graph, a, c);
    assert!(artifact.is_some());

    let path = artifact.as_ref().map(|a| &a.path);
    assert_eq!(path, Some(&vec![a, b, c]));
}

#[test]
fn find_intersection_returns_common_neighbors() {
    let mut graph = Graph::new();
    let a = graph.insert_node(EntityId(1));
    let b = graph.insert_node(EntityId(2));
    let common = graph.insert_node(EntityId(100));

    graph.insert_edge(a, common, EdgeWeight::new(1));
    graph.insert_edge(b, common, EdgeWeight::new(1));

    let artifact = Compositor::find_intersection(&graph, &[a, b]);
    assert_eq!(artifact.path, vec![common]);
}

#[test]
fn extract_path_carries_hop_weights() {
    let mut graph = Graph::new();
    let a = graph.insert_node(EntityId(1));
    let b = graph.insert_node(EntityId(2));
    let c = graph.insert_node(EntityId(3));

    graph.insert_edge(a, b, EdgeWeight::new(7));
    graph.insert_edge(b, c, EdgeWeight::new(8));

    let artifact = Compositor::extract_path(&graph, a, c).unwrap();
    assert_eq!(artifact.subgraph, vec![
        (a, b, EdgeWeight::new(7)),
        (b, c, EdgeWeight::new(8)),
    ]);
}

#[test]
fn related_context_matches_traverse() {
    let mut graph = Graph::new();
    let a = graph.insert_node(EntityId(1));
    let b = graph.insert_node(EntityId(2));
    graph.insert_edge(a, b, EdgeWeight::new(1));

    let related = Compositor::related_context(&graph, a, 3);
    let traversed = graph.traverse(a, 3);
    assert_eq!(related, traversed);
}
