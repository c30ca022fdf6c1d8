//! Tests of hypothesis verification and confidence annotation.

use kremis_core::{verify_hypothesis, EdgeWeight, EntityId, Graph, Query};

#[test]
fn verify_lookup_existing() {
    let mut graph = Graph::new();
    let entity = EntityId(42);
    graph.insert_node(entity);

    let query = Query::lookup(entity);
    let result = verify_hypothesis(&graph, query);

    assert!(result.verified);
    assert!(result.artifact.is_some());
    assert_eq!(result.confidence.score, 100);
}

#[test]
fn verify_lookup_missing() {
    let graph = Graph::new();
    let query = Query::lookup(EntityId(999));
    let result = verify_hypothesis(&graph, query);

    assert!(!result.verified);
    assert!(result.artifact.is_none());
    assert_eq!(result.confidence.score, 0);
}

#[test]
fn verify_traverse() {
    let mut graph = Graph::new();
    let a = graph.insert_node(EntityId(1));
    let b = graph.insert_node(EntityId(2));
    graph.insert_edge(a, b, EdgeWeight::new(5));

    let query = Query::traverse(a, 2);
    let result = verify_hypothesis(&graph, query);

    assert!(result.artifact.is_some());
    assert!(result.confidence.score >= 50);
}

#[test]
fn verify_strongest_path() {
    let mut graph = Graph::new();
    let a = graph.insert_node(EntityId(1));
    let b = graph.insert_node(EntityId(2));
    let c = graph.insert_node(EntityId(3));
    graph.insert_edge(a, b, EdgeWeight::new(10));
    graph.insert_edge(b, c, EdgeWeight::new(10));

    let query = Query::strongest_path(a, c);
    let result = verify_hypothesis(&graph, query);

    assert!(result.artifact.is_some());
    assert!(result.verified);
    assert!(!result.evidence_path.is_empty());
}

#[test]
fn verify_intersect() {
    let mut graph = Graph::new();
    let a = graph.insert_node(EntityId(1));
    let b = graph.insert_node(EntityId(2));
    let common = graph.insert_node(EntityId(100));
    graph.insert_edge(a, common, EdgeWeight::new(1));
    graph.insert_edge(b, common, EdgeWeight::new(1));

    let query = Query::intersect(vec![a, b]);
    let result = verify_hypothesis(&graph, query);

    assert!(result.artifact.is_some());
    let path = result.artifact.as_ref().map(|a| &a.path);
    assert_eq!(path, Some(&vec![common]));
}

#[test]
fn verify_empty_intersect_is_unverified() {
    let mut graph = Graph::new();
    let a = graph.insert_node(EntityId(1));
    let b = graph.insert_node(EntityId(2));

    let query = Query::intersect(vec![a, b]);
    let result = verify_hypothesis(&graph, query);

    assert!(!result.verified);
    assert!(result.artifact.is_none());
    assert_eq!(result.confidence.score, 0);
    assert!(result.evidence_path.is_empty());
}

#[test]
fn verify_dfs_traversal() {
    let mut graph = Graph::new();
    let a = graph.insert_node(EntityId(1));
    let b = graph.insert_node(EntityId(2));
    graph.insert_edge(a, b, EdgeWeight::new(2));

    let query = Query::traverse_dfs(a, 3);
    let result = verify_hypothesis(&graph, query);

    assert!(result.artifact.is_some());
    assert_eq!(result.evidence_path, vec![a, b]);
}

#[test]
fn verify_never_fabricates_evidence() {
    let graph = Graph::new();
    let result = verify_hypothesis(&graph, Query::traverse(kremis_core::NodeId(5), 3));
    assert!(result.artifact.is_none());
    assert_eq!(result.confidence.score, 0);
    assert!(!result.verified);
    assert!(result.evidence_path.is_empty());
}
