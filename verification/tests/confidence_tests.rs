//! Tests of the confidence scoring curves and threshold gating.

use kremis_core::{compute_confidence, compute_path_confidence, Artifact, ConfidenceScore,
    EdgeWeight, Graph, NodeId, VERIFICATION_THRESHOLD};

#[test]
fn empty_result_scores_zero() {
    let graph = Graph::new();
    let artifact = Artifact::with_path(vec![]);
    let score = compute_confidence(&artifact, &graph);
    assert_eq!(score.score, 0);
    assert!(!score.is_verified());
}

#[test]
fn single_node_result_reaches_threshold() {
    let graph = Graph::new();
    let artifact = Artifact::with_path(vec![NodeId(1)]);
    let score = compute_confidence(&artifact, &graph);
    assert_eq!(score.score, 50);
    assert!(score.is_verified());
}

#[test]
fn two_node_one_edge_scores_seventy() {
    let graph = Graph::new();
    let artifact = Artifact::with_subgraph(
        vec![NodeId(1), NodeId(2)],
        vec![(NodeId(1), NodeId(2), EdgeWeight::new(5))],
    );
    let score = compute_confidence(&artifact, &graph);
    assert_eq!(score.score, 70);
    assert_eq!(score.path_len, 2);
    assert_eq!(score.edge_count, 1);
}

#[test]
fn path_confidence_grows_with_hops() {
    let graph = Graph::new();
    let one = compute_path_confidence(&vec![NodeId(1)], &graph);
    let three = compute_path_confidence(&vec![NodeId(1), NodeId(2), NodeId(3)], &graph);
    assert_eq!(one.score, 50);
    assert_eq!(three.score, 70);
    assert!(one.score <= three.score);
}

#[test]
fn score_clamps_and_threshold_gates() {
    let c = ConfidenceScore::new(250, 0, 1);
    assert_eq!(c.score, 100);
    assert!(c.is_verified());

    let low = ConfidenceScore::new(VERIFICATION_THRESHOLD - 1, 0, 1);
    assert!(!low.is_verified());

    let z = ConfidenceScore::zero();
    assert_eq!(z.score, 0);
    assert!(!z.is_verified());
}
