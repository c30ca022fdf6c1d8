//! Tests of the transparent response structures and their rendering.

use kremis_core::{Fact, HonestResponse, Inference, NodeId, Unknown};

#[test]
fn fact_creation() {
    let fact = Fact::new("Alice knows Bob".to_string(), vec![NodeId(1), NodeId(2)]);
    assert_eq!(fact.statement, "Alice knows Bob");
    assert!(fact.has_evidence());
}

#[test]
fn inference_confidence() {
    let high = Inference::new("likely related".to_string(), 85, "dense graph".to_string());
    let low = Inference::new("might be related".to_string(), 30, "sparse graph".to_string());

    assert!(high.is_high_confidence());
    assert!(!high.is_low_confidence());
    assert!(!low.is_high_confidence());
    assert!(low.is_low_confidence());
}

#[test]
fn unknown_creation() {
    let unknown = Unknown::new("What is X?".to_string(), "No entity named X found".to_string());
    assert_eq!(unknown.query, "What is X?");
}

#[test]
fn honest_response_building() {
    let mut response = HonestResponse::new();
    assert!(response.is_empty());

    response.add_fact(Fact::new("fact1".to_string(), vec![]));
    response.add_inference(Inference::new("inf1".to_string(), 80, "reason".to_string()));
    response.add_unknown(Unknown::new("q1".to_string(), "not found".to_string()));

    assert!(!response.is_empty());
    assert_eq!(response.facts.len(), 1);
    assert_eq!(response.inferences.len(), 1);
    assert_eq!(response.unknowns.len(), 1);
}

#[test]
fn to_text_format() {
    let mut response = HonestResponse::new();
    response.add_fact(Fact::new("Alice is known".to_string(), vec![NodeId(1)]));
    response.add_inference(Inference::new("Likely friends".to_string(), 75, "shared edges".to_string()));
    response.add_unknown(Unknown::new("Charlie?".to_string(), "not in graph".to_string()));

    let text = response.to_text();

    assert!(text.contains("FACTS"));
    assert!(text.contains("INFERENCES"));
    assert!(text.contains("UNKNOWN"));
    assert!(text.contains("Alice is known"));
    assert!(text.contains("75% confidence"));
    assert!(text.contains("Charlie?"));
}

#[test]
fn to_text_joins_evidence_path() {
    let mut response = HonestResponse::new();
    response.add_fact(Fact::new("chain".to_string(), vec![NodeId(1), NodeId(2), NodeId(30)]));
    let text = response.to_text();
    assert!(text.contains("[path: 1→2→30]"));
}

#[test]
fn to_text_marks_missing_path() {
    let mut response = HonestResponse::new();
    response.add_fact(Fact::new("bare".to_string(), vec![]));
    let text = response.to_text();
    assert!(text.contains("[path: no path]"));
}

#[test]
fn to_text_marks_empty_sections() {
    let response = HonestResponse::new();
    let text = response.to_text();
    assert_eq!(text.matches("(none)").count(), 3);
}

#[test]
fn inference_confidence_clamps_to_hundred() {
    let inf = Inference::new("sure".to_string(), 250, "overflow guard".to_string());
    assert_eq!(inf.confidence, 100);
}
