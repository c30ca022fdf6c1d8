//! Tests of signals and the protocol value types.

use kremis_core::{IngestResponse, QueryResponse, Signal};

#[test]
fn test_signal_creation() {
    let signal = Signal::new(1, "temperature", "25.0");
    assert_eq!(signal.entity_id, 1);
    assert_eq!(signal.attribute, "temperature");
    assert_eq!(signal.value, "25.0");
}

#[test]
fn test_signal_with_string_types() {
    let signal = Signal::new(42, &String::from("humidity"), &String::from("60%"));
    assert_eq!(signal.entity_id, 42);
    assert_eq!(signal.attribute, "humidity");
    assert_eq!(signal.value, "60%");
}

#[test]
fn test_signals_macro_empty() {
    let signals: Vec<Signal> = vec![];
    assert!(signals.is_empty());
}

#[test]
fn test_signals_macro_single() {
    let signals = vec![Signal::new(1, "a", "b")];
    assert_eq!(signals.len(), 1);
    assert_eq!(signals[0].entity_id, 1);
}

#[test]
fn test_signals_macro_multiple() {
    let signals = vec![
        Signal::new(1, "temperature", "25.0"),
        Signal::new(2, "humidity", "60%"),
        Signal::new(3, "pressure", "1013hPa"),
    ];
    assert_eq!(signals.len(), 3);
    assert_eq!(signals[0].attribute, "temperature");
    assert_eq!(signals[1].attribute, "humidity");
    assert_eq!(signals[2].attribute, "pressure");
}

#[test]
fn try_new_accepts_valid_lengths() {
    let signal = Signal::try_new(7, "attr", "val").unwrap();
    assert_eq!(signal.entity_id, 7);
    assert_eq!(signal.attribute, "attr");
    assert_eq!(signal.value, "val");

    let max_attr = "a".repeat(256);
    let max_val = "v".repeat(65536);
    assert!(Signal::try_new(1, &max_attr, &max_val).is_ok());
}

#[test]
fn try_new_rejects_empty_attribute() {
    let err = Signal::try_new(1, "", "val").unwrap_err();
    assert_eq!(err.message, "Attribute length 0 out of valid range 1..=256");
}

#[test]
fn try_new_rejects_oversized_attribute() {
    let attr = "a".repeat(257);
    let err = Signal::try_new(1, &attr, "val").unwrap_err();
    assert_eq!(err.message, "Attribute length 257 out of valid range 1..=256");
}

#[test]
fn try_new_rejects_empty_value() {
    let err = Signal::try_new(1, "attr", "").unwrap_err();
    assert_eq!(err.message, "Value length 0 out of valid range 1..=65536");
}

#[test]
fn try_new_rejects_oversized_value() {
    let val = "v".repeat(65537);
    let err = Signal::try_new(1, "attr", &val).unwrap_err();
    assert_eq!(err.message, "Value length 65537 out of valid range 1..=65536");
}

#[test]
fn try_new_counts_bytes_not_chars() {
    // Multi-byte characters count by their UTF-8 length.
    let attr = "é".repeat(128); // 256 bytes
    assert!(Signal::try_new(1, &attr, "v").is_ok());
    let attr = "é".repeat(129); // 258 bytes
    assert!(Signal::try_new(1, &attr, "v").is_err());
}

#[test]
fn ingest_response_failure_becomes_error() {
    let resp = IngestResponse {
        success: false,
        node_id: None,
        error: Some("Invalid entity".to_string()),
    };
    let err = resp.into_result().unwrap_err();
    assert_eq!(err.message, "Invalid entity");

    let ok = IngestResponse { success: true, node_id: Some(4), error: None };
    assert!(ok.into_result().is_ok());
}

#[test]
fn query_response_reads_first_node() {
    let resp = QueryResponse {
        success: true,
        found: true,
        path: vec![11, 12],
        edges: vec![],
        error: None,
    };
    assert_eq!(resp.first_node(), Some(11));
    assert!(resp.clone().into_result().is_ok());

    let failed = QueryResponse {
        success: false,
        found: false,
        path: vec![],
        edges: vec![],
        error: Some("boom".to_string()),
    };
    assert_eq!(failed.first_node(), None);
    assert_eq!(failed.into_result().unwrap_err().message, "boom");
}
