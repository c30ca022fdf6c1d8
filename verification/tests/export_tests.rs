//! Tests of the canonical export and its round trip.

use kremis_core::{EdgeWeight, EntityId, Graph, NodeId};

#[test]
fn canonical_export_is_deterministic() {
    // Build the same graph content twice, in different operation orders.
    let mut g1 = Graph::new();
    let a1 = g1.insert_node(EntityId(10));
    let b1 = g1.insert_node(EntityId(20));
    g1.insert_edge(a1, b1, EdgeWeight::new(5));
    g1.insert_edge(b1, a1, EdgeWeight::new(6));

    let mut g2 = Graph::new();
    let a2 = g2.insert_node(EntityId(10));
    let b2 = g2.insert_node(EntityId(20));
    g2.insert_edge(b2, a2, EdgeWeight::new(6));
    g2.insert_edge(a2, b2, EdgeWeight::new(5));

    assert_eq!(g1.to_canonical(), g2.to_canonical());

    // Two exports of one state are identical values.
    assert_eq!(g1.to_canonical(), g1.to_canonical());
}

#[test]
fn canonical_roundtrip_preserves_content() {
    let mut g = Graph::new();
    let a = g.insert_node(EntityId(1));
    let b = g.insert_node(EntityId(2));
    let c = g.insert_node(EntityId(3));
    g.insert_edge(a, b, EdgeWeight::new(10));
    g.insert_edge(b, c, EdgeWeight::new(-4));
    g.increment_edge(a, c);

    let canonical = g.to_canonical();
    let restored = Graph::from_canonical(&canonical);

    assert_eq!(restored.node_count(), g.node_count());
    assert_eq!(restored.edge_count(), g.edge_count());
    assert_eq!(restored.get_edge(a, b), Some(EdgeWeight::new(10)));
    assert_eq!(restored.get_edge(b, c), Some(EdgeWeight::new(-4)));
    assert_eq!(restored.get_edge(a, c), Some(EdgeWeight::new(1)));
    assert_eq!(restored.next_node_id(), g.next_node_id());
    assert_eq!(restored.to_canonical(), canonical);
}

#[test]
fn from_canonical_skips_dangling_edges() {
    let mut g = Graph::new();
    let a = g.insert_node(EntityId(1));
    let b = g.insert_node(EntityId(2));
    g.insert_edge(a, b, EdgeWeight::new(3));

    let mut canonical = g.to_canonical();
    canonical.edges.push(kremis_core::CanonicalEdge { from: 99, to: 1, weight: 7 });

    let restored = Graph::from_canonical(&canonical);
    assert_eq!(restored.edge_count(), 1);
    assert!(!restored.contains_node(NodeId(99)));
}

#[test]
fn from_canonical_advances_counter_past_ids() {
    let mut g = Graph::new();
    g.import_node(kremis_core::Node::new(NodeId(41), EntityId(4100)));
    let mut canonical = g.to_canonical();
    canonical.next_node_id = 0; // a stale counter must not cause id reuse

    let restored = Graph::from_canonical(&canonical);
    assert_eq!(restored.next_node_id(), 42);
}
