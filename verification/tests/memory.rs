//! Retrieval profiles and consolidation.

use undr9::common::{EdgeId, NodeId};
use undr9::memory::{
    resolve_retrieval_profile, ConsolidationAction, MemoryConsolidator, RetrievalProfile,
    STALE_AFTER_MS,
};
use undr9::ordered::OrderedMap;
use undr9::records::{EdgeRecord, NodeRecord, PropertyValue};

fn keyed_memory(id: &str, key: Option<&str>, timestamp: Option<i64>) -> NodeRecord {
    let mut node =
        NodeRecord::new(NodeId::new(id).expect("valid id"), "Memory").expect("node");
    if let Some(key) = key {
        node.properties.insert("unique_key".to_owned(), PropertyValue::String(key.to_owned()));
    }
    if let Some(timestamp) = timestamp {
        node.properties.insert("timestamp".to_owned(), PropertyValue::Integer(timestamp));
    }
    node
}

#[test]
fn exposes_default_retrieval_profile() {
    let profile = RetrievalProfile::v1_default();
    assert_eq!(profile.name, "v1-default");
    assert_eq!(f32::from_bits(profile.weights.semantic), 0.30);
}

#[test]
fn default_weights_are_the_published_ones() {
    let weights = RetrievalProfile::v1_default().weights;
    assert_eq!(weights.structural, 0.30_f32.to_bits());
    assert_eq!(weights.temporal, 0.15_f32.to_bits());
    assert_eq!(weights.importance, 0.15_f32.to_bits());
    assert_eq!(weights.confidence, 0.10_f32.to_bits());
}

#[test]
fn only_known_profiles_are_resolved() {
    assert_eq!(
        resolve_retrieval_profile(None).expect("the default").name,
        "v1-default"
    );
    assert_eq!(
        resolve_retrieval_profile(Some("v1-default")).expect("the default").name,
        "v1-default"
    );
    assert!(resolve_retrieval_profile(Some("v2")).is_err());
}

#[test]
fn consolidation_finds_duplicate_and_stale_memories() {
    let node_a = keyed_memory("tenant_a:node_a", Some("same"), Some(1_000));
    let node_b = keyed_memory("tenant_a:node_b", Some("same"), Some(1_100));
    let edge = EdgeRecord {
        id: EdgeId::new("edge_ab").expect("valid edge id"),
        source: node_a.id.clone(),
        target: node_b.id.clone(),
        edge_type: "RELATED_TO".to_owned(),
        properties: OrderedMap::new(),
    };

    let events = MemoryConsolidator::analyze(&[node_a, node_b], &[edge], 40 * 24 * 60 * 60 * 1000);
    assert!(events.iter().any(|event| event.action == ConsolidationAction::Merge));
    assert!(events.iter().any(|event| event.action == ConsolidationAction::Archive));
}

#[test]
fn every_event_can_be_undone() {
    let nodes = [
        keyed_memory("a", Some("same"), Some(1_000)),
        keyed_memory("b", Some("same"), Some(1_100)),
        keyed_memory("c", None, Some(2_000)),
    ];
    for event in MemoryConsolidator::analyze(&nodes, &[], STALE_AFTER_MS * 2) {
        assert!(!event.reverse_batch.nodes_upserted.is_empty());
        for node in event.reverse_batch.nodes_upserted.iter() {
            assert!(nodes.iter().any(|known| known == node));
        }
        assert!(event.reverse_batch.deleted_node_ids.is_empty());
    }
}

#[test]
fn young_memories_are_left_alone() {
    let nodes = [keyed_memory("a", Some("x"), Some(1_000)), keyed_memory("b", Some("y"), None)];
    let edge = EdgeRecord {
        id: EdgeId::new("edge_ab").expect("valid edge id"),
        source: nodes[0].id.clone(),
        target: nodes[1].id.clone(),
        edge_type: "RELATED_TO".to_owned(),
        properties: OrderedMap::new(),
    };
    let events = MemoryConsolidator::analyze(&nodes, &[edge], 1_000 + STALE_AFTER_MS);
    assert!(events.is_empty());
}
