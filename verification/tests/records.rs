//! Nodes, edges and batches.

use undr9::common::{EdgeId, NodeId};
use undr9::records::{
    integer_from_double, validate_kind, validate_property_key, EdgeRecord, NodeRecord,
    PropertyValue, WriteBatch,
};

fn record_id(value: &str) -> NodeId {
    NodeId::new(value).expect("valid node id")
}

fn bits_of(values: &[f32]) -> Vec<u32> {
    values.iter().map(|value| value.to_bits()).collect()
}

fn floats_of(bits: &[u32]) -> Vec<f32> {
    bits.iter().map(|bits| f32::from_bits(*bits)).collect()
}

fn as_single(value: Option<&PropertyValue>) -> Option<f32> {
    match value {
        Some(PropertyValue::Float(bits)) => Some(f64::from_bits(*bits) as f32),
        Some(PropertyValue::Integer(number)) => Some(*number as f32),
        _ => None,
    }
}

#[test]
fn builds_node_records_with_properties() {
    let node = NodeRecord::new(record_id("node_1"), "memory")
        .expect("node should be created")
        .with_property("title", PropertyValue::String("UNDR9".to_owned()))
        .expect("property should be accepted");

    assert_eq!(node.node_type, "memory");
    assert!(node.properties.contains_key(&"title".to_owned()));
}

#[test]
fn write_batch_reports_when_empty() {
    let batch = WriteBatch::default();
    assert!(batch.is_empty());
}

#[test]
fn write_batch_with_a_deletion_is_not_empty() {
    let batch = WriteBatch {
        deleted_node_ids: vec![record_id("a")],
        ..WriteBatch::default()
    };
    assert!(!batch.is_empty());
    assert_eq!(batch.clone(), batch);
}

#[test]
fn builds_edge_records() {
    let edge = EdgeRecord::new(
        EdgeId::new("edge_1").expect("valid edge id"),
        NodeId::new("source_1").expect("valid source id"),
        NodeId::new("target_1").expect("valid target id"),
        "related_to",
    )
    .expect("edge should be created");

    assert_eq!(edge.edge_type, "related_to");
}

#[test]
fn exposes_retrieval_properties_through_helpers() {
    let node = NodeRecord::new(record_id("node_1"), "memory")
        .expect("node should be created")
        .with_vector("default", bits_of(&[0.1, 0.2]))
        .expect("vector should be accepted")
        .with_property("timestamp", PropertyValue::Integer(123))
        .expect("timestamp should be accepted")
        .with_property("importance", PropertyValue::Float(0.8_f64.to_bits()))
        .expect("importance should be accepted")
        .with_property("confidence", PropertyValue::Integer(1))
        .expect("confidence should be accepted");

    assert_eq!(node.embedding().map(floats_of), Some(vec![0.1_f32, 0.2_f32]));
    assert_eq!(node.timestamp_ms(), Some(123));
    assert_eq!(as_single(node.property("importance")), Some(0.8));
    assert_eq!(as_single(node.property("confidence")), Some(1.0));
}

#[test]
fn rejects_legacy_embedding_property() {
    let mut node = NodeRecord::new(record_id("tenant_a:node_1"), "memory")
        .expect("node should be created")
        .with_property("embedding", PropertyValue::FloatList(bits_of(&[0.4, 0.6])))
        .expect("property should be accepted");

    let error = node
        .normalize_memory_metadata()
        .expect_err("legacy embedding property should be rejected");
    assert!(error.to_string().contains("no longer supported"));
}

#[test]
fn supports_multiple_named_vectors() {
    let node = NodeRecord::new(record_id("tenant_a:node_1"), "memory")
        .expect("node should be created")
        .with_vector("default", bits_of(&[0.4, 0.6]))
        .expect("default vector should be accepted")
        .with_vector("unique_key", bits_of(&[0.9, 0.1]))
        .expect("named vector should be accepted");

    assert_eq!(node.namespace(), Some("tenant_a"));
    assert_eq!(node.embedding().map(floats_of), Some(vec![0.4_f32, 0.6_f32]));
    assert_eq!(node.vector("unique_key").map(floats_of), Some(vec![0.9_f32, 0.1_f32]));
}

#[test]
fn blank_types_keys_and_vectors_are_refused() {
    let error = NodeRecord::new(record_id("a"), " ").expect_err("a blank type is refused");
    assert_eq!(error.to_string(), "validation error: node_type cannot be empty");
    let error = EdgeRecord::new(
        EdgeId::new("e").expect("valid edge id"),
        record_id("a"),
        record_id("b"),
        "",
    )
    .expect_err("a blank type is refused");
    assert_eq!(error.to_string(), "validation error: edge_type cannot be empty");
    assert!(validate_kind("field", "x").is_ok());
    assert!(validate_property_key("\t").is_err());
    let node = NodeRecord::new(record_id("a"), "memory").expect("node");
    assert!(node.clone().with_property(" ", PropertyValue::Boolean(true)).is_err());
    assert!(node.clone().with_vector("", bits_of(&[1.0])).is_err());
    assert_eq!(
        node.with_vector("default", Vec::new()).expect("an empty vector").embedding().map(|v| v.len()),
        Some(0)
    );
}

#[test]
fn metadata_must_be_numbers() {
    let node = NodeRecord::new(record_id("a"), "memory").expect("node");
    let refusal = |key: &str, value: PropertyValue| {
        let mut node = node.clone().with_property(key, value).expect("property");
        node.normalize_memory_metadata().err().map(|error| error.to_string())
    };
    assert_eq!(
        refusal("timestamp", PropertyValue::Boolean(true)),
        Some("validation error: timestamp must be an integer-compatible value".to_owned())
    );
    assert_eq!(
        refusal("importance", PropertyValue::String("high".to_owned())),
        Some("validation error: importance must be a float-compatible value".to_owned())
    );
    assert_eq!(
        refusal("confidence", PropertyValue::StringList(Vec::new())),
        Some("validation error: confidence must be a float-compatible value".to_owned())
    );
    assert_eq!(refusal("timestamp", PropertyValue::Float(1.5_f64.to_bits())), None);
    assert_eq!(refusal("other", PropertyValue::Boolean(false)), None);
}

#[test]
fn doubles_are_cut_to_integers() {
    for value in [
        0.0_f64,
        -0.0,
        1.0,
        -1.0,
        1.999,
        -1.999,
        123456789.75,
        -9.3e17,
        9.2e18,
        9.3e18,
        -9.3e18,
        -9223372036854775808.0,
        5e-324,
        f64::INFINITY,
        f64::NEG_INFINITY,
        f64::NAN,
        f64::MAX,
    ] {
        assert_eq!(integer_from_double(value.to_bits()), value as i64, "{value}");
    }
}

#[test]
fn properties_are_read_by_kind() {
    let node = NodeRecord::new(record_id("plain"), "memory")
        .expect("node")
        .with_property("timestamp", PropertyValue::Float(12.9_f64.to_bits()))
        .expect("property")
        .with_property("unique_key", PropertyValue::Integer(4))
        .expect("property");
    assert_eq!(node.timestamp_ms(), Some(12));
    assert_eq!(node.unique_key(), None);
    assert_eq!(node.integer_property("missing"), None);
    assert_eq!(node.namespace(), None);
    assert_eq!(node.embedding(), None);
    assert!(PropertyValue::Integer(1).is_number());
    assert!(!PropertyValue::Boolean(true).is_number());
    assert_eq!(PropertyValue::String("7".to_owned()).as_i64(), None);
}
