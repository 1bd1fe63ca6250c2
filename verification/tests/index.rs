//! Indexes over records.

use hnsw_stable::{Cosine, Hnsw, HnswConfig, InMemoryVectorStore};
use undr9::common::{EdgeId, NodeId};
use undr9::index::{
    is_matching_sidecar, sanitize_vector_name, vector_space_sidecar_name, EdgeDirection,
    GraphIndex, IndexCatalog, IndexName, VectorIndexState,
};
use undr9::ordered::{OrderedMap, OrderedSet};
use undr9::records::{EdgeRecord, NodeRecord, PropertyValue};
use undr9::vectors::{VectorIndexBackendConfig, VectorIndexConfig};

fn indexed_id(value: &str) -> NodeId {
    NodeId::new(value).expect("valid id")
}

fn indexed_node(value: &str, node_type: &str) -> NodeRecord {
    NodeRecord::new(indexed_id(value), node_type).expect("node")
}

fn indexed_edge(value: &str, source: &NodeRecord, target: &NodeRecord) -> EdgeRecord {
    EdgeRecord {
        id: EdgeId::new(value).expect("valid edge id"),
        source: source.id.clone(),
        target: target.id.clone(),
        edge_type: "relates_to".to_owned(),
        properties: OrderedMap::new(),
    }
}

fn vector_bits(values: &[f32]) -> Vec<u32> {
    values.iter().map(|value| value.to_bits()).collect()
}

fn vector_floats(bits: &[u32]) -> Vec<f32> {
    bits.iter().map(|bits| f32::from_bits(*bits)).collect()
}

fn hnsw_config() -> VectorIndexConfig {
    VectorIndexConfig {
        backend: VectorIndexBackendConfig::Hnsw,
        exact_fallback_threshold: 1,
        semantic_top_k: 2,
        hnsw_m: 16,
        hnsw_ef_construction: 200,
        hnsw_ef_search: 64,
    }
}

#[test]
fn v1_catalog_contains_required_primary_indexes() {
    let catalog = IndexCatalog::v1_defaults();

    assert!(catalog.all().iter().any(|index| index.name == IndexName::NodeId));
    assert!(catalog.all().iter().any(|index| index.name == IndexName::Adjacency));
    assert!(catalog.all().iter().any(|index| index.name == IndexName::Vector));
}

#[test]
fn rebuilds_graph_indexes_for_lookup_and_adjacency() {
    let mut node_a = indexed_node("node_a", "memory");
    node_a.properties.insert("unique_key".to_owned(), PropertyValue::String("alpha".to_owned()));
    node_a.properties.insert("timestamp".to_owned(), PropertyValue::Integer(100));
    node_a.vectors.insert("default".to_owned(), vector_bits(&[0.1, 0.2]));
    let node_b = indexed_node("node_b", "memory");
    let edge = indexed_edge("edge_ab", &node_a, &node_b);

    let nodes = vec![node_a.clone(), node_b.clone()];
    let edges = vec![edge.clone()];
    let mut edge_map: OrderedMap<EdgeId, EdgeRecord> = OrderedMap::new();
    for item in edges.iter() {
        edge_map.insert(item.id.clone(), item.clone());
    }

    let index = GraphIndex::rebuild(&nodes, &edges);
    assert!(index.contains_node(&node_a.id));
    assert_eq!(index.lookup_unique_key("alpha"), Some(&node_a.id));
    assert_eq!(index.node_ids_by_type("memory").len(), 2);
    assert_eq!(
        index
            .edge_ids_for(&node_a.id, EdgeDirection::Outgoing, &edge_map, Some("relates_to"))
            .len(),
        1
    );
    assert_eq!(index.node_ids_in_time_range(90, 110).len(), 1);
    assert_eq!(index.vector_candidate_ids_iter("default").len(), 1);
}

#[test]
fn edges_are_listed_by_direction_and_type() {
    let node_a = indexed_node("node_a", "memory");
    let node_b = indexed_node("node_b", "memory");
    let edge = indexed_edge("edge_ab", &node_a, &node_b);
    let mut edge_map: OrderedMap<EdgeId, EdgeRecord> = OrderedMap::new();
    edge_map.insert(edge.id.clone(), edge.clone());
    let index = GraphIndex::rebuild(&[node_a.clone(), node_b.clone()], &[edge.clone()]);
    let listed = |node: &NodeRecord, direction: EdgeDirection, edge_type: Option<&str>| {
        index.edge_ids_for_iter(&node.id, direction, &edge_map, edge_type).len()
    };
    assert_eq!(listed(&node_a, EdgeDirection::Incoming, None), 0);
    assert_eq!(listed(&node_b, EdgeDirection::Incoming, None), 1);
    assert_eq!(listed(&node_b, EdgeDirection::Both, None), 1);
    assert_eq!(listed(&node_b, EdgeDirection::Both, Some("knows")), 0);
}

#[test]
fn incremental_updates_match_rebuild_for_mixed_changes() {
    let mut node_a = indexed_node("node_a", "memory");
    node_a.properties.insert("unique_key".to_owned(), PropertyValue::String("alpha".to_owned()));
    node_a.properties.insert("timestamp".to_owned(), PropertyValue::Integer(100));
    node_a.vectors.insert("default".to_owned(), vector_bits(&[0.1, 0.2]));

    let node_b = indexed_node("node_b", "memory");
    let edge_ab = indexed_edge("edge_ab", &node_a, &node_b);

    let mut incremental =
        GraphIndex::rebuild(&[node_a.clone(), node_b.clone()], &[edge_ab.clone()]);

    let mut updated_node_a = indexed_node("node_a", "memory_v2");
    updated_node_a
        .properties
        .insert("unique_key".to_owned(), PropertyValue::String("beta".to_owned()));
    updated_node_a.properties.insert("timestamp".to_owned(), PropertyValue::Integer(250));

    let node_c = indexed_node("node_c", "memory");
    let edge_ac = indexed_edge("edge_ac", &updated_node_a, &node_c);

    incremental.delete_edge(&edge_ab);
    incremental.delete_node(&node_a);
    incremental.upsert_node(&updated_node_a);
    incremental.upsert_node(&node_c);
    incremental.upsert_edge(&edge_ac);
    incremental.delete_node(&node_b);

    let rebuilt = GraphIndex::rebuild(&[updated_node_a.clone(), node_c.clone()], &[edge_ac]);

    assert_eq!(incremental, rebuilt);
    assert_eq!(incremental.lookup_unique_key("alpha"), None);
    assert_eq!(incremental.lookup_unique_key("beta"), Some(&updated_node_a.id));
    assert_eq!(incremental.node_ids_by_type("memory_v2").len(), 1);
    assert_eq!(incremental.node_ids_in_time_range(200, 300).len(), 1);
    assert_eq!(incremental.vector_candidate_ids_iter("default").len(), 0);
}

#[test]
fn graph_index_defaults_to_exact_vector_backend() {
    let index = GraphIndex::default();
    assert!(matches!(index.vector_index, VectorIndexState::Exact(_)));
}

/// Builds the search graph of the default vector space.
fn build_graph(
    nodes: &[NodeRecord],
    config: &VectorIndexConfig,
    dimension: usize,
) -> (Hnsw<String, Cosine>, InMemoryVectorStore<f32>) {
    let graph: Hnsw<String, Cosine> = Hnsw::new(
        Cosine::new(),
        HnswConfig::new(dimension, 64)
            .m(config.hnsw_m)
            .ef_construction(config.hnsw_ef_construction)
            .ef_search(config.hnsw_ef_search),
    );
    let vectors: InMemoryVectorStore<f32> = InMemoryVectorStore::new(dimension, 64);
    for node in nodes {
        if let Some(bits) = node.vector("default") {
            graph
                .insert(&vectors, node.id.as_str().to_owned(), &vector_floats(bits))
                .expect("vector should be inserted");
        }
    }
    (graph, vectors)
}

/// The ids that a search graph finds.
fn search_graph(
    graph: &Hnsw<String, Cosine>,
    vectors: &InMemoryVectorStore<f32>,
    query: &[f32],
    count: usize,
    allowed: Option<&[NodeId]>,
) -> Vec<NodeId> {
    let found = match allowed {
        Some(allowed) => graph.search(
            vectors,
            query,
            count,
            Some(&|key: &String| allowed.iter().any(|id| id.as_str() == key)),
        ),
        None => graph.search(vectors, query, count, None),
    };
    found
        .expect("search should succeed")
        .into_iter()
        .map(|hit| indexed_id(&hit.key))
        .collect()
}

#[test]
fn hnsw_backend_returns_filtered_semantic_candidates() {
    let mut node_a = indexed_node("node_a", "memory");
    node_a.vectors.insert("default".to_owned(), vector_bits(&[1.0, 0.0]));
    let mut node_b = indexed_node("node_b", "memory");
    node_b.vectors.insert("default".to_owned(), vector_bits(&[0.8, 0.2]));
    let mut node_c = indexed_node("node_c", "profile");
    node_c.vectors.insert("default".to_owned(), vector_bits(&[1.0, 0.0]));

    let config = hnsw_config();
    let nodes = [node_a.clone(), node_b.clone(), node_c.clone()];
    let mut index = GraphIndex::rebuild_with_config(&nodes, &[], &config);
    index.set_search_graph("default", true);
    let count = index
        .vector_index
        .search_limit(2, "default", 2, None)
        .expect("the graph should be searched");
    let allowed = index.node_ids_by_type("memory");
    let (graph, vectors) = build_graph(&nodes, &config, 2);
    let found = search_graph(&graph, &vectors, &[1.0, 0.0], count, Some(&allowed));

    let hits = index.semantic_candidate_ids(2, "default", Some("memory"), 2, None, &Some(found));
    assert_eq!(hits.len(), 2);
    assert_eq!(hits[0], node_a.id);
    assert!(hits.iter().all(|node_id| node_id != &node_c.id));

    let snapshot = index.snapshot();
    assert_eq!(snapshot.vector_backend, "hnsw");
    assert!(snapshot.vector_runtime_ready);
    assert_eq!(snapshot.vector_dimensions.get_text("default"), Some(&2));
}

#[test]
fn hnsw_vector_index_persists_and_warm_loads() {
    let mut node_a = indexed_node("node_a", "memory");
    node_a.vectors.insert("default".to_owned(), vector_bits(&[1.0, 0.0]));
    let mut node_b = indexed_node("node_b", "memory");
    node_b.vectors.insert("default".to_owned(), vector_bits(&[0.0, 1.0]));
    let config = hnsw_config();
    let nodes = [node_a.clone(), node_b.clone()];

    let mut index = GraphIndex::rebuild_with_config(&nodes, &[], &config);
    index.set_search_graph("default", true);
    let manifest = match &index.vector_index {
        VectorIndexState::Hnsw(hnsw) => {
            hnsw.persisted_manifest(Some(42)).expect("vector index should persist")
        }
        VectorIndexState::Exact(_) => panic!("the index should have search graphs"),
    };
    assert_eq!(manifest.vector_spaces.len(), 1);
    let (graph, vectors) = build_graph(&nodes, &config, 2);
    let mut graph_file: Vec<u8> = Vec::new();
    graph.save_to(&mut graph_file).expect("graph should persist");
    let mut vectors_file: Vec<u8> = Vec::new();
    vectors.save_to(&mut vectors_file, graph.len()).expect("vectors should persist");

    let mut loaded = GraphIndex::rebuild_with_config(&nodes, &[], &config);
    assert!(!loaded.snapshot().vector_runtime_ready);
    match &loaded.vector_index {
        VectorIndexState::Hnsw(hnsw) => {
            assert!(hnsw.matches_manifest(&manifest, Some(42)));
            assert!(!hnsw.matches_manifest(&manifest, Some(41)));
            assert!(!hnsw.matches_manifest(&manifest, None));
        }
        VectorIndexState::Exact(_) => panic!("the index should have search graphs"),
    }
    for space in manifest.vector_spaces.iter() {
        loaded.set_search_graph(&space.vector_name, true);
    }

    let snapshot = loaded.snapshot();
    assert_eq!(snapshot.vector_backend, "hnsw");
    assert!(snapshot.vector_runtime_ready);
    let count = loaded
        .vector_index
        .search_limit(2, "default", 1, None)
        .expect("the graph should be searched");
    let graph: Hnsw<String, Cosine> =
        Hnsw::load_from(Cosine::new(), &mut graph_file.as_slice()).expect("graph should load");
    let (vectors, _) = InMemoryVectorStore::<f32>::load_from(&mut vectors_file.as_slice())
        .expect("vectors should load");
    let found = search_graph(&graph, &vectors, &[1.0, 0.0], count, None);
    let hits = loaded.semantic_candidate_ids(2, "default", None, 1, None, &Some(found));
    assert!(!hits.is_empty());
    assert_eq!(hits[0], node_a.id);
    assert!(hits.contains(&node_b.id));
}

#[test]
fn small_or_mismatched_spaces_are_not_searched() {
    let mut node_a = indexed_node("node_a", "memory");
    node_a.vectors.insert("default".to_owned(), vector_bits(&[1.0, 0.0]));
    let mut node_b = indexed_node("node_b", "memory");
    node_b.vectors.insert("default".to_owned(), vector_bits(&[0.0, 1.0]));
    let nodes = [node_a.clone(), node_b.clone()];
    let mut index = GraphIndex::rebuild_with_config(&nodes, &[], &hnsw_config());
    assert_eq!(index.vector_index.search_limit(2, "default", 1, None), None);
    index.set_search_graph("default", true);
    assert_eq!(index.vector_index.search_limit(2, "default", 1, None), Some(2));
    assert_eq!(index.vector_index.search_limit(2, "default", 1, Some(1)), Some(1));
    assert_eq!(index.vector_index.search_limit(3, "default", 1, None), None);
    assert_eq!(index.vector_index.search_limit(2, "other", 1, None), None);
    assert_eq!(index.vector_index.search_limit(2, "default", 0, None), None);
    index.delete_node(&node_b);
    assert_eq!(index.vector_index.search_limit(2, "default", 1, None), None);
    assert_eq!(
        index.semantic_candidate_ids(2, "default", None, 1, None, &None),
        vec![node_a.id.clone()]
    );
    assert!(index.semantic_candidate_ids(2, "default", None, 0, None, &None).is_empty());
}

#[test]
fn a_refused_vector_costs_the_search_graph() {
    let mut node_a = indexed_node("node_a", "memory");
    node_a.vectors.insert("default".to_owned(), vector_bits(&[1.0, 0.0]));
    let mut node_b = indexed_node("node_b", "memory");
    node_b.vectors.insert("default".to_owned(), vector_bits(&[0.0, 1.0]));
    let mut index = GraphIndex::rebuild_with_config(&[node_a.clone()], &[], &hnsw_config());
    index.set_search_graph("default", true);
    index.upsert_node(&node_b);
    assert_eq!(index.vector_index.search_limit(2, "default", 1, None), Some(2));
    let mut refused: OrderedSet<String> = OrderedSet::new();
    refused.insert("default".to_owned());
    index.upsert_node_with_refusals(&node_b, &refused);
    assert_eq!(index.vector_index.search_limit(2, "default", 1, None), None);
    assert_eq!(index.vector_candidate_ids_iter("default").len(), 2);
}

#[test]
fn a_vector_of_another_length_is_no_candidate() {
    let mut node_a = indexed_node("node_a", "memory");
    node_a.vectors.insert("default".to_owned(), vector_bits(&[1.0, 0.0]));
    let mut index = GraphIndex::rebuild_with_config(&[node_a.clone()], &[], &hnsw_config());
    index.set_search_graph("default", true);
    let mut long = indexed_node("node_c", "memory");
    long.vectors.insert("default".to_owned(), vector_bits(&[0.0, 1.0, 0.0]));
    index.upsert_node(&long);
    assert_eq!(index.vector_candidate_ids_iter("default"), vec![node_a.id.clone()]);
    assert!(index.snapshot().vector_runtime_ready);
}

#[test]
fn sidecar_names_keep_to_plain_characters() {
    assert_eq!(sanitize_vector_name("a b/c-d_e9"), "a_b_c-d_e9");
    assert_eq!(
        vector_space_sidecar_name("vector-index.hnsw.bin", "my space", ".hnsw.bin"),
        "vector-index.my_space.hnsw.bin"
    );
    assert!(is_matching_sidecar("vector-index.hnsw.bin", ".hnsw.bin", "vector-index.a.hnsw.bin"));
    assert!(!is_matching_sidecar("vector-index.hnsw.bin", ".hnsw.bin", "other.a.hnsw.bin"));
    assert!(!is_matching_sidecar("vector-index.hnsw.bin", ".hnsw.bin", "vector-index.a.txt"));
}

#[test]
fn a_node_that_is_written_and_deleted_again_leaves_no_trace() {
    let mut kept = indexed_node("kept", "memory");
    kept.properties.insert("unique_key".to_owned(), PropertyValue::String("k".to_owned()));
    kept.properties.insert("timestamp".to_owned(), PropertyValue::Integer(5));
    kept.vectors.insert("default".to_owned(), vector_bits(&[1.0]));
    let exact =
        VectorIndexConfig { backend: VectorIndexBackendConfig::Exact, ..hnsw_config() };
    let mut index = GraphIndex::rebuild_with_config(&[], &[], &exact);
    index.upsert_node(&kept);
    let before = index.clone();
    let mut fresh = indexed_node("fresh", "other");
    fresh.properties.insert("unique_key".to_owned(), PropertyValue::String("f".to_owned()));
    fresh.properties.insert("timestamp".to_owned(), PropertyValue::Integer(9));
    fresh.vectors.insert("named".to_owned(), vector_bits(&[1.0, 2.0]));
    index.upsert_node(&fresh);
    assert_ne!(index, before);
    assert_eq!(index.lookup_unique_key("f"), Some(&fresh.id));
    index.delete_node(&fresh);
    assert_eq!(index, before);
    assert_eq!(index.lookup_unique_key("f"), None);
    assert!(!index.contains_node(&fresh.id));
}

#[test]
fn a_unique_key_leads_to_its_node_while_it_is_not_shared() {
    let keyed = |id: &str, key: &str| {
        let mut node = indexed_node(id, "memory");
        node.properties
            .insert("unique_key".to_owned(), PropertyValue::String(key.to_owned()));
        node
    };
    let mut index = GraphIndex::rebuild(&[keyed("a", "x"), keyed("b", "y")], &[]);
    assert_eq!(index.lookup_unique_key("x"), Some(&indexed_id("a")));
    assert_eq!(index.lookup_unique_key("y"), Some(&indexed_id("b")));
    index.upsert_node(&keyed("c", "x"));
    assert_eq!(index.lookup_unique_key("x"), Some(&indexed_id("c")));
    index.delete_node(&keyed("c", "x"));
    assert_eq!(index.lookup_unique_key("x"), None);
    assert_eq!(index.lookup_unique_key("y"), Some(&indexed_id("b")));
}

#[test]
fn an_id_left_under_another_type_does_not_matter() {
    let exact =
        VectorIndexConfig { backend: VectorIndexBackendConfig::Exact, ..hnsw_config() };
    let mut index = GraphIndex::rebuild_with_config(&[], &[], &exact);
    index.upsert_node(&indexed_node("a", "first"));
    index.upsert_node(&indexed_node("a", "second"));
    index.delete_node(&indexed_node("a", "second"));
    let before = index.clone();
    index.upsert_node(&indexed_node("a", "second"));
    index.delete_node(&indexed_node("a", "second"));
    assert_eq!(index, before);
}
