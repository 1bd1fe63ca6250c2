//! Plans, traversals and rankings.

use im::OrdMap;
use undr9::common::{EdgeId, NodeId};
use undr9::distances::graph_distances;
use undr9::execute::{Executor, NodeScore, RankingInputs};
use undr9::filters::FilterExpression;
use undr9::graph::{GraphMutation, GraphSnapshot, GraphView, OverlayGraphView};
use undr9::index::{EdgeDirection, GraphIndex};
use undr9::ordered::OrderedMap;
use undr9::paths::{find_path, PathOutcome};
use undr9::plan::{
    resolve_required_result_limit, resolve_result_limit, resolve_timeout_ms,
    resolve_traversal_runtime, PlanKind, Planner, QueryRequest, TraversalConstraints,
};
use undr9::rank::{finalize_top_ranked_results, push_top_ranked_result};
use undr9::records::{EdgeRecord, NodeRecord, PropertyValue};
use undr9::results::{QueryExecution, QueryExecutionItem, RankedNodeResult, ScoreBreakdown};
use undr9::traverse::traverse;
use undr9::vectors::{VectorIndexBackendConfig, VectorIndexConfig};

fn graph_id(value: &str) -> NodeId {
    NodeId::new(value).expect("valid node id")
}

fn graph_node(value: &str, node_type: &str) -> NodeRecord {
    NodeRecord::new(graph_id(value), node_type).expect("node should build")
}

fn graph_edge(value: &str, source: &NodeRecord, target: &NodeRecord) -> EdgeRecord {
    EdgeRecord {
        id: EdgeId::new(value).expect("valid edge id"),
        source: source.id.clone(),
        target: target.id.clone(),
        edge_type: "relates_to".to_owned(),
        properties: OrderedMap::new(),
    }
}

fn single_bits(values: &[f32]) -> Vec<u32> {
    values.iter().map(|value| value.to_bits()).collect()
}

fn single_floats(bits: &[u32]) -> Vec<f32> {
    bits.iter().map(|bits| f32::from_bits(*bits)).collect()
}

fn memory_node(
    value: &str,
    vector: &[f32],
    timestamp: i64,
    importance: f64,
    confidence: f64,
) -> NodeRecord {
    let mut node = graph_node(value, "memory");
    node.vectors.insert("default".to_owned(), single_bits(vector));
    node.properties.insert("timestamp".to_owned(), PropertyValue::Integer(timestamp));
    node.properties
        .insert("importance".to_owned(), PropertyValue::Float(importance.to_bits()));
    node.properties
        .insert("confidence".to_owned(), PropertyValue::Float(confidence.to_bits()));
    node
}

fn snapshot_with(nodes: &[NodeRecord], edges: &[EdgeRecord], indexes: GraphIndex) -> GraphSnapshot {
    GraphSnapshot {
        nodes: nodes
            .iter()
            .map(|node| (node.id.as_str().to_owned(), node.clone()))
            .collect::<OrdMap<_, _>>(),
        edges: edges
            .iter()
            .map(|edge| (edge.id.as_str().to_owned(), edge.clone()))
            .collect::<OrdMap<_, _>>(),
        indexes,
    }
}

fn snapshot_of(nodes: &[NodeRecord], edges: &[EdgeRecord]) -> GraphSnapshot {
    snapshot_with(nodes, edges, GraphIndex::rebuild(nodes, edges))
}

fn similarity(left: &[f32], right: &[f32]) -> f32 {
    let dot = left.iter().zip(right).map(|(left, right)| left * right).sum::<f32>();
    let left_norm = left.iter().map(|value| value * value).sum::<f32>().sqrt();
    let right_norm = right.iter().map(|value| value * value).sum::<f32>().sqrt();
    ((dot / (left_norm * right_norm)) + 1.0) / 2.0
}

fn recency(timestamp: i64, now: i64) -> f32 {
    if timestamp >= now {
        1.0
    } else {
        1.0 / (1.0 + ((now - timestamp) as f32 / (7.0 * 24.0 * 60.0 * 60.0 * 1000.0)))
    }
}

fn signal(node: &NodeRecord, key: &str) -> f32 {
    match node.property(key) {
        Some(PropertyValue::Float(bits)) => (f64::from_bits(*bits) as f32).clamp(0.0, 1.0),
        _ => 0.5,
    }
}

/// The scores of the nodes that a request compares.
fn scored(request: &QueryRequest, view: &GraphSnapshot, hits: Option<Vec<NodeId>>) -> RankingInputs {
    let candidates =
        Executor::ranking_candidates(request, view, &hits).expect("request should be in order");
    let mut scores: OrderedMap<NodeId, NodeScore> = OrderedMap::new();
    for candidate in candidates {
        let vector = candidate.node.embedding().map(single_floats).unwrap_or_default();
        let (structural, semantic, temporal, importance, confidence) = match request {
            QueryRequest::VectorSearch { query_vector, .. } => {
                (0.0, similarity(&single_floats(query_vector), &vector), 0.0, 0.0, 0.0)
            }
            QueryRequest::RankedRetrieval { query_vector, now_epoch_ms, .. } => (
                candidate.distance.map_or(0.0, |distance| 1.0 / (1.0 + f32::from(distance))),
                query_vector
                    .as_ref()
                    .map_or(0.0, |query| similarity(&single_floats(query), &vector)),
                candidate.node.timestamp_ms().map_or(0.0, |time| recency(time, *now_epoch_ms)),
                signal(&candidate.node, "importance"),
                signal(&candidate.node, "confidence"),
            ),
            _ => (0.0, 0.0, 0.0, 0.0, 0.0),
        };
        let score = match request {
            QueryRequest::VectorSearch { .. } => semantic,
            _ => {
                structural * 0.30
                    + semantic * 0.30
                    + temporal * 0.15
                    + importance * 0.15
                    + confidence * 0.10
            }
        };
        scores.insert(
            candidate.node.id.clone(),
            NodeScore {
                score: score.to_bits(),
                breakdown: ScoreBreakdown {
                    structural: structural.to_bits(),
                    semantic: semantic.to_bits(),
                    temporal: temporal.to_bits(),
                    importance: importance.to_bits(),
                    confidence: confidence.to_bits(),
                },
            },
        );
    }
    RankingInputs { hits, scores }
}

#[test]
fn planner_selects_exact_lookup_for_id_queries() {
    let request = QueryRequest::GetNodeById { node_id: graph_id("node_1") };
    let plan = Planner::plan(&request).expect("plan should be built");

    assert_eq!(plan.kind, PlanKind::ExactLookup);
}

#[test]
fn planner_rejects_invalid_traversal_bounds() {
    let request = QueryRequest::Traverse {
        start_node_id: graph_id("node_1"),
        edge_type: None,
        direction: EdgeDirection::Outgoing,
        max_hops: Some(0),
        limit: None,
        timeout_ms: None,
        constraints: None,
    };

    let error = Planner::plan(&request).expect_err("plan should be rejected");
    assert!(error.to_string().contains("max_depth"));
}

#[test]
fn planner_rejects_invalid_ranked_retrieval_requests() {
    let request = QueryRequest::RankedRetrieval {
        query_vector: None,
        reference_node_id: None,
        edge_type: None,
        from_epoch_ms: None,
        to_epoch_ms: None,
        vector_name: None,
        limit: 5,
        top_k: None,
        now_epoch_ms: 100,
        retrieval_profile: None,
    };

    let error = Planner::plan(&request).expect_err("request should be rejected");
    assert!(error.to_string().contains("requires at least"));
}

#[test]
fn planner_records_vector_search_top_k_override() {
    let request = QueryRequest::VectorSearch {
        query_vector: single_bits(&[1.0, 0.0]),
        node_type: Some("memory".to_owned()),
        vector_name: None,
        limit: 5,
        top_k: Some(25),
    };

    let plan = Planner::plan(&request).expect("plan should be built");
    assert!(plan
        .filters
        .iter()
        .any(|filter| filter.field == "top_k" && filter.value == PropertyValue::Integer(25)));
}

#[test]
fn executes_neighbor_and_traversal_queries() {
    let node_a = graph_node("node_a", "memory");
    let node_b = graph_node("node_b", "memory");
    let node_c = graph_node("node_c", "memory");
    let edge_ab = graph_edge("edge_ab", &node_a, &node_b);
    let edge_bc = graph_edge("edge_bc", &node_b, &node_c);
    let snapshot = snapshot_of(
        &[node_a.clone(), node_b.clone(), node_c.clone()],
        &[edge_ab.clone(), edge_bc.clone()],
    );

    let neighbors = Executor::execute(
        &QueryRequest::ListNeighbors {
            node_id: node_a.id.clone(),
            edge_type: Some("relates_to".to_owned()),
            direction: EdgeDirection::Outgoing,
            limit: None,
        },
        &snapshot,
        &RankingInputs::none(),
    )
    .expect("neighbors should execute");
    assert_eq!(neighbors.nodes.len(), 1);
    assert_eq!(neighbors.edges.len(), 1);
    assert!(neighbors.path.is_none());

    let traversal = Executor::execute(
        &QueryRequest::Traverse {
            start_node_id: node_a.id.clone(),
            edge_type: Some("relates_to".to_owned()),
            direction: EdgeDirection::Outgoing,
            max_hops: Some(2),
            limit: Some(10),
            timeout_ms: Some(5_000),
            constraints: Some(TraversalConstraints {
                edge_types: vec!["relates_to".to_owned()],
                node_labels: vec!["memory".to_owned()],
            }),
        },
        &snapshot,
        &RankingInputs::none(),
    )
    .expect("traversal should execute");
    assert_eq!(traversal.nodes.len(), 3);
    assert_eq!(traversal.edges.len(), 2);
    assert!(traversal.ranked_results.is_empty());
    assert!(traversal.path.is_none());

    let shortest_path = Executor::execute(
        &QueryRequest::ShortestPath {
            source_node_id: node_a.id.clone(),
            target_node_id: node_c.id.clone(),
            direction: EdgeDirection::Outgoing,
            max_depth: Some(3),
            limit: Some(10),
            timeout_ms: Some(5_000),
            constraints: Some(TraversalConstraints {
                edge_types: vec!["relates_to".to_owned()],
                node_labels: vec!["memory".to_owned()],
            }),
        },
        &snapshot,
        &RankingInputs::none(),
    )
    .expect("shortest path should execute");
    assert_eq!(shortest_path.path.expect("path should exist").hop_count, 2);
}

#[test]
fn executes_unique_key_lookup() {
    let mut node = graph_node("node_1", "memory");
    node.properties.insert("unique_key".to_owned(), PropertyValue::String("alpha".to_owned()));
    let snapshot = snapshot_of(&[node.clone()], &[]);

    let result = Executor::execute(
        &QueryRequest::GetNodeByUniqueKey { unique_key: "alpha".to_owned() },
        &snapshot,
        &RankingInputs::none(),
    )
    .expect("lookup should succeed");

    assert_eq!(result.nodes.len(), 1);
    assert_eq!(result.nodes[0].id, node.id);
}

#[test]
fn label_scan_respects_result_limit() {
    let node_a = graph_node("node_a", "memory");
    let node_b = graph_node("node_b", "memory");
    let snapshot = snapshot_of(&[node_a, node_b], &[]);

    let result = Executor::execute(
        &QueryRequest::SearchByLabel { label: "memory".to_owned(), limit: Some(1) },
        &snapshot,
        &RankingInputs::none(),
    )
    .expect("label scan should execute");
    assert_eq!(result.nodes.len(), 1);
}

#[test]
fn execute_iter_streams_label_and_time_range_nodes() {
    let mut node_a = graph_node("node_a", "memory");
    node_a.properties.insert("timestamp".to_owned(), PropertyValue::Integer(1_000));
    let mut node_b = graph_node("node_b", "memory");
    node_b.properties.insert("timestamp".to_owned(), PropertyValue::Integer(1_100));
    let mut node_c = graph_node("node_c", "profile");
    node_c.properties.insert("custom_time".to_owned(), PropertyValue::Integer(1_050));
    let snapshot = snapshot_of(&[node_a, node_b, node_c.clone()], &[]);

    let label_items = Executor::execute_iter(
        &QueryRequest::SearchByLabel { label: "memory".to_owned(), limit: Some(1) },
        &snapshot,
        &RankingInputs::none(),
    )
    .expect("label scan iterator should execute")
    .into_items();
    assert_eq!(label_items.len(), 1);
    match &label_items[0] {
        QueryExecutionItem::Node(node) => assert_eq!(node.node_type, "memory"),
        other => panic!("unexpected label scan item: {other:?}"),
    }

    let time_range_items = Executor::execute_iter(
        &QueryRequest::TimeRange {
            field: "custom_time".to_owned(),
            from_epoch_ms: 1_000,
            to_epoch_ms: 1_100,
            limit: 10,
        },
        &snapshot,
        &RankingInputs::none(),
    )
    .expect("time range iterator should execute")
    .into_items();
    assert_eq!(time_range_items.len(), 1);
    match &time_range_items[0] {
        QueryExecutionItem::Node(node) => assert_eq!(node.id, node_c.id),
        other => panic!("unexpected time range item: {other:?}"),
    }
}

#[test]
fn executes_temporal_vector_and_ranked_retrieval_queries() {
    let node_a = memory_node("node_a", &[1.0, 0.0], 1_000, 0.9, 0.8);
    let node_b = memory_node("node_b", &[0.8, 0.2], 1_100, 0.6, 0.7);
    let node_c = memory_node("node_c", &[0.0, 1.0], 4_000_000, 0.2, 0.4);
    let edge_ab = graph_edge("edge_ab", &node_a, &node_b);
    let edge_bc = graph_edge("edge_bc", &node_b, &node_c);
    let snapshot =
        snapshot_of(&[node_a.clone(), node_b.clone(), node_c.clone()], &[edge_ab, edge_bc]);

    let time_range = Executor::execute(
        &QueryRequest::TimeRange {
            field: "timestamp".to_owned(),
            from_epoch_ms: 900,
            to_epoch_ms: 2_000,
            limit: 10,
        },
        &snapshot,
        &RankingInputs::none(),
    )
    .expect("time range should execute");
    assert_eq!(time_range.nodes.len(), 2);

    let request = QueryRequest::VectorSearch {
        query_vector: single_bits(&[1.0, 0.0]),
        node_type: Some("memory".to_owned()),
        vector_name: None,
        limit: 2,
        top_k: None,
    };
    let inputs = scored(&request, &snapshot, None);
    let vector =
        Executor::execute(&request, &snapshot, &inputs).expect("vector search should execute");
    assert_eq!(vector.ranked_results.len(), 2);
    assert_eq!(vector.ranked_results[0].node.id, node_a.id);

    let request = QueryRequest::RankedRetrieval {
        query_vector: Some(single_bits(&[1.0, 0.0])),
        reference_node_id: Some(node_a.id.clone()),
        edge_type: Some("relates_to".to_owned()),
        from_epoch_ms: Some(900),
        to_epoch_ms: Some(10_000),
        vector_name: None,
        limit: 3,
        top_k: None,
        now_epoch_ms: 1_200,
        retrieval_profile: Some("v1-default".to_owned()),
    };
    let inputs = scored(&request, &snapshot, None);
    let ranked =
        Executor::execute(&request, &snapshot, &inputs).expect("ranked retrieval should execute");
    assert_eq!(ranked.plan_kind, PlanKind::RankedHybrid);
    assert_eq!(ranked.ranked_results.len(), 2);
    assert!(
        f32::from_bits(ranked.ranked_results[0].score)
            >= f32::from_bits(ranked.ranked_results[1].score)
    );
    assert_eq!(ranked.ranked_results[0].node.id, node_a.id);
    assert_eq!(ranked.retrieval_profile.as_deref(), Some("v1-default"));
}

#[test]
fn ranked_retrieval_unions_semantic_and_structural_candidates() {
    let node_a = memory_node("node_a", &[1.0, 0.0], 1_000, 0.9, 0.9);
    let node_b = memory_node("node_b", &[0.0, 1.0], 1_050, 0.4, 0.4);
    let edge_ab = graph_edge("edge_ab", &node_a, &node_b);
    let nodes = [node_a.clone(), node_b.clone()];
    let edges = [edge_ab];
    let mut indexes = GraphIndex::rebuild_with_config(
        &nodes,
        &edges,
        &VectorIndexConfig {
            backend: VectorIndexBackendConfig::Hnsw,
            exact_fallback_threshold: 0,
            semantic_top_k: 1,
            hnsw_m: 16,
            hnsw_ef_construction: 200,
            hnsw_ef_search: 64,
        },
    );
    indexes.set_search_graph("default", true);
    let snapshot = snapshot_with(&nodes, &edges, indexes);

    let request = QueryRequest::RankedRetrieval {
        query_vector: Some(single_bits(&[1.0, 0.0])),
        reference_node_id: Some(node_a.id.clone()),
        edge_type: Some("relates_to".to_owned()),
        from_epoch_ms: Some(900),
        to_epoch_ms: Some(1_100),
        vector_name: None,
        limit: 5,
        top_k: None,
        now_epoch_ms: 1_200,
        retrieval_profile: None,
    };
    let inputs = scored(&request, &snapshot, Some(vec![node_a.id.clone()]));
    let ranked = Executor::execute(&request, &snapshot, &inputs)
        .expect("ranked retrieval should execute")
        .ranked_results;

    assert_eq!(ranked.len(), 2);
    assert_eq!(ranked[0].node.id, node_a.id);
    assert!(ranked.iter().any(|result| result.node.id == node_b.id));
    let node_a_result = ranked
        .iter()
        .find(|result| result.node.id == node_a.id)
        .expect("node_a should remain in the candidate set");
    let node_b_result = ranked
        .iter()
        .find(|result| result.node.id == node_b.id)
        .expect("node_b should be retained by structural union");
    assert!(f32::from_bits(node_b_result.breakdown.structural) > 0.0);
    assert!(f32::from_bits(node_b_result.breakdown.semantic) <= 0.5);
    assert!(
        f32::from_bits(node_b_result.breakdown.semantic)
            < f32::from_bits(node_a_result.breakdown.semantic)
    );
}

#[test]
fn execute_iter_streams_traversal_items_incrementally() {
    let node_a = graph_node("node_a", "memory");
    let node_b = graph_node("node_b", "memory");
    let edge_ab = graph_edge("edge_ab", &node_a, &node_b);
    let snapshot = snapshot_of(&[node_a.clone(), node_b.clone()], &[edge_ab.clone()]);

    let items = Executor::execute_iter(
        &QueryRequest::Traverse {
            start_node_id: node_a.id.clone(),
            edge_type: Some("relates_to".to_owned()),
            direction: EdgeDirection::Outgoing,
            max_hops: Some(2),
            limit: Some(10),
            timeout_ms: Some(5_000),
            constraints: None,
        },
        &snapshot,
        &RankingInputs::none(),
    )
    .expect("traversal iterator should execute")
    .into_items();

    assert_eq!(items.len(), 3);
    match &items[0] {
        QueryExecutionItem::Node(node) => assert_eq!(node.id, node_a.id),
        other => panic!("unexpected first traversal item: {other:?}"),
    }
    assert!(items.iter().any(|item| matches!(
        item,
        QueryExecutionItem::Edge(edge) if edge.id == edge_ab.id
    )));
    assert!(items.iter().any(|item| matches!(
        item,
        QueryExecutionItem::Node(node) if node.id == node_b.id
    )));
}

fn ranked_node(node_id: &str, score: f32) -> RankedNodeResult {
    RankedNodeResult {
        node: graph_node(node_id, "memory"),
        score: score.to_bits(),
        breakdown: ScoreBreakdown {
            structural: 0,
            semantic: 0,
            temporal: 0,
            importance: 0,
            confidence: 0,
        },
    }
}

#[test]
fn top_k_heap_keeps_highest_scores_with_stable_tie_breaking() {
    let mut heap = Vec::new();
    for result in [
        ranked_node("node_d", 0.40),
        ranked_node("node_c", 0.80),
        ranked_node("node_b", 0.95),
        ranked_node("node_a", 0.80),
    ] {
        push_top_ranked_result(&mut heap, 3, result);
    }

    let ranked_results = finalize_top_ranked_results(heap);
    let ranked_ids = ranked_results
        .iter()
        .map(|result| result.node.id.as_str().to_owned())
        .collect::<Vec<_>>();
    let ranked_scores =
        ranked_results.iter().map(|result| f32::from_bits(result.score)).collect::<Vec<_>>();

    assert_eq!(ranked_ids, vec!["node_b", "node_a", "node_c"]);
    assert_eq!(ranked_scores, vec![0.95, 0.80, 0.80]);
}

#[test]
fn benchmark_hybrid_retrieval_workload() {
    let mut nodes = Vec::new();
    let mut edges = Vec::new();
    for index in 0..1_000 {
        nodes.push(memory_node(
            &format!("node_{index}"),
            &[1.0 - (index as f32 / 1_000.0), index as f32 / 1_000.0],
            1_000 + index as i64,
            0.5,
            0.5,
        ));
    }
    for index in 0..999 {
        edges.push(graph_edge(&format!("edge_{index}"), &nodes[index], &nodes[index + 1]));
    }
    let snapshot = snapshot_of(&nodes, &edges);

    let request = QueryRequest::RankedRetrieval {
        query_vector: Some(single_bits(&[1.0, 0.0])),
        reference_node_id: Some(graph_id("node_0")),
        edge_type: Some("relates_to".to_owned()),
        from_epoch_ms: Some(1_000),
        to_epoch_ms: Some(2_000),
        vector_name: None,
        limit: 20,
        top_k: None,
        now_epoch_ms: 2_000,
        retrieval_profile: Some("v1-default".to_owned()),
    };
    let inputs = scored(&request, &snapshot, None);
    let response =
        Executor::execute(&request, &snapshot, &inputs).expect("benchmark query should execute");
    assert_eq!(response.ranked_results.len(), 20);
}

/// A ring of five nodes with one dead end: n0 -> n1 -> n2 -> n3 -> n4 -> n0 and n2 -> n5.
fn ring() -> (Vec<NodeRecord>, Vec<EdgeRecord>) {
    let nodes: Vec<NodeRecord> =
        (0..6).map(|index| graph_node(&format!("n{index}"), "memory")).collect();
    let mut edges: Vec<EdgeRecord> = (0..5)
        .map(|index| graph_edge(&format!("e{index}"), &nodes[index], &nodes[(index + 1) % 5]))
        .collect();
    edges.push(graph_edge("e5", &nodes[2], &nodes[5]));
    (nodes, edges)
}

fn node_names(items: &[QueryExecutionItem]) -> Vec<String> {
    items
        .iter()
        .filter_map(|item| match item {
            QueryExecutionItem::Node(node) => Some(node.id.as_str().to_owned()),
            _ => None,
        })
        .collect()
}

#[test]
fn traversals_reach_what_their_depth_allows() {
    let (nodes, edges) = ring();
    let snapshot = snapshot_of(&nodes, &edges);
    let walk = |depth: u8, limit: usize, direction: EdgeDirection| {
        let runtime = resolve_traversal_runtime(Some(depth), Some(limit), None, None)
            .expect("bounds should be accepted");
        let (items, finished) = traverse(&snapshot, &nodes[0].id, direction, &runtime);
        assert!(finished);
        node_names(&items)
    };
    assert_eq!(walk(1, 100, EdgeDirection::Outgoing), vec!["n0", "n1"]);
    assert_eq!(walk(2, 100, EdgeDirection::Outgoing), vec!["n0", "n1", "n2"]);
    assert_eq!(walk(3, 100, EdgeDirection::Outgoing), vec!["n0", "n1", "n2", "n3", "n5"]);
    assert_eq!(walk(1, 100, EdgeDirection::Both), vec!["n0", "n1", "n4"]);
    assert_eq!(walk(2, 100, EdgeDirection::Incoming), vec!["n0", "n4", "n3"]);
    assert_eq!(walk(5, 2, EdgeDirection::Outgoing).len(), 2);
}

#[test]
fn distances_stop_after_three_hops() {
    let (nodes, edges) = ring();
    let snapshot = snapshot_of(&nodes, &edges);
    let known = graph_distances(&snapshot, &nodes[0].id, Some("relates_to"));
    assert_eq!(known.get(&nodes[0].id), Some(&0));
    assert_eq!(known.get(&nodes[1].id), Some(&1));
    assert_eq!(known.get(&nodes[4].id), Some(&1));
    assert_eq!(known.get(&nodes[3].id), Some(&2));
    assert_eq!(known.get(&nodes[5].id), Some(&3));
    assert_eq!(graph_distances(&snapshot, &nodes[0].id, Some("knows")).len(), 1);
}

#[test]
fn found_paths_are_shortest() {
    let (nodes, edges) = ring();
    let snapshot = snapshot_of(&nodes, &edges);
    let search = |target: usize, direction: EdgeDirection, depth: u8| {
        let runtime = resolve_traversal_runtime(Some(depth), None, None, None)
            .expect("bounds should be accepted");
        find_path(&snapshot, &nodes[0].id, &nodes[target].id, direction, &runtime)
    };
    match search(5, EdgeDirection::Outgoing, 5) {
        PathOutcome::Found(path) => {
            assert_eq!(path.hop_count, 3);
            let ids: Vec<&str> = path.node_ids.iter().map(|id| id.as_str()).collect();
            assert_eq!(ids, vec!["n0", "n1", "n2", "n5"]);
            let ids: Vec<&str> = path.edge_ids.iter().map(|id| id.as_str()).collect();
            assert_eq!(ids, vec!["e0", "e1", "e5"]);
        }
        _ => panic!("a path should be found"),
    }
    match search(4, EdgeDirection::Both, 5) {
        PathOutcome::Found(path) => assert_eq!(path.hop_count, 1),
        _ => panic!("a path should be found"),
    }
    match search(0, EdgeDirection::Outgoing, 1) {
        PathOutcome::Found(path) => {
            assert_eq!(path.hop_count, 0);
            assert_eq!(path.node_ids.len(), 1);
        }
        _ => panic!("a path should be found"),
    }
    let lone = snapshot_of(&nodes, &[]);
    let runtime = resolve_traversal_runtime(Some(5), None, None, None).expect("bounds");
    assert!(matches!(
        find_path(&lone, &nodes[0].id, &nodes[4].id, EdgeDirection::Both, &runtime),
        PathOutcome::Absent
    ));
}

#[test]
fn labels_and_edge_types_constrain_traversals() {
    let (mut nodes, mut edges) = ring();
    nodes[1].node_type = "profile".to_owned();
    edges[4].edge_type = "knows".to_owned();
    let snapshot = snapshot_of(&nodes, &edges);
    let walk = |edge_types: Vec<String>, node_labels: Vec<String>| {
        let runtime = resolve_traversal_runtime(
            Some(5),
            None,
            None,
            Some(TraversalConstraints { edge_types, node_labels }),
        )
        .expect("bounds should be accepted");
        node_names(&traverse(&snapshot, &nodes[0].id, EdgeDirection::Both, &runtime).0)
    };
    assert_eq!(walk(vec!["knows".to_owned()], Vec::new()), vec!["n0", "n4"]);
    assert!(!walk(Vec::new(), vec!["memory".to_owned()]).contains(&"n1".to_owned()));
}

#[test]
fn bounds_are_resolved() {
    assert_eq!(resolve_result_limit(None), Ok(100));
    assert_eq!(resolve_result_limit(Some(1_000)), Ok(1_000));
    assert_eq!(
        resolve_required_result_limit(0).expect_err("no results").to_string(),
        "validation error: limit must be greater than zero"
    );
    assert_eq!(
        resolve_required_result_limit(1_001).expect_err("too many").to_string(),
        "validation error: limit must be less than or equal to 1000"
    );
    assert_eq!(resolve_timeout_ms(30_000), Ok(30_000));
    assert_eq!(
        resolve_timeout_ms(0).expect_err("no time").to_string(),
        "validation error: timeout_ms must be greater than zero"
    );
    assert_eq!(
        resolve_timeout_ms(30_001).expect_err("too long").to_string(),
        "validation error: timeout_ms must be less than or equal to 30000"
    );
    let runtime = resolve_traversal_runtime(None, None, None, None).expect("defaults");
    assert_eq!((runtime.max_depth, runtime.limit, runtime.timeout_ms), (5, 100, 5_000));
    let merged = runtime.merge_legacy_edge_type(Some("knows".to_owned()));
    assert_eq!(merged.constraints.edge_types, vec!["knows"]);
}

#[test]
fn requests_out_of_order_are_refused() {
    let refusal = |request: &QueryRequest| {
        Planner::plan(request).expect_err("request should be rejected").to_string()
    };
    assert!(refusal(&QueryRequest::TimeRange {
        field: "timestamp".to_owned(),
        from_epoch_ms: 2,
        to_epoch_ms: 1,
        limit: 10,
    })
    .contains("time range start must be before end"));
    assert!(refusal(&QueryRequest::VectorSearch {
        query_vector: Vec::new(),
        node_type: None,
        vector_name: None,
        limit: 1,
        top_k: None,
    })
    .contains("query_vector"));
    let request = QueryRequest::RankedRetrieval {
        query_vector: Some(single_bits(&[1.0])),
        reference_node_id: None,
        edge_type: None,
        from_epoch_ms: None,
        to_epoch_ms: None,
        vector_name: None,
        limit: 5,
        top_k: None,
        now_epoch_ms: 100,
        retrieval_profile: Some("v9".to_owned()),
    };
    let snapshot = snapshot_of(&[], &[]);
    let error = Executor::execute(&request, &snapshot, &RankingInputs::none())
        .expect_err("an unknown profile is refused");
    assert!(error.to_string().contains("v9"));
}

#[test]
fn answers_survive_being_taken_apart() {
    let (nodes, edges) = ring();
    let snapshot = snapshot_of(&nodes, &edges);
    let request = QueryRequest::ListNeighbors {
        node_id: nodes[2].id.clone(),
        edge_type: None,
        direction: EdgeDirection::Both,
        limit: None,
    };
    let answer =
        Executor::execute(&request, &snapshot, &RankingInputs::none()).expect("an answer");
    let again = Executor::execute(&request, &snapshot, &RankingInputs::none()).expect("an answer");
    assert_eq!(answer.nodes.len(), 3);
    assert_eq!(QueryExecution::from_response(again).collect_response(), answer);
}

#[test]
fn views_show_what_a_mutation_will_do() {
    let (nodes, edges) = ring();
    let snapshot = snapshot_of(&nodes, &edges);
    let mut mutation = GraphMutation::default();
    mutation.removed_node_ids.insert(nodes[1].id.clone());
    mutation.removed_edge_ids.insert(edges[4].id.clone());
    let fresh = graph_node("n9", "memory");
    let bridge = graph_edge("e9", &nodes[0], &fresh);
    mutation.added_nodes.insert(fresh.id.clone(), fresh.clone());
    mutation.added_edges.insert(bridge.id.clone(), bridge.clone());
    let view = OverlayGraphView::new(&snapshot, &mutation);
    assert!(view.get_node(&nodes[1].id).is_none());
    assert!(!view.contains_node(&nodes[1].id));
    assert_eq!(view.get_node(&fresh.id), Some(fresh.clone()));
    assert!(view.get_edge(&edges[4].id).is_none());
    let leaving = view.edge_ids_for_iter(&nodes[0].id, EdgeDirection::Outgoing, None);
    assert!(leaving.contains(&bridge.id));
    assert_eq!(view.node_ids_by_type("memory").len(), 6);
    assert_eq!(view.all_nodes_iter().len(), 6);
    assert_eq!(snapshot.all_nodes_iter().len(), 6);
    assert!(snapshot.contains_node(&nodes[1].id));
}

#[test]
fn negative_scores_rank_below_zero() {
    let mut kept = Vec::new();
    for result in [
        ranked_node("a", -0.5),
        ranked_node("b", 0.0),
        ranked_node("c", -0.1),
        ranked_node("d", 0.1),
    ] {
        push_top_ranked_result(&mut kept, 4, result);
    }
    let names: Vec<String> = finalize_top_ranked_results(kept)
        .iter()
        .map(|result| result.node.id.as_str().to_owned())
        .collect();
    assert_eq!(names, vec!["d", "b", "c", "a"]);
    let mut none = Vec::new();
    push_top_ranked_result(&mut none, 0, ranked_node("a", 1.0));
    assert!(none.is_empty());
}

fn eq(field: &str, value: PropertyValue) -> FilterExpression {
    FilterExpression::Eq { field: field.to_owned(), value }
}

fn gt(field: &str, value: PropertyValue) -> FilterExpression {
    FilterExpression::Gt { field: field.to_owned(), value }
}

#[test]
fn conditions_compare_values_of_the_same_kind() {
    let mut node = graph_node("n", "memory");
    node.properties.insert("rank".to_owned(), PropertyValue::Integer(7));
    node.properties.insert("weight".to_owned(), PropertyValue::Float((-0.0_f64).to_bits()));
    node.properties.insert("broken".to_owned(), PropertyValue::Float(f64::NAN.to_bits()));
    node.properties.insert("open".to_owned(), PropertyValue::Boolean(true));
    node.properties.insert(
        "tags".to_owned(),
        PropertyValue::StringList(vec!["a".to_owned(), "b".to_owned()]),
    );
    node.properties
        .insert("spots".to_owned(), PropertyValue::FloatList(single_bits(&[0.0, 1.5])));
    let double = |value: f64| PropertyValue::Float(value.to_bits());

    assert!(gt("rank", PropertyValue::Integer(6)).matches_node(&node));
    assert!(!gt("rank", PropertyValue::Integer(7)).matches_node(&node));
    assert!(!gt("rank", double(6.0)).matches_node(&node));
    assert!(eq("weight", double(0.0)).matches_node(&node));
    assert!(gt("weight", double(-1.0)).matches_node(&node));
    assert!(!gt("weight", double(0.0)).matches_node(&node));
    assert!(!eq("broken", double(f64::NAN)).matches_node(&node));
    assert!(!gt("broken", double(f64::NEG_INFINITY)).matches_node(&node));
    assert!(eq("open", PropertyValue::Boolean(true)).matches_node(&node));
    assert!(eq("tags", PropertyValue::StringList(vec!["a".to_owned(), "b".to_owned()]))
        .matches_node(&node));
    assert!(!eq("tags", PropertyValue::StringList(vec!["a".to_owned()])).matches_node(&node));
    assert!(eq("spots", PropertyValue::FloatList(single_bits(&[-0.0, 1.5]))).matches_node(&node));
    assert!(!eq("spots", PropertyValue::FloatList(single_bits(&[0.0, 1.0]))).matches_node(&node));
    assert!(!eq("missing", PropertyValue::Integer(7)).matches_node(&node));
    assert!(!FilterExpression::Or { conditions: Vec::new() }.matches_node(&node));
    assert!(FilterExpression::Or {
        conditions: vec![eq("missing", PropertyValue::Integer(7)), eq("label", {
            PropertyValue::String("memory".to_owned())
        })],
    }
    .matches_node(&node));
}

#[test]
fn filters_are_planned_and_limited() {
    let nodes: Vec<NodeRecord> =
        ["c", "a", "b"].iter().map(|id| graph_node(id, "memory")).collect();
    let snapshot = snapshot_of(&nodes, &[]);
    let request = |label: Option<&str>, limit: Option<usize>| QueryRequest::FilterNodes {
        label: label.map(str::to_owned),
        filter: eq("label", PropertyValue::String("memory".to_owned())),
        limit,
    };
    let names = |request: &QueryRequest| -> Vec<String> {
        Executor::execute(request, &snapshot, &RankingInputs::none())
            .expect("query should run")
            .nodes
            .iter()
            .map(|node| node.id.as_str().to_owned())
            .collect()
    };
    assert_eq!(names(&request(None, Some(2))), vec!["a", "b"]);
    assert_eq!(names(&request(Some("memory"), Some(2))), vec!["c", "a"]);
    assert!(names(&request(Some("other"), None)).is_empty());
    let plan = Planner::plan(&request(Some("memory"), None)).expect("plan should be built");
    assert_eq!(plan.kind, PlanKind::LabelScan);
    assert_eq!(plan.filters.len(), 2);
    assert_eq!(plan.filters[1].value, PropertyValue::Integer(100));
    assert!(Planner::plan(&request(None, Some(0))).is_err());
}

#[test]
fn scores_that_are_no_numbers_are_answered() {
    let nodes = vec![memory_node("only", &[1.0, 0.0], 0, 0.5, 0.5)];
    let snapshot = snapshot_of(&nodes, &[]);
    let request = QueryRequest::VectorSearch {
        query_vector: single_bits(&[f32::NAN, 0.0]),
        node_type: None,
        vector_name: None,
        limit: 5,
        top_k: None,
    };
    let inputs = scored(&request, &snapshot, None);
    let response =
        Executor::execute(&request, &snapshot, &inputs).expect("query should be answered");
    assert_eq!(response.ranked_results.len(), 1);
    assert!(f32::from_bits(response.ranked_results[0].score).is_nan());

    let listed = finalize_top_ranked_results(vec![
        ranked_node("b", f32::NAN),
        ranked_node("a", f32::NAN),
    ]);
    assert_eq!(listed[0].node.id.as_str(), "a");
    let mixed = finalize_top_ranked_results(vec![
        ranked_node("b", f32::NAN),
        ranked_node("a", 0.5),
        ranked_node("c", 0.25),
    ]);
    assert_eq!(mixed.len(), 3);
}

#[test]
fn path_searches_stop_at_their_limit() {
    let nodes: Vec<NodeRecord> =
        ["a", "b", "c", "d"].iter().map(|id| graph_node(id, "memory")).collect();
    let edges = vec![
        graph_edge("ab", &nodes[0], &nodes[1]),
        graph_edge("bc", &nodes[1], &nodes[2]),
        graph_edge("cd", &nodes[2], &nodes[3]),
    ];
    let snapshot = snapshot_of(&nodes, &edges);
    let outcome = |target: usize, limit: usize| {
        let runtime = resolve_traversal_runtime(Some(5), Some(limit), Some(5_000), None)
            .expect("bounds should be in order");
        find_path(
            &snapshot,
            &nodes[0].id,
            &nodes[target].id,
            EdgeDirection::Outgoing,
            &runtime,
        )
    };
    assert_eq!(outcome(1, 2), PathOutcome::Stopped);
    assert!(matches!(outcome(1, 3), PathOutcome::Found(path) if path.hop_count == 1));
    assert!(matches!(outcome(2, 3), PathOutcome::Found(path) if path.hop_count == 2));
    assert_eq!(outcome(3, 4), PathOutcome::Stopped);
    assert!(matches!(outcome(3, 5), PathOutcome::Found(path) if path.hop_count == 3));
    assert!(matches!(outcome(0, 1), PathOutcome::Found(path) if path.hop_count == 0));
}

#[test]
fn of_paths_as_short_the_first_found_is_given() {
    let nodes: Vec<NodeRecord> =
        ["s", "x", "y", "t"].iter().map(|id| graph_node(id, "memory")).collect();
    let edges = vec![
        graph_edge("1", &nodes[0], &nodes[2]),
        graph_edge("2", &nodes[0], &nodes[1]),
        graph_edge("3", &nodes[1], &nodes[3]),
        graph_edge("4", &nodes[2], &nodes[3]),
    ];
    let snapshot = snapshot_of(&nodes, &edges);
    let runtime = resolve_traversal_runtime(None, None, None, None).expect("bounds");
    for _ in 0..3 {
        let outcome = find_path(
            &snapshot,
            &nodes[0].id,
            &nodes[3].id,
            EdgeDirection::Outgoing,
            &runtime,
        );
        let PathOutcome::Found(path) = outcome else {
            panic!("a path should be found");
        };
        let edge_ids: Vec<&str> = path.edge_ids.iter().map(|id| id.as_str()).collect();
        assert_eq!(edge_ids, vec!["2", "3"]);
    }
}
