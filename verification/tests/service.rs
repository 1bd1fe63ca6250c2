//! What the service answers.

use undr9::auth::{Action, Principal, Role};
use undr9::cluster::{ClusterManager, ClusterTopology};
use undr9::common::{EdgeId, NodeId, Undr9Error};
use undr9::config::AppConfig;
use undr9::database::{Database, StoredState};
use undr9::execute::RankingInputs;
use undr9::execute::NodeScore;
use undr9::execute::Executor;
use undr9::filters::FilterExpression;
use undr9::graph::OverlayGraphView;
use undr9::graph::GraphView;
use undr9::index::EdgeDirection;
use undr9::mutation::{plan_batch_mutation, Refusals};
use undr9::ordered::OrderedMap;
use undr9::plan::QueryRequest;
use undr9::records::{EdgeRecord, NodeRecord, PropertyValue, WriteBatch};
use undr9::replication::{ReplicationMode, ReplicationRecord};
use undr9::results::{QueryExecutionItem, ScoreBreakdown};
use undr9::routes::{Endpoint, Method};
use undr9::service::{
    audit_export_limit, edge_not_found, first_frame, generate_trace_id, health, identify,
    item_frame, last_frame, metrics_disabled, node_not_found, parse_traceparent_trace_id,
    path_edge_id, query_request_kind, readiness, request_timeout, request_trace_id, ApiError,
    MaintenanceStatusResponse, QueryStreamFrame, StreamLines, MAX_STREAM_QUERY_ITEMS,
    MAX_STREAM_RESPONSE_BYTES,
};
use undr9::state::{answer_query, ApiState, EngineNumbers};
use undr9::upkeep::{applied_detail, exported_detail, MaintenanceTask};
use undr9::vectors::VectorIndexConfig;

/// The number of the process that made up the keys.
const PROCESS_ID: u32 = 4_242;

fn stored_id(value: &str) -> NodeId {
    NodeId::new(value).expect("valid node id")
}

fn stored_node(value: &str) -> NodeRecord {
    NodeRecord::new(stored_id(value), "memory").expect("node should build")
}

fn stored_edge(value: &str, source: &str, target: &str) -> EdgeRecord {
    EdgeRecord::new(
        EdgeId::new(value).expect("valid edge id"),
        stored_id(source),
        stored_id(target),
        "relates_to",
    )
    .expect("edge should build")
}

fn nothing_stored() -> StoredState {
    StoredState {
        nodes: Vec::new(),
        edges: Vec::new(),
        vector_index: VectorIndexConfig::default(),
        replication: None,
        cluster: None,
        wal_replay_latency_ms: 0,
    }
}

fn empty_database(node_id: &str) -> Database {
    Database::open_with_identity(nothing_stored(), node_id, "127.0.0.1:9100")
}

fn fresh_state() -> ApiState {
    ApiState::try_new(AppConfig::with_keys_of(1, 2, 3, 4), nothing_stored())
}

fn engine_numbers() -> EngineNumbers {
    EngineNumbers {
        node_count: 2,
        edge_count: 1,
        active_transactions: 0,
        current_revision: 5,
        latest_applied_lsn: Some(4),
        needs_checkpoint: false,
        pending_checkpoint_count: 0,
    }
}

fn no_refusals() -> Refusals {
    OrderedMap::new()
}

#[test]
fn health_endpoint_reports_ok() {
    let answer = health("undr9");
    assert_eq!(answer.status, "ok");
    assert_eq!(answer.service, "undr9");
    assert_eq!(Endpoint::Health.path(), "/healthz");
    assert_eq!(Endpoint::Health.action(), None);
}

#[test]
fn readiness_endpoint_reflects_startup_state() {
    let mut state = fresh_state();
    assert!(state.is_ready());
    state.set_readiness(false);
    let (status, _) = readiness(&state.service_name, state.is_ready());
    assert_eq!(status, 503);
    let (status, answer) = readiness("undr9", true);
    assert_eq!((status, answer.status), (200, "ready"));
}

#[test]
fn metrics_endpoint_includes_per_route_request_series() {
    let mut state = fresh_state();
    state.count_answer("GET", "/healthz", 200, None, 3);
    let payload =
        state.metrics(&engine_numbers()).expect("metrics should be given").render_prometheus();
    assert!(payload.contains("undr9_http_requests_total"));
    assert!(payload.contains("route=\"/healthz\""));
    assert!(payload.contains("method=\"GET\""));
    assert!(payload.contains("status_class=\"2xx\""));
    assert!(payload.contains("undr9_http_request_duration_ms_bucket"));
}

#[test]
fn metrics_can_be_disabled() {
    let mut state = fresh_state();
    state.config.observability.metrics_enabled = false;
    let error = state.metrics(&engine_numbers()).expect_err("metrics should be refused");
    assert_eq!(error, metrics_disabled());
}

#[test]
fn unauthorized_errors_emit_stable_header_and_metrics_series() {
    let mut state = fresh_state();
    let traceparent = "00-0123456789abcdef0123456789abcdef-0123456789abcdef-01";
    let error = state
        .authorize(None, true, Action::Write)
        .expect_err("a request without a key should be refused");
    assert_eq!(error.status, 401);
    assert_eq!(error.body.code, "unauthorized");
    assert_eq!(
        request_trace_id(Some(traceparent), 7, 8),
        "0123456789abcdef0123456789abcdef"
    );

    state.count_answer("POST", "/v1/nodes", error.status, Some(error.body.code), 2);
    let payload =
        state.metrics(&engine_numbers()).expect("metrics should be given").render_prometheus();
    assert!(payload.contains("undr9_errors_total"));
    assert!(payload.contains("code=\"unauthorized\""));
    assert!(payload.contains("status=\"401\""));
    assert!(payload.contains("undr9_query_latency_ms_bucket"));
}

#[test]
fn rejects_missing_api_key() {
    let state = fresh_state();
    let error = state
        .authorize(None, true, Action::Write)
        .expect_err("a request without a key should be refused");
    assert_eq!(error.status, 401);
}

#[test]
fn auth_disabled_deployment_fails_closed() {
    let mut state = fresh_state();
    state.config.auth.enabled = false;
    let key = state.config.auth.admin_api_key.clone();
    assert_eq!(state.authorize(None, true, Action::Read).expect_err("refused").status, 503);
    assert_eq!(state.authorize(Some(&key), true, Action::Read).expect_err("refused").status, 503);
}

#[test]
fn requests_need_a_key_a_token_and_a_role() {
    let state = fresh_state();
    let reader = state.config.auth.reader_api_key.clone();
    let admin = state.config.auth.admin_api_key.clone();
    assert_eq!(
        state.authorize(Some(&reader), true, Action::Read).expect("let through").role,
        Role::Reader
    );
    assert_eq!(
        state.authorize(Some(&admin), true, Action::Maintain).expect("let through").role,
        Role::Admin
    );
    assert_eq!(state.authorize(Some(&reader), true, Action::Write).expect_err("refused").status, 403);
    assert_eq!(state.authorize(Some(&reader), false, Action::Read).expect_err("refused").status, 429);
    assert_eq!(
        state.authorize(Some("unknown"), true, Action::Read).expect_err("refused").status,
        401
    );
    assert_eq!(identify(&state.config.auth, Some(&reader)).expect("known").name, "reader");
}

#[test]
fn rejects_query_response_that_exceeds_budget() {
    let mut nodes = Vec::new();
    for index in 0..600 {
        nodes.push(
            stored_node(&format!("budget_node_{index}"))
                .with_vector("default", vec![1.0_f32.to_bits()])
                .expect("vector should build"),
        );
    }
    let database = Database::open(StoredState { nodes, ..nothing_stored() }, "127.0.0.1:8080");
    let snapshot = database.snapshot();

    let answer = answer_query(
        &QueryRequest::SearchByLabel { label: "memory".to_owned(), limit: Some(600) },
        snapshot.as_ref(),
        &RankingInputs::none(),
    )
    .expect("the nodes should fit");
    assert_eq!(answer.nodes.len(), 600);

    let request = QueryRequest::VectorSearch {
        query_vector: vec![1.0_f32.to_bits()],
        node_type: Some("memory".to_owned()),
        vector_name: None,
        limit: 600,
        top_k: None,
    };
    let mut scores: OrderedMap<NodeId, NodeScore> = OrderedMap::new();
    for candidate in Executor::ranking_candidates(&request, snapshot.as_ref(), &None)
        .expect("request should be in order")
    {
        scores.insert(
            candidate.node.id.clone(),
            NodeScore {
                score: 1.0_f32.to_bits(),
                breakdown: ScoreBreakdown {
                    structural: 0,
                    semantic: 1.0_f32.to_bits(),
                    temporal: 0,
                    importance: 0,
                    confidence: 0,
                },
            },
        );
    }
    let inputs = RankingInputs { hits: None, scores };
    let error = answer_query(&request, snapshot.as_ref(), &inputs)
        .expect_err("nodes and results together should be too many");
    assert_eq!(error.status, 422);

    let execution = Executor::execute_iter(&request, snapshot.as_ref(), &inputs)
        .expect("the stream should begin");
    assert!(matches!(first_frame(&execution), QueryStreamFrame::Meta { .. }));
    let items = execution.into_items();
    assert!(items.iter().any(|item| matches!(item, QueryExecutionItem::RankedResult(_))));
    assert!(!items.iter().any(|item| matches!(item, QueryExecutionItem::Node(_))));
    let frames: Vec<String> = items.iter().map(|_| "{}".to_owned()).collect();
    let stream = StreamLines::new().push_items(&items, &frames).expect("the stream should fit");
    assert_eq!(last_frame(&stream), QueryStreamFrame::End { item_count: 600 });
}

#[test]
fn traversal_stream_endpoint_emits_incremental_ndjson_frames() {
    let stored = StoredState {
        nodes: vec![stored_node("stream_a"), stored_node("stream_b")],
        edges: vec![stored_edge("stream_ab", "stream_a", "stream_b")],
        ..nothing_stored()
    };
    let database = Database::open(stored, "127.0.0.1:8080");
    let request = QueryRequest::Traverse {
        start_node_id: stored_id("stream_a"),
        edge_type: Some("relates_to".to_owned()),
        direction: EdgeDirection::Outgoing,
        max_hops: Some(2),
        limit: Some(10),
        timeout_ms: Some(5_000),
        constraints: None,
    };
    assert_eq!(query_request_kind(&request), "traverse");
    let execution =
        Executor::execute_iter(&request, database.snapshot().as_ref(), &RankingInputs::none())
            .expect("the stream should begin");
    let mut lines = StreamLines::new();
    lines.push_line("meta").expect("a line should fit");
    let mut frames = Vec::new();
    for item in execution.into_items() {
        lines.count_item(&item).expect("an item should fit");
        lines.push_line("item").expect("a line should fit");
        frames.push(item_frame(item));
    }
    assert!(matches!(&frames[0], QueryStreamFrame::Node { node } if node.id == stored_id("stream_a")));
    assert_eq!(frames.iter().filter(|frame| matches!(frame, QueryStreamFrame::Node { .. })).count(), 2);
    assert_eq!(frames.iter().filter(|frame| matches!(frame, QueryStreamFrame::Edge { .. })).count(), 1);
    assert_eq!(last_frame(&lines), QueryStreamFrame::End { item_count: 3 });
    let (written, _) = lines.finish();
    assert_eq!(written, vec!["meta\n", "item\n", "item\n", "item\n"]);
}

#[test]
fn streams_have_bounds() {
    let mut lines = StreamLines::new();
    let item = QueryExecutionItem::Node(stored_node("a"));
    for _ in 0..MAX_STREAM_QUERY_ITEMS {
        lines.count_item(&item).expect("an item should fit");
    }
    assert_eq!(lines.count_item(&item).expect_err("one too many").status, 422);
    let mut bytes = StreamLines::new();
    let long = "x".repeat(MAX_STREAM_RESPONSE_BYTES - 1);
    bytes.push_line(&long).expect("the line should just fit");
    assert_eq!(bytes.push_line("").expect_err("one byte too many").status, 422);
}

#[test]
fn node_and_edge_endpoints_cover_read_update_and_delete_flows() {
    let mut state = fresh_state();
    for id in ["node_a", "node_b"] {
        let write = state.plan_node_write(None, stored_node(id)).expect("write should be planned");
        state.commit_write(1, write, &no_refusals());
    }
    let write = state
        .plan_edge_write(None, stored_edge("edge_ab", "node_a", "node_b"))
        .expect("write should be planned");
    state.commit_write(2, write, &no_refusals());
    assert_eq!(state.read_node("node_a").expect("the node is there").id, stored_id("node_a"));
    assert_eq!(state.read_edge("edge_ab").expect("the edge is there").source, stored_id("node_a"));

    let mut changed = stored_node("node_a");
    changed.node_type = "profile".to_owned();
    let write = state
        .plan_node_write(Some("node_a"), changed)
        .expect("write should be planned");
    state.commit_write(3, write, &no_refusals());
    assert_eq!(state.read_node("node_a").expect("the node is there").node_type, "profile");

    let deletion = state.plan_edge_deletion("edge_ab").expect("deletion should be planned");
    state.commit_write(4, deletion, &no_refusals());
    assert_eq!(state.read_edge("edge_ab").expect_err("the edge is gone").status, 404);
    let deletion = state.plan_node_deletion("node_a").expect("deletion should be planned");
    state.commit_write(5, deletion, &no_refusals());
    assert_eq!(state.read_node("node_a").expect_err("the node is gone").status, 404);
    assert_eq!(state.plan_node_deletion("node_a").expect_err("the node is gone").status, 404);
    assert_eq!(state.plan_edge_deletion("edge_ab").expect_err("the edge is gone").status, 404);
}

#[test]
fn rejects_path_id_body_id_mismatch() {
    let state = fresh_state();
    let error = state
        .plan_node_write(Some("node_a"), stored_node("node_b"))
        .expect_err("the ids do not match");
    assert_eq!(error.status, 400);
    let error = state
        .plan_edge_write(Some("edge_a"), stored_edge("edge_b", "a", "b"))
        .expect_err("the ids do not match");
    assert_eq!(error.status, 400);
    assert_eq!(state.read_node("not an id").expect_err("no such id").status, 400);
    assert!(path_edge_id("not an id").is_err());
}

#[test]
fn transaction_query_includes_staged_node_overlay() {
    let mut database = empty_database("node-1");
    let write = database.upsert_node(stored_node("committed")).expect("write should be planned");
    database.commit_write(1, write, &no_refusals());
    let staged = WriteBatch {
        nodes_upserted: vec![stored_node("staged")],
        ..WriteBatch::default()
    };
    let delta = plan_batch_mutation(database.snapshot().as_ref(), &staged)
        .expect("the batch should be in order");
    let (base, mutation) = database.transaction_query_view(&delta);
    let view = OverlayGraphView::new(base.as_ref(), &mutation);
    assert!(view.contains_node(&stored_id("staged")));
    assert!(view.contains_node(&stored_id("committed")));
    assert!(database.get_node(&stored_id("staged")).is_none());
    assert_eq!(view.node_ids_by_type("memory").len(), 2);
}

#[test]
fn transaction_query_preserves_stale_unique_key_view() {
    let mut database = empty_database("node-1");
    let keyed = |key: &str| {
        stored_node("node_a")
            .with_property("unique_key", PropertyValue::String(key.to_owned()))
            .expect("property should build")
    };
    let write = database.upsert_node(keyed("alpha")).expect("write should be planned");
    database.commit_write(1, write, &no_refusals());
    let empty = plan_batch_mutation(database.snapshot().as_ref(), &WriteBatch::default())
        .expect("the batch should be in order");
    let (base, mutation) = database.transaction_query_view(&empty);
    let write = database.upsert_node(keyed("beta")).expect("write should be planned");
    database.commit_write(2, write, &no_refusals());
    let view = OverlayGraphView::new(base.as_ref(), &mutation);
    assert_eq!(view.lookup_unique_key("alpha"), Some(stored_id("node_a")));
    assert_eq!(view.lookup_unique_key("beta"), None);
    assert_eq!(database.snapshot().lookup_unique_key("alpha"), None);
    assert_eq!(database.snapshot().lookup_unique_key("beta"), Some(stored_id("node_a")));
}

#[test]
fn published_snapshot_is_immutable_after_commit() {
    let mut database = empty_database("node-1");

    let initial = stored_node("node_a")
        .with_property("value", PropertyValue::Integer(1))
        .expect("property should build");
    let write = database.upsert_node(initial).expect("initial node should commit");
    database.commit_write(1, write, &no_refusals());

    let committed_snapshot = database.snapshot();
    let updated = stored_node("node_a")
        .with_property("value", PropertyValue::Integer(2))
        .expect("property should build");
    let write = database.upsert_node(updated).expect("updated node should commit");
    database.commit_write(2, write, &no_refusals());

    let node_id = stored_id("node_a");
    let stale_value = committed_snapshot
        .get_node(&node_id)
        .expect("old snapshot should retain committed node")
        .property("value")
        .and_then(PropertyValue::as_i64);
    assert_eq!(stale_value, Some(1));

    let refreshed_snapshot = database.snapshot();
    let current_value = refreshed_snapshot
        .get_node(&node_id)
        .expect("new snapshot should reflect latest commit")
        .property("value")
        .and_then(PropertyValue::as_i64);
    assert_eq!(current_value, Some(2));
}

#[test]
fn admin_audit_endpoint_enforces_export_limit_and_retention() {
    assert_eq!(audit_export_limit(Some(2), 2), Ok(2));
    assert_eq!(audit_export_limit(None, 2), Ok(2));
    assert_eq!(audit_export_limit(Some(3), 2).expect_err("too many").status, 422);
    assert_eq!(audit_export_limit(Some(0), 2).expect_err("none").status, 422);
}

#[test]
fn maintenance_status_endpoint_reports_last_successful_operation() {
    let config = AppConfig::for_process(PROCESS_ID).maintenance;
    let mut status = MaintenanceStatusResponse::idle(&config);
    status.mark_maintenance_started(&config, "rebuild_indexes", 1_000, 2, 1);
    assert!(status.in_progress);
    status.mark_maintenance_finished(
        &config,
        "rebuild_indexes",
        "success",
        "rebuilt",
        1_000,
        7,
        2,
        1,
    );
    assert!(!status.in_progress);
    assert_eq!(status.last_operation.as_deref(), Some("rebuild_indexes"));
    assert_eq!(status.last_outcome.as_deref(), Some("success"));
    assert_eq!(status.finished_at_ms, Some(1_007));
    assert_eq!(status.elapsed_ms, Some(7));
}

#[test]
fn maintenance_budget_rejects_oversized_operation() {
    let mut config = AppConfig::for_process(PROCESS_ID).maintenance;
    config.max_node_count = 1;
    config.max_edge_count = 10;
    let mut status = MaintenanceStatusResponse::idle(&config);
    let error = status
        .enforce_maintenance_budget(&config, "compact", 5_000, 2, 0)
        .expect_err("the operation is too large");
    assert_eq!(error.status, 422);
    assert_eq!(status.last_operation.as_deref(), Some("compact"));
    assert_eq!(status.last_outcome.as_deref(), Some("rejected"));
    assert!(status.enforce_maintenance_budget(&config, "compact", 5_000, 1, 10).is_ok());
    assert!(status.enforce_maintenance_budget(&config, "compact", 5_000, 1, 11).is_err());
}

#[test]
fn replication_endpoints_support_log_shipping_and_acknowledgement() {
    let mut leader = empty_database("leader-1");
    let mut follower = empty_database("replica-1");
    leader.configure_as_leader().expect("the node should lead");
    leader.register_replica("replica-1", "127.0.0.1:9101").expect("the replica should register");
    follower.configure_as_follower("leader-1", "127.0.0.1:9100");

    let write = leader.upsert_node(stored_node("replicated_node")).expect("write planned");
    leader.commit_write(1, write, &no_refusals());
    let shipped = leader.replication_history_since(0);
    assert_eq!(shipped.len(), 1);

    let accepted = follower.accept_replication(&shipped).expect("records should be accepted");
    for record in accepted.iter() {
        let mutation = follower.plan_replicated(record).expect("the batch should be in order");
        follower.apply_batch_mutation(&mutation, &no_refusals());
    }
    let answer = follower
        .finish_replication(&accepted, Some(1))
        .expect("the follower should take the records over");
    assert_eq!(answer.status.last_applied_source_lsn, 1);
    assert!(follower.get_node(&stored_id("replicated_node")).is_some());

    let answer = leader.acknowledge_replica("replica-1", 1).expect("the ack should update");
    assert_eq!(answer.replica_lag.get_text("replica-1"), Some(&0));
    let error = follower
        .upsert_node(stored_node("elsewhere"))
        .expect_err("a follower takes no writes from clients");
    assert!(matches!(error, Undr9Error::Conflict(_)));
}

#[test]
fn replication_apply_rejects_invalid_batch_before_persisting_any_writes() {
    let mut follower = empty_database("replica-1");
    follower.configure_as_follower("leader-1", "127.0.0.1:9100");
    let record = |term: u64, lsn: u64, id: &str| ReplicationRecord {
        source_node_id: "leader-1".to_owned(),
        source_term: term,
        source_lsn: lsn,
        batch: WriteBatch {
            nodes_upserted: vec![stored_node(id)],
            ..WriteBatch::default()
        },
    };
    let error = follower
        .accept_replication(&[record(2, 1, "partial_node"), record(1, 2, "unexpected_node")])
        .expect_err("a term that goes back is refused");
    assert_eq!(ApiError::from_error(error).status, 409);
    assert!(follower.get_node(&stored_id("partial_node")).is_none());
    assert_eq!(follower.replication_status().status.last_applied_source_lsn, 0);
}

#[test]
fn cluster_promotion_updates_local_replication_mode() {
    let mut database = empty_database("leader-1");
    database.configure_as_leader().expect("the node should lead");
    database.register_replica("replica-2", "127.0.0.1:9202").expect("the replica should register");
    database.promote_node("replica-2").expect("the promotion should work");

    assert_eq!(database.cluster_topology().leader_node_id.as_deref(), Some("replica-2"));
    let status = database.replication_status().status;
    assert_eq!(status.mode, ReplicationMode::Follower);
    assert_eq!(status.leader_node_id.as_deref(), Some("replica-2"));
}

#[test]
fn repair_and_cluster_health_endpoints_report_updated_state() {
    let mut database = empty_database("leader-health");
    database.configure_as_leader().expect("the node should lead");
    database.register_replica("replica-9", "127.0.0.1:9209").expect("the replica should register");
    let topology = database.mark_node_health("replica-9", false).expect("health should be marked");
    let node = topology
        .nodes
        .iter()
        .find(|node| node.node_id == "replica-9")
        .expect("the replica is in the cluster");
    assert!(!node.healthy);
    assert!(matches!(database.mark_node_health("nobody", true), Err(Undr9Error::NotFound(_))));
}

#[test]
fn errors_are_answered_by_kind() {
    let status = |error: Undr9Error| ApiError::from_error(error).status;
    assert_eq!(status(Undr9Error::Validation("x".to_owned())), 400);
    assert_eq!(status(Undr9Error::Conflict("x".to_owned())), 409);
    assert_eq!(status(Undr9Error::NotFound("x".to_owned())), 404);
    assert_eq!(status(Undr9Error::Io("x".to_owned())), 500);
    assert_eq!(status(Undr9Error::Serialization("x".to_owned())), 500);
    assert_eq!(status(Undr9Error::Corruption("x".to_owned())), 500);
    assert_eq!(node_not_found(&stored_id("a")).status, 404);
    assert_eq!(edge_not_found(&EdgeId::new("e").expect("valid id")).status, 404);
    assert_eq!(request_timeout(5).status, 408);
}

#[test]
fn trace_ids_are_taken_over_or_made() {
    assert_eq!(parse_traceparent_trace_id("garbage"), None);
    assert_eq!(
        parse_traceparent_trace_id("00-0123456789abcdef0123456789abcdef-0123456789abcdef-01-x"),
        None
    );
    assert_eq!(
        parse_traceparent_trace_id("00-0123456789abcdeg0123456789abcdef-0123456789abcdef-01"),
        None
    );
    assert_eq!(
        parse_traceparent_trace_id("00-0123456789ABCDEF0123456789abcdef-0123456789abcdef-01"),
        Some("0123456789abcdef0123456789abcdef".to_owned())
    );
    assert_eq!(generate_trace_id(0x1a, 0x2b), "000000000000001a000000000000002b");
    assert_eq!(request_trace_id(Some("garbage"), 1, 2), generate_trace_id(1, 2));
    assert_eq!(request_trace_id(None, 1, 2), generate_trace_id(1, 2));
}

#[test]
fn changes_are_guarded_and_audited() {
    assert_eq!(Endpoint::CreateNode.method(), Method::Post);
    assert_eq!(Endpoint::CreateNode.action(), Some(Action::Write));
    assert!(Endpoint::CreateNode.audit_label().is_some());
    assert_eq!(Endpoint::Compact.action(), Some(Action::Maintain));
    assert_eq!(Endpoint::GetNode.action(), Some(Action::Read));
    assert_eq!(Endpoint::GetNode.audit_label(), None);
    assert_eq!(Endpoint::Metrics.action(), None);
    assert_eq!(Endpoint::DeleteEdge.path(), "/v1/edges/:id");
}

fn keeper() -> Principal {
    Principal { name: "admin".to_owned(), role: Role::Admin }
}

#[test]
fn maintenance_runs_from_start_to_finish() {
    let mut state = fresh_state();
    let run = state
        .start_maintenance(MaintenanceTask::Compact, &keeper(), 1_000, 2, 1)
        .expect("the operation should start");
    assert!(state.maintenance_status.in_progress);
    let event = state.audit_maintenance(&run, 7);
    assert_eq!(
        (event.actor.as_str(), event.action.as_str(), event.resource.as_str()),
        ("admin", "compact", "storage")
    );
    assert_eq!(event.detail, "storage compacted");
    assert!(state.maintenance_status.in_progress);
    let answer = state.finish_maintenance(run, 7);
    assert_eq!((answer.status, answer.operation, answer.elapsed_ms), ("ok", "compact", 7));
    assert!(!state.maintenance_status.in_progress);
    assert_eq!(state.maintenance_status.last_outcome.as_deref(), Some("success"));
    assert_eq!(state.counters.requests.maintenance_operations_total, 1);
    assert_eq!(state.counters.requests.compaction_latency.counts.observations_total, 1);
}

#[test]
fn maintenance_that_fails_is_noted() {
    let mut state = fresh_state();
    let run = state
        .start_maintenance(
            MaintenanceTask::Restore { source: "/backup".to_owned() },
            &keeper(),
            1_000,
            2,
            1,
        )
        .expect("the operation should start");
    let answer = state.fail_maintenance(run, Undr9Error::Io("no disk".to_owned()), 4);
    assert_eq!(answer.status, 500);
    assert_eq!(state.maintenance_status.last_operation.as_deref(), Some("restore"));
    assert_eq!(state.maintenance_status.last_outcome.as_deref(), Some("failed"));
    assert_eq!(state.maintenance_status.detail.as_deref(), Some("io error: no disk"));
    assert_eq!(state.maintenance_status.finished_at_ms, Some(1_004));
    assert_eq!(state.counters.requests.maintenance_operations_total, 0);
}

#[test]
fn maintenance_of_large_graphs_does_not_start() {
    let mut state = fresh_state();
    state.config.maintenance.max_node_count = 1;
    let error = state
        .start_maintenance(MaintenanceTask::Repair, &keeper(), 1_000, 2, 0)
        .expect_err("the graph is too large");
    assert_eq!(error.status, 422);
    assert_eq!(state.maintenance_status.last_outcome.as_deref(), Some("rejected"));
}

#[test]
fn copies_are_audited_by_their_places() {
    let backup = MaintenanceTask::Backup { destination: "/b".to_owned() };
    assert_eq!(backup.audit_detail(), "/b");
    assert_eq!(backup.done_detail(), "backup created at /b");
    let restore = MaintenanceTask::Restore { source: "/s".to_owned() };
    assert_eq!(restore.audit_detail(), "/s");
    assert_eq!(restore.done_detail(), "storage restored from /s");
    assert_eq!(MaintenanceTask::RebuildIndexes.endpoint(), Endpoint::RebuildIndexes);
    assert_eq!(MaintenanceTask::RebuildIndexes.audit_detail(), "index snapshot rebuilt");
    assert_eq!(exported_detail(3), "exported 3 audit events");
    assert_eq!(applied_detail(2), "records=2");
    let event = Endpoint::CreateNode.success_event("writer", "node_a").expect("an event");
    assert_eq!((event.action.as_str(), event.outcome.as_str()), ("create_node", "success"));
    assert_eq!(Endpoint::GetNode.success_event("reader", "node_a"), None);
}

fn scored_node(id: &str, node_type: &str, key: &str, score: i64) -> NodeRecord {
    NodeRecord::new(stored_id(id), node_type)
        .expect("node should build")
        .with_property("unique_key", PropertyValue::String(key.to_owned()))
        .expect("key should be taken")
        .with_property("score", PropertyValue::Integer(score))
        .expect("score should be taken")
}

fn filtered(
    label: Option<&str>,
    filter: FilterExpression,
    limit: Option<usize>,
) -> QueryRequest {
    QueryRequest::FilterNodes { label: label.map(str::to_owned), filter, limit }
}

#[test]
fn filter_nodes_query_and_stream_support_multiple_examples() {
    let mut database = empty_database("node-1");
    for (lsn, node) in [
        scored_node("user_alice", "user", "alice", 95),
        scored_node("user_bob", "user", "bob", 88),
        scored_node("service_runner", "service", "svc-runner", 99),
    ]
    .into_iter()
    .enumerate()
    {
        let batch = WriteBatch { nodes_upserted: vec![node], ..WriteBatch::default() };
        let write = database.plan_write(batch).expect("write should be planned");
        database.commit_write(lsn as u64 + 1, write, &no_refusals());
    }
    let snapshot = database.snapshot();
    let answered = |request: &QueryRequest| -> Vec<String> {
        answer_query(request, snapshot.as_ref(), &RankingInputs::none())
            .expect("query should be answered")
            .nodes
            .iter()
            .map(|node| node.id.as_str().to_owned())
            .collect()
    };

    let above = FilterExpression::Gt {
        field: "score".to_owned(),
        value: PropertyValue::Integer(90),
    };
    assert_eq!(answered(&filtered(Some("user"), above, Some(10))), vec!["user_alice"]);

    let by_id = FilterExpression::Eq {
        field: "id".to_owned(),
        value: PropertyValue::String("user_bob".to_owned()),
    };
    assert_eq!(answered(&filtered(None, by_id, Some(5))), vec!["user_bob"]);

    let by_label = FilterExpression::Eq {
        field: "label".to_owned(),
        value: PropertyValue::String("service".to_owned()),
    };
    assert_eq!(answered(&filtered(None, by_label, Some(5))), vec!["service_runner"]);

    let request = filtered(
        Some("user"),
        FilterExpression::Or {
            conditions: vec![
                FilterExpression::Gt {
                    field: "score".to_owned(),
                    value: PropertyValue::Integer(90),
                },
                FilterExpression::Eq {
                    field: "unique_key".to_owned(),
                    value: PropertyValue::String("bob".to_owned()),
                },
            ],
        },
        Some(10),
    );
    assert_eq!(query_request_kind(&request), "filter_nodes");
    let execution =
        Executor::execute_iter(&request, snapshot.as_ref(), &RankingInputs::none())
            .expect("the stream should begin");
    assert!(matches!(first_frame(&execution), QueryStreamFrame::Meta { .. }));
    let items = execution.into_items();
    let streamed: Vec<&str> = items
        .iter()
        .filter_map(|item| match item {
            QueryExecutionItem::Node(node) => Some(node.id.as_str()),
            _ => None,
        })
        .collect();
    assert_eq!(streamed, vec!["user_alice", "user_bob"]);
    let frames: Vec<String> = items.iter().map(|_| "{}".to_owned()).collect();
    let stream = StreamLines::new().push_items(&items, &frames).expect("the stream should fit");
    assert_eq!(last_frame(&stream), QueryStreamFrame::End { item_count: 2 });
}

#[test]
fn a_fresh_service_has_counted_nothing_and_is_idle() {
    let config = AppConfig::for_process(PROCESS_ID);
    let budget = config.maintenance.max_node_count;
    let state = ApiState::try_new(config, nothing_stored());
    assert!(state.is_ready());
    assert!(!state.maintenance_status.in_progress);
    assert_eq!(state.maintenance_status.last_operation, None);
    assert_eq!(state.maintenance_status.max_node_count, budget);
    assert!(state.counters.error_counters.is_empty());
    assert!(state.endpoint_metrics.is_empty());
}

#[test]
fn a_stranger_does_not_lead_in_the_last_term() {
    let stored = StoredState {
        cluster: Some(ClusterManager::from_stored(ClusterTopology {
            term: u64::MAX,
            leader_node_id: None,
            nodes: Vec::new(),
        })),
        ..nothing_stored()
    };
    let mut database = Database::open(stored, "127.0.0.1:8080");
    let error = database.configure_as_leader().expect_err("the node is not in the cluster");
    assert!(error.to_string().contains("was not found"));
    assert_eq!(database.cluster_topology().term, u64::MAX);
}
