//! Batches, databases, drills and benchmarks.

use undr9::bench::{
    batch_ranges, benchmark_default_hnsw_tuning, benchmark_exact_vector_index_config,
    benchmark_hnsw_tuning_from_args, benchmark_hnsw_vector_index_config, benchmark_storage_config,
    build_workload, compare_ranked_results, edge_ids_for_range, edges_for_range,
    node_ids_for_range, nodes_for_range, parse_scales, parse_scenario_profile,
    parse_workload_profile, planned_scenarios, reverse_batch_ranges, runs_streamed, summarize,
    verify_storage_counts, ScaleError, Scenario, ScenarioProfile, WorkloadProfile,
};
use undr9::clock::{now_epoch_ms, now_epoch_nanos, timed_out, Deadline};
use undr9::common::{EdgeId, NodeId, Undr9Error};
use undr9::config::AppConfig;
use undr9::database::{may_load_vector_index, Database, StoredState};
use undr9::execute::{Executor, RankingInputs};
use undr9::graph::GraphView;
use undr9::index::EdgeDirection;
use undr9::mutation::{plan_batch_mutation, snapshot_with_mutation, Refusals};
use undr9::operate::{counts_text, DrillEvent, DrillStep, RecordCounts, RecoveryDrill};
use undr9::ordered::{OrderedMap, OrderedSet};
use undr9::records::{EdgeRecord, NodeRecord, WriteBatch};
use undr9::results::{RankedNodeResult, ScoreBreakdown};
use undr9::vectors::{VectorIndexBackendConfig, VectorIndexConfig};

/// The number of the process that made up the keys.
const PROCESS_ID: u32 = 4_242;

fn batch_id(value: &str) -> NodeId {
    NodeId::new(value).expect("valid node id")
}

fn batch_node(value: &str) -> NodeRecord {
    NodeRecord::new(batch_id(value), "memory").expect("node should build")
}

fn batch_edge(value: &str, source: &str, target: &str) -> EdgeRecord {
    EdgeRecord::new(
        EdgeId::new(value).expect("valid edge id"),
        batch_id(source),
        batch_id(target),
        "relates_to",
    )
    .expect("edge should build")
}

fn triangle() -> Database {
    Database::open(
        StoredState {
            nodes: vec![batch_node("a"), batch_node("b"), batch_node("c")],
            edges: vec![batch_edge("ab", "a", "b"), batch_edge("bc", "b", "c")],
            vector_index: VectorIndexConfig::default(),
            replication: None,
            cluster: None,
            wal_replay_latency_ms: 3,
        },
        "127.0.0.1:8080",
    )
}

fn nothing_refused() -> Refusals {
    OrderedMap::new()
}

#[test]
fn deleted_nodes_take_their_edges_along() {
    let mut database = triangle();
    assert_eq!(database.wal_replay_latency_ms(), 3);
    let (node, write) = database
        .delete_node(&batch_id("b"))
        .expect("deletion should be planned")
        .expect("the node is there");
    assert_eq!(node, batch_node("b"));
    database.commit_write(1, write, &nothing_refused());
    assert!(database.get_node(&batch_id("b")).is_none());
    assert!(database.get_edge(&EdgeId::new("ab").expect("id")).is_none());
    assert!(database.get_edge(&EdgeId::new("bc").expect("id")).is_none());
    assert_eq!(database.get_node(&batch_id("a")), Some(batch_node("a")));
    assert!(database
        .snapshot()
        .edge_ids_for_iter(&batch_id("a"), EdgeDirection::Both, None)
        .is_empty());
    assert!(database.delete_node(&batch_id("b")).expect("nothing to plan").is_none());
}

#[test]
fn metadata_is_checked_before_anything_is_planned() {
    let database = triangle();
    let broken = batch_node("x")
        .with_property("timestamp", undr9::records::PropertyValue::Boolean(true))
        .expect("property should build");
    assert!(matches!(database.upsert_node(broken), Err(Undr9Error::Validation(_))));
    let both = WriteBatch {
        nodes_upserted: vec![batch_node("x")],
        edges_upserted: vec![batch_edge("ax", "a", "x")],
        deleted_node_ids: vec![batch_id("a")],
        ..WriteBatch::default()
    };
    let write = database.plan_write(both).expect("the batch should be in order");
    assert!(write.mutation.added_edges.is_empty());
    assert_eq!(write.mutation.removed_edges.len(), 1);
}

#[test]
fn empty_batches_change_nothing_and_the_last_write_counts() {
    let database = triangle();
    let snapshot = database.snapshot();
    let nothing = plan_batch_mutation(snapshot.as_ref(), &WriteBatch::default()).expect("planned");
    let same = snapshot_with_mutation(snapshot.as_ref(), &nothing, &nothing_refused());
    assert_eq!(same.indexes, snapshot.indexes);
    assert_eq!(same.all_nodes_iter(), snapshot.all_nodes_iter());
    let mut second = batch_node("a");
    second.node_type = "profile".to_owned();
    let twice = WriteBatch {
        nodes_upserted: vec![batch_node("a"), second.clone()],
        ..WriteBatch::default()
    };
    let mutation = plan_batch_mutation(snapshot.as_ref(), &twice).expect("planned");
    let after = snapshot_with_mutation(snapshot.as_ref(), &mutation, &nothing_refused());
    assert_eq!(after.get_node(&batch_id("a")), Some(second));
    assert_eq!(after.node_ids_by_type("profile"), vec![batch_id("a")]);
    let again = plan_batch_mutation(&after, &twice).expect("planned");
    let settled = snapshot_with_mutation(&after, &again, &nothing_refused());
    assert_eq!(settled.all_nodes_iter(), after.all_nodes_iter());
}

#[test]
fn a_rebuilt_index_is_the_one_that_was_kept() {
    let mut database = triangle();
    let write = database.upsert_node(batch_node("d")).expect("planned");
    database.commit_write(1, write, &nothing_refused());
    let before = database.snapshot();
    let nodes = before.all_nodes_iter();
    let edges = [batch_edge("ab", "a", "b"), batch_edge("bc", "b", "c")];
    database.rebuild_indexes(&nodes, &edges);
    assert_eq!(
        database.snapshot().node_ids_by_type("memory"),
        before.node_ids_by_type("memory")
    );
    database.restore_from(&[batch_node("z")], &[], &VectorIndexConfig::default());
    assert_eq!(database.snapshot().all_nodes_iter(), vec![batch_node("z")]);
}

#[test]
fn stored_search_graphs_are_loaded_after_a_clean_end() {
    assert!(may_load_vector_index(true, Some(4), Some(4)));
    assert!(!may_load_vector_index(false, Some(4), Some(4)));
    assert!(!may_load_vector_index(true, Some(4), Some(3)));
}

#[test]
fn drills_restore_what_they_back_up() {
    let counts = RecordCounts { nodes: 3, edges: 2 };
    let drill = RecoveryDrill::begin(&AppConfig::for_process(PROCESS_ID)).expect("the drill should begin");
    assert_eq!(drill.step, DrillStep::OpenSource);
    let events = vec![
        DrillEvent::Opened(counts, Some(9)),
        DrillEvent::LogRead(Some(9)),
        DrillEvent::Verified,
        DrillEvent::ScratchMade,
        DrillEvent::Copied(4),
        DrillEvent::Copied(5),
        DrillEvent::Opened(counts, Some(9)),
        DrillEvent::Verified,
        DrillEvent::Copied(6),
        DrillEvent::Opened(counts, Some(9)),
        DrillEvent::Verified,
    ];
    let mut drill = drill;
    for event in events {
        drill = drill.advance(event).expect("the drill should go on");
    }
    assert_eq!(drill.step, DrillStep::Finished);
    assert_eq!((drill.source, drill.restored, drill.pitr), (counts, counts, counts));
    assert_eq!(drill.backup_elapsed_ms, 4);
    assert_eq!(drill.restore_elapsed_ms, 5);
    assert_eq!(drill.pitr_elapsed_ms, Some(6));
    assert_eq!(counts_text(counts), "(3,2)");
}

#[test]
fn drills_fail_where_counts_differ() {
    let counts = RecordCounts { nodes: 3, edges: 2 };
    let fewer = RecordCounts { nodes: 2, edges: 2 };
    let mut drill = RecoveryDrill::begin(&AppConfig::for_process(PROCESS_ID)).expect("the drill should begin");
    for event in vec![
        DrillEvent::Opened(counts, Some(9)),
        DrillEvent::LogRead(Some(9)),
        DrillEvent::Verified,
        DrillEvent::ScratchMade,
        DrillEvent::Copied(4),
        DrillEvent::Copied(5),
        DrillEvent::Opened(fewer, Some(9)),
    ] {
        drill = drill.advance(event).expect("the drill should go on");
    }
    assert_eq!(
        drill.advance(DrillEvent::Verified),
        Err("recovery drill restore counts diverged: source=(3,2) restored=(2,2)".to_owned())
    );
    let drill = RecoveryDrill::begin(&AppConfig::for_process(PROCESS_ID)).expect("the drill should begin");
    assert!(drill.advance(DrillEvent::Failed("disk".to_owned())).is_err());
}

#[test]
fn batches_cover_everything() {
    assert!(batch_ranges(0).is_empty());
    assert_eq!(batch_ranges(50_000), vec![0..50_000]);
    assert_eq!(batch_ranges(120_000), vec![0..50_000, 50_000..100_000, 100_000..120_000]);
    assert_eq!(
        reverse_batch_ranges(120_000),
        vec![100_000..120_000, 50_000..100_000, 0..50_000]
    );
}

#[test]
fn workloads_are_rings_of_memories() {
    let workload = build_workload(3).expect("the workload should build");
    assert_eq!(workload.nodes.len(), 3);
    assert_eq!(workload.start_node_id.as_str(), "node_0");
    assert_eq!(workload.end_node_id.as_str(), "node_2");
    assert_eq!(node_ids_for_range(1..3).expect("ids")[1].as_str(), "node_2");
    assert_eq!(edge_ids_for_range(1..2).expect("ids")[0].as_str(), "edge_1");
    assert_eq!(nodes_for_range(0..2).expect("nodes")[1].timestamp_ms(), Some(1_001));
    assert_eq!(edges_for_range(0..1).expect("edges")[0].target.as_str(), "node_1");
    let snapshot =
        workload.snapshot_with_vector_index_config(&benchmark_exact_vector_index_config());
    assert_eq!(snapshot.all_nodes_iter().len(), 3);
    for scenario in [Scenario::ExactLookup, Scenario::LabelScan, Scenario::Traverse] {
        let request = scenario.request(&workload).expect("a query");
        let response = Executor::execute(&request, &snapshot, &RankingInputs::none())
            .expect("the query should execute");
        assert!(scenario.judge(&response).is_ok());
    }
    assert!(Scenario::StorageUpsert.request(&workload).is_none());
}

#[test]
fn profiles_and_scales_are_parsed() {
    assert_eq!(parse_scenario_profile("full"), Ok(ScenarioProfile::Full));
    assert_eq!(parse_scenario_profile("storage-only"), Ok(ScenarioProfile::StorageOnly));
    assert!(parse_scenario_profile("none").is_err());
    assert_eq!(parse_workload_profile("compact"), Ok(WorkloadProfile::Compact));
    assert!(parse_workload_profile("huge").is_err());
    assert_eq!(parse_scales("10, 20"), Ok(vec![10, 20]));
    assert_eq!(parse_scales("10,x"), Err(ScaleError::NotANumber("x".to_owned())));
    assert_eq!(parse_scales(""), Err(ScaleError::NoScale));
    assert!(runs_streamed(ScenarioProfile::StorageOnly, WorkloadProfile::Compact));
    assert!(!runs_streamed(ScenarioProfile::Full, WorkloadProfile::Standard));
    let planned = planned_scenarios(ScenarioProfile::StorageOnly, WorkloadProfile::Standard);
    assert!(planned.contains(&Scenario::StorageUpsert));
    assert!(!planned.contains(&Scenario::LabelScan));
}

#[test]
fn benchmark_settings_are_fixed() {
    let tuning = benchmark_hnsw_tuning_from_args(Some(7), None, None, None);
    assert_eq!(tuning.semantic_top_k, 7);
    assert_eq!(tuning.m, benchmark_default_hnsw_tuning().m);
    let config = benchmark_hnsw_vector_index_config(&tuning);
    assert_eq!(config.backend, VectorIndexBackendConfig::Hnsw);
    assert_eq!(config.semantic_top_k, 7);
    let storage = benchmark_storage_config(AppConfig::for_process(PROCESS_ID), "/tmp/bench");
    assert_eq!(storage.storage.root_dir, "/tmp/bench");
    assert!(verify_storage_counts(3, RecordCounts { nodes: 3, edges: 2 }).is_ok());
    assert!(verify_storage_counts(3, RecordCounts { nodes: 2, edges: 2 }).is_err());
}

#[test]
fn samples_are_sorted_for_their_ends() {
    assert_eq!(summarize(&[]), None);
    assert_eq!(summarize(&[3, 1, 2]), Some((vec![1, 2, 3], 1, 3)));
}

fn listed(id: &str) -> RankedNodeResult {
    RankedNodeResult {
        node: batch_node(id),
        score: 0,
        breakdown: ScoreBreakdown {
            structural: 0,
            semantic: 0,
            temporal: 0,
            importance: 0,
            confidence: 0,
        },
    }
}

#[test]
fn rankings_are_compared_by_their_ids() {
    let counts = compare_ranked_results(
        &[listed("a"), listed("b"), listed("c")],
        &[listed("a"), listed("c"), listed("d")],
    );
    assert_eq!(counts.overlap_count, 2);
    assert_eq!(counts.union_count, 4);
    assert_eq!((counts.exact_only_count, counts.hnsw_only_count), (1, 1));
    assert!(counts.top1_match);
}

#[test]
fn time_goes_on() {
    assert!(now_epoch_ms() > 1_600_000_000_000);
    assert!(now_epoch_nanos() / 1_000_000 >= now_epoch_ms() - 60_000);
    assert!(!Deadline::after(60_000).passed());
    assert!(Deadline::after(0).passed());
    assert!(timed_out(6, 5));
    assert!(!timed_out(4, 5));
}

#[test]
fn ordered_collections_keep_their_order() {
    let mut map: OrderedMap<String, u64> = OrderedMap::new();
    map.insert("b".to_owned(), 2);
    map.insert("a".to_owned(), 1);
    map.insert("b".to_owned(), 3);
    assert_eq!(map.len(), 2);
    assert_eq!(map.key_at(0), "a");
    assert_eq!(map.value_at(1), &3);
    assert_eq!(map.remove(&"a".to_owned()), Some(1));
    assert_eq!(map.remove(&"a".to_owned()), None);
    let mut set: OrderedSet<i64> = OrderedSet::new();
    assert!(set.insert(5));
    assert!(set.insert(-5));
    assert!(!set.insert(5));
    assert_eq!(set.to_list(), vec![-5, 5]);
    assert!(set.remove(&5));
    assert!(!set.remove(&5));
}
