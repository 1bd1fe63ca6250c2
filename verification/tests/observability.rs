//! Metrics, counters, audit logs and exporters.

use dashmap::DashMap;
use undr9::audit::{
    build_otlp_metadata, exported_lines, normalize_otlp_protocol, parse_otlp_headers, prune_lines,
    trace_level, AuditEvent, OtlpProtocol, StructuredLogEvent, TraceLevel,
};
use undr9::counters::{
    histogram_with_single_gauge, no_endpoint_metrics, record_api_error_metric,
    record_endpoint_metrics, record_latency, score_bucket, snapshot_endpoint_metrics,
    snapshot_error_counters, AtomicLatencyHistogram, AtomicServiceCounters, RequestCounts,
    ScoreBucket,
};
use undr9::metrics::{
    render_histogram, render_labels, EndpointMetricsSnapshot, ErrorCounterSnapshot,
    LatencyHistogramSnapshot, MetricsSnapshot, ServiceCounters,
};
use undr9::common::NodeId;
use undr9::index::EdgeDirection;
use undr9::plan::QueryRequest;

#[test]
fn renders_prometheus_metrics() {
    let snapshot = MetricsSnapshot {
        service_name: "undr9".to_owned(),
        ready: true,
        node_count: 2,
        edge_count: 1,
        active_transactions: 3,
        current_revision: 12,
        latest_applied_lsn: 11,
        checkpoint_dirty: true,
        pending_checkpoint_entries: 4,
        endpoint_metrics: vec![EndpointMetricsSnapshot {
            method: "GET".to_owned(),
            route: "/healthz".to_owned(),
            requests_total: 3,
            responses_2xx_total: 3,
            responses_4xx_total: 0,
            responses_5xx_total: 0,
            latency_ms_total: 18,
            latency_le_10ms_total: 2,
            latency_le_50ms_total: 1,
            latency_le_250ms_total: 0,
            latency_gt_250ms_total: 0,
        }],
        counters: ServiceCounters {
            query_requests_total: 3,
            write_requests_total: 4,
            maintenance_operations_total: 5,
            audit_events_total: 6,
            query_latency: LatencyHistogramSnapshot {
                observations_total: 2,
                sum_ms: 7,
                le_10ms_total: 1,
                le_50ms_total: 1,
                le_250ms_total: 0,
                le_1000ms_total: 0,
                gt_1000ms_total: 0,
            },
            transaction_latency: LatencyHistogramSnapshot::default(),
            traversal_latency: LatencyHistogramSnapshot {
                observations_total: 1,
                sum_ms: 8,
                le_10ms_total: 1,
                le_50ms_total: 0,
                le_250ms_total: 0,
                le_1000ms_total: 0,
                gt_1000ms_total: 0,
            },
            vector_search_latency: LatencyHistogramSnapshot {
                observations_total: 1,
                sum_ms: 9,
                le_10ms_total: 1,
                le_50ms_total: 0,
                le_250ms_total: 0,
                le_1000ms_total: 0,
                gt_1000ms_total: 0,
            },
            ranked_retrieval_latency: LatencyHistogramSnapshot::default(),
            compaction_latency: LatencyHistogramSnapshot {
                observations_total: 1,
                sum_ms: 10,
                le_10ms_total: 1,
                le_50ms_total: 0,
                le_250ms_total: 0,
                le_1000ms_total: 0,
                gt_1000ms_total: 0,
            },
            recovery_duration: LatencyHistogramSnapshot {
                observations_total: 1,
                sum_ms: 11,
                le_10ms_total: 0,
                le_50ms_total: 1,
                le_250ms_total: 0,
                le_1000ms_total: 0,
                gt_1000ms_total: 0,
            },
            wal_lag_records: 2,
            wal_replay_latency_ms: 11,
            memory_pressure_bytes: 1024,
            cache_pressure_bytes: 2048,
            retrieval_score_bucket_low_total: 1,
            retrieval_score_bucket_medium_total: 2,
            retrieval_score_bucket_high_total: 3,
            retrieval_score_bucket_top_total: 4,
            error_counters: vec![ErrorCounterSnapshot {
                code: "unauthorized".to_owned(),
                status: 401,
                count: 2,
            }],
        },
    };

    let rendered = snapshot.render_prometheus();
    assert!(rendered.contains("undr9_service_ready"));
    assert!(rendered.contains("undr9_active_transactions"));
    assert!(rendered.contains("undr9_current_revision"));
    assert!(rendered.contains("undr9_pending_checkpoint_entries"));
    assert!(rendered.contains("undr9_query_requests_total"));
    assert!(rendered.contains("undr9_query_latency_ms_bucket"));
    assert!(rendered.contains("undr9_errors_total"));
    assert!(rendered.contains("undr9_http_requests_total"));
    assert!(rendered.contains("undr9_http_request_duration_ms_bucket"));
    assert!(rendered.contains("service=\"undr9\""));
    assert!(rendered.contains("code=\"unauthorized\""));
}

#[test]
fn labels_are_rendered_in_order() {
    assert_eq!(render_labels("undr9", &[]), "service=\"undr9\"");
    assert_eq!(
        render_labels("undr9", &[("le", "10"), ("route", "/x")]),
        "service=\"undr9\",le=\"10\",route=\"/x\""
    );
}

#[test]
fn histograms_are_rendered_cumulatively() {
    let rendered = render_histogram(
        "s",
        "m",
        "h",
        &LatencyHistogramSnapshot {
            observations_total: 15,
            sum_ms: 77,
            le_10ms_total: 1,
            le_50ms_total: 2,
            le_250ms_total: 3,
            le_1000ms_total: 4,
            gt_1000ms_total: 5,
        },
        &[],
    );
    assert!(rendered.contains("m_bucket{service=\"s\",le=\"10\"} 1\n"));
    assert!(rendered.contains("m_bucket{service=\"s\",le=\"50\"} 3\n"));
    assert!(rendered.contains("m_bucket{service=\"s\",le=\"250\"} 6\n"));
    assert!(rendered.contains("m_bucket{service=\"s\",le=\"1000\"} 10\n"));
    assert!(rendered.contains("m_sum{service=\"s\"} 77\n"));
    assert!(rendered.contains("m_count{service=\"s\"} 15\n"));
}

#[test]
fn histograms_count_everything_once() {
    let mut histogram = AtomicLatencyHistogram::default();
    for elapsed in [0, 10, 11, 50, 51, 250, 251, 1_000, 1_001, u64::MAX - 3_000] {
        record_latency(&mut histogram, elapsed);
    }
    let counts = histogram.snapshot();
    assert_eq!(counts.observations_total, 10);
    assert_eq!(counts.le_10ms_total, 2);
    assert_eq!(counts.le_50ms_total, 2);
    assert_eq!(counts.le_250ms_total, 2);
    assert_eq!(counts.le_1000ms_total, 2);
    assert_eq!(counts.gt_1000ms_total, 2);
    assert_eq!(histogram_with_single_gauge(11).le_50ms_total, 1);
    assert_eq!(histogram_with_single_gauge(11).sum_ms, 11);
}

#[test]
fn errors_are_counted_by_code_and_status() {
    let mut counters: DashMap<String, u64> = DashMap::new();
    for (status, code) in [(404, "not_found"), (401, "unauthorized"), (404, "not_found"), (400, "not_found")] {
        record_api_error_metric(&mut counters, status, code);
    }
    let listed = snapshot_error_counters(&counters);
    let seen: Vec<(&str, u16, u64)> = listed
        .iter()
        .map(|counter| (counter.code.as_str(), counter.status, counter.count))
        .collect();
    assert_eq!(
        seen,
        vec![("not_found", 400, 1), ("not_found", 404, 2), ("unauthorized", 401, 1)]
    );
}

#[test]
fn endpoints_are_counted_by_method_and_route() {
    let mut metrics = no_endpoint_metrics();
    record_endpoint_metrics(&mut metrics, "GET", "/v1/nodes/:id", 200, 5);
    record_endpoint_metrics(&mut metrics, "GET", "/v1/nodes/:id", 404, 60);
    record_endpoint_metrics(&mut metrics, "POST", "/v1/nodes", 500, 300);
    let listed = snapshot_endpoint_metrics(&metrics);
    assert_eq!(listed.len(), 2);
    let reads = listed.iter().find(|entry| entry.method == "GET").expect("reads");
    assert_eq!(reads.route, "/v1/nodes/:id");
    assert_eq!(reads.requests_total, 2);
    assert_eq!(reads.responses_2xx_total, 1);
    assert_eq!(reads.responses_4xx_total, 1);
    assert_eq!(reads.latency_ms_total, 65);
    assert_eq!(reads.latency_le_10ms_total, 1);
    assert_eq!(reads.latency_le_250ms_total, 1);
    let writes = listed.iter().find(|entry| entry.method == "POST").expect("writes");
    assert_eq!(writes.responses_5xx_total, 1);
    assert_eq!(writes.latency_gt_250ms_total, 1);
}

#[test]
fn scores_fall_into_quarters() {
    assert_eq!(score_bucket(0.0_f32.to_bits()), ScoreBucket::Low);
    assert_eq!(score_bucket(0.2499_f32.to_bits()), ScoreBucket::Low);
    assert_eq!(score_bucket(0.25_f32.to_bits()), ScoreBucket::Medium);
    assert_eq!(score_bucket(0.5_f32.to_bits()), ScoreBucket::High);
    assert_eq!(score_bucket(0.75_f32.to_bits()), ScoreBucket::Top);
    assert_eq!(score_bucket((-1.0_f32).to_bits()), ScoreBucket::Low);
    assert_eq!(score_bucket((-0.0_f32).to_bits()), ScoreBucket::Low);
}

#[test]
fn queries_are_counted_by_kind_and_score() {
    let mut counts = RequestCounts::default();
    let search = QueryRequest::VectorSearch {
        query_vector: vec![1.0_f32.to_bits()],
        node_type: None,
        vector_name: None,
        limit: 4,
        top_k: None,
    };
    let scores: Vec<u32> = [0.1_f32, 0.3, 0.6, 0.9].iter().map(|score| score.to_bits()).collect();
    counts.record_query_stream_metrics(&search, &scores, 12);
    let walk = QueryRequest::Traverse {
        start_node_id: NodeId::new("a").expect("valid id"),
        edge_type: None,
        direction: EdgeDirection::Both,
        max_hops: None,
        limit: None,
        timeout_ms: None,
        constraints: None,
    };
    counts.record_query_stream_metrics(&walk, &[], 3);
    counts.count_write();
    counts.count_transaction(4);
    counts.count_maintenance(true, 5);
    counts.count_maintenance(false, 5);
    counts.count_audit_event();
    let counters = AtomicServiceCounters { requests: counts, error_counters: DashMap::new() };
    let shown = counters.snapshot(11);
    assert_eq!(shown.query_requests_total, 2);
    assert_eq!(shown.query_latency.observations_total, 2);
    assert_eq!(shown.vector_search_latency.observations_total, 1);
    assert_eq!(shown.traversal_latency.observations_total, 1);
    assert_eq!(shown.write_requests_total, 2);
    assert_eq!(shown.transaction_latency.sum_ms, 4);
    assert_eq!(shown.maintenance_operations_total, 2);
    assert_eq!(shown.compaction_latency.observations_total, 1);
    assert_eq!(shown.audit_events_total, 1);
    assert_eq!(shown.retrieval_score_bucket_low_total, 1);
    assert_eq!(shown.retrieval_score_bucket_medium_total, 1);
    assert_eq!(shown.retrieval_score_bucket_high_total, 1);
    assert_eq!(shown.retrieval_score_bucket_top_total, 1);
    assert_eq!(shown.recovery_duration.sum_ms, 11);
    assert_eq!(shown.wal_replay_latency_ms, 11);
}

#[test]
fn exports_and_prunes_audit_events() {
    let mut payload = String::new();
    for index in 0..4 {
        payload.push_str(&format!("{{\"action\":\"action_{index}\"}}\n"));
    }

    let exported = exported_lines(&payload, 2);
    assert_eq!(exported.len(), 2);
    assert!(exported[0].contains("action_2"));
    assert!(exported[1].contains("action_3"));

    let (kept, removed) = prune_lines(&payload, 2).expect("audit log prune should succeed");
    assert_eq!(removed, 2);

    let remaining = exported_lines(&kept, 10);
    assert_eq!(remaining.len(), 2);
    assert!(remaining[0].contains("action_2"));
    assert!(remaining[1].contains("action_3"));
}

#[test]
fn short_logs_are_not_pruned() {
    assert_eq!(prune_lines("a\nb\n", 2), None);
    assert_eq!(prune_lines("a\n\n  \nb\n", 5), None);
    assert_eq!(exported_lines("a\n\n b\n", 9).len(), 2);
    assert_eq!(exported_lines("a\nb\n", 0).len(), 0);
}

#[test]
fn events_carry_what_they_are_given() {
    let event = AuditEvent::new("admin", "backup", "database", "success", "backup created");
    assert_eq!(
        (event.actor.as_str(), event.action.as_str(), event.resource.as_str()),
        ("admin", "backup", "database")
    );
    assert!(event.timestamp_ms > 1_600_000_000_000);
    let log = StructuredLogEvent::new("INFO", "undr9_api", "request complete")
        .with_field("path", "/healthz");
    assert_eq!(log.level, "INFO");
    assert_eq!(log.fields.get_text("path").map(String::as_str), Some("/healthz"));
}

#[test]
fn log_levels_are_known_by_name() {
    assert_eq!(trace_level("TRACE"), TraceLevel::Trace);
    assert_eq!(trace_level("DEBUG"), TraceLevel::Debug);
    assert_eq!(trace_level("WARN"), TraceLevel::Warn);
    assert_eq!(trace_level("ERROR"), TraceLevel::Error);
    assert_eq!(trace_level("anything"), TraceLevel::Info);
}

#[test]
fn parses_otlp_headers_and_protocol_variants() {
    let headers = parse_otlp_headers("authorization=Bearer token,x-scope-orgid=tenant")
        .expect("headers should parse");
    assert_eq!(headers.get_text("authorization"), Some(&"Bearer token".to_owned()));
    assert_eq!(headers.get_text("x-scope-orgid"), Some(&"tenant".to_owned()));

    assert!(matches!(
        normalize_otlp_protocol("grpc").expect("grpc protocol should parse"),
        OtlpProtocol::Grpc
    ));
    assert!(matches!(
        normalize_otlp_protocol("http/protobuf").expect("http protocol should parse"),
        OtlpProtocol::HttpBinary
    ));

    let metadata = build_otlp_metadata(&headers).expect("metadata should build");
    assert_eq!(metadata.get_text("authorization").map(String::as_str), Some("Bearer token"));
}

#[test]
fn broken_exporter_settings_are_refused() {
    assert!(normalize_otlp_protocol("carrier-pigeon").is_err());
    assert!(parse_otlp_headers("no-equals-sign").is_err());
    let nameless = parse_otlp_headers("=value").expect("headers should parse");
    assert!(build_otlp_metadata(&nameless).is_err());
    assert_eq!(parse_otlp_headers(" , ").expect("nothing to parse").len(), 0);
    let odd = parse_otlp_headers("bad name=value").expect("headers should parse");
    assert!(build_otlp_metadata(&odd).is_err());
    let odd = parse_otlp_headers("name=va\u{7}lue").expect("headers should parse");
    assert!(build_otlp_metadata(&odd).is_err());
}

#[test]
fn pruning_twice_is_pruning_once() {
    let (once, removed) = prune_lines("a\nb\nc\n", 2).expect("an entry should go");
    assert_eq!((once.as_str(), removed), ("b\nc\n", 1));
    assert_eq!(prune_lines(&once, 2), None);
    let (once, _) = prune_lines("a\nx\r\r\ny\r\r\n", 2).expect("an entry should go");
    assert_eq!(once, "x\r\ny\r\n");
    assert_eq!(prune_lines(&once, 2), None);
    assert_eq!(exported_lines(&once, 9), vec!["x", "y"]);
    let (none, removed) = prune_lines("a\nb\n", 0).expect("all entries should go");
    assert_eq!((none.as_str(), removed), ("\n", 2));
    assert_eq!(prune_lines(&none, 0), None);
}

#[test]
fn histograms_add_up_the_times() {
    let mut histogram = AtomicLatencyHistogram::default();
    for elapsed in [3, 40, 200, 900, 5_000] {
        record_latency(&mut histogram, elapsed);
    }
    let counts = histogram.snapshot();
    assert_eq!(counts.sum_ms, 6_143);
    assert_eq!(
        [
            counts.le_10ms_total,
            counts.le_50ms_total,
            counts.le_250ms_total,
            counts.le_1000ms_total,
            counts.gt_1000ms_total,
        ],
        [1, 1, 1, 1, 1]
    );
}
