//! Counters, and how they are shown.
use vstd::prelude::*;
use vstd::string::*;

use crate::ordered::models;
use crate::text;

verus! {

/// How long things took: how many took how long, and how long they took together.
#[derive(Debug, Clone, Copy, PartialEq, Eq, Structural)]
pub struct LatencyHistogramSnapshot {
    pub observations_total: u64,
    pub sum_ms: u64,
    pub le_10ms_total: u64,
    pub le_50ms_total: u64,
    pub le_250ms_total: u64,
    pub le_1000ms_total: u64,
    pub gt_1000ms_total: u64,
}

impl LatencyHistogramSnapshot {
    /// Nothing has been seen.
    pub open spec fn empty() -> LatencyHistogramSnapshot {
        LatencyHistogramSnapshot {
            observations_total: 0,
            sum_ms: 0,
            le_10ms_total: 0,
            le_50ms_total: 0,
            le_250ms_total: 0,
            le_1000ms_total: 0,
            gt_1000ms_total: 0,
        }
    }

    /// Whether the buckets can be added up.
    pub open spec fn adds_up(self) -> bool {
        self.le_10ms_total + self.le_50ms_total + self.le_250ms_total + self.le_1000ms_total
            <= u64::MAX
    }
}

impl Default for LatencyHistogramSnapshot {
    fn default() -> (r: Self)
        ensures
            r == LatencyHistogramSnapshot::empty(),
    {
        LatencyHistogramSnapshot {
            observations_total: 0,
            sum_ms: 0,
            le_10ms_total: 0,
            le_50ms_total: 0,
            le_250ms_total: 0,
            le_1000ms_total: 0,
            gt_1000ms_total: 0,
        }
    }
}

/// How often an error was given.
#[derive(Debug, PartialEq, Eq)]
pub struct ErrorCounterSnapshot {
    pub code: String,
    pub status: u16,
    pub count: u64,
}

/// The model of how often an error was given.
pub struct ErrorCounterModel {
    pub code: Seq<char>,
    pub status: u16,
    pub count: u64,
}

impl View for ErrorCounterSnapshot {
    type V = ErrorCounterModel;

    open spec fn view(&self) -> ErrorCounterModel {
        ErrorCounterModel { code: self.code@, status: self.status, count: self.count }
    }
}

/// What the service has counted.
#[derive(Debug, PartialEq, Eq)]
pub struct ServiceCounters {
    pub query_requests_total: u64,
    pub write_requests_total: u64,
    pub maintenance_operations_total: u64,
    pub audit_events_total: u64,
    pub query_latency: LatencyHistogramSnapshot,
    pub transaction_latency: LatencyHistogramSnapshot,
    pub traversal_latency: LatencyHistogramSnapshot,
    pub vector_search_latency: LatencyHistogramSnapshot,
    pub ranked_retrieval_latency: LatencyHistogramSnapshot,
    pub compaction_latency: LatencyHistogramSnapshot,
    pub recovery_duration: LatencyHistogramSnapshot,
    pub wal_lag_records: u64,
    pub wal_replay_latency_ms: u64,
    pub memory_pressure_bytes: u64,
    pub cache_pressure_bytes: u64,
    pub retrieval_score_bucket_low_total: u64,
    pub retrieval_score_bucket_medium_total: u64,
    pub retrieval_score_bucket_high_total: u64,
    pub retrieval_score_bucket_top_total: u64,
    pub error_counters: Vec<ErrorCounterSnapshot>,
}

impl ServiceCounters {
    /// Whether the buckets of all histograms can be added up.
    pub open spec fn adds_up(self) -> bool {
        &&& self.query_latency.adds_up()
        &&& self.transaction_latency.adds_up()
        &&& self.traversal_latency.adds_up()
        &&& self.vector_search_latency.adds_up()
        &&& self.ranked_retrieval_latency.adds_up()
        &&& self.compaction_latency.adds_up()
        &&& self.recovery_duration.adds_up()
    }
}

impl Default for ServiceCounters {
    /// Nothing has been counted.
    fn default() -> (r: Self)
        ensures
            r.query_requests_total == 0,
            r.write_requests_total == 0,
            r.maintenance_operations_total == 0,
            r.audit_events_total == 0,
            r.query_latency == LatencyHistogramSnapshot::empty(),
            r.transaction_latency == LatencyHistogramSnapshot::empty(),
            r.traversal_latency == LatencyHistogramSnapshot::empty(),
            r.vector_search_latency == LatencyHistogramSnapshot::empty(),
            r.ranked_retrieval_latency == LatencyHistogramSnapshot::empty(),
            r.compaction_latency == LatencyHistogramSnapshot::empty(),
            r.recovery_duration == LatencyHistogramSnapshot::empty(),
            r.wal_lag_records == 0,
            r.wal_replay_latency_ms == 0,
            r.memory_pressure_bytes == 0,
            r.cache_pressure_bytes == 0,
            r.retrieval_score_bucket_low_total == 0,
            r.retrieval_score_bucket_medium_total == 0,
            r.retrieval_score_bucket_high_total == 0,
            r.retrieval_score_bucket_top_total == 0,
            r.error_counters@.len() == 0,
    {
        ServiceCounters {
            query_requests_total: 0,
            write_requests_total: 0,
            maintenance_operations_total: 0,
            audit_events_total: 0,
            query_latency: LatencyHistogramSnapshot::default(),
            transaction_latency: LatencyHistogramSnapshot::default(),
            traversal_latency: LatencyHistogramSnapshot::default(),
            vector_search_latency: LatencyHistogramSnapshot::default(),
            ranked_retrieval_latency: LatencyHistogramSnapshot::default(),
            compaction_latency: LatencyHistogramSnapshot::default(),
            recovery_duration: LatencyHistogramSnapshot::default(),
            wal_lag_records: 0,
            wal_replay_latency_ms: 0,
            memory_pressure_bytes: 0,
            cache_pressure_bytes: 0,
            retrieval_score_bucket_low_total: 0,
            retrieval_score_bucket_medium_total: 0,
            retrieval_score_bucket_high_total: 0,
            retrieval_score_bucket_top_total: 0,
            error_counters: Vec::new(),
        }
    }
}

/// What was counted at an endpoint.
#[derive(Debug, PartialEq, Eq)]
pub struct EndpointMetricsSnapshot {
    pub method: String,
    pub route: String,
    pub requests_total: u64,
    pub responses_2xx_total: u64,
    pub responses_4xx_total: u64,
    pub responses_5xx_total: u64,
    pub latency_ms_total: u64,
    pub latency_le_10ms_total: u64,
    pub latency_le_50ms_total: u64,
    pub latency_le_250ms_total: u64,
    pub latency_gt_250ms_total: u64,
}

/// The model of what was counted at an endpoint.
pub struct EndpointModel {
    pub method: Seq<char>,
    pub route: Seq<char>,
    pub requests_total: u64,
    pub responses_2xx_total: u64,
    pub responses_4xx_total: u64,
    pub responses_5xx_total: u64,
    pub latency_ms_total: u64,
    pub latency_le_10ms_total: u64,
    pub latency_le_50ms_total: u64,
    pub latency_le_250ms_total: u64,
    pub latency_gt_250ms_total: u64,
}

impl View for EndpointMetricsSnapshot {
    type V = EndpointModel;

    open spec fn view(&self) -> EndpointModel {
        EndpointModel {
            method: self.method@,
            route: self.route@,
            requests_total: self.requests_total,
            responses_2xx_total: self.responses_2xx_total,
            responses_4xx_total: self.responses_4xx_total,
            responses_5xx_total: self.responses_5xx_total,
            latency_ms_total: self.latency_ms_total,
            latency_le_10ms_total: self.latency_le_10ms_total,
            latency_le_50ms_total: self.latency_le_50ms_total,
            latency_le_250ms_total: self.latency_le_250ms_total,
            latency_gt_250ms_total: self.latency_gt_250ms_total,
        }
    }
}

impl EndpointModel {
    /// Whether the buckets can be added up.
    pub open spec fn adds_up(self) -> bool {
        self.latency_le_10ms_total + self.latency_le_50ms_total + self.latency_le_250ms_total
            <= u64::MAX
    }
}

impl Default for EndpointMetricsSnapshot {
    /// Nothing has been counted.
    fn default() -> (r: Self)
        ensures
            r@ == (EndpointModel {
                method: ""@,
                route: ""@,
                requests_total: 0,
                responses_2xx_total: 0,
                responses_4xx_total: 0,
                responses_5xx_total: 0,
                latency_ms_total: 0,
                latency_le_10ms_total: 0,
                latency_le_50ms_total: 0,
                latency_le_250ms_total: 0,
                latency_gt_250ms_total: 0,
            }),
    {
        EndpointMetricsSnapshot {
            method: "".to_owned(),
            route: "".to_owned(),
            requests_total: 0,
            responses_2xx_total: 0,
            responses_4xx_total: 0,
            responses_5xx_total: 0,
            latency_ms_total: 0,
            latency_le_10ms_total: 0,
            latency_le_50ms_total: 0,
            latency_le_250ms_total: 0,
            latency_gt_250ms_total: 0,
        }
    }
}

/// The state of the service.
#[derive(Debug, PartialEq, Eq)]
pub struct MetricsSnapshot {
    pub service_name: String,
    pub ready: bool,
    pub node_count: usize,
    pub edge_count: usize,
    pub active_transactions: usize,
    pub current_revision: u64,
    pub latest_applied_lsn: u64,
    pub checkpoint_dirty: bool,
    pub pending_checkpoint_entries: usize,
    pub endpoint_metrics: Vec<EndpointMetricsSnapshot>,
    pub counters: ServiceCounters,
}

// ---------------------------------------------------------------------------------------------
// Samples
// ---------------------------------------------------------------------------------------------

/// The lines that introduce a metric.
pub open spec fn heading(name: Seq<char>, help: Seq<char>, kind: Seq<char>) -> Seq<char> {
    "# HELP "@ + name + " "@ + help + "\n# TYPE "@ + name + " "@ + kind + "\n"@
}

/// A line that gives the value of a metric.
pub open spec fn sample(name: Seq<char>, labels: Seq<char>, value: nat) -> Seq<char> {
    name + "{"@ + labels + "} "@ + text::decimal(value) + "\n"@
}

/// A label.
pub open spec fn label(key: Seq<char>, value: Seq<char>) -> Seq<char> {
    key + "=\""@ + value + "\""@
}

/// A metric of one value.
pub open spec fn metric(
    service: Seq<char>,
    name: Seq<char>,
    help: Seq<char>,
    kind: Seq<char>,
    value: nat,
) -> Seq<char> {
    heading(name, help, kind) + sample(name, label("service"@, service), value)
}

/// Puts the lines that introduce a metric at the end of a text.
fn push_heading(out: &mut String, name: &str, help: &str, kind: &str)
    ensures
        final(out)@ == old(out)@ + heading(name@, help@, kind@),
{
    let ghost before = out@;
    out.append("# HELP ");
    out.append(name);
    out.append(" ");
    out.append(help);
    out.append("\n# TYPE ");
    out.append(name);
    out.append(" ");
    out.append(kind);
    out.append("\n");
    proof {
        assert(out@ =~= before + heading(name@, help@, kind@));
    }
}

/// Puts a line that gives the value of a metric at the end of a text.
fn push_sample(out: &mut String, name: &str, labels: &str, value: u64)
    ensures
        final(out)@ == old(out)@ + sample(name@, labels@, value as nat),
{
    let ghost before = out@;
    let numeral: String = text::decimal_text(value as u128);
    out.append(name);
    out.append("{");
    out.append(labels);
    out.append("} ");
    out.append(numeral.as_str());
    out.append("\n");
    proof {
        assert(out@ =~= before + sample(name@, labels@, value as nat));
    }
}

/// Puts a label at the end of a text.
fn push_label(out: &mut String, key: &str, value: &str)
    ensures
        final(out)@ == old(out)@ + label(key@, value@),
{
    let ghost before = out@;
    out.append(key);
    out.append("=\"");
    out.append(value);
    out.append("\"");
    proof {
        assert(out@ =~= before + label(key@, value@));
    }
}

/// Puts a metric of one value at the end of a text.
fn push_metric(out: &mut String, service: &str, name: &str, help: &str, kind: &str, value: u64)
    ensures
        final(out)@ == old(out)@ + metric(service@, name@, help@, kind@, value as nat),
{
    let ghost before = out@;
    push_heading(out, name, help, kind);
    let mut labels: String = "".to_owned();
    push_label(&mut labels, "service", service);
    proof {
        reveal_strlit("");
        assert(labels@ =~= label("service"@, service@));
    }
    push_sample(out, name, labels.as_str(), value);
    proof {
        assert(out@ =~= before + metric(service@, name@, help@, kind@, value as nat));
    }
}

// ---------------------------------------------------------------------------------------------
// Histograms
// ---------------------------------------------------------------------------------------------

/// Labels behind others.
pub open spec fn more_labels(labels: Seq<(&str, &str)>) -> Seq<char>
    decreases labels.len(),
{
    if labels.len() == 0 {
        Seq::empty()
    } else {
        more_labels(labels.drop_last()) + ","@ + label(labels.last().0@, labels.last().1@)
    }
}

/// The label of the service and others.
pub open spec fn all_labels(service: Seq<char>, extra: Seq<(&str, &str)>) -> Seq<char> {
    label("service"@, service) + more_labels(extra)
}

/// The label of the service and others.
pub fn render_labels(service: &str, extra_labels: &[(&str, &str)]) -> (r: String)
    ensures
        r@ == all_labels(service@, extra_labels@),
{
    let mut out: String = "".to_owned();
    push_label(&mut out, "service", service);
    let mut i: usize = 0;
    proof {
        reveal_strlit("");
        assert(extra_labels@.take(0).len() == 0);
        assert(out@ =~= label("service"@, service@) + more_labels(extra_labels@.take(0)));
    }
    while i < extra_labels.len()
        invariant
            i <= extra_labels@.len(),
            out@ == label("service"@, service@) + more_labels(extra_labels@.take(i as int)),
        decreases extra_labels@.len() - i,
    {
        proof {
            assert(extra_labels@.take(i + 1).drop_last() =~= extra_labels@.take(i as int));
            assert(extra_labels@.take(i + 1).last() == extra_labels@[i as int]);
        }
        out.append(",");
        push_label(&mut out, extra_labels[i].0, extra_labels[i].1);
        proof {
            assert(out@ =~= label("service"@, service@) + more_labels(
                extra_labels@.take(i + 1),
            ));
        }
        i = i + 1;
    }
    proof {
        assert(extra_labels@.take(i as int) =~= extra_labels@);
    }
    out
}

/// A line that gives how many took no longer than a bound.
pub open spec fn bucket_sample(
    name: Seq<char>,
    labels: Seq<char>,
    bound: Seq<char>,
    value: nat,
) -> Seq<char> {
    sample(name + "_bucket"@, labels + ","@ + label("le"@, bound), value)
}

/// A histogram: its buckets add up what took no longer.
pub open spec fn histogram_text(
    service: Seq<char>,
    name: Seq<char>,
    help: Seq<char>,
    histogram: LatencyHistogramSnapshot,
    extra: Seq<(&str, &str)>,
) -> Seq<char> {
    let labels = all_labels(service, extra);
    let le_10 = histogram.le_10ms_total as nat;
    let le_50 = le_10 + histogram.le_50ms_total as nat;
    let le_250 = le_50 + histogram.le_250ms_total as nat;
    let le_1000 = le_250 + histogram.le_1000ms_total as nat;
    let count = histogram.observations_total as nat;
    heading(name, help, "histogram"@) + bucket_sample(name, labels, "10"@, le_10) + bucket_sample(
        name,
        labels,
        "50"@,
        le_50,
    ) + bucket_sample(name, labels, "250"@, le_250) + bucket_sample(
        name,
        labels,
        "1000"@,
        le_1000,
    ) + bucket_sample(name, labels, "+Inf"@, count) + sample(
        name + "_sum"@,
        labels,
        histogram.sum_ms as nat,
    ) + sample(name + "_count"@, labels, count)
}

/// Puts a line that gives how many took no longer than a bound at the end of a text.
fn push_bucket(out: &mut String, name: &str, labels: &str, bound: &str, value: u64)
    ensures
        final(out)@ == old(out)@ + bucket_sample(name@, labels@, bound@, value as nat),
{
    let mut full: String = name.to_owned();
    full.append("_bucket");
    let mut more: String = labels.to_owned();
    more.append(",");
    push_label(&mut more, "le", bound);
    push_sample(out, full.as_str(), more.as_str(), value);
}

/// A histogram, as text.
pub fn render_histogram(
    service: &str,
    metric_name: &str,
    help: &str,
    histogram: &LatencyHistogramSnapshot,
    extra_labels: &[(&str, &str)],
) -> (r: String)
    requires
        histogram.adds_up(),
    ensures
        r@ == histogram_text(service@, metric_name@, help@, *histogram, extra_labels@),
{
    let le_10: u64 = histogram.le_10ms_total;
    let le_50: u64 = le_10 + histogram.le_50ms_total;
    let le_250: u64 = le_50 + histogram.le_250ms_total;
    let le_1000: u64 = le_250 + histogram.le_1000ms_total;
    let count: u64 = histogram.observations_total;
    let labels: String = render_labels(service, extra_labels);
    let mut out: String = "".to_owned();
    push_heading(&mut out, metric_name, help, "histogram");
    proof {
        reveal_strlit("");
        assert(out@ =~= heading(metric_name@, help@, "histogram"@));
    }
    push_bucket(&mut out, metric_name, labels.as_str(), "10", le_10);
    push_bucket(&mut out, metric_name, labels.as_str(), "50", le_50);
    push_bucket(&mut out, metric_name, labels.as_str(), "250", le_250);
    push_bucket(&mut out, metric_name, labels.as_str(), "1000", le_1000);
    push_bucket(&mut out, metric_name, labels.as_str(), "+Inf", count);
    let mut sum_name: String = metric_name.to_owned();
    sum_name.append("_sum");
    push_sample(&mut out, sum_name.as_str(), labels.as_str(), histogram.sum_ms);
    let mut count_name: String = metric_name.to_owned();
    count_name.append("_count");
    push_sample(&mut out, count_name.as_str(), labels.as_str(), count);
    out
}

// ---------------------------------------------------------------------------------------------
// The whole state
// ---------------------------------------------------------------------------------------------

/// One for yes, zero for no.
pub open spec fn bit(value: bool) -> nat {
    if value {
        1
    } else {
        0
    }
}

/// The metrics of one value each.
pub open spec fn gauges_text(snapshot: MetricsSnapshot) -> Seq<char> {
    let s = snapshot.service_name@;
    let c = snapshot.counters;
    metric(
        s,
        "undr9_service_ready"@,
        "Whether the UNDR9 service is ready."@,
        "gauge"@,
        bit(snapshot.ready),
    ) + metric(
        s,
        "undr9_nodes_total"@,
        "Number of nodes currently loaded."@,
        "gauge"@,
        snapshot.node_count as nat,
    ) + metric(
        s,
        "undr9_edges_total"@,
        "Number of edges currently loaded."@,
        "gauge"@,
        snapshot.edge_count as nat,
    ) + metric(
        s,
        "undr9_active_transactions"@,
        "Number of active transactions."@,
        "gauge"@,
        snapshot.active_transactions as nat,
    ) + metric(
        s,
        "undr9_current_revision"@,
        "Current committed revision."@,
        "gauge"@,
        snapshot.current_revision as nat,
    ) + metric(
        s,
        "undr9_latest_applied_lsn"@,
        "Latest applied WAL sequence number."@,
        "gauge"@,
        snapshot.latest_applied_lsn as nat,
    ) + metric(
        s,
        "undr9_checkpoint_dirty"@,
        "Whether checkpoint publication is pending."@,
        "gauge"@,
        bit(snapshot.checkpoint_dirty),
    ) + metric(
        s,
        "undr9_pending_checkpoint_entries"@,
        "Number of unpublished checkpoint entries."@,
        "gauge"@,
        snapshot.pending_checkpoint_entries as nat,
    ) + metric(
        s,
        "undr9_query_requests_total"@,
        "Total query requests handled."@,
        "counter"@,
        c.query_requests_total as nat,
    ) + metric(
        s,
        "undr9_write_requests_total"@,
        "Total write requests handled."@,
        "counter"@,
        c.write_requests_total as nat,
    ) + metric(
        s,
        "undr9_maintenance_operations_total"@,
        "Total maintenance operations handled."@,
        "counter"@,
        c.maintenance_operations_total as nat,
    ) + metric(
        s,
        "undr9_audit_events_total"@,
        "Total audit events written."@,
        "counter"@,
        c.audit_events_total as nat,
    ) + metric(
        s,
        "undr9_wal_lag_records"@,
        "WAL records pending durable checkpoint publication."@,
        "gauge"@,
        c.wal_lag_records as nat,
    ) + metric(
        s,
        "undr9_wal_replay_latency_ms"@,
        "Last WAL replay latency in milliseconds."@,
        "gauge"@,
        c.wal_replay_latency_ms as nat,
    ) + metric(
        s,
        "undr9_memory_pressure_bytes"@,
        "Estimated in-process memory pressure in bytes."@,
        "gauge"@,
        c.memory_pressure_bytes as nat,
    ) + metric(
        s,
        "undr9_cache_pressure_bytes"@,
        "Estimated cached graph snapshot pressure in bytes."@,
        "gauge"@,
        c.cache_pressure_bytes as nat,
    )
}

/// The metrics of one value each, as text.
fn render_gauges(snapshot: &MetricsSnapshot) -> (r: String)
    ensures
        r@ == gauges_text(*snapshot),
{
    let s: &str = snapshot.service_name.as_str();
    let c: &ServiceCounters = &snapshot.counters;
    let ready: u64 = if snapshot.ready { 1 } else { 0 };
    let dirty: u64 = if snapshot.checkpoint_dirty { 1 } else { 0 };
    let mut out: String = "".to_owned();
    push_metric(
        &mut out,
        s,
        "undr9_service_ready",
        "Whether the UNDR9 service is ready.",
        "gauge",
        ready,
    );
    proof {
        reveal_strlit("");
        assert(out@ =~= metric(
            s@,
            "undr9_service_ready"@,
            "Whether the UNDR9 service is ready."@,
            "gauge"@,
            bit(snapshot.ready),
        ));
    }
    push_metric(
        &mut out,
        s,
        "undr9_nodes_total",
        "Number of nodes currently loaded.",
        "gauge",
        snapshot.node_count as u64,
    );
    push_metric(
        &mut out,
        s,
        "undr9_edges_total",
        "Number of edges currently loaded.",
        "gauge",
        snapshot.edge_count as u64,
    );
    push_metric(
        &mut out,
        s,
        "undr9_active_transactions",
        "Number of active transactions.",
        "gauge",
        snapshot.active_transactions as u64,
    );
    push_metric(
        &mut out,
        s,
        "undr9_current_revision",
        "Current committed revision.",
        "gauge",
        snapshot.current_revision,
    );
    push_metric(
        &mut out,
        s,
        "undr9_latest_applied_lsn",
        "Latest applied WAL sequence number.",
        "gauge",
        snapshot.latest_applied_lsn,
    );
    push_metric(
        &mut out,
        s,
        "undr9_checkpoint_dirty",
        "Whether checkpoint publication is pending.",
        "gauge",
        dirty,
    );
    push_metric(
        &mut out,
        s,
        "undr9_pending_checkpoint_entries",
        "Number of unpublished checkpoint entries.",
        "gauge",
        snapshot.pending_checkpoint_entries as u64,
    );
    push_metric(
        &mut out,
        s,
        "undr9_query_requests_total",
        "Total query requests handled.",
        "counter",
        c.query_requests_total,
    );
    push_metric(
        &mut out,
        s,
        "undr9_write_requests_total",
        "Total write requests handled.",
        "counter",
        c.write_requests_total,
    );
    push_metric(
        &mut out,
        s,
        "undr9_maintenance_operations_total",
        "Total maintenance operations handled.",
        "counter",
        c.maintenance_operations_total,
    );
    push_metric(
        &mut out,
        s,
        "undr9_audit_events_total",
        "Total audit events written.",
        "counter",
        c.audit_events_total,
    );
    push_metric(
        &mut out,
        s,
        "undr9_wal_lag_records",
        "WAL records pending durable checkpoint publication.",
        "gauge",
        c.wal_lag_records,
    );
    push_metric(
        &mut out,
        s,
        "undr9_wal_replay_latency_ms",
        "Last WAL replay latency in milliseconds.",
        "gauge",
        c.wal_replay_latency_ms,
    );
    push_metric(
        &mut out,
        s,
        "undr9_memory_pressure_bytes",
        "Estimated in-process memory pressure in bytes.",
        "gauge",
        c.memory_pressure_bytes,
    );
    push_metric(
        &mut out,
        s,
        "undr9_cache_pressure_bytes",
        "Estimated cached graph snapshot pressure in bytes.",
        "gauge",
        c.cache_pressure_bytes,
    );
    out
}

/// A line that gives how many retrieval scores fell into a bucket.
pub open spec fn score_sample(service: Seq<char>, bucket: Seq<char>, value: nat) -> Seq<char> {
    sample(
        "undr9_retrieval_score_distribution"@,
        label("service"@, service) + ","@ + label("bucket"@, bucket),
        value,
    )
}

/// How retrieval scores are distributed.
pub open spec fn scores_text(service: Seq<char>, counters: ServiceCounters) -> Seq<char> {
    heading(
        "undr9_retrieval_score_distribution"@,
        "Retrieval score distribution buckets."@,
        "counter"@,
    ) + score_sample(
        service,
        "0.00-0.25"@,
        counters.retrieval_score_bucket_low_total as nat,
    ) + score_sample(
        service,
        "0.25-0.50"@,
        counters.retrieval_score_bucket_medium_total as nat,
    ) + score_sample(
        service,
        "0.50-0.75"@,
        counters.retrieval_score_bucket_high_total as nat,
    ) + score_sample(
        service,
        "0.75-1.00"@,
        counters.retrieval_score_bucket_top_total as nat,
    )
}

/// Puts a line that gives how many retrieval scores fell into a bucket at the end of a text.
fn push_score(out: &mut String, service: &str, bucket: &str, value: u64)
    ensures
        final(out)@ == old(out)@ + score_sample(service@, bucket@, value as nat),
{
    let mut labels: String = "".to_owned();
    push_label(&mut labels, "service", service);
    proof {
        reveal_strlit("");
        assert(labels@ =~= label("service"@, service@));
    }
    labels.append(",");
    push_label(&mut labels, "bucket", bucket);
    push_sample(out, "undr9_retrieval_score_distribution", labels.as_str(), value);
}

/// How retrieval scores are distributed, as text.
fn render_scores(service: &str, counters: &ServiceCounters) -> (r: String)
    ensures
        r@ == scores_text(service@, *counters),
{
    let mut out: String = "".to_owned();
    push_heading(
        &mut out,
        "undr9_retrieval_score_distribution",
        "Retrieval score distribution buckets.",
        "counter",
    );
    proof {
        reveal_strlit("");
        assert(out@ =~= heading(
            "undr9_retrieval_score_distribution"@,
            "Retrieval score distribution buckets."@,
            "counter"@,
        ));
    }
    push_score(&mut out, service, "0.00-0.25", counters.retrieval_score_bucket_low_total);
    push_score(&mut out, service, "0.25-0.50", counters.retrieval_score_bucket_medium_total);
    push_score(&mut out, service, "0.50-0.75", counters.retrieval_score_bucket_high_total);
    push_score(&mut out, service, "0.75-1.00", counters.retrieval_score_bucket_top_total);
    out
}

/// The histograms.
pub open spec fn histograms_text(service: Seq<char>, counters: ServiceCounters) -> Seq<char> {
    histogram_text(
        service,
        "undr9_query_latency_ms"@,
        "End-to-end query latency in milliseconds."@,
        counters.query_latency,
        seq![("subsystem", "query")],
    ) + histogram_text(
        service,
        "undr9_transaction_latency_ms"@,
        "Transaction lifecycle latency in milliseconds."@,
        counters.transaction_latency,
        seq![("subsystem", "transaction")],
    ) + histogram_text(
        service,
        "undr9_traversal_latency_ms"@,
        "Traversal query latency in milliseconds."@,
        counters.traversal_latency,
        seq![("subsystem", "query")],
    ) + histogram_text(
        service,
        "undr9_vector_search_latency_ms"@,
        "Vector search latency in milliseconds."@,
        counters.vector_search_latency,
        seq![("subsystem", "query")],
    ) + histogram_text(
        service,
        "undr9_ranked_retrieval_latency_ms"@,
        "Ranked retrieval latency in milliseconds."@,
        counters.ranked_retrieval_latency,
        seq![("subsystem", "query")],
    ) + histogram_text(
        service,
        "undr9_compaction_latency_ms"@,
        "Compaction latency in milliseconds."@,
        counters.compaction_latency,
        seq![("subsystem", "maintenance")],
    ) + histogram_text(
        service,
        "undr9_recovery_duration_ms"@,
        "Recovery duration in milliseconds."@,
        counters.recovery_duration,
        seq![("subsystem", "recovery")],
    )
}

/// Puts the histogram of a subsystem at the end of a text.
fn push_histogram(
    out: &mut String,
    service: &str,
    name: &str,
    help: &str,
    histogram: &LatencyHistogramSnapshot,
    subsystem: &str,
)
    requires
        histogram.adds_up(),
    ensures
        final(out)@ == old(out)@ + histogram_text(
            service@,
            name@,
            help@,
            *histogram,
            seq![("subsystem", subsystem)],
        ),
{
    let labels: [(&str, &str); 1] = [("subsystem", subsystem)];
    let rendered: String = render_histogram(service, name, help, histogram, &labels);
    proof {
        assert(labels@ =~= seq![("subsystem", subsystem)]);
    }
    out.append(rendered.as_str());
}

/// The histograms, as text.
fn render_histograms(service: &str, counters: &ServiceCounters) -> (r: String)
    requires
        counters.adds_up(),
    ensures
        r@ == histograms_text(service@, *counters),
{
    let mut out: String = "".to_owned();
    push_histogram(
        &mut out,
        service,
        "undr9_query_latency_ms",
        "End-to-end query latency in milliseconds.",
        &counters.query_latency,
        "query",
    );
    proof {
        reveal_strlit("");
        assert(out@ =~= histogram_text(
            service@,
            "undr9_query_latency_ms"@,
            "End-to-end query latency in milliseconds."@,
            counters.query_latency,
            seq![("subsystem", "query")],
        ));
    }
    push_histogram(
        &mut out,
        service,
        "undr9_transaction_latency_ms",
        "Transaction lifecycle latency in milliseconds.",
        &counters.transaction_latency,
        "transaction",
    );
    push_histogram(
        &mut out,
        service,
        "undr9_traversal_latency_ms",
        "Traversal query latency in milliseconds.",
        &counters.traversal_latency,
        "query",
    );
    push_histogram(
        &mut out,
        service,
        "undr9_vector_search_latency_ms",
        "Vector search latency in milliseconds.",
        &counters.vector_search_latency,
        "query",
    );
    push_histogram(
        &mut out,
        service,
        "undr9_ranked_retrieval_latency_ms",
        "Ranked retrieval latency in milliseconds.",
        &counters.ranked_retrieval_latency,
        "query",
    );
    push_histogram(
        &mut out,
        service,
        "undr9_compaction_latency_ms",
        "Compaction latency in milliseconds.",
        &counters.compaction_latency,
        "maintenance",
    );
    push_histogram(
        &mut out,
        service,
        "undr9_recovery_duration_ms",
        "Recovery duration in milliseconds.",
        &counters.recovery_duration,
        "recovery",
    );
    out
}

/// The labels of an endpoint.
pub open spec fn endpoint_labels(service: Seq<char>, endpoint: EndpointModel) -> Seq<char> {
    label("service"@, service) + ","@ + label("method"@, endpoint.method) + ","@ + label(
        "route"@,
        endpoint.route,
    )
}

/// A line that gives how many requests of a class an endpoint had.
pub open spec fn class_sample(labels: Seq<char>, class: Seq<char>, value: nat) -> Seq<char> {
    sample(
        "undr9_http_requests_total"@,
        labels + ","@ + label("status_class"@, class),
        value,
    )
}

/// What was counted at an endpoint, as text.
pub open spec fn endpoint_text(service: Seq<char>, endpoint: EndpointModel) -> Seq<char> {
    let labels = endpoint_labels(service, endpoint);
    let name = "undr9_http_request_duration_ms"@;
    let le_10 = endpoint.latency_le_10ms_total as nat;
    let le_50 = le_10 + endpoint.latency_le_50ms_total as nat;
    let le_250 = le_50 + endpoint.latency_le_250ms_total as nat;
    let count = endpoint.requests_total as nat;
    class_sample(labels, "2xx"@, endpoint.responses_2xx_total as nat) + class_sample(
        labels,
        "4xx"@,
        endpoint.responses_4xx_total as nat,
    ) + class_sample(labels, "5xx"@, endpoint.responses_5xx_total as nat) + bucket_sample(
        name,
        labels,
        "10"@,
        le_10,
    ) + bucket_sample(name, labels, "50"@, le_50) + bucket_sample(name, labels, "250"@, le_250)
        + bucket_sample(name, labels, "+Inf"@, count) + sample(
        "undr9_http_request_duration_ms_sum"@,
        labels,
        endpoint.latency_ms_total as nat,
    ) + sample("undr9_http_request_duration_ms_count"@, labels, count)
}

/// Puts a line that gives how many requests of a class an endpoint had at the end of a text.
fn push_class(out: &mut String, labels: &str, class: &str, value: u64)
    ensures
        final(out)@ == old(out)@ + class_sample(labels@, class@, value as nat),
{
    let mut more: String = labels.to_owned();
    more.append(",");
    push_label(&mut more, "status_class", class);
    push_sample(out, "undr9_http_requests_total", more.as_str(), value);
}

/// What was counted at an endpoint, as text.
fn render_endpoint(service: &str, endpoint: &EndpointMetricsSnapshot) -> (r: String)
    requires
        endpoint@.adds_up(),
    ensures
        r@ == endpoint_text(service@, endpoint@),
{
    let le_10: u64 = endpoint.latency_le_10ms_total;
    let le_50: u64 = le_10 + endpoint.latency_le_50ms_total;
    let le_250: u64 = le_50 + endpoint.latency_le_250ms_total;
    let count: u64 = endpoint.requests_total;
    let mut labels: String = "".to_owned();
    push_label(&mut labels, "service", service);
    proof {
        reveal_strlit("");
        assert(labels@ =~= label("service"@, service@));
    }
    labels.append(",");
    push_label(&mut labels, "method", endpoint.method.as_str());
    labels.append(",");
    push_label(&mut labels, "route", endpoint.route.as_str());
    let l: &str = labels.as_str();
    let name: &str = "undr9_http_request_duration_ms";
    let mut out: String = "".to_owned();
    push_class(&mut out, l, "2xx", endpoint.responses_2xx_total);
    proof {
        assert(out@ =~= class_sample(l@, "2xx"@, endpoint.responses_2xx_total as nat));
    }
    push_class(&mut out, l, "4xx", endpoint.responses_4xx_total);
    push_class(&mut out, l, "5xx", endpoint.responses_5xx_total);
    push_bucket(&mut out, name, l, "10", le_10);
    push_bucket(&mut out, name, l, "50", le_50);
    push_bucket(&mut out, name, l, "250", le_250);
    push_bucket(&mut out, name, l, "+Inf", count);
    push_sample(
        &mut out,
        "undr9_http_request_duration_ms_sum",
        l,
        endpoint.latency_ms_total,
    );
    push_sample(&mut out, "undr9_http_request_duration_ms_count", l, count);
    out
}

/// What was counted at endpoints, one after the other.
pub open spec fn endpoint_texts(service: Seq<char>, endpoints: Seq<EndpointModel>) -> Seq<char>
    decreases endpoints.len(),
{
    if endpoints.len() == 0 {
        Seq::empty()
    } else {
        endpoint_texts(service, endpoints.drop_last()) + endpoint_text(service, endpoints.last())
    }
}

/// What was counted at endpoints, with what introduces it; nothing where there are none.
pub open spec fn endpoints_text(service: Seq<char>, endpoints: Seq<EndpointModel>) -> Seq<char> {
    if endpoints.len() == 0 {
        Seq::empty()
    } else {
        heading(
            "undr9_http_requests_total"@,
            "Total HTTP requests by route, method, and status class."@,
            "counter"@,
        ) + heading(
            "undr9_http_request_duration_ms"@,
            "Request latency histogram by route and method."@,
            "histogram"@,
        ) + endpoint_texts(service, endpoints)
    }
}

/// What was counted at endpoints, as text.
fn render_endpoints(service: &str, endpoints: &Vec<EndpointMetricsSnapshot>) -> (r: String)
    requires
        forall|i: int| 0 <= i < endpoints.len() ==> (#[trigger] endpoints@[i])@.adds_up(),
    ensures
        r@ == endpoints_text(service@, models(endpoints@)),
{
    let ghost all = models(endpoints@);
    let mut out: String = "".to_owned();
    proof {
        reveal_strlit("");
        assert(out@ =~= Seq::<char>::empty());
    }
    if endpoints.len() == 0 {
        return out;
    }
    push_heading(
        &mut out,
        "undr9_http_requests_total",
        "Total HTTP requests by route, method, and status class.",
        "counter",
    );
    push_heading(
        &mut out,
        "undr9_http_request_duration_ms",
        "Request latency histogram by route and method.",
        "histogram",
    );
    let ghost head = heading(
        "undr9_http_requests_total"@,
        "Total HTTP requests by route, method, and status class."@,
        "counter"@,
    ) + heading(
        "undr9_http_request_duration_ms"@,
        "Request latency histogram by route and method."@,
        "histogram"@,
    );
    let mut i: usize = 0;
    proof {
        assert(all.take(0).len() == 0);
        assert(out@ =~= head + endpoint_texts(service@, all.take(0)));
    }
    while i < endpoints.len()
        invariant
            i <= endpoints.len(),
            all == models(endpoints@),
            forall|k: int| 0 <= k < endpoints.len() ==> (#[trigger] endpoints@[k])@.adds_up(),
            out@ == head + endpoint_texts(service@, all.take(i as int)),
        decreases endpoints.len() - i,
    {
        proof {
            assert(all.take(i + 1).drop_last() =~= all.take(i as int));
            assert(all.take(i + 1).last() == endpoints@[i as int]@);
        }
        let rendered: String = render_endpoint(service, &endpoints[i]);
        out.append(rendered.as_str());
        proof {
            assert(out@ =~= head + endpoint_texts(service@, all.take(i + 1)));
        }
        i = i + 1;
    }
    proof {
        assert(all.take(i as int) =~= all);
    }
    out
}

/// How often an error was given, as text.
pub open spec fn error_text(service: Seq<char>, counter: ErrorCounterModel) -> Seq<char> {
    sample(
        "undr9_errors_total"@,
        label("service"@, service) + ","@ + label("code"@, counter.code) + ","@ + label(
            "status"@,
            text::decimal(counter.status as nat),
        ),
        counter.count as nat,
    )
}

/// How often errors were given, one after the other.
pub open spec fn error_texts(service: Seq<char>, counters: Seq<ErrorCounterModel>) -> Seq<char>
    decreases counters.len(),
{
    if counters.len() == 0 {
        Seq::empty()
    } else {
        error_texts(service, counters.drop_last()) + error_text(service, counters.last())
    }
}

/// How often errors were given, with what introduces it; nothing where there were none.
pub open spec fn errors_text(service: Seq<char>, counters: Seq<ErrorCounterModel>) -> Seq<char> {
    if counters.len() == 0 {
        Seq::empty()
    } else {
        heading(
            "undr9_errors_total"@,
            "Total API errors by stable error code and HTTP status."@,
            "counter"@,
        ) + error_texts(service, counters)
    }
}

/// How often errors were given, as text.
fn render_errors(service: &str, counters: &Vec<ErrorCounterSnapshot>) -> (r: String)
    ensures
        r@ == errors_text(service@, models(counters@)),
{
    let ghost all = models(counters@);
    let mut out: String = "".to_owned();
    proof {
        reveal_strlit("");
        assert(out@ =~= Seq::<char>::empty());
    }
    if counters.len() == 0 {
        return out;
    }
    push_heading(
        &mut out,
        "undr9_errors_total",
        "Total API errors by stable error code and HTTP status.",
        "counter",
    );
    let ghost head = heading(
        "undr9_errors_total"@,
        "Total API errors by stable error code and HTTP status."@,
        "counter"@,
    );
    let mut i: usize = 0;
    proof {
        assert(all.take(0).len() == 0);
        assert(out@ =~= head + error_texts(service@, all.take(0)));
    }
    while i < counters.len()
        invariant
            i <= counters.len(),
            all == models(counters@),
            out@ == head + error_texts(service@, all.take(i as int)),
        decreases counters.len() - i,
    {
        proof {
            assert(all.take(i + 1).drop_last() =~= all.take(i as int));
            assert(all.take(i + 1).last() == counters@[i as int]@);
        }
        let status: String = text::decimal_text(counters[i].status as u128);
        let mut labels: String = "".to_owned();
        push_label(&mut labels, "service", service);
        proof {
            reveal_strlit("");
            assert(labels@ =~= label("service"@, service@));
        }
        labels.append(",");
        push_label(&mut labels, "code", counters[i].code.as_str());
        labels.append(",");
        push_label(&mut labels, "status", status.as_str());
        push_sample(&mut out, "undr9_errors_total", labels.as_str(), counters[i].count);
        proof {
            assert(out@ =~= head + error_texts(service@, all.take(i + 1)));
        }
        i = i + 1;
    }
    proof {
        assert(all.take(i as int) =~= all);
    }
    out
}

impl MetricsSnapshot {
    /// Whether all buckets can be added up.
    pub open spec fn adds_up(self) -> bool {
        &&& self.counters.adds_up()
        &&& forall|i: int|
            0 <= i < self.endpoint_metrics.len() ==> (#[trigger] self.endpoint_metrics@[i])@.adds_up()
    }

    /// The state of the service in the text format of Prometheus.
    pub open spec fn prometheus_text(self) -> Seq<char> {
        gauges_text(self) + scores_text(self.service_name@, self.counters) + histograms_text(
            self.service_name@,
            self.counters,
        ) + endpoints_text(self.service_name@, models(self.endpoint_metrics@)) + errors_text(
            self.service_name@,
            models(self.counters.error_counters@),
        )
    }

    /// The state of the service in the text format of Prometheus.
    pub fn render_prometheus(&self) -> (r: String)
        requires
            self.adds_up(),
        ensures
            r@ == self.prometheus_text(),
    {
        let service: &str = self.service_name.as_str();
        let mut rendered: String = render_gauges(self);
        let scores: String = render_scores(service, &self.counters);
        rendered.append(scores.as_str());
        let histograms: String = render_histograms(service, &self.counters);
        rendered.append(histograms.as_str());
        let endpoints: String = render_endpoints(service, &self.endpoint_metrics);
        rendered.append(endpoints.as_str());
        let errors: String = render_errors(service, &self.counters.error_counters);
        rendered.append(errors.as_str());
        rendered
    }
}

} // verus!
