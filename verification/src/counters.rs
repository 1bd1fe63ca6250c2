//! What the service counts while it runs.
use dashmap::DashMap;
use vstd::prelude::*;
use vstd::string::*;

use crate::metrics::{
    EndpointMetricsSnapshot, EndpointModel, ErrorCounterModel, ErrorCounterSnapshot,
    LatencyHistogramSnapshot, ServiceCounters,
};
use crate::ordered::{models, sorted_keys, OrderedSet};
use crate::plan::QueryRequest;
use crate::rank::{is_number, value_place};
use crate::results::{QueryResponse, RankedModel};
use crate::text;

verus! {

// ---------------------------------------------------------------------------------------------
// Histograms
// ---------------------------------------------------------------------------------------------

impl LatencyHistogramSnapshot {
    /// One more thing has been seen, which took so many milliseconds. Every count starts again
    /// from zero once it is full.
    pub open spec fn recorded(self, elapsed_ms: u64) -> LatencyHistogramSnapshot {
        LatencyHistogramSnapshot {
            observations_total: self.observations_total.wrapping_add(1),
            sum_ms: self.sum_ms.wrapping_add(elapsed_ms),
            le_10ms_total: if elapsed_ms <= 10 {
                self.le_10ms_total.wrapping_add(1)
            } else {
                self.le_10ms_total
            },
            le_50ms_total: if 10 < elapsed_ms <= 50 {
                self.le_50ms_total.wrapping_add(1)
            } else {
                self.le_50ms_total
            },
            le_250ms_total: if 50 < elapsed_ms <= 250 {
                self.le_250ms_total.wrapping_add(1)
            } else {
                self.le_250ms_total
            },
            le_1000ms_total: if 250 < elapsed_ms <= 1000 {
                self.le_1000ms_total.wrapping_add(1)
            } else {
                self.le_1000ms_total
            },
            gt_1000ms_total: if 1000 < elapsed_ms {
                self.gt_1000ms_total.wrapping_add(1)
            } else {
                self.gt_1000ms_total
            },
        }
    }

    /// Several things have been seen, one after the other.
    pub open spec fn recorded_all(self, elapsed: Seq<u64>) -> LatencyHistogramSnapshot
        decreases elapsed.len(),
    {
        if elapsed.len() == 0 {
            self
        } else {
            self.recorded_all(elapsed.drop_last()).recorded(elapsed.last())
        }
    }
}

/// Counts how long things take.
#[derive(Debug, Clone, Copy, PartialEq, Eq, Structural)]
pub struct AtomicLatencyHistogram {
    pub counts: LatencyHistogramSnapshot,
}

impl Default for AtomicLatencyHistogram {
    /// Nothing has been seen.
    fn default() -> (r: Self)
        ensures
            r.counts == LatencyHistogramSnapshot::empty(),
    {
        AtomicLatencyHistogram { counts: LatencyHistogramSnapshot::default() }
    }
}

impl AtomicLatencyHistogram {
    /// Takes note of one thing that took so many milliseconds.
    pub fn record(&mut self, elapsed_ms: u64)
        ensures
            final(self).counts == old(self).counts.recorded(elapsed_ms),
    {
        let mut counts: LatencyHistogramSnapshot = self.counts;
        counts.observations_total = counts.observations_total.wrapping_add(1);
        counts.sum_ms = counts.sum_ms.wrapping_add(elapsed_ms);
        if elapsed_ms <= 10 {
            counts.le_10ms_total = counts.le_10ms_total.wrapping_add(1);
        } else if elapsed_ms <= 50 {
            counts.le_50ms_total = counts.le_50ms_total.wrapping_add(1);
        } else if elapsed_ms <= 250 {
            counts.le_250ms_total = counts.le_250ms_total.wrapping_add(1);
        } else if elapsed_ms <= 1000 {
            counts.le_1000ms_total = counts.le_1000ms_total.wrapping_add(1);
        } else {
            counts.gt_1000ms_total = counts.gt_1000ms_total.wrapping_add(1);
        }
        self.counts = counts;
    }

    /// What has been seen.
    pub fn snapshot(&self) -> (r: LatencyHistogramSnapshot)
        ensures
            r == self.counts,
    {
        self.counts
    }
}

/// A histogram of one thing.
pub fn histogram_with_single_gauge(value_ms: u64) -> (r: LatencyHistogramSnapshot)
    ensures
        r == LatencyHistogramSnapshot::empty().recorded(value_ms),
{
    let mut histogram: AtomicLatencyHistogram = AtomicLatencyHistogram::default();
    histogram.record(value_ms);
    histogram.snapshot()
}

/// Takes note of one thing that took so many milliseconds.
pub fn record_latency(histogram: &mut AtomicLatencyHistogram, elapsed_ms: u64)
    ensures
        final(histogram).counts == old(histogram).counts.recorded(elapsed_ms),
{
    histogram.record(elapsed_ms);
}

/// How many milliseconds things took together.
pub open spec fn total_ms(elapsed: Seq<u64>) -> nat
    decreases elapsed.len(),
{
    if elapsed.len() == 0 {
        0
    } else {
        total_ms(elapsed.drop_last()) + elapsed.last() as nat
    }
}

/// How many things took more than one number of milliseconds and at most another.
pub open spec fn between(elapsed: Seq<u64>, above: int, most: int) -> nat
    decreases elapsed.len(),
{
    if elapsed.len() == 0 {
        0
    } else {
        between(elapsed.drop_last(), above, most) + if above < elapsed.last() <= most {
            1nat
        } else {
            0
        }
    }
}

/// As long as no count is full, every thing that was seen stands in exactly one bucket, which is
/// that of the time it took, and the buckets can be added up. As long as the sum fits, it is that
/// of all the times.
pub proof fn law_histogram_counts_everything_once(elapsed: Seq<u64>)
    requires
        elapsed.len() <= u64::MAX,
    ensures
        ({
            let seen = LatencyHistogramSnapshot::empty().recorded_all(elapsed);
            &&& seen.observations_total == elapsed.len()
            &&& total_ms(elapsed) <= u64::MAX ==> seen.sum_ms == total_ms(elapsed)
            &&& seen.le_10ms_total == between(elapsed, -1, 10)
            &&& seen.le_50ms_total == between(elapsed, 10, 50)
            &&& seen.le_250ms_total == between(elapsed, 50, 250)
            &&& seen.le_1000ms_total == between(elapsed, 250, 1000)
            &&& seen.gt_1000ms_total == between(elapsed, 1000, u64::MAX as int)
            &&& seen.le_10ms_total + seen.le_50ms_total + seen.le_250ms_total
                + seen.le_1000ms_total + seen.gt_1000ms_total == elapsed.len()
            &&& seen.adds_up()
        }),
    decreases elapsed.len(),
{
    if elapsed.len() > 0 {
        law_histogram_counts_everything_once(elapsed.drop_last());
    }
}

// ---------------------------------------------------------------------------------------------
// Concurrent maps of counts
// ---------------------------------------------------------------------------------------------

/// `dashmap::DashMap`, the concurrent hash map of the `dashmap` crate.
#[verifier::external_type_specification]
#[verifier::external_body]
#[verifier::reject_recursive_types(K)]
#[verifier::reject_recursive_types(V)]
#[verifier::reject_recursive_types(S)]
pub struct ExDashMap<K, V, S>(dashmap::DashMap<K, V, S>);

/// What a map of counts holds while nobody else changes it: the count of each key.
pub uninterp spec fn count_map(map: dashmap::DashMap<String, u64>) -> Map<Seq<char>, u64>;

/// What a map of endpoints holds while nobody else changes it: the counts of each key.
pub uninterp spec fn endpoint_map(
    map: dashmap::DashMap<String, EndpointCounts>,
) -> Map<Seq<char>, EndpointCounts>;

/// `DashMap::new` makes a map without keys.
#[verifier::external_body]
fn new_count_map() -> (r: DashMap<String, u64>)
    ensures
        forall|key: Seq<char>| !(#[trigger] count_map(r).contains_key(key)),
{
    DashMap::new()
}

/// `DashMap::get` finds the value of a key, if the map has the key; the value is copied.
#[verifier::external_body]
fn find_count(map: &DashMap<String, u64>, key: &str) -> (r: Option<u64>)
    ensures
        match r {
            Some(count) => count_map(*map).contains_key(key@) && count == count_map(*map)[key@],
            None => !count_map(*map).contains_key(key@),
        },
{
    map.get(key).map(|entry| *entry)
}

/// `DashMap::insert` sets the value of a key and leaves the other keys alone.
#[verifier::external_body]
fn put_count(map: &mut DashMap<String, u64>, key: String, count: u64)
    ensures
        count_map(*final(map)) == count_map(*old(map)).insert(key@, count),
{
    map.insert(key, count);
}

/// `DashMap::iter` visits every entry of the map; their keys are handed out, in no particular order.
#[verifier::external_body]
fn count_keys(map: &DashMap<String, u64>) -> (r: Vec<String>)
    ensures
        forall|key: Seq<char>| #[trigger]
            models(r@).contains(key) <==> count_map(*map).contains_key(key),
{
    map.iter().map(|entry| entry.key().clone()).collect()
}

/// `DashMap::new` makes a map without keys.
#[verifier::external_body]
fn new_endpoint_map() -> (r: DashMap<String, EndpointCounts>)
    ensures
        forall|key: Seq<char>| !(#[trigger] endpoint_map(r).contains_key(key)),
{
    DashMap::new()
}

/// `DashMap::get` finds the value of a key, if the map has the key; the value is copied.
#[verifier::external_body]
fn find_endpoint(map: &DashMap<String, EndpointCounts>, key: &str) -> (r: Option<EndpointCounts>)
    ensures
        match r {
            Some(counts) => endpoint_map(*map).contains_key(key@) && counts == endpoint_map(
                *map,
            )[key@],
            None => !endpoint_map(*map).contains_key(key@),
        },
{
    map.get(key).map(|entry| *entry)
}

/// `DashMap::insert` sets the value of a key and leaves the other keys alone.
#[verifier::external_body]
fn put_endpoint(map: &mut DashMap<String, EndpointCounts>, key: String, counts: EndpointCounts)
    ensures
        endpoint_map(*final(map)) == endpoint_map(*old(map)).insert(key@, counts),
{
    map.insert(key, counts);
}

/// `DashMap::iter` visits every entry of the map; their keys are handed out, in no particular order.
#[verifier::external_body]
fn endpoint_keys(map: &DashMap<String, EndpointCounts>) -> (r: Vec<String>)
    ensures
        forall|key: Seq<char>| #[trigger]
            models(r@).contains(key) <==> endpoint_map(*map).contains_key(key),
{
    map.iter().map(|entry| entry.key().clone()).collect()
}

/// Keys in ascending order, each once.
fn sort_keys(keys: &Vec<String>) -> (r: Vec<String>)
    ensures
        forall|domain: Set<Seq<char>>|
            (forall|key: Seq<char>| #[trigger]
                models(keys@).contains(key) <==> domain.contains(key)) ==> models(r@)
                == #[trigger] sorted_keys::<String>(domain),
        strict(models(r@)),
        forall|key: Seq<char>| #[trigger]
            models(r@).contains(key) <==> models(keys@).contains(key),
{
    let ghost all = models(keys@);
    let mut set: OrderedSet<String> = OrderedSet::new();
    let mut i: usize = 0;
    while i < keys.len()
        invariant
            i <= keys.len(),
            all == models(keys@),
            forall|key: Seq<char>| #[trigger]
                set@.contains(key) <==> exists|j: int| 0 <= j < i && all[j] == key,
        decreases keys.len() - i,
    {
        let ghost before = set@;
        let _fresh: bool = set.insert(keys[i].clone());
        proof {
            assert forall|key: Seq<char>| #[trigger] set@.contains(key) <==> exists|j: int|
                0 <= j < i + 1 && all[j] == key by {
                if set@.contains(key) && !before.contains(key) {
                    assert(all[i as int] == key);
                }
                if exists|j: int| 0 <= j < i + 1 && all[j] == key {
                    let j = choose|j: int| 0 <= j < i + 1 && all[j] == key;
                    if j < i {
                        assert(before.contains(key));
                    }
                }
            }
        }
        i = i + 1;
    }
    let out: Vec<String> = set.to_list();
    proof {
        assert forall|domain: Set<Seq<char>>|
            (forall|key: Seq<char>| #[trigger]
                models(keys@).contains(key) <==> domain.contains(key)) implies models(out@)
            == #[trigger] sorted_keys::<String>(domain) by {
            assert(domain =~= set@) by {
                assert forall|key: Seq<char>| domain.contains(key) <==> set@.contains(key) by {
                    assert(all.contains(key) <==> domain.contains(key));
                }
            }
        }
        assert forall|key: Seq<char>| #[trigger] models(out@).contains(key) <==> all.contains(
            key,
        ) by {
            assert(set@.contains(key) <==> models(out@).contains(key));
        }
    }
    out
}

/// Whether texts stand in ascending order.
pub open spec fn strict(keys: Seq<Seq<char>>) -> bool {
    forall|i: int, j: int|
        0 <= i < j < keys.len() ==> text::text_less(#[trigger] keys[i], #[trigger] keys[j])
}

// ---------------------------------------------------------------------------------------------
// Errors
// ---------------------------------------------------------------------------------------------

/// The key under which an error is counted.
pub open spec fn error_key(code: Seq<char>, status: u16) -> Seq<char> {
    code + "|"@ + text::decimal(status as nat)
}

/// What stands under a key, if the key is that of an error.
pub open spec fn error_at(key: Seq<char>, count: u64) -> Option<ErrorCounterModel> {
    match text::split_once_parts(key, '|') {
        Some((code, status)) => match text::parsed_unsigned(status, u16::MAX as nat) {
            Some(n) => Some(ErrorCounterModel { code, status: n as u16, count }),
            None => None,
        },
        None => None,
    }
}

/// Whether an error is to be listed before another one: by its code, then by its status.
pub open spec fn error_before(a: ErrorCounterModel, b: ErrorCounterModel) -> bool {
    text::text_less(a.code, b.code) || (a.code == b.code && a.status < b.status)
}

/// Where an error goes in a list: behind all that are not to stand behind it.
pub open spec fn error_place(list: Seq<ErrorCounterModel>, error: ErrorCounterModel) -> int
    decreases list.len(),
{
    if list.len() == 0 || !error_before(error, list.last()) {
        list.len() as int
    } else {
        error_place(list.drop_last(), error)
    }
}

/// The errors under keys, in the order of their codes and statuses.
pub open spec fn errors_listed(counts: Map<Seq<char>, u64>, keys: Seq<Seq<char>>) -> Seq<
    ErrorCounterModel,
>
    decreases keys.len(),
{
    if keys.len() == 0 {
        Seq::empty()
    } else {
        let before = errors_listed(counts, keys.drop_last());
        match error_at(keys.last(), counts[keys.last()]) {
            Some(error) => before.insert(error_place(before, error), error),
            None => before,
        }
    }
}

proof fn lemma_error_place(list: Seq<ErrorCounterModel>, error: ErrorCounterModel, at: int)
    requires
        0 <= at <= list.len(),
        at > 0 ==> !error_before(error, list[at - 1]),
        forall|i: int| at <= i < list.len() ==> error_before(error, #[trigger] list[i]),
    ensures
        error_place(list, error) == at,
    decreases list.len(),
{
    if at < list.len() {
        assert(error_before(error, list[list.len() - 1]));
        lemma_error_place(list.drop_last(), error, at);
    }
}

fn comes_first(a: &ErrorCounterSnapshot, b: &ErrorCounterSnapshot) -> (r: bool)
    ensures
        r == error_before(a@, b@),
{
    text::precedes(a.code.as_str(), b.code.as_str()) || (text::same_text(
        a.code.as_str(),
        b.code.as_str(),
    ) && a.status < b.status)
}

fn place_error(list: &mut Vec<ErrorCounterSnapshot>, error: ErrorCounterSnapshot)
    ensures
        models(final(list)@) == models(old(list)@).insert(
            error_place(models(old(list)@), error@),
            error@,
        ),
{
    let ghost before = models(list@);
    let mut at: usize = list.len();
    while at > 0 && comes_first(&error, &list[at - 1])
        invariant
            at <= list.len(),
            before == models(list@),
            forall|i: int| at <= i < before.len() ==> error_before(error@, #[trigger] before[i]),
        decreases at,
    {
        proof {
            assert(before[at - 1] == list@[at - 1]@);
        }
        at = at - 1;
    }
    proof {
        if at > 0 {
            assert(before[at - 1] == list@[at - 1]@);
        }
        lemma_error_place(before, error@, at as int);
    }
    let ghost model = error@;
    list.insert(at, error);
    proof {
        assert(models(list@) =~= before.insert(at as int, model));
    }
}

/// The errors that have been counted, in the order of their codes and statuses.
pub fn snapshot_error_counters(counters: &DashMap<String, u64>) -> (r: Vec<ErrorCounterSnapshot>)
    ensures
        models(r@) == errors_listed(
            count_map(*counters),
            sorted_keys::<String>(count_map(*counters).dom()),
        ),
{
    let ghost counts = count_map(*counters);
    let unsorted: Vec<String> = count_keys(counters);
    let keys: Vec<String> = sort_keys(&unsorted);
    let ghost ids = models(keys@);
    let mut out: Vec<ErrorCounterSnapshot> = Vec::new();
    let mut i: usize = 0;
    proof {
        assert(ids == sorted_keys::<String>(counts.dom()));
        assert(models(out@) =~= errors_listed(counts, ids.take(0)));
    }
    while i < keys.len()
        invariant
            i <= keys.len(),
            counts == count_map(*counters),
            ids == models(keys@),
            forall|key: Seq<char>| #[trigger] ids.contains(key) ==> counts.contains_key(key),
            models(out@) == errors_listed(counts, ids.take(i as int)),
        decreases keys.len() - i,
    {
        let ghost key = ids[i as int];
        proof {
            let next = ids.take(i + 1);
            assert(next.drop_last() =~= ids.take(i as int));
            assert(next.last() == key);
            assert(key == keys@[i as int]@);
            assert(ids.contains(key));
        }
        match find_count(counters, keys[i].as_str()) {
            Some(count) => match text::split_once(keys[i].as_str(), '|') {
                Some((code, status_text)) => match text::parse_unsigned(
                    status_text.as_str(),
                    u16::MAX as u64,
                ) {
                    Some(status) => {
                        let error: ErrorCounterSnapshot = ErrorCounterSnapshot {
                            code,
                            status: status as u16,
                            count,
                        };
                        proof {
                            assert(error_at(key, counts[key]) == Some(error@));
                        }
                        place_error(&mut out, error);
                    },
                    None => {},
                },
                None => {},
            },
            None => {},
        }
        i = i + 1;
    }
    proof {
        assert(ids.take(i as int) =~= ids);
    }
    out
}

/// Takes note that an error was given.
pub fn record_api_error_metric(counters: &mut DashMap<String, u64>, status: u16, code: &str)
    ensures
        ({
            let key = error_key(code@, status);
            let before = count_map(*old(counters));
            count_map(*final(counters)) == before.insert(
                key,
                if before.contains_key(key) {
                    before[key].wrapping_add(1)
                } else {
                    1
                },
            )
        }),
{
    let number: String = text::decimal_text(status as u128);
    let key: String = crate::common::join3(code, "|", number.as_str());
    let before: u64 = match find_count(counters, key.as_str()) {
        Some(count) => count,
        None => 0,
    };
    put_count(counters, key, before.wrapping_add(1));
}

// ---------------------------------------------------------------------------------------------
// Endpoints
// ---------------------------------------------------------------------------------------------

/// What is counted at an endpoint.
#[derive(Debug, Clone, Copy, PartialEq, Eq, Structural)]
pub struct EndpointCounts {
    pub requests_total: u64,
    pub responses_2xx_total: u64,
    pub responses_4xx_total: u64,
    pub responses_5xx_total: u64,
    pub latency_ms_total: u64,
    pub latency_le_10ms_total: u64,
    pub latency_le_50ms_total: u64,
    pub latency_le_250ms_total: u64,
    pub latency_gt_250ms_total: u64,
}

impl EndpointCounts {
    /// Nothing has been counted.
    pub open spec fn empty() -> EndpointCounts {
        EndpointCounts {
            requests_total: 0,
            responses_2xx_total: 0,
            responses_4xx_total: 0,
            responses_5xx_total: 0,
            latency_ms_total: 0,
            latency_le_10ms_total: 0,
            latency_le_50ms_total: 0,
            latency_le_250ms_total: 0,
            latency_gt_250ms_total: 0,
        }
    }

    /// One more request has been answered.
    pub open spec fn answered(self, status: u16, elapsed_ms: u64) -> EndpointCounts {
        EndpointCounts {
            requests_total: self.requests_total.wrapping_add(1),
            responses_2xx_total: if 200 <= status <= 299 {
                self.responses_2xx_total.wrapping_add(1)
            } else {
                self.responses_2xx_total
            },
            responses_4xx_total: if 400 <= status <= 499 {
                self.responses_4xx_total.wrapping_add(1)
            } else {
                self.responses_4xx_total
            },
            responses_5xx_total: if 500 <= status <= 599 {
                self.responses_5xx_total.wrapping_add(1)
            } else {
                self.responses_5xx_total
            },
            latency_ms_total: self.latency_ms_total.wrapping_add(elapsed_ms),
            latency_le_10ms_total: if elapsed_ms <= 10 {
                self.latency_le_10ms_total.wrapping_add(1)
            } else {
                self.latency_le_10ms_total
            },
            latency_le_50ms_total: if 10 < elapsed_ms <= 50 {
                self.latency_le_50ms_total.wrapping_add(1)
            } else {
                self.latency_le_50ms_total
            },
            latency_le_250ms_total: if 50 < elapsed_ms <= 250 {
                self.latency_le_250ms_total.wrapping_add(1)
            } else {
                self.latency_le_250ms_total
            },
            latency_gt_250ms_total: if 250 < elapsed_ms {
                self.latency_gt_250ms_total.wrapping_add(1)
            } else {
                self.latency_gt_250ms_total
            },
        }
    }

    /// What is shown of an endpoint.
    pub open spec fn shown(self, method: Seq<char>, route: Seq<char>) -> EndpointModel {
        EndpointModel {
            method,
            route,
            requests_total: self.requests_total,
            responses_2xx_total: self.responses_2xx_total,
            responses_4xx_total: self.responses_4xx_total,
            responses_5xx_total: self.responses_5xx_total,
            latency_ms_total: self.latency_ms_total,
            latency_le_10ms_total: self.latency_le_10ms_total,
            latency_le_50ms_total: self.latency_le_50ms_total,
            latency_le_250ms_total: self.latency_le_250ms_total,
            latency_gt_250ms_total: self.latency_gt_250ms_total,
        }
    }

    /// Takes note of a request that was answered.
    fn answer(&mut self, status: u16, elapsed_ms: u64)
        ensures
            *final(self) == old(self).answered(status, elapsed_ms),
    {
        self.requests_total = self.requests_total.wrapping_add(1);
        self.latency_ms_total = self.latency_ms_total.wrapping_add(elapsed_ms);
        if status >= 200 && status <= 299 {
            self.responses_2xx_total = self.responses_2xx_total.wrapping_add(1);
        } else if status >= 400 && status <= 499 {
            self.responses_4xx_total = self.responses_4xx_total.wrapping_add(1);
        } else if status >= 500 && status <= 599 {
            self.responses_5xx_total = self.responses_5xx_total.wrapping_add(1);
        }
        if elapsed_ms <= 10 {
            self.latency_le_10ms_total = self.latency_le_10ms_total.wrapping_add(1);
        } else if elapsed_ms <= 50 {
            self.latency_le_50ms_total = self.latency_le_50ms_total.wrapping_add(1);
        } else if elapsed_ms <= 250 {
            self.latency_le_250ms_total = self.latency_le_250ms_total.wrapping_add(1);
        } else {
            self.latency_gt_250ms_total = self.latency_gt_250ms_total.wrapping_add(1);
        }
    }
}

/// The key under which an endpoint is counted.
pub open spec fn endpoint_key(method: Seq<char>, route: Seq<char>) -> Seq<char> {
    method + " "@ + route
}

/// What stands under a key, if the key is that of an endpoint.
pub open spec fn endpoint_at(key: Seq<char>, counts: EndpointCounts) -> Option<EndpointModel> {
    match text::split_once_parts(key, ' ') {
        Some((method, route)) => Some(counts.shown(method, route)),
        None => None,
    }
}

/// Whether an endpoint is to be listed before another one: by its route, then by its method.
pub open spec fn endpoint_before(a: EndpointModel, b: EndpointModel) -> bool {
    text::text_less(a.route, b.route) || (a.route == b.route && text::text_less(
        a.method,
        b.method,
    ))
}

/// Where an endpoint goes in a list: behind all that are not to stand behind it.
pub open spec fn endpoint_place(list: Seq<EndpointModel>, endpoint: EndpointModel) -> int
    decreases list.len(),
{
    if list.len() == 0 || !endpoint_before(endpoint, list.last()) {
        list.len() as int
    } else {
        endpoint_place(list.drop_last(), endpoint)
    }
}

/// The endpoints under keys, in the order of their routes and methods.
pub open spec fn endpoints_listed(
    counts: Map<Seq<char>, EndpointCounts>,
    keys: Seq<Seq<char>>,
) -> Seq<EndpointModel>
    decreases keys.len(),
{
    if keys.len() == 0 {
        Seq::empty()
    } else {
        let before = endpoints_listed(counts, keys.drop_last());
        match endpoint_at(keys.last(), counts[keys.last()]) {
            Some(endpoint) => before.insert(endpoint_place(before, endpoint), endpoint),
            None => before,
        }
    }
}

proof fn lemma_endpoint_place(list: Seq<EndpointModel>, endpoint: EndpointModel, at: int)
    requires
        0 <= at <= list.len(),
        at > 0 ==> !endpoint_before(endpoint, list[at - 1]),
        forall|i: int| at <= i < list.len() ==> endpoint_before(endpoint, #[trigger] list[i]),
    ensures
        endpoint_place(list, endpoint) == at,
    decreases list.len(),
{
    if at < list.len() {
        assert(endpoint_before(endpoint, list[list.len() - 1]));
        lemma_endpoint_place(list.drop_last(), endpoint, at);
    }
}

fn listed_first(a: &EndpointMetricsSnapshot, b: &EndpointMetricsSnapshot) -> (r: bool)
    ensures
        r == endpoint_before(a@, b@),
{
    text::precedes(a.route.as_str(), b.route.as_str()) || (text::same_text(
        a.route.as_str(),
        b.route.as_str(),
    ) && text::precedes(a.method.as_str(), b.method.as_str()))
}

fn place_endpoint(list: &mut Vec<EndpointMetricsSnapshot>, endpoint: EndpointMetricsSnapshot)
    ensures
        models(final(list)@) == models(old(list)@).insert(
            endpoint_place(models(old(list)@), endpoint@),
            endpoint@,
        ),
{
    let ghost before = models(list@);
    let mut at: usize = list.len();
    while at > 0 && listed_first(&endpoint, &list[at - 1])
        invariant
            at <= list.len(),
            before == models(list@),
            forall|i: int|
                at <= i < before.len() ==> endpoint_before(endpoint@, #[trigger] before[i]),
        decreases at,
    {
        proof {
            assert(before[at - 1] == list@[at - 1]@);
        }
        at = at - 1;
    }
    proof {
        if at > 0 {
            assert(before[at - 1] == list@[at - 1]@);
        }
        lemma_endpoint_place(before, endpoint@, at as int);
    }
    let ghost model = endpoint@;
    list.insert(at, endpoint);
    proof {
        assert(models(list@) =~= before.insert(at as int, model));
    }
}

/// The endpoints that have been counted, in the order of their routes and methods.
pub fn snapshot_endpoint_metrics(metrics: &DashMap<String, EndpointCounts>) -> (r: Vec<
    EndpointMetricsSnapshot,
>)
    ensures
        models(r@) == endpoints_listed(
            endpoint_map(*metrics),
            sorted_keys::<String>(endpoint_map(*metrics).dom()),
        ),
{
    let ghost counts = endpoint_map(*metrics);
    let unsorted: Vec<String> = endpoint_keys(metrics);
    let keys: Vec<String> = sort_keys(&unsorted);
    let ghost ids = models(keys@);
    let mut out: Vec<EndpointMetricsSnapshot> = Vec::new();
    let mut i: usize = 0;
    proof {
        assert(ids == sorted_keys::<String>(counts.dom()));
        assert(models(out@) =~= endpoints_listed(counts, ids.take(0)));
    }
    while i < keys.len()
        invariant
            i <= keys.len(),
            counts == endpoint_map(*metrics),
            ids == models(keys@),
            forall|key: Seq<char>| #[trigger] ids.contains(key) ==> counts.contains_key(key),
            models(out@) == endpoints_listed(counts, ids.take(i as int)),
        decreases keys.len() - i,
    {
        let ghost key = ids[i as int];
        proof {
            let next = ids.take(i + 1);
            assert(next.drop_last() =~= ids.take(i as int));
            assert(next.last() == key);
            assert(key == keys@[i as int]@);
            assert(ids.contains(key));
        }
        match find_endpoint(metrics, keys[i].as_str()) {
            Some(seen) => match text::split_once(keys[i].as_str(), ' ') {
                Some((method, route)) => {
                    let endpoint: EndpointMetricsSnapshot = EndpointMetricsSnapshot {
                        method,
                        route,
                        requests_total: seen.requests_total,
                        responses_2xx_total: seen.responses_2xx_total,
                        responses_4xx_total: seen.responses_4xx_total,
                        responses_5xx_total: seen.responses_5xx_total,
                        latency_ms_total: seen.latency_ms_total,
                        latency_le_10ms_total: seen.latency_le_10ms_total,
                        latency_le_50ms_total: seen.latency_le_50ms_total,
                        latency_le_250ms_total: seen.latency_le_250ms_total,
                        latency_gt_250ms_total: seen.latency_gt_250ms_total,
                    };
                    proof {
                        assert(endpoint_at(key, counts[key]) == Some(endpoint@));
                    }
                    place_endpoint(&mut out, endpoint);
                },
                None => {},
            },
            None => {},
        }
        i = i + 1;
    }
    proof {
        assert(ids.take(i as int) =~= ids);
    }
    out
}

/// Takes note of a request that was answered.
pub fn record_endpoint_metrics(
    metrics: &mut DashMap<String, EndpointCounts>,
    method: &str,
    route: &str,
    status: u16,
    elapsed_ms: u64,
)
    ensures
        ({
            let key = endpoint_key(method@, route@);
            let before = endpoint_map(*old(metrics));
            endpoint_map(*final(metrics)) == before.insert(
                key,
                (if before.contains_key(key) {
                    before[key]
                } else {
                    EndpointCounts::empty()
                }).answered(status, elapsed_ms),
            )
        }),
{
    let key: String = crate::common::join3(method, " ", route);
    let mut counts: EndpointCounts = match find_endpoint(metrics, key.as_str()) {
        Some(seen) => seen,
        None => EndpointCounts {
            requests_total: 0,
            responses_2xx_total: 0,
            responses_4xx_total: 0,
            responses_5xx_total: 0,
            latency_ms_total: 0,
            latency_le_10ms_total: 0,
            latency_le_50ms_total: 0,
            latency_le_250ms_total: 0,
            latency_gt_250ms_total: 0,
        },
    };
    counts.answer(status, elapsed_ms);
    put_endpoint(metrics, key, counts);
}

// ---------------------------------------------------------------------------------------------
// The service
// ---------------------------------------------------------------------------------------------

/// What the service counts of its requests.
#[derive(Debug, Clone, Copy, PartialEq, Eq, Structural)]
pub struct RequestCounts {
    pub query_requests_total: u64,
    pub write_requests_total: u64,
    pub maintenance_operations_total: u64,
    pub audit_events_total: u64,
    pub query_latency: AtomicLatencyHistogram,
    pub transaction_latency: AtomicLatencyHistogram,
    pub traversal_latency: AtomicLatencyHistogram,
    pub vector_search_latency: AtomicLatencyHistogram,
    pub ranked_retrieval_latency: AtomicLatencyHistogram,
    pub compaction_latency: AtomicLatencyHistogram,
    pub retrieval_score_bucket_low_total: u64,
    pub retrieval_score_bucket_medium_total: u64,
    pub retrieval_score_bucket_high_total: u64,
    pub retrieval_score_bucket_top_total: u64,
}

/// The counters of the service.
#[derive(Debug)]
pub struct AtomicServiceCounters {
    pub requests: RequestCounts,
    pub error_counters: DashMap<String, u64>,
}

/// Whether a single is less than another one; the numbers are given by their bits.
pub open spec fn score_below(score: u32, bound: u32) -> bool {
    is_number(score) && value_place(score) < value_place(bound)
}

/// The bits of a quarter.
pub const QUARTER: u32 = 0x3e80_0000;

/// The bits of a half.
pub const HALF: u32 = 0x3f00_0000;

/// The bits of three quarters.
pub const THREE_QUARTERS: u32 = 0x3f40_0000;

/// The class of a score.
#[derive(Debug, Clone, Copy, PartialEq, Eq, Structural)]
pub enum ScoreBucket {
    Low,
    Medium,
    High,
    Top,
}

/// The class of a score: the quarter of the span from zero to one in which it lies. What is not a
/// number is in the top class.
pub open spec fn bucket_of(score: u32) -> ScoreBucket {
    if score_below(score, QUARTER) {
        ScoreBucket::Low
    } else if score_below(score, HALF) {
        ScoreBucket::Medium
    } else if score_below(score, THREE_QUARTERS) {
        ScoreBucket::High
    } else {
        ScoreBucket::Top
    }
}

/// The class of a score.
pub fn score_bucket(score: u32) -> (r: ScoreBucket)
    ensures
        r == bucket_of(score),
{
    let negative: bool = score >= 0x8000_0000;
    let number: bool = score <= 0x7f80_0000 || (negative && score <= 0xff80_0000);
    if !number {
        ScoreBucket::Top
    } else if negative || score < QUARTER {
        ScoreBucket::Low
    } else if score < HALF {
        ScoreBucket::Medium
    } else if score < THREE_QUARTERS {
        ScoreBucket::High
    } else {
        ScoreBucket::Top
    }
}

impl RequestCounts {
    /// Nothing has been counted.
    pub open spec fn none() -> RequestCounts {
        let unseen = AtomicLatencyHistogram { counts: LatencyHistogramSnapshot::empty() };
        RequestCounts {
            query_requests_total: 0,
            write_requests_total: 0,
            maintenance_operations_total: 0,
            audit_events_total: 0,
            query_latency: unseen,
            transaction_latency: unseen,
            traversal_latency: unseen,
            vector_search_latency: unseen,
            ranked_retrieval_latency: unseen,
            compaction_latency: unseen,
            retrieval_score_bucket_low_total: 0,
            retrieval_score_bucket_medium_total: 0,
            retrieval_score_bucket_high_total: 0,
            retrieval_score_bucket_top_total: 0,
        }
    }

    /// One more score has been given.
    pub open spec fn scored(self, score: u32) -> RequestCounts {
        match bucket_of(score) {
            ScoreBucket::Low => RequestCounts {
                retrieval_score_bucket_low_total:
                    self.retrieval_score_bucket_low_total.wrapping_add(1),
                ..self
            },
            ScoreBucket::Medium => RequestCounts {
                retrieval_score_bucket_medium_total:
                    self.retrieval_score_bucket_medium_total.wrapping_add(1),
                ..self
            },
            ScoreBucket::High => RequestCounts {
                retrieval_score_bucket_high_total:
                    self.retrieval_score_bucket_high_total.wrapping_add(1),
                ..self
            },
            ScoreBucket::Top => RequestCounts {
                retrieval_score_bucket_top_total:
                    self.retrieval_score_bucket_top_total.wrapping_add(1),
                ..self
            },
        }
    }

    /// Several scores have been given, one after the other.
    pub open spec fn scored_all(self, scores: Seq<u32>) -> RequestCounts
        decreases scores.len(),
    {
        if scores.len() == 0 {
            self
        } else {
            self.scored_all(scores.drop_last()).scored(scores.last())
        }
    }

    /// One more query has been answered: it counts among all queries, and among those of its kind.
    pub open spec fn queried(self, request: QueryRequest, elapsed_ms: u64) -> RequestCounts {
        let counted = RequestCounts {
            query_requests_total: self.query_requests_total.wrapping_add(1),
            query_latency: timed(self.query_latency, elapsed_ms),
            ..self
        };
        match request {
            QueryRequest::Traverse { .. } => RequestCounts {
                traversal_latency: timed(self.traversal_latency, elapsed_ms),
                ..counted
            },
            QueryRequest::ShortestPath { .. } => RequestCounts {
                traversal_latency: timed(self.traversal_latency, elapsed_ms),
                ..counted
            },
            QueryRequest::VectorSearch { .. } => RequestCounts {
                vector_search_latency: timed(self.vector_search_latency, elapsed_ms),
                ..counted
            },
            QueryRequest::RankedRetrieval { .. } => RequestCounts {
                ranked_retrieval_latency: timed(self.ranked_retrieval_latency, elapsed_ms),
                ..counted
            },
            _ => counted,
        }
    }

    /// Whether the buckets of all histograms can be added up.
    pub open spec fn adds_up(self) -> bool {
        &&& self.query_latency.counts.adds_up()
        &&& self.transaction_latency.counts.adds_up()
        &&& self.traversal_latency.counts.adds_up()
        &&& self.vector_search_latency.counts.adds_up()
        &&& self.ranked_retrieval_latency.counts.adds_up()
        &&& self.compaction_latency.counts.adds_up()
    }
}

/// A histogram with one more thing.
pub open spec fn timed(histogram: AtomicLatencyHistogram, elapsed_ms: u64) -> AtomicLatencyHistogram {
    AtomicLatencyHistogram { counts: histogram.counts.recorded(elapsed_ms) }
}

impl Default for RequestCounts {
    fn default() -> (r: Self)
        ensures
            r == RequestCounts::none(),
    {
        RequestCounts {
            query_requests_total: 0,
            write_requests_total: 0,
            maintenance_operations_total: 0,
            audit_events_total: 0,
            query_latency: AtomicLatencyHistogram::default(),
            transaction_latency: AtomicLatencyHistogram::default(),
            traversal_latency: AtomicLatencyHistogram::default(),
            vector_search_latency: AtomicLatencyHistogram::default(),
            ranked_retrieval_latency: AtomicLatencyHistogram::default(),
            compaction_latency: AtomicLatencyHistogram::default(),
            retrieval_score_bucket_low_total: 0,
            retrieval_score_bucket_medium_total: 0,
            retrieval_score_bucket_high_total: 0,
            retrieval_score_bucket_top_total: 0,
        }
    }
}

impl Default for AtomicServiceCounters {
    /// Nothing has been counted.
    fn default() -> (r: Self)
        ensures
            r.requests == RequestCounts::none(),
            forall|key: Seq<char>| !(#[trigger] count_map(r.error_counters).contains_key(key)),
    {
        AtomicServiceCounters {
            requests: RequestCounts::default(),
            error_counters: new_count_map(),
        }
    }
}

/// An empty map of endpoints.
pub fn no_endpoint_metrics() -> (r: DashMap<String, EndpointCounts>)
    ensures
        forall|key: Seq<char>| !(#[trigger] endpoint_map(r).contains_key(key)),
{
    new_endpoint_map()
}

impl RequestCounts {
    /// Takes note of a score.
    fn count_score(&mut self, score: u32)
        ensures
            *final(self) == old(self).scored(score),
    {
        match score_bucket(score) {
            ScoreBucket::Low => {
                self.retrieval_score_bucket_low_total =
                self.retrieval_score_bucket_low_total.wrapping_add(1);
            },
            ScoreBucket::Medium => {
                self.retrieval_score_bucket_medium_total =
                self.retrieval_score_bucket_medium_total.wrapping_add(1);
            },
            ScoreBucket::High => {
                self.retrieval_score_bucket_high_total =
                self.retrieval_score_bucket_high_total.wrapping_add(1);
            },
            ScoreBucket::Top => {
                self.retrieval_score_bucket_top_total =
                self.retrieval_score_bucket_top_total.wrapping_add(1);
            },
        }
    }

    /// Takes note of a query that was answered.
    fn count_query(&mut self, request: &QueryRequest, elapsed_ms: u64)
        ensures
            *final(self) == old(self).queried(*request, elapsed_ms),
    {
        self.query_requests_total = self.query_requests_total.wrapping_add(1);
        record_latency(&mut self.query_latency, elapsed_ms);
        match request {
            QueryRequest::Traverse { .. } => {
                record_latency(&mut self.traversal_latency, elapsed_ms);
            },
            QueryRequest::ShortestPath { .. } => {
                record_latency(&mut self.traversal_latency, elapsed_ms);
            },
            QueryRequest::VectorSearch { .. } => {
                record_latency(&mut self.vector_search_latency, elapsed_ms);
            },
            QueryRequest::RankedRetrieval { .. } => {
                record_latency(&mut self.ranked_retrieval_latency, elapsed_ms);
            },
            _ => {},
        }
    }

    /// Takes note of a streamed query that was answered with scores.
    pub fn record_query_stream_metrics(
        &mut self,
        request: &QueryRequest,
        scores: &[u32],
        elapsed_ms: u64,
    )
        ensures
            *final(self) == old(self).queried(*request, elapsed_ms).scored_all(scores@),
    {
        self.count_query(request, elapsed_ms);
        let ghost start = *self;
        let mut i: usize = 0;
        proof {
            assert(scores@.take(0) =~= Seq::empty());
        }
        while i < scores.len()
            invariant
                i <= scores.len(),
                *self == start.scored_all(scores@.take(i as int)),
            decreases scores.len() - i,
        {
            self.count_score(scores[i]);
            proof {
                let next = scores@.take(i + 1);
                assert(next.drop_last() =~= scores@.take(i as int));
                assert(next.last() == scores@[i as int]);
            }
            i = i + 1;
        }
        proof {
            assert(scores@.take(i as int) =~= scores@);
        }
    }

    /// Takes note of a query that was answered.
    pub fn record_query_metrics(
        &mut self,
        request: &QueryRequest,
        response: &QueryResponse,
        elapsed_ms: u64,
    )
        ensures
            *final(self) == old(self).queried(*request, elapsed_ms).scored_all(
                scores_of(response@.ranked_results),
            ),
    {
        let mut scores: Vec<u32> = Vec::new();
        let mut i: usize = 0;
        while i < response.ranked_results.len()
            invariant
                i <= response.ranked_results.len(),
                scores.len() == i,
                forall|k: int|
                    0 <= k < i ==> #[trigger] scores@[k] == response@.ranked_results[k].score,
            decreases response.ranked_results.len() - i,
        {
            scores.push(response.ranked_results[i].score);
            i = i + 1;
        }
        proof {
            assert(scores@ =~= scores_of(response@.ranked_results));
        }
        self.record_query_stream_metrics(request, scores.as_slice(), elapsed_ms);
    }

    /// Takes note of a write.
    pub fn count_write(&mut self)
        ensures
            *final(self) == (RequestCounts {
                write_requests_total: old(self).write_requests_total.wrapping_add(1),
                ..*old(self)
            }),
    {
        self.write_requests_total = self.write_requests_total.wrapping_add(1);
    }

    /// Takes note of a write that began or ended a transaction.
    pub fn count_transaction(&mut self, elapsed_ms: u64)
        ensures
            *final(self) == (RequestCounts {
                write_requests_total: old(self).write_requests_total.wrapping_add(1),
                transaction_latency: timed(old(self).transaction_latency, elapsed_ms),
                ..*old(self)
            }),
    {
        self.count_write();
        record_latency(&mut self.transaction_latency, elapsed_ms);
    }

    /// Takes note of a maintenance operation; a compaction is timed as well.
    pub fn count_maintenance(&mut self, compaction: bool, elapsed_ms: u64)
        ensures
            *final(self) == (RequestCounts {
                maintenance_operations_total: old(self).maintenance_operations_total.wrapping_add(
                    1,
                ),
                compaction_latency: if compaction {
                    timed(old(self).compaction_latency, elapsed_ms)
                } else {
                    old(self).compaction_latency
                },
                ..*old(self)
            }),
    {
        self.maintenance_operations_total = self.maintenance_operations_total.wrapping_add(1);
        if compaction {
            record_latency(&mut self.compaction_latency, elapsed_ms);
        }
    }

    /// Takes note of an audit event.
    pub fn count_audit_event(&mut self)
        ensures
            *final(self) == (RequestCounts {
                audit_events_total: old(self).audit_events_total.wrapping_add(1),
                ..*old(self)
            }),
    {
        self.audit_events_total = self.audit_events_total.wrapping_add(1);
    }
}

/// The scores of ranked results.
pub open spec fn scores_of(results: Seq<RankedModel>) -> Seq<u32> {
    Seq::new(results.len(), |i: int| results[i].score)
}

impl AtomicServiceCounters {
    /// Whether this is what is shown of the counters.
    pub open spec fn shown_as(self, r: ServiceCounters, wal_replay_latency_ms: u64) -> bool {
        &&& r.query_requests_total == self.requests.query_requests_total
        &&& r.write_requests_total == self.requests.write_requests_total
        &&& r.maintenance_operations_total == self.requests.maintenance_operations_total
        &&& r.audit_events_total == self.requests.audit_events_total
        &&& r.query_latency == self.requests.query_latency.counts
        &&& r.transaction_latency == self.requests.transaction_latency.counts
        &&& r.traversal_latency == self.requests.traversal_latency.counts
        &&& r.vector_search_latency == self.requests.vector_search_latency.counts
        &&& r.ranked_retrieval_latency == self.requests.ranked_retrieval_latency.counts
        &&& r.compaction_latency == self.requests.compaction_latency.counts
        &&& r.recovery_duration == LatencyHistogramSnapshot::empty().recorded(
                wal_replay_latency_ms,
                )
        &&& r.wal_lag_records == 0
        &&& r.wal_replay_latency_ms == wal_replay_latency_ms
        &&& r.memory_pressure_bytes == 0
        &&& r.cache_pressure_bytes == 0
        &&& r.retrieval_score_bucket_low_total == self.requests.retrieval_score_bucket_low_total
        &&& r.retrieval_score_bucket_medium_total
                == self.requests.retrieval_score_bucket_medium_total
        &&& r.retrieval_score_bucket_high_total == self.requests.retrieval_score_bucket_high_total
        &&& r.retrieval_score_bucket_top_total == self.requests.retrieval_score_bucket_top_total
        &&& models(r.error_counters@) == errors_listed(
                count_map(self.error_counters),
                sorted_keys::<String>(count_map(self.error_counters).dom()),
                )
    }

    /// What is shown of the counters.
    pub fn snapshot(&self, wal_replay_latency_ms: u64) -> (r: ServiceCounters)
        ensures
            self.shown_as(r, wal_replay_latency_ms),
            r.adds_up() <==> self.requests.adds_up(),
    {
        ServiceCounters {
            query_requests_total: self.requests.query_requests_total,
            write_requests_total: self.requests.write_requests_total,
            maintenance_operations_total: self.requests.maintenance_operations_total,
            audit_events_total: self.requests.audit_events_total,
            query_latency: self.requests.query_latency.snapshot(),
            transaction_latency: self.requests.transaction_latency.snapshot(),
            traversal_latency: self.requests.traversal_latency.snapshot(),
            vector_search_latency: self.requests.vector_search_latency.snapshot(),
            ranked_retrieval_latency: self.requests.ranked_retrieval_latency.snapshot(),
            compaction_latency: self.requests.compaction_latency.snapshot(),
            recovery_duration: histogram_with_single_gauge(wal_replay_latency_ms),
            wal_lag_records: 0,
            wal_replay_latency_ms,
            memory_pressure_bytes: 0,
            cache_pressure_bytes: 0,
            retrieval_score_bucket_low_total: self.requests.retrieval_score_bucket_low_total,
            retrieval_score_bucket_medium_total: self.requests.retrieval_score_bucket_medium_total,
            retrieval_score_bucket_high_total: self.requests.retrieval_score_bucket_high_total,
            retrieval_score_bucket_top_total: self.requests.retrieval_score_bucket_top_total,
            error_counters: snapshot_error_counters(&self.error_counters),
        }
    }
}

// ---------------------------------------------------------------------------------------------
// Laws
// ---------------------------------------------------------------------------------------------

/// Whether errors stand in the order of their codes and statuses.
pub open spec fn errors_in_order(list: Seq<ErrorCounterModel>) -> bool {
    forall|i: int, j: int|
        0 <= i < j < list.len() ==> !error_before(#[trigger] list[j], #[trigger] list[i])
}

/// Whatever has been counted, the errors are listed in the order of their codes and statuses.
pub proof fn law_errors_are_listed_in_order(counts: Map<Seq<char>, u64>, keys: Seq<Seq<char>>)
    ensures
        errors_in_order(errors_listed(counts, keys)),
    decreases keys.len(),
{
    if keys.len() > 0 {
        law_errors_are_listed_in_order(counts, keys.drop_last());
        let before = errors_listed(counts, keys.drop_last());
        match error_at(keys.last(), counts[keys.last()]) {
            Some(error) => {
                lemma_error_put_in_order(before, error);
            },
            None => {},
        }
    }
}

proof fn lemma_error_before_transitive(
    a: ErrorCounterModel,
    b: ErrorCounterModel,
    c: ErrorCounterModel,
)
    ensures
        error_before(a, b) && !error_before(c, b) ==> error_before(a, c),
        error_before(a, b) ==> !error_before(b, a),
{
    text::lemma_text_less_total(b.code, c.code);
    text::lemma_text_less_irreflexive(a.code);
    if text::text_less(a.code, b.code) && text::text_less(b.code, c.code) {
        text::lemma_text_less_transitive(a.code, b.code, c.code);
    }
    if text::text_less(a.code, b.code) && text::text_less(b.code, a.code) {
        text::lemma_text_less_transitive(a.code, b.code, a.code);
    }
}

proof fn lemma_error_place_bounds(list: Seq<ErrorCounterModel>, error: ErrorCounterModel)
    ensures
        0 <= error_place(list, error) <= list.len(),
        error_place(list, error) > 0 ==> !error_before(error, list[error_place(list, error) - 1]),
        forall|i: int|
            error_place(list, error) <= i < list.len() ==> error_before(error, #[trigger] list[i]),
    decreases list.len(),
{
    if list.len() > 0 && error_before(error, list.last()) {
        let short = list.drop_last();
        lemma_error_place_bounds(short, error);
        assert forall|i: int| error_place(list, error) <= i < list.len() implies error_before(
            error,
            #[trigger] list[i],
        ) by {
            if i < short.len() {
                assert(list[i] == short[i]);
            }
        }
    }
}

proof fn lemma_error_put_in_order(list: Seq<ErrorCounterModel>, error: ErrorCounterModel)
    requires
        errors_in_order(list),
    ensures
        errors_in_order(list.insert(error_place(list, error), error)),
{
    lemma_error_place_bounds(list, error);
    let at = error_place(list, error);
    let next = list.insert(at, error);
    assert forall|i: int, j: int| 0 <= i < j < next.len() implies !error_before(
        #[trigger] next[j],
        #[trigger] next[i],
    ) by {
        if i == at {
            assert(next[j] == list[j - 1]);
            lemma_error_before_transitive(error, list[j - 1], error);
        } else if j == at {
            assert(next[i] == list[i]);
            if i < at - 1 {
                assert(!error_before(list[at - 1], list[i]));
                lemma_error_before_transitive(error, list[i], list[at - 1]);
            }
        } else {
            let a = if i < at { i } else { i - 1 };
            let b = if j < at { j } else { j - 1 };
            assert(next[i] == list[a]);
            assert(next[j] == list[b]);
        }
    }
}

/// Every score falls into one class: the four counts together grow by the number of scores, as long
/// as none of them is full.
pub proof fn law_every_score_is_counted_once(start: RequestCounts, scores: Seq<u32>)
    requires
        start.retrieval_score_bucket_low_total + scores.len() <= u64::MAX,
        start.retrieval_score_bucket_medium_total + scores.len() <= u64::MAX,
        start.retrieval_score_bucket_high_total + scores.len() <= u64::MAX,
        start.retrieval_score_bucket_top_total + scores.len() <= u64::MAX,
    ensures
        ({
            let end = start.scored_all(scores);
            &&& end.retrieval_score_bucket_low_total + end.retrieval_score_bucket_medium_total
                + end.retrieval_score_bucket_high_total + end.retrieval_score_bucket_top_total
                == start.retrieval_score_bucket_low_total
                + start.retrieval_score_bucket_medium_total
                + start.retrieval_score_bucket_high_total + start.retrieval_score_bucket_top_total
                + scores.len()
            &&& start.retrieval_score_bucket_low_total <= end.retrieval_score_bucket_low_total
                <= start.retrieval_score_bucket_low_total + scores.len()
            &&& start.retrieval_score_bucket_medium_total
                <= end.retrieval_score_bucket_medium_total
                <= start.retrieval_score_bucket_medium_total + scores.len()
            &&& start.retrieval_score_bucket_high_total <= end.retrieval_score_bucket_high_total
                <= start.retrieval_score_bucket_high_total + scores.len()
            &&& start.retrieval_score_bucket_top_total <= end.retrieval_score_bucket_top_total
                <= start.retrieval_score_bucket_top_total + scores.len()
        }),
    decreases scores.len(),
{
    if scores.len() > 0 {
        law_every_score_is_counted_once(start, scores.drop_last());
    }
}

} // verus!
