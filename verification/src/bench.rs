//! What the benchmarks run, on which records, and how their answers are judged.
use std::ops::Range;
use std::result::Result as StdResult;
use vstd::prelude::*;
use vstd::string::*;

use crate::common::{is_identifier, join2, join3, EdgeId, NodeId, Result};
use crate::config::{AppConfig, ConfigModel, StorageModel, WalConfig};
use crate::database::{build_snapshot, stored_snapshot};
use crate::graph::GraphSnapshot;
use crate::index::{EdgeDirection, GraphIndex};
use crate::operate::{counts_shown, RecordCounts};
use crate::ordered::{lists_sorted, models, OrderedMap, OrderedSet};
use crate::plan::QueryRequest;
use crate::records::{
    EdgeModel, EdgeRecord, NodeModel, NodeRecord, PropertyModel, PropertyValue,
};
use crate::results::{QueryResponse, RankedModel, RankedNodeResult, ResponseModel};
use crate::text;
use crate::vectors::{default_vector_index, VectorIndexBackendConfig, VectorIndexConfig};

verus! {

/// How many records are written at once.
pub const STORAGE_BATCH_SIZE: usize = 50_000;

// ---------------------------------------------------------------------------------------------
// Profiles
// ---------------------------------------------------------------------------------------------

/// Which scenarios are run.
#[derive(Debug, Clone, Copy, PartialEq, Eq, Structural)]
pub enum ScenarioProfile {
    Full,
    StorageOnly,
}

impl ScenarioProfile {
    /// The name of the profile.
    pub fn as_str(self) -> (r: &'static str)
        ensures
            r@ == (match self {
                ScenarioProfile::Full => "full"@,
                ScenarioProfile::StorageOnly => "storage-only"@,
            }),
    {
        match self {
            ScenarioProfile::Full => "full",
            ScenarioProfile::StorageOnly => "storage-only",
        }
    }

    /// Whether the storage is measured: it always is.
    pub fn includes_storage_scenarios(self) -> (r: bool)
        ensures
            r,
    {
        true
    }

    /// Whether queries are measured.
    pub fn includes_query_scenarios(self) -> (r: bool)
        ensures
            r == (self == ScenarioProfile::Full),
    {
        match self {
            ScenarioProfile::Full => true,
            ScenarioProfile::StorageOnly => false,
        }
    }
}

/// Which records the scenarios are run on.
#[derive(Debug, Clone, Copy, PartialEq, Eq, Structural)]
pub enum WorkloadProfile {
    Standard,
    Compact,
}

impl WorkloadProfile {
    /// The name of the profile.
    pub fn as_str(self) -> (r: &'static str)
        ensures
            r@ == (match self {
                WorkloadProfile::Standard => "standard"@,
                WorkloadProfile::Compact => "compact"@,
            }),
    {
        match self {
            WorkloadProfile::Standard => "standard",
            WorkloadProfile::Compact => "compact",
        }
    }

    /// Whether the nodes have vectors.
    pub fn includes_vectors(self) -> (r: bool)
        ensures
            r == (self == WorkloadProfile::Standard),
    {
        match self {
            WorkloadProfile::Standard => true,
            WorkloadProfile::Compact => false,
        }
    }
}

/// A word as it is looked up: trimmed, and in lower case.
pub open spec fn plain_word(raw: Seq<char>) -> Seq<char> {
    text::lowercased(text::trimmed(raw))
}

fn read_word(raw: &str) -> (r: String)
    ensures
        r@ == plain_word(raw@),
{
    let trimmed: String = text::trim(raw);
    text::to_lower(trimmed.as_str())
}

/// The profile that a word names.
pub open spec fn scenario_profile_of(word: Seq<char>) -> Option<ScenarioProfile> {
    if word == "full"@ {
        Some(ScenarioProfile::Full)
    } else if word == "storage-only"@ || word == "storage_only"@ || word == "storage"@ {
        Some(ScenarioProfile::StorageOnly)
    } else {
        None
    }
}

/// The profile that a text names.
pub fn parse_scenario_profile(raw: &str) -> (r: StdResult<ScenarioProfile, String>)
    ensures
        match scenario_profile_of(plain_word(raw@)) {
            Some(profile) => r is Ok && r->Ok_0 == profile,
            None => r is Err && r->Err_0@ == "unsupported scenario profile '"@ + plain_word(raw@)
                + "'"@,
        },
{
    let word: String = read_word(raw);
    let w: &str = word.as_str();
    if text::same_text(w, "full") {
        Ok(ScenarioProfile::Full)
    } else if text::same_text(w, "storage-only") || text::same_text(w, "storage_only")
        || text::same_text(w, "storage") {
        Ok(ScenarioProfile::StorageOnly)
    } else {
        Err(join3("unsupported scenario profile '", w, "'"))
    }
}

/// The profile that a text names.
pub fn parse_workload_profile(raw: &str) -> (r: StdResult<WorkloadProfile, String>)
    ensures
        ({
            let word = plain_word(raw@);
            if word == "standard"@ {
                r == Ok::<WorkloadProfile, String>(WorkloadProfile::Standard)
            } else if word == "compact"@ {
                r == Ok::<WorkloadProfile, String>(WorkloadProfile::Compact)
            } else {
                r is Err && r->Err_0@ == "unsupported workload profile '"@ + word + "'"@
            }
        }),
{
    let word: String = read_word(raw);
    let w: &str = word.as_str();
    if text::same_text(w, "standard") {
        Ok(WorkloadProfile::Standard)
    } else if text::same_text(w, "compact") {
        Ok(WorkloadProfile::Compact)
    } else {
        Err(join3("unsupported workload profile '", w, "'"))
    }
}

// ---------------------------------------------------------------------------------------------
// Scales
// ---------------------------------------------------------------------------------------------

/// Why scales cannot be read.
#[derive(Debug, PartialEq, Eq)]
pub enum ScaleError {
    /// This is not the number of a scale.
    NotANumber(String),
    /// There is none.
    NoScale,
}

/// Whether a piece says nothing.
pub open spec fn says_nothing(piece: Seq<char>) -> bool {
    text::trimmed(piece).len() == 0
}

/// The number that a piece gives.
pub open spec fn scale_of(piece: Seq<char>) -> Option<nat> {
    text::parsed_unsigned(text::trimmed(piece), usize::MAX as nat)
}

/// Whether a piece says something that is not the number of a scale.
pub open spec fn is_wrong(piece: Seq<char>) -> bool {
    !says_nothing(piece) && scale_of(piece) is None
}

/// Whether some piece gives a number.
pub open spec fn gives(pieces: Seq<Seq<char>>, count: int, n: nat) -> bool {
    exists|i: int|
        0 <= i < count && !says_nothing(#[trigger] pieces[i]) && scale_of(pieces[i]) == Some(n)
}

/// Whether numbers stand in ascending order, each once.
pub open spec fn ascending(list: Seq<usize>) -> bool {
    forall|i: int, j: int| 0 <= i < j < list.len() ==> #[trigger] list[i] < #[trigger] list[j]
}

/// Puts a number in its place, unless it is there.
fn place_number(list: &mut Vec<usize>, n: usize)
    requires
        ascending(old(list)@),
    ensures
        ascending(final(list)@),
        forall|m: usize| #[trigger]
            final(list)@.contains(m) <==> old(list)@.contains(m) || m == n,
        final(list)@.len() > 0,
{
    let ghost before = list@;
    let mut at: usize = 0;
    while at < list.len() && list[at] < n
        invariant
            at <= list.len(),
            list@ == before,
            forall|i: int| 0 <= i < at ==> #[trigger] before[i] < n,
        decreases list.len() - at,
    {
        at = at + 1;
    }
    if at < list.len() && list[at] == n {
        proof {
            assert(before.contains(n));
        }
        return ;
    }
    list.insert(at, n);
    proof {
        let after = list@;
        assert(after == before.insert(at as int, n));
        assert forall|m: usize| #[trigger] after.contains(m) <==> before.contains(m) || m == n by {
            if before.contains(m) {
                let i = choose|i: int| 0 <= i < before.len() && before[i] == m;
                assert(after[if i < at { i } else { i + 1 }] == m);
            }
            if m == n {
                assert(after[at as int] == n);
            }
            if after.contains(m) && m != n {
                let i = choose|i: int| 0 <= i < after.len() && after[i] == m;
                assert(before[if i < at { i } else { i - 1 }] == m);
            }
        }
        assert forall|i: int, j: int| 0 <= i < j < after.len() implies #[trigger] after[i]
            < #[trigger] after[j] by {
            let a = if i < at { i } else { i - 1 };
            let b = if j < at { j } else { j - 1 };
            if i == at {
                if j - 1 > at {
                    assert(before[at as int] < before[j - 1]);
                }
            } else if j == at {
            } else {
                assert(before[a] < before[b]);
            }
        }
    }
}

/// The scales that a list names, in ascending order, each once; what says nothing is skipped.
pub fn parse_scales(raw: &str) -> (r: StdResult<Vec<usize>, ScaleError>)
    ensures
        ({
            let pieces = text::split_pieces(raw@, ',');
            let wrong = exists|i: int| 0 <= i < pieces.len() && is_wrong(#[trigger] pieces[i]);
            let none = forall|i: int|
                0 <= i < pieces.len() ==> says_nothing(#[trigger] pieces[i]);
            &&& r is Ok <==> !wrong && !none
            &&& r matches Ok(list) ==> ascending(list@) && forall|n: usize| #[trigger]
                list@.contains(n) <==> gives(pieces, pieces.len() as int, n as nat)
            &&& r matches Err(ScaleError::NoScale) ==> none
            &&& r matches Err(ScaleError::NotANumber(word)) ==> exists|i: int|
                0 <= i < pieces.len() && is_wrong(#[trigger] pieces[i]) && word@ == text::trimmed(
                    pieces[i],
                ) && forall|j: int| 0 <= j < i ==> !is_wrong(#[trigger] pieces[j])
        }),
{
    let pieces: Vec<String> = text::split(raw, ',');
    let ghost all = text::split_pieces(raw@, ',');
    let mut scales: Vec<usize> = Vec::new();
    let mut i: usize = 0;
    proof {
        assert(text::texts(pieces@) == all);
    }
    while i < pieces.len()
        invariant
            i <= pieces.len(),
            all == text::split_pieces(raw@, ','),
            text::texts(pieces@) == all,
            ascending(scales@),
            forall|n: usize| #[trigger]
                scales@.contains(n) <==> gives(all, i as int, n as nat),
            forall|j: int| 0 <= j < i ==> !is_wrong(#[trigger] all[j]),
            scales@.len() == 0 <==> forall|j: int| 0 <= j < i ==> says_nothing(#[trigger] all[j]),
        decreases pieces.len() - i,
    {
        let word: String = text::trim(pieces[i].as_str());
        let ghost piece = all[i as int];
        let ghost before = scales@;
        proof {
            assert(piece == pieces@[i as int]@);
            assert(word@ == text::trimmed(piece));
        }
        if word.as_str().is_empty() {
            proof {
                assert(says_nothing(piece));
                assert forall|n: usize| #[trigger] scales@.contains(n) <==> gives(
                    all,
                    i + 1,
                    n as nat,
                ) by {
                    if gives(all, i + 1, n as nat) {
                        let k = choose|k: int|
                            0 <= k < i + 1 && !says_nothing(#[trigger] all[k]) && scale_of(all[k])
                                == Some(n as nat);
                        assert(k < i);
                        assert(gives(all, i as int, n as nat));
                    }
                    if gives(all, i as int, n as nat) {
                        let k = choose|k: int|
                            0 <= k < i && !says_nothing(#[trigger] all[k]) && scale_of(all[k])
                                == Some(n as nat);
                        assert(gives(all, i + 1, n as nat));
                    }
                }
            }
        } else {
            match text::parse_unsigned(word.as_str(), usize::MAX as u64) {
                Some(parsed) => {
                    let n: usize = parsed as usize;
                    place_number(&mut scales, n);
                    proof {
                        assert(scale_of(piece) == Some(n as nat));
                        assert forall|m: usize| #[trigger] scales@.contains(m) <==> gives(
                            all,
                            i + 1,
                            m as nat,
                        ) by {
                            assert(before.contains(m) <==> gives(all, i as int, m as nat));
                            if gives(all, i as int, m as nat) {
                                let k = choose|k: int|
                                    0 <= k < i && !says_nothing(#[trigger] all[k]) && scale_of(
                                        all[k],
                                    ) == Some(m as nat);
                                assert(gives(all, i + 1, m as nat));
                            }
                            if m == n {
                                assert(!says_nothing(all[i as int]));
                                assert(gives(all, i + 1, m as nat));
                            }
                            if gives(all, i + 1, m as nat) {
                                let k = choose|k: int|
                                    0 <= k < i + 1 && !says_nothing(#[trigger] all[k]) && scale_of(
                                        all[k],
                                    ) == Some(m as nat);
                                if k < i {
                                    assert(gives(all, i as int, m as nat));
                                }
                            }
                        }
                        assert(!says_nothing(all[i as int]));
                    }
                },
                None => {
                    proof {
                        assert(is_wrong(all[i as int]));
                    }
                    return Err(ScaleError::NotANumber(word));
                },
            }
        }
        i = i + 1;
    }
    if scales.len() == 0 {
        return Err(ScaleError::NoScale);
    }
    Ok(scales)
}

// ---------------------------------------------------------------------------------------------
// Batches
// ---------------------------------------------------------------------------------------------

/// How many batches records make.
pub open spec fn batch_count(total: nat) -> nat {
    (total + 49_999) / 50_000
}

/// Where a batch begins.
pub open spec fn batch_start(i: int) -> int {
    i * 50_000
}

/// Where a batch ends.
pub open spec fn batch_end(total: nat, i: int) -> int {
    if batch_start(i + 1) < total {
        batch_start(i + 1)
    } else {
        total as int
    }
}

/// The batches of records: all of them full, but for the last one.
pub fn batch_ranges(total: usize) -> (r: Vec<Range<usize>>)
    ensures
        r@.len() == batch_count(total as nat),
        forall|i: int|
            0 <= i < r@.len() ==> (#[trigger] r@[i]).start == batch_start(i) && r@[i].end
                == batch_end(total as nat, i),
{
    let mut ranges: Vec<Range<usize>> = Vec::new();
    let mut start: usize = 0;
    while start < total
        invariant
            start <= total,
            start == total || start == batch_start(ranges@.len() as int),
            start < total ==> batch_start(ranges@.len() as int) < total,
            start == total ==> ranges@.len() == batch_count(total as nat),
            forall|i: int|
                0 <= i < ranges@.len() ==> (#[trigger] ranges@[i]).start == batch_start(i)
                    && ranges@[i].end == batch_end(total as nat, i),
        decreases total - start,
    {
        let end: usize = if total - start > STORAGE_BATCH_SIZE {
            start + STORAGE_BATCH_SIZE
        } else {
            total
        };
        ranges.push(Range { start, end });
        start = end;
    }
    ranges
}

/// The batches of records, the last one first.
pub fn reverse_batch_ranges(total: usize) -> (r: Vec<Range<usize>>)
    ensures
        r@.len() == batch_count(total as nat),
        forall|i: int|
            0 <= i < r@.len() ==> (#[trigger] r@[i]).start == batch_start(r@.len() - 1 - i)
                && r@[i].end == batch_end(total as nat, r@.len() - 1 - i),
{
    let ranges: Vec<Range<usize>> = batch_ranges(total);
    let mut out: Vec<Range<usize>> = Vec::new();
    let mut i: usize = ranges.len();
    while i > 0
        invariant
            i <= ranges@.len(),
            out@.len() == ranges@.len() - i,
            ranges@.len() == batch_count(total as nat),
            forall|k: int|
                0 <= k < ranges@.len() ==> (#[trigger] ranges@[k]).start == batch_start(k)
                    && ranges@[k].end == batch_end(total as nat, k),
            forall|k: int|
                0 <= k < out@.len() ==> (#[trigger] out@[k]).start == batch_start(
                    ranges@.len() - 1 - k,
                ) && out@[k].end == batch_end(total as nat, ranges@.len() - 1 - k),
        decreases i,
    {
        i = i - 1;
        let range: &Range<usize> = &ranges[i];
        out.push(Range { start: range.start, end: range.end });
    }
    out
}

/// The batches follow one another without a gap, from the first record to the last, and none is
/// empty or too large.
pub proof fn law_batches_cover_everything(total: nat, i: int)
    requires
        0 <= i < batch_count(total),
    ensures
        batch_start(0) == 0,
        batch_start(i) < batch_end(total, i) <= batch_start(i) + 50_000,
        i + 1 < batch_count(total) ==> batch_end(total, i) == batch_start(i + 1),
        i + 1 == batch_count(total) ==> batch_end(total, i) == total,
{
}

// ---------------------------------------------------------------------------------------------
// Records
// ---------------------------------------------------------------------------------------------

/// A numbered name.
pub open spec fn numbered(prefix: Seq<char>, index: nat) -> Seq<char> {
    prefix + text::decimal(index)
}

/// A node of the workload.
pub open spec fn bench_node(index: nat) -> NodeModel {
    NodeModel {
        id: numbered("node_"@, index),
        node_type: if index % 5 == 0 {
            "profile"@
        } else {
            "memory"@
        },
        properties: Map::empty().insert(
            "unique_key"@,
            PropertyModel::String(numbered("unique_"@, index)),
        ).insert("timestamp"@, PropertyModel::Integer((1_000 + index) as i64)),
        vectors: Map::empty(),
    }
}

/// An edge of the workload: it leads from a node to the next one.
pub open spec fn bench_edge(index: nat) -> EdgeModel {
    EdgeModel {
        id: numbered("edge_"@, index),
        source: numbered("node_"@, index),
        target: numbered("node_"@, index + 1),
        edge_type: "relates_to"@,
        properties: Map::empty(),
    }
}

proof fn lemma_decimal_is_digits(n: nat)
    ensures
        text::decimal(n).len() > 0,
        forall|i: int|
            0 <= i < text::decimal(n).len() ==> '0' <= #[trigger] text::decimal(n)[i] <= '9',
    decreases n,
{
    if n >= 10 {
        lemma_decimal_is_digits(n / 10);
        let short = text::decimal(n / 10);
        assert forall|i: int| 0 <= i < text::decimal(n).len() implies '0' <= #[trigger] text::decimal(
            n,
        )[i] <= '9' by {
            if i < short.len() {
                assert(text::decimal(n)[i] == short[i]);
            }
        }
    }
}

proof fn lemma_numbered_is_identifier(prefix: Seq<char>, index: nat)
    requires
        is_identifier(prefix),
    ensures
        is_identifier(numbered(prefix, index)),
{
    lemma_decimal_is_digits(index);
    let name = numbered(prefix, index);
    assert forall|i: int| 0 <= i < name.len() implies crate::common::is_identifier_char(
        #[trigger] name[i],
    ) by {
        if i < prefix.len() {
            assert(name[i] == prefix[i]);
        } else {
            assert(name[i] == text::decimal(index)[i - prefix.len()]);
        }
    }
}

/// The name of a node.
fn node_name(index: u128) -> (r: Result<NodeId>)
    ensures
        r is Ok,
        r->Ok_0@ == numbered("node_"@, index as nat),
{
    let number: String = text::decimal_text(index);
    let name: String = join2("node_", number.as_str());
    proof {
        reveal_strlit("node_");
        lemma_numbered_is_identifier("node_"@, index as nat);
    }
    NodeId::new(name.as_str())
}

/// The name of an edge.
fn edge_name(index: u128) -> (r: Result<EdgeId>)
    ensures
        r is Ok,
        r->Ok_0@ == numbered("edge_"@, index as nat),
{
    let number: String = text::decimal_text(index);
    let name: String = join2("edge_", number.as_str());
    proof {
        reveal_strlit("edge_");
        lemma_numbered_is_identifier("edge_"@, index as nat);
    }
    EdgeId::new(name.as_str())
}

/// The ids of the nodes of a batch.
pub fn node_ids_for_range(range: Range<usize>) -> (r: Result<Vec<NodeId>>)
    ensures
        r is Ok,
        models(r->Ok_0@) == Seq::new(
            if range.start <= range.end {
                (range.end - range.start) as nat
            } else {
                0
            },
            |i: int| numbered("node_"@, (range.start + i) as nat),
        ),
{
    let mut out: Vec<NodeId> = Vec::new();
    let mut index: usize = range.start;
    while index < range.end
        invariant
            range.start <= index,
            index <= range.end || index == range.start,
            out@.len() == index - range.start,
            forall|i: int|
                0 <= i < out@.len() ==> (#[trigger] out@[i])@ == numbered(
                    "node_"@,
                    (range.start + i) as nat,
                ),
        decreases range.end - index,
    {
        match node_name(index as u128) {
            Ok(id) => out.push(id),
            Err(error) => {
                return Err(error);
            },
        }
        index = index + 1;
    }
    proof {
        assert(models(out@) =~= Seq::new(
            if range.start <= range.end {
                (range.end - range.start) as nat
            } else {
                0
            },
            |i: int| numbered("node_"@, (range.start + i) as nat),
        ));
    }
    Ok(out)
}

/// The ids of the edges of a batch.
pub fn edge_ids_for_range(range: Range<usize>) -> (r: Result<Vec<EdgeId>>)
    ensures
        r is Ok,
        models(r->Ok_0@) == Seq::new(
            if range.start <= range.end {
                (range.end - range.start) as nat
            } else {
                0
            },
            |i: int| numbered("edge_"@, (range.start + i) as nat),
        ),
{
    let mut out: Vec<EdgeId> = Vec::new();
    let mut index: usize = range.start;
    while index < range.end
        invariant
            range.start <= index,
            index <= range.end || index == range.start,
            out@.len() == index - range.start,
            forall|i: int|
                0 <= i < out@.len() ==> (#[trigger] out@[i])@ == numbered(
                    "edge_"@,
                    (range.start + i) as nat,
                ),
        decreases range.end - index,
    {
        match edge_name(index as u128) {
            Ok(id) => out.push(id),
            Err(error) => {
                return Err(error);
            },
        }
        index = index + 1;
    }
    proof {
        assert(models(out@) =~= Seq::new(
            if range.start <= range.end {
                (range.end - range.start) as nat
            } else {
                0
            },
            |i: int| numbered("edge_"@, (range.start + i) as nat),
        ));
    }
    Ok(out)
}

fn node_of(index: usize) -> (r: Result<NodeRecord>)
    requires
        index + 1_000 <= i64::MAX,
    ensures
        r is Ok,
        r->Ok_0@ == bench_node(index as nat),
{
    let number: String = text::decimal_text(index as u128);
    let mut properties: OrderedMap<String, PropertyValue> = OrderedMap::new();
    properties.insert(
        "unique_key".to_owned(),
        PropertyValue::String(join2("unique_", number.as_str())),
    );
    properties.insert("timestamp".to_owned(), PropertyValue::Integer(1_000 + index as i64));
    match node_name(index as u128) {
        Ok(id) => Ok(
            NodeRecord {
                id,
                node_type: if index % 5 == 0 {
                    "profile".to_owned()
                } else {
                    "memory".to_owned()
                },
                properties,
                vectors: OrderedMap::new(),
            },
        ),
        Err(error) => Err(error),
    }
}

fn edge_of(index: usize) -> (r: Result<EdgeRecord>)
    ensures
        r is Ok,
        r->Ok_0@ == bench_edge(index as nat),
{
    let id: EdgeId = match edge_name(index as u128) {
        Ok(id) => id,
        Err(error) => {
            return Err(error);
        },
    };
    let source: NodeId = match node_name(index as u128) {
        Ok(id) => id,
        Err(error) => {
            return Err(error);
        },
    };
    let target: NodeId = match node_name(index as u128 + 1) {
        Ok(id) => id,
        Err(error) => {
            return Err(error);
        },
    };
    Ok(
        EdgeRecord {
            id,
            source,
            target,
            edge_type: "relates_to".to_owned(),
            properties: OrderedMap::new(),
        },
    )
}

/// The nodes of a batch.
pub fn nodes_for_range(range: Range<usize>) -> (r: Result<Vec<NodeRecord>>)
    requires
        range.end + 1_000 <= i64::MAX,
    ensures
        r is Ok,
        models(r->Ok_0@) == Seq::new(
            if range.start <= range.end {
                (range.end - range.start) as nat
            } else {
                0
            },
            |i: int| bench_node((range.start + i) as nat),
        ),
{
    let mut out: Vec<NodeRecord> = Vec::new();
    let mut index: usize = range.start;
    while index < range.end
        invariant
            range.end + 1_000 <= i64::MAX,
            range.start <= index,
            index <= range.end || index == range.start,
            out@.len() == index - range.start,
            forall|i: int|
                0 <= i < out@.len() ==> (#[trigger] out@[i])@ == bench_node(
                    (range.start + i) as nat,
                ),
        decreases range.end - index,
    {
        match node_of(index) {
            Ok(node) => out.push(node),
            Err(error) => {
                return Err(error);
            },
        }
        index = index + 1;
    }
    proof {
        assert(models(out@) =~= Seq::new(
            if range.start <= range.end {
                (range.end - range.start) as nat
            } else {
                0
            },
            |i: int| bench_node((range.start + i) as nat),
        ));
    }
    Ok(out)
}

/// The edges of a batch.
pub fn edges_for_range(range: Range<usize>) -> (r: Result<Vec<EdgeRecord>>)
    ensures
        r is Ok,
        models(r->Ok_0@) == Seq::new(
            if range.start <= range.end {
                (range.end - range.start) as nat
            } else {
                0
            },
            |i: int| bench_edge((range.start + i) as nat),
        ),
{
    let mut out: Vec<EdgeRecord> = Vec::new();
    let mut index: usize = range.start;
    while index < range.end
        invariant
            range.start <= index,
            index <= range.end || index == range.start,
            out@.len() == index - range.start,
            forall|i: int|
                0 <= i < out@.len() ==> (#[trigger] out@[i])@ == bench_edge(
                    (range.start + i) as nat,
                ),
        decreases range.end - index,
    {
        match edge_of(index) {
            Ok(edge) => out.push(edge),
            Err(error) => {
                return Err(error);
            },
        }
        index = index + 1;
    }
    proof {
        assert(models(out@) =~= Seq::new(
            if range.start <= range.end {
                (range.end - range.start) as nat
            } else {
                0
            },
            |i: int| bench_edge((range.start + i) as nat),
        ));
    }
    Ok(out)
}

/// Records that the scenarios are run on, and two of the nodes.
#[derive(Debug)]
pub struct Workload {
    pub nodes: Vec<NodeRecord>,
    pub edges: Vec<EdgeRecord>,
    pub start_node_id: NodeId,
    pub end_node_id: NodeId,
}

/// A chain of nodes without what is computed of fractions, the first node of it, and the
/// twenty-fifth one or the last.
pub fn build_workload(node_count: usize) -> (r: StdResult<Workload, String>)
    requires
        node_count + 1_000 <= i64::MAX,
    ensures
        r is Ok <==> node_count > 0,
        r matches Ok(workload) ==> {
            &&& models(workload.nodes@) == Seq::new(node_count as nat, |i: int| bench_node(i as nat))
            &&& models(workload.edges@) == Seq::new(
                (node_count - 1) as nat,
                |i: int| bench_edge(i as nat),
            )
            &&& workload.start_node_id@ == numbered("node_"@, 0)
            &&& workload.end_node_id@ == numbered(
                "node_"@,
                (if node_count <= 25 {
                    node_count - 1
                } else {
                    24
                }) as nat,
            )
        },
        r matches Err(e) ==> e@ == "workload must contain at least one node"@,
{
    if node_count == 0 {
        return Err("workload must contain at least one node".to_owned());
    }
    let nodes: Vec<NodeRecord> = match nodes_for_range(Range { start: 0, end: node_count }) {
        Ok(nodes) => nodes,
        Err(error) => {
            return Err(error.to_string());
        },
    };
    let edges: Vec<EdgeRecord> = match edges_for_range(Range { start: 0, end: node_count - 1 }) {
        Ok(edges) => edges,
        Err(error) => {
            return Err(error.to_string());
        },
    };
    let last: usize = if node_count <= 25 {
        node_count - 1
    } else {
        24
    };
    proof {
        assert(models(nodes@) =~= Seq::new(node_count as nat, |i: int| bench_node(i as nat)));
        assert(models(edges@) =~= Seq::new((node_count - 1) as nat, |i: int| bench_edge(i as nat)));
        assert(models(nodes@)[0] == nodes@[0]@);
        assert(models(nodes@)[last as int] == nodes@[last as int]@);
    }
    let start_node_id: NodeId = nodes[0].id.clone();
    let end_node_id: NodeId = nodes[last].id.clone();
    Ok(Workload { nodes, edges, start_node_id, end_node_id })
}

impl Workload {
    /// The snapshot of the records under vector settings.
    pub fn snapshot_with_vector_index_config(&self, vector_index: &VectorIndexConfig) -> (r:
        GraphSnapshot)
        ensures
            r@ == stored_snapshot(models(self.nodes@), models(self.edges@), *vector_index),
    {
        let nodes: &[NodeRecord] = self.nodes.as_slice();
        let edges: &[EdgeRecord] = self.edges.as_slice();
        let indexes: GraphIndex = GraphIndex::rebuild_with_config(nodes, edges, vector_index);
        build_snapshot(nodes, edges, indexes)
    }
}

/// A configuration for benchmarks at a place: at least so many bytes of the log are read again.
pub fn benchmark_storage_config(base: AppConfig, root_dir: &str) -> (r: AppConfig)
    ensures
        r@ == (ConfigModel {
            storage: StorageModel { root_dir: root_dir@, ..base@.storage },
            wal: WalConfig {
                max_replay_bytes: if base@.wal.max_replay_bytes < 17_179_869_184 {
                    17_179_869_184
                } else {
                    base@.wal.max_replay_bytes
                },
                ..base@.wal
            },
            ..base@
        }),
{
    let mut config: AppConfig = base;
    config.storage.root_dir = root_dir.to_owned();
    if config.wal.max_replay_bytes < 17_179_869_184 {
        config.wal.max_replay_bytes = 17_179_869_184;
    }
    config
}

/// Accepts a storage that holds a chain of nodes.
pub fn verify_storage_counts(node_count: usize, actual: RecordCounts) -> (r: StdResult<(), String>)
    ensures
        ({
            let expected = RecordCounts {
                nodes: node_count,
                edges: (if node_count == 0 {
                    0
                } else {
                    node_count - 1
                }) as usize,
            };
            &&& r is Ok <==> actual == expected
            &&& r matches Err(e) ==> e@ == "storage benchmark produced incorrect counts: expected="@
                + counts_shown(expected) + " actual="@ + counts_shown(actual)
        }),
{
    let expected: RecordCounts = RecordCounts {
        nodes: node_count,
        edges: if node_count == 0 {
            0
        } else {
            node_count - 1
        },
    };
    if actual.nodes != expected.nodes || actual.edges != expected.edges {
        let wanted: String = crate::operate::counts_text(expected);
        let found: String = crate::operate::counts_text(actual);
        let mut message: String = join3(
            "storage benchmark produced incorrect counts: expected=",
            wanted.as_str(),
            " actual=",
        );
        message.append(found.as_str());
        return Err(message);
    }
    Ok(())
}

// ---------------------------------------------------------------------------------------------
// Tuning
// ---------------------------------------------------------------------------------------------

/// How search graphs are tuned.
#[derive(Debug, Clone, Copy, PartialEq, Eq, Structural)]
pub struct HnswTuningReport {
    pub semantic_top_k: usize,
    pub ef_search: usize,
    pub m: usize,
    pub ef_construction: usize,
}

/// The tuning where none is given: a wider pool than the database has by default.
pub open spec fn default_tuning() -> HnswTuningReport {
    HnswTuningReport {
        semantic_top_k: 250,
        ef_search: 128,
        m: default_vector_index().hnsw_m,
        ef_construction: default_vector_index().hnsw_ef_construction,
    }
}

/// A number, or another one where it is not given.
pub open spec fn given_or(given: Option<usize>, other: usize) -> usize {
    match given {
        Some(n) => n,
        None => other,
    }
}

fn take_or(given: Option<usize>, other: usize) -> (r: usize)
    ensures
        r == given_or(given, other),
{
    match given {
        Some(n) => n,
        None => other,
    }
}

/// The tuning where none is given.
pub fn benchmark_default_hnsw_tuning() -> (r: HnswTuningReport)
    ensures
        r == default_tuning(),
{
    let defaults: VectorIndexConfig = VectorIndexConfig::default();
    HnswTuningReport {
        semantic_top_k: 250,
        ef_search: 128,
        m: defaults.hnsw_m,
        ef_construction: defaults.hnsw_ef_construction,
    }
}

/// The tuning that arguments ask for.
pub fn benchmark_hnsw_tuning_from_args(
    semantic_top_k: Option<usize>,
    ef_search: Option<usize>,
    m: Option<usize>,
    ef_construction: Option<usize>,
) -> (r: HnswTuningReport)
    ensures
        r.semantic_top_k == given_or(semantic_top_k, default_tuning().semantic_top_k),
        r.ef_search == given_or(ef_search, default_tuning().ef_search),
        r.m == given_or(m, default_tuning().m),
        r.ef_construction == given_or(ef_construction, default_tuning().ef_construction),
{
    let defaults: HnswTuningReport = benchmark_default_hnsw_tuning();
    HnswTuningReport {
        semantic_top_k: take_or(semantic_top_k, defaults.semantic_top_k),
        ef_search: take_or(ef_search, defaults.ef_search),
        m: take_or(m, defaults.m),
        ef_construction: take_or(ef_construction, defaults.ef_construction),
    }
}

/// The settings under which vectors are compared one by one.
pub fn benchmark_exact_vector_index_config() -> (r: VectorIndexConfig)
    ensures
        r == (VectorIndexConfig {
            backend: VectorIndexBackendConfig::Exact,
            ..default_vector_index()
        }),
{
    let mut config: VectorIndexConfig = VectorIndexConfig::default();
    config.backend = VectorIndexBackendConfig::Exact;
    config
}

/// The settings under which search graphs are used, however few vectors there are.
pub fn benchmark_hnsw_vector_index_config(tuning: &HnswTuningReport) -> (r: VectorIndexConfig)
    ensures
        r == (VectorIndexConfig {
            backend: VectorIndexBackendConfig::Hnsw,
            exact_fallback_threshold: 1,
            semantic_top_k: tuning.semantic_top_k,
            hnsw_m: tuning.m,
            hnsw_ef_construction: tuning.ef_construction,
            hnsw_ef_search: tuning.ef_search,
        }),
{
    VectorIndexConfig {
        backend: VectorIndexBackendConfig::Hnsw,
        exact_fallback_threshold: 1,
        semantic_top_k: tuning.semantic_top_k,
        hnsw_m: tuning.m,
        hnsw_ef_construction: tuning.ef_construction,
        hnsw_ef_search: tuning.ef_search,
    }
}

// ---------------------------------------------------------------------------------------------
// Scenarios
// ---------------------------------------------------------------------------------------------

/// What is measured.
#[derive(Debug, Clone, Copy, PartialEq, Eq, Structural)]
pub enum Scenario {
    StorageUpsert,
    StorageDelete,
    WalRecovery,
    ExactLookup,
    ListNeighbors,
    LabelScan,
    Traverse,
    ShortestPath,
    TemporalRange,
    VectorSearchExact,
    RankedRetrievalExact,
    VectorSearchHnsw,
    RankedRetrievalHnsw,
}

/// The scenarios of the storage.
pub open spec fn storage_scenarios() -> Seq<Scenario> {
    seq![Scenario::StorageUpsert, Scenario::StorageDelete, Scenario::WalRecovery]
}

/// The scenarios of queries without vectors.
pub open spec fn query_scenarios() -> Seq<Scenario> {
    seq![
        Scenario::ExactLookup,
        Scenario::ListNeighbors,
        Scenario::LabelScan,
        Scenario::Traverse,
        Scenario::ShortestPath,
        Scenario::TemporalRange,
    ]
}

/// The scenarios of queries with vectors.
pub open spec fn vector_scenarios() -> Seq<Scenario> {
    seq![
        Scenario::VectorSearchExact,
        Scenario::RankedRetrievalExact,
        Scenario::VectorSearchHnsw,
        Scenario::RankedRetrievalHnsw,
    ]
}

/// What is measured under profiles, in this order.
pub open spec fn scenarios_of(
    scenario_profile: ScenarioProfile,
    workload_profile: WorkloadProfile,
) -> Seq<Scenario> {
    if scenario_profile == ScenarioProfile::StorageOnly {
        storage_scenarios()
    } else if workload_profile == WorkloadProfile::Compact {
        storage_scenarios() + query_scenarios()
    } else {
        storage_scenarios() + query_scenarios() + vector_scenarios()
    }
}

/// What is measured under profiles, in this order.
pub fn planned_scenarios(scenario_profile: ScenarioProfile, workload_profile: WorkloadProfile) -> (r:
    Vec<Scenario>)
    ensures
        r@ == scenarios_of(scenario_profile, workload_profile),
{
    let mut out: Vec<Scenario> = Vec::new();
    if scenario_profile.includes_storage_scenarios() {
        out.push(Scenario::StorageUpsert);
        out.push(Scenario::StorageDelete);
        out.push(Scenario::WalRecovery);
    }
    if scenario_profile.includes_query_scenarios() {
        out.push(Scenario::ExactLookup);
        out.push(Scenario::ListNeighbors);
        out.push(Scenario::LabelScan);
        out.push(Scenario::Traverse);
        out.push(Scenario::ShortestPath);
        out.push(Scenario::TemporalRange);
        if workload_profile.includes_vectors() {
            out.push(Scenario::VectorSearchExact);
            out.push(Scenario::RankedRetrievalExact);
            out.push(Scenario::VectorSearchHnsw);
            out.push(Scenario::RankedRetrievalHnsw);
        }
    }
    proof {
        assert(out@ =~= scenarios_of(scenario_profile, workload_profile));
    }
    out
}

/// Whether records are written batch by batch, and never held all at once.
pub fn runs_streamed(scenario_profile: ScenarioProfile, workload_profile: WorkloadProfile) -> (r:
    bool)
    ensures
        r == (scenario_profile == ScenarioProfile::StorageOnly && workload_profile
            == WorkloadProfile::Compact),
{
    !scenario_profile.includes_query_scenarios() && !workload_profile.includes_vectors()
}

impl Scenario {
    /// The name of the scenario.
    pub open spec fn name_text(self) -> Seq<char> {
        match self {
            Scenario::StorageUpsert => "storage_upsert"@,
            Scenario::StorageDelete => "storage_delete"@,
            Scenario::WalRecovery => "wal_recovery"@,
            Scenario::ExactLookup => "exact_lookup"@,
            Scenario::ListNeighbors => "list_neighbors_1_hop"@,
            Scenario::LabelScan => "label_scan"@,
            Scenario::Traverse => "traverse_5_hops"@,
            Scenario::ShortestPath => "shortest_path"@,
            Scenario::TemporalRange => "temporal_range"@,
            Scenario::VectorSearchExact => "vector_search_exact"@,
            Scenario::RankedRetrievalExact => "ranked_retrieval_exact"@,
            Scenario::VectorSearchHnsw => "vector_search_hnsw"@,
            Scenario::RankedRetrievalHnsw => "ranked_retrieval_hnsw"@,
        }
    }

    /// The name of the scenario.
    pub fn name(self) -> (r: &'static str)
        ensures
            r@ == self.name_text(),
    {
        match self {
            Scenario::StorageUpsert => "storage_upsert",
            Scenario::StorageDelete => "storage_delete",
            Scenario::WalRecovery => "wal_recovery",
            Scenario::ExactLookup => "exact_lookup",
            Scenario::ListNeighbors => "list_neighbors_1_hop",
            Scenario::LabelScan => "label_scan",
            Scenario::Traverse => "traverse_5_hops",
            Scenario::ShortestPath => "shortest_path",
            Scenario::TemporalRange => "temporal_range",
            Scenario::VectorSearchExact => "vector_search_exact",
            Scenario::RankedRetrievalExact => "ranked_retrieval_exact",
            Scenario::VectorSearchHnsw => "vector_search_hnsw",
            Scenario::RankedRetrievalHnsw => "ranked_retrieval_hnsw",
        }
    }

    /// What is wrong with an answer, if the scenario has failed by it.
    pub open spec fn failure(self, response: ResponseModel) -> Option<Seq<char>> {
        match self {
            Scenario::ExactLookup => if response.nodes.len() != 1 {
                Some("exact_lookup benchmark failed to return exactly one node"@)
            } else {
                None
            },
            Scenario::ListNeighbors => if response.nodes.len() == 0 || response.edges.len() == 0 {
                Some("list_neighbors_1_hop benchmark returned no graph items"@)
            } else {
                None
            },
            Scenario::LabelScan => if response.nodes.len() == 0 {
                Some("label_scan benchmark returned no nodes"@)
            } else {
                None
            },
            Scenario::Traverse => if response.nodes.len() == 0 || response.edges.len() == 0 {
                Some("traverse_5_hops benchmark returned no graph items"@)
            } else {
                None
            },
            Scenario::ShortestPath => if response.path is None {
                Some("shortest_path benchmark failed to find a path"@)
            } else {
                None
            },
            Scenario::TemporalRange => if response.nodes.len() == 0 {
                Some("temporal_range benchmark returned no nodes"@)
            } else {
                None
            },
            Scenario::VectorSearchExact | Scenario::VectorSearchHnsw => if
                response.ranked_results.len() == 0 {
                Some("vector_search benchmark returned no results"@)
            } else {
                None
            },
            Scenario::RankedRetrievalExact | Scenario::RankedRetrievalHnsw => if
                response.ranked_results.len() == 0 {
                Some("ranked_retrieval benchmark returned no results"@)
            } else {
                None
            },
            _ => None,
        }
    }

    /// Accepts an answer by which the scenario has not failed.
    pub fn judge(self, response: &QueryResponse) -> (r: StdResult<(), String>)
        ensures
            r is Ok <==> self.failure(response@) is None,
            r matches Err(e) ==> self.failure(response@) == Some(e@),
    {
        let no_nodes: bool = response.nodes.len() == 0;
        let no_edges: bool = response.edges.len() == 0;
        let no_results: bool = response.ranked_results.len() == 0;
        match self {
            Scenario::ExactLookup => if response.nodes.len() != 1 {
                return Err("exact_lookup benchmark failed to return exactly one node".to_owned());
            },
            Scenario::ListNeighbors => if no_nodes || no_edges {
                return Err("list_neighbors_1_hop benchmark returned no graph items".to_owned());
            },
            Scenario::LabelScan => if no_nodes {
                return Err("label_scan benchmark returned no nodes".to_owned());
            },
            Scenario::Traverse => if no_nodes || no_edges {
                return Err("traverse_5_hops benchmark returned no graph items".to_owned());
            },
            Scenario::ShortestPath => if response.path.is_none() {
                return Err("shortest_path benchmark failed to find a path".to_owned());
            },
            Scenario::TemporalRange => if no_nodes {
                return Err("temporal_range benchmark returned no nodes".to_owned());
            },
            Scenario::VectorSearchExact | Scenario::VectorSearchHnsw => if no_results {
                return Err("vector_search benchmark returned no results".to_owned());
            },
            Scenario::RankedRetrievalExact | Scenario::RankedRetrievalHnsw => if no_results {
                return Err("ranked_retrieval benchmark returned no results".to_owned());
            },
            _ => {},
        }
        Ok(())
    }

    /// Whether this is what the scenario asks; those of the storage ask nothing.
    pub open spec fn asks(self, request: Option<QueryRequest>, workload: Workload) -> bool {
        match self {
            Scenario::StorageUpsert | Scenario::StorageDelete | Scenario::WalRecovery => request
                is None,
            Scenario::ExactLookup => request matches Some(QueryRequest::GetNodeById { node_id })
                && node_id@ == workload.start_node_id@,
            Scenario::ListNeighbors => request matches Some(
                QueryRequest::ListNeighbors { node_id, edge_type, direction, limit },
            ) && node_id@ == workload.start_node_id@ && text::optional_string(edge_type) == Some(
                "relates_to"@,
            ) && direction == EdgeDirection::Outgoing && limit == Some(50usize),
            Scenario::LabelScan => request matches Some(
                QueryRequest::SearchByLabel { label, limit },
            ) && label@ == "memory"@ && limit == Some(1_000usize),
            Scenario::Traverse => request matches Some(
                QueryRequest::Traverse {
                    start_node_id,
                    edge_type,
                    direction,
                    max_hops,
                    limit,
                    timeout_ms,
                    constraints,
                },
            ) && start_node_id@ == workload.start_node_id@ && text::optional_string(edge_type)
                == Some("relates_to"@) && direction == EdgeDirection::Outgoing && max_hops == Some(
                5u8,
            ) && limit == Some(1_000usize) && timeout_ms == Some(5_000u64) && constraints is None,
            Scenario::ShortestPath => request matches Some(
                QueryRequest::ShortestPath {
                    source_node_id,
                    target_node_id,
                    direction,
                    max_depth,
                    limit,
                    timeout_ms,
                    constraints,
                },
            ) && source_node_id@ == workload.start_node_id@ && target_node_id@
                == workload.end_node_id@ && direction == EdgeDirection::Outgoing && max_depth
                == Some(32u8) && limit == Some(1_000usize) && timeout_ms == Some(5_000u64)
                && constraints is None,
            Scenario::TemporalRange => request matches Some(
                QueryRequest::TimeRange { field, from_epoch_ms, to_epoch_ms, limit },
            ) && field@ == "timestamp"@ && from_epoch_ms == 1_000 && to_epoch_ms == 1_000_000
                && limit == 1_000,
            Scenario::VectorSearchExact | Scenario::VectorSearchHnsw => request matches Some(
                QueryRequest::VectorSearch { query_vector, node_type, vector_name, limit, top_k },
            ) && query_vector@ == bench_vector() && text::optional_string(node_type) == Some(
                "memory"@,
            ) && vector_name is None && limit == 50 && top_k is None,
            Scenario::RankedRetrievalExact | Scenario::RankedRetrievalHnsw => request matches Some(
                QueryRequest::RankedRetrieval {
                    query_vector,
                    reference_node_id,
                    edge_type,
                    from_epoch_ms,
                    to_epoch_ms,
                    vector_name,
                    limit,
                    top_k,
                    now_epoch_ms,
                    retrieval_profile,
                },
            ) && query_vector is Some && query_vector->0@ == bench_vector() && reference_node_id
                is Some && reference_node_id->0@ == workload.start_node_id@
                && text::optional_string(edge_type) == Some("relates_to"@) && from_epoch_ms
                == Some(1_000i64) && to_epoch_ms == Some(1_000_000i64) && vector_name is None
                && limit == 50 && top_k is None && now_epoch_ms == 1_000_000
                && text::optional_string(retrieval_profile) == Some("v1-default"@),
        }
    }

    /// What the scenario asks; those of the storage ask nothing.
    pub fn request(self, workload: &Workload) -> (r: Option<QueryRequest>)
        ensures
            self.asks(r, *workload),
    {
        match self {
            Scenario::StorageUpsert | Scenario::StorageDelete | Scenario::WalRecovery => None,
            Scenario::ExactLookup => Some(
                QueryRequest::GetNodeById { node_id: workload.start_node_id.clone() },
            ),
            Scenario::ListNeighbors => Some(
                QueryRequest::ListNeighbors {
                    node_id: workload.start_node_id.clone(),
                    edge_type: Some("relates_to".to_owned()),
                    direction: EdgeDirection::Outgoing,
                    limit: Some(50),
                },
            ),
            Scenario::LabelScan => Some(
                QueryRequest::SearchByLabel { label: "memory".to_owned(), limit: Some(1_000) },
            ),
            Scenario::Traverse => Some(
                QueryRequest::Traverse {
                    start_node_id: workload.start_node_id.clone(),
                    edge_type: Some("relates_to".to_owned()),
                    direction: EdgeDirection::Outgoing,
                    max_hops: Some(5),
                    limit: Some(1_000),
                    timeout_ms: Some(5_000),
                    constraints: None,
                },
            ),
            Scenario::ShortestPath => Some(
                QueryRequest::ShortestPath {
                    source_node_id: workload.start_node_id.clone(),
                    target_node_id: workload.end_node_id.clone(),
                    direction: EdgeDirection::Outgoing,
                    max_depth: Some(32),
                    limit: Some(1_000),
                    timeout_ms: Some(5_000),
                    constraints: None,
                },
            ),
            Scenario::TemporalRange => Some(
                QueryRequest::TimeRange {
                    field: "timestamp".to_owned(),
                    from_epoch_ms: 1_000,
                    to_epoch_ms: 1_000_000,
                    limit: 1_000,
                },
            ),
            Scenario::VectorSearchExact | Scenario::VectorSearchHnsw => Some(
                QueryRequest::VectorSearch {
                    query_vector: query_bits(),
                    node_type: Some("memory".to_owned()),
                    vector_name: None,
                    limit: 50,
                    top_k: None,
                },
            ),
            Scenario::RankedRetrievalExact | Scenario::RankedRetrievalHnsw => Some(
                QueryRequest::RankedRetrieval {
                    query_vector: Some(query_bits()),
                    reference_node_id: Some(workload.start_node_id.clone()),
                    edge_type: Some("relates_to".to_owned()),
                    from_epoch_ms: Some(1_000),
                    to_epoch_ms: Some(1_000_000),
                    vector_name: None,
                    limit: 50,
                    top_k: None,
                    now_epoch_ms: 1_000_000,
                    retrieval_profile: Some("v1-default".to_owned()),
                },
            ),
        }
    }
}

/// The vector that is looked for, one, nought, a half and a quarter, by the bits of its singles.
pub open spec fn bench_vector() -> Seq<u32> {
    seq![0x3f80_0000u32, 0u32, 0x3f00_0000u32, 0x3e80_0000u32]
}

fn query_bits() -> (r: Vec<u32>)
    ensures
        r@ == bench_vector(),
{
    let mut bits: Vec<u32> = Vec::new();
    bits.push(0x3f80_0000);
    bits.push(0);
    bits.push(0x3f00_0000);
    bits.push(0x3e80_0000);
    proof {
        assert(bits@ =~= bench_vector());
    }
    bits
}

// ---------------------------------------------------------------------------------------------
// Comparisons
// ---------------------------------------------------------------------------------------------

/// How two answers to the same question compare.
#[derive(Debug, Clone, Copy, PartialEq, Eq, Structural)]
pub struct ComparisonCounts {
    pub limit: usize,
    pub exact_result_count: usize,
    pub hnsw_result_count: usize,
    pub overlap_count: usize,
    pub union_count: u128,
    pub top1_match: bool,
    pub exact_only_count: usize,
    pub hnsw_only_count: usize,
}

/// The ids of ranked nodes.
pub open spec fn ranked_ids(results: Seq<RankedModel>) -> Set<Seq<char>> {
    Set::new(
        |id: Seq<char>| exists|i: int| 0 <= i < results.len() && (#[trigger] results[i]).node.id == id,
    )
}

/// The id of the node that is ranked first.
pub open spec fn first_id(results: Seq<RankedModel>) -> Option<Seq<char>> {
    if results.len() > 0 {
        Some(results[0].node.id)
    } else {
        None
    }
}

fn ids_of(results: &[RankedNodeResult]) -> (r: OrderedSet<NodeId>)
    ensures
        r@ == ranked_ids(models(results@)),
{
    let ghost all = models(results@);
    let mut out: OrderedSet<NodeId> = OrderedSet::new();
    let mut i: usize = 0;
    while i < results.len()
        invariant
            i <= results.len(),
            all == models(results@),
            forall|id: Seq<char>| #[trigger]
                out@.contains(id) <==> exists|k: int| 0 <= k < i && (#[trigger] all[k]).node.id
                    == id,
        decreases results.len() - i,
    {
        let ghost before = out@;
        let _fresh: bool = out.insert(results[i].node.id.clone());
        proof {
            assert(all[i as int].node.id == results@[i as int]@.node.id);
            assert forall|id: Seq<char>| #[trigger] out@.contains(id) <==> exists|k: int|
                0 <= k < i + 1 && (#[trigger] all[k]).node.id == id by {
                if out@.contains(id) && !before.contains(id) {
                    assert(all[i as int].node.id == id);
                }
                if exists|k: int| 0 <= k < i + 1 && (#[trigger] all[k]).node.id == id {
                    let k = choose|k: int| 0 <= k < i + 1 && (#[trigger] all[k]).node.id == id;
                    if k < i {
                        assert(before.contains(id));
                    }
                }
            }
        }
        i = i + 1;
    }
    proof {
        assert(out@ =~= ranked_ids(all));
    }
    out
}

/// How many members two sets have in common.
fn common_count(a: &OrderedSet<NodeId>, b: &OrderedSet<NodeId>) -> (r: usize)
    ensures
        r == a@.intersect(b@).len(),
        a@.finite(),
        b@.finite(),
{
    let n: usize = a.len();
    let _m: usize = b.len();
    let ghost list = a.list();
    let ghost mut seen: Set<Seq<char>> = Set::empty();
    let mut count: usize = 0;
    let mut i: usize = 0;
    while i < n
        invariant
            i <= n,
            list == a.list(),
            n == list.len(),
            lists_sorted::<NodeId>(list, a@),
            count <= i,
            seen.finite(),
            seen.len() == count,
            forall|id: Seq<char>| #[trigger]
                seen.contains(id) <==> b@.contains(id) && exists|k: int| 0 <= k < i && list[k]
                    == id,
        decreases n - i,
    {
        let key: &NodeId = a.at(i);
        let ghost before = seen;
        let shared: bool = b.contains(key);
        proof {
            if before.contains(key@) {
                let k = choose|k: int| 0 <= k < i && list[k] == key@;
                assert(<NodeId as crate::ordered::OrderedKey>::less(list[k], list[i as int]));
                <NodeId as crate::ordered::OrderedKey>::less_irreflexive(key@);
            }
            if shared {
                seen = seen.insert(key@);
            }
            assert forall|id: Seq<char>| #[trigger] seen.contains(id) <==> b@.contains(id)
                && exists|k: int| 0 <= k < i + 1 && list[k] == id by {
                if seen.contains(id) && !before.contains(id) {
                    assert(list[i as int] == id);
                }
                if b@.contains(id) && exists|k: int| 0 <= k < i + 1 && list[k] == id {
                    let k = choose|k: int| 0 <= k < i + 1 && list[k] == id;
                    if k < i {
                        assert(before.contains(id));
                    }
                }
            }
        }
        if shared {
            count = count + 1;
        }
        i = i + 1;
    }
    proof {
        assert forall|id: Seq<char>| seen.contains(id) <==> a@.intersect(b@).contains(id) by {
            if a@.contains(id) {
                assert(list.contains(id));
            }
            if seen.contains(id) {
                let k = choose|k: int| 0 <= k < i && list[k] == id;
                assert(list.contains(list[k]));
            }
        }
        assert(seen =~= a@.intersect(b@));
    }
    count
}

/// Whether the same node is ranked first, or none is in either.
fn same_first(exact: &[RankedNodeResult], hnsw: &[RankedNodeResult]) -> (r: bool)
    ensures
        r == (first_id(models(exact@)) == first_id(models(hnsw@))),
{
    if exact.len() == 0 {
        return hnsw.len() == 0;
    }
    if hnsw.len() == 0 {
        return false;
    }
    proof {
        assert(models(exact@)[0] == exact@[0]@);
        assert(models(hnsw@)[0] == hnsw@[0]@);
    }
    text::same_text(exact[0].node.id.as_str(), hnsw[0].node.id.as_str())
}

/// Compares the answer that was found by looking at every vector with the one that a search graph
/// found.
pub fn compare_ranked_results(exact: &[RankedNodeResult], hnsw: &[RankedNodeResult]) -> (r:
    ComparisonCounts)
    ensures
        ({
            let a = ranked_ids(models(exact@));
            let b = ranked_ids(models(hnsw@));
            &&& r.limit == (if exact@.len() < hnsw@.len() {
                hnsw@.len()
            } else {
                exact@.len()
            })
            &&& r.exact_result_count == exact@.len()
            &&& r.hnsw_result_count == hnsw@.len()
            &&& r.overlap_count == a.intersect(b).len()
            &&& r.union_count == a.union(b).len()
            &&& r.exact_only_count == a.difference(b).len()
            &&& r.hnsw_only_count == b.difference(a).len()
            &&& r.top1_match == (first_id(models(exact@)) == first_id(models(hnsw@)))
        }),
{
    let exact_set: OrderedSet<NodeId> = ids_of(exact);
    let hnsw_set: OrderedSet<NodeId> = ids_of(hnsw);
    let overlap_count: usize = common_count(&exact_set, &hnsw_set);
    let exact_len: usize = exact_set.len();
    let hnsw_len: usize = hnsw_set.len();
    proof {
        let a = exact_set@;
        let b = hnsw_set@;
        vstd::set_lib::lemma_set_intersect_union_lens(a, b);
        vstd::set_lib::lemma_set_difference_len(a, b);
        vstd::set_lib::lemma_set_difference_len(b, a);
        assert(a.intersect(b) =~= b.intersect(a));
    }
    ComparisonCounts {
        limit: if exact.len() < hnsw.len() {
            hnsw.len()
        } else {
            exact.len()
        },
        exact_result_count: exact.len(),
        hnsw_result_count: hnsw.len(),
        overlap_count,
        union_count: exact_len as u128 + hnsw_len as u128 - overlap_count as u128,
        top1_match: same_first(exact, hnsw),
        exact_only_count: exact_len - overlap_count,
        hnsw_only_count: hnsw_len - overlap_count,
    }
}

// ---------------------------------------------------------------------------------------------
// Samples
// ---------------------------------------------------------------------------------------------

/// Whether samples stand in order.
pub open spec fn in_order(samples: Seq<u128>) -> bool {
    forall|i: int, j: int|
        0 <= i < j < samples.len() ==> #[trigger] samples[i] <= #[trigger] samples[j]
}

/// Puts a sample in its place.
fn place_sample(list: &mut Vec<u128>, sample: u128)
    requires
        in_order(old(list)@),
    ensures
        in_order(final(list)@),
        final(list)@.to_multiset() == old(list)@.to_multiset().insert(sample),
        final(list)@.len() == old(list)@.len() + 1,
{
    let ghost before = list@;
    let mut at: usize = 0;
    while at < list.len() && list[at] < sample
        invariant
            at <= list.len(),
            list@ == before,
            forall|i: int| 0 <= i < at ==> #[trigger] before[i] < sample,
        decreases list.len() - at,
    {
        at = at + 1;
    }
    list.insert(at, sample);
    proof {
        broadcast use vstd::seq_lib::group_to_multiset_ensures;

        let after = list@;
        assert(after == before.insert(at as int, sample));
        assert(after.remove(at as int) =~= before);
        assert(after[at as int] == sample);
        assert(after.contains(sample));
        assert(before.to_multiset() =~= after.to_multiset().remove(sample));
        assert(after.to_multiset() =~= before.to_multiset().insert(sample));
        assert forall|i: int, j: int| 0 <= i < j < after.len() implies #[trigger] after[i]
            <= #[trigger] after[j] by {
            let a = if i < at { i } else { i - 1 };
            let b = if j < at { j } else { j - 1 };
            if i == at {
                if j - 1 > at {
                    assert(before[at as int] <= before[j - 1]);
                }
            } else if j != at {
                assert(before[a] <= before[b]);
            }
        }
    }
}

/// The samples in order.
pub fn sort_samples(samples: &[u128]) -> (r: Vec<u128>)
    ensures
        in_order(r@),
        r@.to_multiset() == samples@.to_multiset(),
        r@.len() == samples@.len(),
{
    let mut out: Vec<u128> = Vec::new();
    let mut i: usize = 0;
    proof {
        assert(samples@.take(0) =~= out@);
    }
    while i < samples.len()
        invariant
            i <= samples.len(),
            in_order(out@),
            out@.len() == i,
            out@.to_multiset() == samples@.take(i as int).to_multiset(),
        decreases samples.len() - i,
    {
        place_sample(&mut out, samples[i]);
        proof {
            broadcast use vstd::seq_lib::group_to_multiset_ensures;

            assert(samples@.take(i + 1) =~= samples@.take(i as int).push(samples@[i as int]));
        }
        i = i + 1;
    }
    proof {
        assert(samples@.take(i as int) =~= samples@);
    }
    out
}

/// The samples in order, the least of them and the greatest; there is neither where there is none.
pub fn summarize(samples: &[u128]) -> (r: Option<(Vec<u128>, u128, u128)>)
    ensures
        r is Some <==> samples@.len() > 0,
        r matches Some((sorted, least, greatest)) ==> {
            &&& in_order(sorted@)
            &&& sorted@.to_multiset() == samples@.to_multiset()
            &&& samples@.contains(least) && samples@.contains(greatest)
            &&& forall|i: int|
                0 <= i < samples@.len() ==> least <= #[trigger] samples@[i] <= greatest
        },
{
    if samples.len() == 0 {
        return None;
    }
    let sorted: Vec<u128> = sort_samples(samples);
    let least: u128 = sorted[0];
    let greatest: u128 = sorted[sorted.len() - 1];
    proof {
        broadcast use vstd::seq_lib::group_to_multiset_ensures;

        assert(sorted@.contains(least));
        assert(sorted@.contains(greatest));
        assert(samples@.to_multiset().count(least) > 0);
        assert(samples@.to_multiset().count(greatest) > 0);
        assert forall|i: int| 0 <= i < samples@.len() implies least <= #[trigger] samples@[i]
            <= greatest by {
            assert(samples@.contains(samples@[i]));
            assert(samples@.to_multiset().count(samples@[i]) > 0);
            assert(sorted@.to_multiset().count(samples@[i]) > 0);
            assert(sorted@.contains(samples@[i]));
        }
    }
    Some((sorted, least, greatest))
}

} // verus!
