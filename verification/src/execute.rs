//! Running queries.
use vstd::prelude::*;
use vstd::string::*;

use crate::clock::{ran_out, was_in_time};
use crate::common::{EdgeId, ErrorModel, NodeId, Result};
use crate::distances::{distances, graph_distances};
use crate::filters::{meeting, meets, FilterExpression};
use crate::graph::{GraphView, SemanticCandidateQuery, SemanticModel};
use crate::index::{optional_models, EdgeDirection};
use crate::memory::{profile_error, resolve_retrieval_profile, RetrievalProfile};
use crate::ordered::{lemma_filter_step, models, sorted_keys, OrderedMap, OrderedSet, Replicate};
use crate::paths::{path_allowed, shortest_path};
use crate::plan::{
    limit_or_default, planned, request_error, resolve_result_limit, resolve_traversal_runtime,
    runtime_model, timeout_or_default, vector_space_name, Planner, QueryPlan, QueryRequest, TraversalRuntime,
};
use crate::rank::{is_listing, top_ranked};
use crate::records::{EdgeModel, EdgeRecord, NodeModel, NodeRecord};
use crate::results::{
    edge_items, node_items, nodes_as_items, path_items, ranked_items, GraphPath, ItemModel,
    PathModel, QueryExecution, QueryExecutionItem, QueryResponse, RankedModel, RankedNodeResult,
    ScoreBreakdown,
};
use crate::text;
use crate::traverse::{far_end, neighbor_of, node_item, traverse, walked};

verus! {

// ---------------------------------------------------------------------------------------------
// Looking up
// ---------------------------------------------------------------------------------------------

/// The nodes of ids, those that the graph has.
pub open spec fn found_nodes<G: GraphView>(view: &G, ids: Seq<Seq<char>>) -> Seq<NodeModel>
    decreases ids.len(),
{
    if ids.len() == 0 {
        Seq::empty()
    } else {
        let before = found_nodes(view, ids.drop_last());
        match view.node_at(ids.last()) {
            Some(node) => before.push(node),
            None => before,
        }
    }
}

/// The edges of ids, those that the graph has.
pub open spec fn found_edges<G: GraphView>(view: &G, ids: Seq<Seq<char>>) -> Seq<EdgeModel>
    decreases ids.len(),
{
    if ids.len() == 0 {
        Seq::empty()
    } else {
        let before = found_edges(view, ids.drop_last());
        match view.edge_at(ids.last()) {
            Some(edge) => before.push(edge),
            None => before,
        }
    }
}

/// The first items of a list.
pub open spec fn first<A>(items: Seq<A>, count: usize) -> Seq<A> {
    if items.len() <= count {
        items
    } else {
        items.take(count as int)
    }
}

/// The nodes of ids, those that the graph has, up to the limit.
pub fn find_nodes<G: GraphView>(view: &G, ids: &Vec<NodeId>, limit: usize) -> (r: Vec<NodeRecord>)
    ensures
        models(r@) == first(found_nodes(view, models(ids@)), limit),
{
    let ghost all = models(ids@);
    let mut out: Vec<NodeRecord> = Vec::new();
    let mut i: usize = 0;
    proof {
        assert(all.take(0).len() == 0);
        assert(models(out@) =~= Seq::empty());
    }
    while i < ids.len() && out.len() < limit
        invariant
            i <= ids.len(),
            all == models(ids@),
            out.len() <= limit,
            models(out@) == found_nodes(view, all.take(i as int)),
        decreases ids.len() - i,
    {
        proof {
            assert(all.take(i + 1).drop_last() =~= all.take(i as int));
            assert(all.take(i + 1).last() == ids@[i as int]@);
        }
        let ghost held = out@;
        match view.get_node(&ids[i]) {
            Some(node) => {
                out.push(node);
                proof {
                    assert(models(out@) =~= models(held).push(node@));
                }
            },
            None => {},
        }
        i = i + 1;
    }
    proof {
        assert(models(out@).len() == out.len());
        lemma_found_prefix(view, all, i as int);
        assert(all.take(ids.len() as int) =~= all);
        assert(models(out@) =~= first(found_nodes(view, all), limit));
    }
    out
}

proof fn lemma_found_prefix<G: GraphView>(view: &G, ids: Seq<Seq<char>>, i: int)
    requires
        0 <= i <= ids.len(),
    ensures
        found_nodes(view, ids.take(i)).len() <= found_nodes(view, ids).len(),
        found_nodes(view, ids).take(found_nodes(view, ids.take(i)).len() as int) == found_nodes(
            view,
            ids.take(i),
        ),
    decreases ids.len(),
{
    if i == ids.len() {
        assert(ids.take(i) =~= ids);
        assert(found_nodes(view, ids).take(found_nodes(view, ids).len() as int) =~= found_nodes(
            view,
            ids,
        ));
    } else {
        let short = ids.drop_last();
        lemma_found_prefix(view, short, i);
        assert(short.take(i) =~= ids.take(i));
        let n = found_nodes(view, ids.take(i)).len() as int;
        assert(found_nodes(view, ids).take(n) =~= found_nodes(view, short).take(n));
    }
}

/// The edges of ids, those that the graph has.
pub fn find_edges<G: GraphView>(view: &G, ids: &Vec<EdgeId>) -> (r: Vec<EdgeRecord>)
    ensures
        models(r@) == found_edges(view, models(ids@)),
{
    let ghost all = models(ids@);
    let mut out: Vec<EdgeRecord> = Vec::new();
    let mut i: usize = 0;
    proof {
        assert(all.take(0).len() == 0);
        assert(models(out@) =~= Seq::empty());
    }
    while i < ids.len()
        invariant
            i <= ids.len(),
            all == models(ids@),
            models(out@) == found_edges(view, all.take(i as int)),
        decreases ids.len() - i,
    {
        proof {
            assert(all.take(i + 1).drop_last() =~= all.take(i as int));
            assert(all.take(i + 1).last() == ids@[i as int]@);
        }
        let ghost held = out@;
        match view.get_edge(&ids[i]) {
            Some(edge) => {
                out.push(edge);
                proof {
                    assert(models(out@) =~= models(held).push(edge@));
                }
            },
            None => {},
        }
        i = i + 1;
    }
    proof {
        assert(all.take(i as int) =~= all);
    }
    out
}

// ---------------------------------------------------------------------------------------------
// Neighbours
// ---------------------------------------------------------------------------------------------

/// What has been found along the edges of a node.
pub struct NeighborModel {
    pub seen: Set<Seq<char>>,
    pub nodes: Seq<NodeModel>,
    pub edges: Seq<EdgeModel>,
}

/// What is found along edges of a node: every edge that the graph has, and every node that they
/// lead to, once.
pub open spec fn neighbors_along<G: GraphView>(
    view: &G,
    node: Seq<char>,
    direction: EdgeDirection,
    ids: Seq<Seq<char>>,
) -> NeighborModel
    decreases ids.len(),
{
    if ids.len() == 0 {
        NeighborModel { seen: Set::empty(), nodes: Seq::empty(), edges: Seq::empty() }
    } else {
        let before = neighbors_along(view, node, direction, ids.drop_last());
        match view.edge_at(ids.last()) {
            Some(edge) => {
                let to = far_end(edge, node, direction);
                NeighborModel {
                    seen: before.seen.insert(to),
                    nodes: if before.seen.contains(to) || view.node_at(to) is None {
                        before.nodes
                    } else {
                        before.nodes.push(view.node_at(to)->0)
                    },
                    edges: before.edges.push(edge),
                }
            },
            None => before,
        }
    }
}

/// What is found along the first edges of a node, up to the limit.
pub open spec fn neighbor_results<G: GraphView>(
    view: &G,
    node: Seq<char>,
    direction: EdgeDirection,
    edge_type: Option<Seq<char>>,
    limit: usize,
) -> NeighborModel {
    neighbors_along(
        view,
        node,
        direction,
        first(view.incident_ids(node, direction, edge_type), limit),
    )
}

/// The nodes and edges along the first edges of a node, up to the limit.
pub fn collect_neighbor_results<G: GraphView>(
    view: &G,
    node_id: &NodeId,
    direction: EdgeDirection,
    edge_type: Option<&str>,
    limit: usize,
) -> (r: (Vec<NodeRecord>, Vec<EdgeRecord>))
    ensures
        ({
            let found = neighbor_results(
                view,
                node_id@,
                direction,
                text::optional_text(edge_type),
                limit,
            );
            models(r.0@) == found.nodes && models(r.1@) == found.edges
        }),
{
    let ids: Vec<EdgeId> = view.edge_ids_for_iter(node_id, direction, edge_type);
    let ghost all = models(ids@);
    let mut seen: OrderedSet<NodeId> = OrderedSet::new();
    let mut nodes: Vec<NodeRecord> = Vec::new();
    let mut edges: Vec<EdgeRecord> = Vec::new();
    let mut i: usize = 0;
    proof {
        assert(all.take(0).len() == 0);
        assert(models(nodes@) =~= Seq::empty());
        assert(models(edges@) =~= Seq::empty());
    }
    while i < ids.len() && i < limit
        invariant
            i <= ids.len(),
            i <= limit,
            all == models(ids@),
            ({
                let found = neighbors_along(view, node_id@, direction, all.take(i as int));
                seen@ == found.seen && models(nodes@) == found.nodes && models(edges@)
                    == found.edges
            }),
        decreases ids.len() - i,
    {
        proof {
            assert(all.take(i + 1).drop_last() =~= all.take(i as int));
            assert(all.take(i + 1).last() == ids@[i as int]@);
        }
        let ghost nodes0 = nodes@;
        let ghost edges0 = edges@;
        match view.get_edge(&ids[i]) {
            Some(edge) => {
                let neighbor: NodeId = neighbor_of(&edge, node_id, direction);
                if seen.insert(neighbor.clone()) {
                    match view.get_node(&neighbor) {
                        Some(node) => {
                            nodes.push(node);
                            proof {
                                assert(models(nodes@) =~= models(nodes0).push(node@));
                            }
                        },
                        None => {},
                    }
                }
                edges.push(edge);
                proof {
                    assert(models(edges@) =~= models(edges0).push(edge@));
                }
            },
            None => {},
        }
        i = i + 1;
    }
    proof {
        assert(all.take(i as int) =~= first(all, limit));
    }
    (nodes, edges)
}

// ---------------------------------------------------------------------------------------------
// Spans of time
// ---------------------------------------------------------------------------------------------

/// Whether a property of a node is an integer in a span.
pub open spec fn property_within(node: NodeModel, field: Seq<char>, from: i64, to: i64) -> bool {
    match node.integer_property(field) {
        Some(value) => from <= value <= to,
        None => false,
    }
}

/// The nodes whose property lies in a span, up to the limit. The property `timestamp` is looked
/// up in the index.
pub open spec fn time_range_nodes<G: GraphView>(
    view: &G,
    field: Seq<char>,
    from: i64,
    to: i64,
    limit: usize,
) -> Seq<NodeModel> {
    if field == "timestamp"@ {
        first(found_nodes(view, view.time_ids(from, to)), limit)
    } else {
        first(view.all_nodes().filter(|node: NodeModel| property_within(node, field, from, to)), limit)
    }
}

/// The nodes whose property lies in a span, up to the limit.
pub fn time_range_execution<G: GraphView>(
    view: &G,
    field: &str,
    from_epoch_ms: i64,
    to_epoch_ms: i64,
    limit: usize,
) -> (r: Vec<NodeRecord>)
    requires
        from_epoch_ms <= to_epoch_ms,
    ensures
        models(r@) == time_range_nodes(view, field@, from_epoch_ms, to_epoch_ms, limit),
{
    if text::same_text(field, "timestamp") {
        let ids: Vec<NodeId> = view.node_ids_in_time_range_iter(from_epoch_ms, to_epoch_ms);
        return find_nodes(view, &ids, limit);
    }
    let all: Vec<NodeRecord> = view.all_nodes_iter();
    let ghost whole = models(all@);
    let ghost test = |node: NodeModel| property_within(node, field@, from_epoch_ms, to_epoch_ms);
    let mut out: Vec<NodeRecord> = Vec::new();
    let mut i: usize = 0;
    proof {
        reveal(Seq::filter);
        assert(whole.take(0).filter(test).len() == 0);
        assert(models(out@) =~= whole.take(0).filter(test));
    }
    while i < all.len() && out.len() < limit
        invariant
            i <= all.len(),
            whole == models(all@),
            test == (|node: NodeModel| property_within(node, field@, from_epoch_ms, to_epoch_ms)),
            out.len() <= limit,
            models(out@) == whole.take(i as int).filter(test),
        decreases all.len() - i,
    {
        proof {
            lemma_filter_step(whole, test, i as int);
            assert(whole[i as int] == all@[i as int]@);
        }
        let ghost held = out@;
        match all[i].integer_property(field) {
            Some(value) => {
                if value >= from_epoch_ms && value <= to_epoch_ms {
                    out.push(all[i].replicate());
                    proof {
                        assert(models(out@) =~= models(held).push(all@[i as int]@));
                    }
                }
            },
            None => {},
        }
        i = i + 1;
    }
    proof {
        lemma_filter_prefix(whole, test, i as int);
        assert(whole.take(all.len() as int) =~= whole);
        assert(models(out@) =~= first(whole.filter(test), limit));
    }
    out
}

proof fn lemma_filter_prefix(all: Seq<NodeModel>, test: spec_fn(NodeModel) -> bool, i: int)
    requires
        0 <= i <= all.len(),
    ensures
        all.take(i).filter(test).len() <= all.filter(test).len(),
        all.filter(test).take(all.take(i).filter(test).len() as int) == all.take(i).filter(test),
    decreases all.len(),
{
    if i == all.len() {
        assert(all.take(i) =~= all);
        assert(all.filter(test).take(all.filter(test).len() as int) =~= all.filter(test));
    } else {
        let short = all.drop_last();
        lemma_filter_prefix(short, test, i);
        assert(short.take(i) =~= all.take(i));
        lemma_filter_step(all, test, all.len() - 1);
        assert(all.take(all.len() - 1) =~= short);
        assert(all.take(all.len() as int) =~= all);
        let n = all.take(i).filter(test).len() as int;
        assert(all.filter(test).take(n) =~= short.filter(test).take(n));
    }
}

// ---------------------------------------------------------------------------------------------
// Ranking
// ---------------------------------------------------------------------------------------------

/// The score of a node and its parts, as the bits of singles.
#[derive(Debug, Clone, Copy, PartialEq, Eq, Structural)]
pub struct NodeScore {
    pub score: u32,
    pub breakdown: ScoreBreakdown,
}

impl View for NodeScore {
    type V = NodeScore;

    open spec fn view(&self) -> NodeScore {
        *self
    }
}

/// What a ranked query takes from outside: what a search graph found, if one was searched, and
/// the scores of the nodes that the query compares.
pub struct RankingInputs {
    pub hits: Option<Vec<NodeId>>,
    pub scores: OrderedMap<NodeId, NodeScore>,
}

impl RankingInputs {
    /// Nothing found and nothing scored.
    pub fn none() -> (r: Self)
        ensures
            r.hits is None,
            r.scores@ == Map::<Seq<char>, NodeScore>::empty(),
    {
        RankingInputs { hits: None, scores: OrderedMap::new() }
    }
}

/// Whether a node's time lies in a span that may be open at either end. A node without a time
/// lies only in the span that is open at both.
pub open spec fn within_optional_time(node: NodeModel, from: Option<i64>, to: Option<i64>) -> bool {
    if from is None && to is None {
        true
    } else {
        match node.timestamp() {
            Some(time) => (from matches Some(f) ==> f <= time) && (to matches Some(t) ==> time
                <= t),
            None => false,
        }
    }
}

/// Whether a node's time lies in a span that may be open at either end.
pub fn within_optional_time_range(
    node: &NodeRecord,
    from_epoch_ms: Option<i64>,
    to_epoch_ms: Option<i64>,
) -> (r: bool)
    ensures
        r == within_optional_time(node@, from_epoch_ms, to_epoch_ms),
{
    if from_epoch_ms.is_none() && to_epoch_ms.is_none() {
        return true;
    }
    match node.timestamp_ms() {
        Some(timestamp) => {
            let late_enough: bool = match from_epoch_ms {
                Some(from) => timestamp >= from,
                None => true,
            };
            let early_enough: bool = match to_epoch_ms {
                Some(to) => timestamp <= to,
                None => true,
            };
            late_enough && early_enough
        },
        None => false,
    }
}

/// The nodes whose time lies in a span that may be open at either end.
fn keep_within(nodes: Vec<NodeRecord>, from: Option<i64>, to: Option<i64>) -> (r: Vec<NodeRecord>)
    ensures
        models(r@) == models(nodes@).filter(
            |node: NodeModel| within_optional_time(node, from, to),
        ),
{
    let ghost whole = models(nodes@);
    let ghost test = |node: NodeModel| within_optional_time(node, from, to);
    let mut out: Vec<NodeRecord> = Vec::new();
    let mut i: usize = 0;
    proof {
        reveal(Seq::filter);
        assert(whole.take(0).filter(test).len() == 0);
        assert(models(out@) =~= whole.take(0).filter(test));
    }
    while i < nodes.len()
        invariant
            i <= nodes.len(),
            whole == models(nodes@),
            test == (|node: NodeModel| within_optional_time(node, from, to)),
            models(out@) == whole.take(i as int).filter(test),
        decreases nodes.len() - i,
    {
        proof {
            lemma_filter_step(whole, test, i as int);
            assert(whole[i as int] == nodes@[i as int]@);
        }
        let ghost held = out@;
        if within_optional_time_range(&nodes[i], from, to) {
            out.push(nodes[i].replicate());
            proof {
                assert(models(out@) =~= models(held).push(nodes@[i as int]@));
            }
        }
        i = i + 1;
    }
    proof {
        assert(whole.take(i as int) =~= whole);
    }
    out
}

/// The ids of distances, if there are any.
pub open spec fn distance_ids(known: Option<Map<Seq<char>, u8>>) -> Set<Seq<char>> {
    match known {
        Some(map) => map.dom(),
        None => Set::empty(),
    }
}

/// The nodes that a ranked retrieval compares. With a query vector these are the nodes that a
/// search by the vector gives and those near the reference node, if there are any of either; else
/// all nodes. The span of time holds in every case.
pub open spec fn retrieval_nodes<G: GraphView>(
    view: &G,
    semantic: Option<Seq<Seq<char>>>,
    known: Option<Map<Seq<char>, u8>>,
    from: Option<i64>,
    to: Option<i64>,
) -> Seq<NodeModel> {
    let near = match semantic {
        Some(ids) => ids.to_set().union(distance_ids(known)),
        None => Set::empty(),
    };
    let within = |node: NodeModel| within_optional_time(node, from, to);
    if near != Set::<Seq<char>>::empty() {
        found_nodes(view, sorted_keys::<NodeId>(near)).filter(within)
    } else if from is Some && to is Some {
        found_nodes(view, view.time_ids(from->0, to->0))
    } else {
        view.all_nodes().filter(within)
    }
}

/// The nodes that a ranked retrieval compares.
fn ranked_retrieval_candidates<G: GraphView>(
    view: &G,
    semantic: &Option<Vec<NodeId>>,
    known: &Option<OrderedMap<NodeId, u8>>,
    from_epoch_ms: Option<i64>,
    to_epoch_ms: Option<i64>,
) -> (r: Vec<NodeRecord>)
    requires
        from_epoch_ms matches Some(from) ==> (to_epoch_ms matches Some(to) ==> from <= to),
    ensures
        models(r@) == retrieval_nodes(
            view,
            optional_models(*semantic),
            crate::graph::optional_view(*known),
            from_epoch_ms,
            to_epoch_ms,
        ),
{
    let ghost near = match optional_models(*semantic) {
        Some(ids) => ids.to_set().union(distance_ids(crate::graph::optional_view(*known))),
        None => Set::empty(),
    };
    let mut ids: OrderedSet<NodeId> = OrderedSet::new();
    match semantic {
        Some(given) => {
            let ghost want = models(given@);
            let mut i: usize = 0;
            while i < given.len()
                invariant
                    i <= given.len(),
                    want == models(given@),
                    ids@ == want.take(i as int).to_set(),
                decreases given.len() - i,
            {
                ids.insert(given[i].clone());
                proof {
                    let prefix = want.take(i as int);
                    let longer = want.take(i + 1);
                    assert(longer =~= prefix.push(want[i as int]));
                    assert forall|b: Seq<char>| longer.to_set().contains(b)
                        <==> prefix.to_set().insert(want[i as int]).contains(b) by {
                        crate::reach::lemma_push_contains(prefix, want[i as int], b);
                    }
                    assert(longer.to_set() =~= prefix.to_set().insert(want[i as int]));
                }
                i = i + 1;
            }
            proof {
                assert(want.take(i as int) =~= want);
            }
            match known {
                Some(map) => {
                    let n: usize = map.len();
                    let ghost start = ids@;
                    let ghost keys = map.keys();
                    let mut j: usize = 0;
                    proof {
                        assert(keys.take(0).to_set() =~= Set::<Seq<char>>::empty());
                    }
                    while j < n
                        invariant
                            j <= n,
                            n == keys.len(),
                            keys == map.keys(),
                            ids@ == start.union(keys.take(j as int).to_set()),
                        decreases n - j,
                    {
                        ids.insert(map.key_at(j).clone());
                        proof {
                            let prefix = keys.take(j as int);
                            let longer = keys.take(j + 1);
                            assert(longer =~= prefix.push(keys[j as int]));
                            assert forall|b: Seq<char>| longer.to_set().contains(b)
                                <==> prefix.to_set().insert(keys[j as int]).contains(b) by {
                                crate::reach::lemma_push_contains(prefix, keys[j as int], b);
                            }
                            assert(ids@ =~= start.union(longer.to_set()));
                        }
                        j = j + 1;
                    }
                    proof {
                        assert(keys.take(j as int) =~= keys);
                        assert(keys.to_set() =~= map@.dom());
                    }
                },
                None => {},
            }
        },
        None => {},
    }
    proof {
        assert(ids@ =~= near);
    }
    let count: usize = ids.len();
    proof {
        if count > 0 {
            assert(near.len() > 0);
        } else {
            assert(near =~= Set::<Seq<char>>::empty());
        }
    }
    if count > 0 {
        let listed: Vec<NodeId> = ids.to_list();
        let found: Vec<NodeRecord> = find_nodes(view, &listed, usize::MAX);
        proof {
            lemma_found_len(view, models(listed@));
        }
        return keep_within(found, from_epoch_ms, to_epoch_ms);
    }
    if let (Some(from), Some(to)) = (from_epoch_ms, to_epoch_ms) {
        let listed: Vec<NodeId> = view.node_ids_in_time_range_iter(from, to);
        proof {
            lemma_found_len(view, models(listed@));
            assert(models(listed@).len() == listed.len());
        }
        return find_nodes(view, &listed, usize::MAX);
    }
    keep_within(view.all_nodes_iter(), from_epoch_ms, to_epoch_ms)
}

proof fn lemma_found_len<G: GraphView>(view: &G, ids: Seq<Seq<char>>)
    ensures
        found_nodes(view, ids).len() <= ids.len(),
    decreases ids.len(),
{
    if ids.len() > 0 {
        lemma_found_len(view, ids.drop_last());
    }
}

/// The nodes with a vector of a name.
pub open spec fn with_vector(nodes: Seq<NodeModel>, name: Seq<char>) -> Seq<NodeModel> {
    nodes.filter(|node: NodeModel| node.vectors.contains_key(name))
}

/// The results of a vector search: every node that has a score is given its semantic part.
pub open spec fn vector_results(nodes: Seq<NodeModel>, scores: Map<Seq<char>, NodeScore>) -> Seq<
    RankedModel,
>
    decreases nodes.len(),
{
    if nodes.len() == 0 {
        Seq::empty()
    } else {
        let before = vector_results(nodes.drop_last(), scores);
        let node = nodes.last();
        if scores.contains_key(node.id) {
            let semantic = scores[node.id].breakdown.semantic;
            before.push(
                RankedModel {
                    node,
                    score: semantic,
                    breakdown: ScoreBreakdown {
                        structural: 0,
                        semantic,
                        temporal: 0,
                        importance: 0,
                        confidence: 0,
                    },
                },
            )
        } else {
            before
        }
    }
}

/// The results of a ranked retrieval: every node that has a score is given it.
pub open spec fn scored_results(nodes: Seq<NodeModel>, scores: Map<Seq<char>, NodeScore>) -> Seq<
    RankedModel,
>
    decreases nodes.len(),
{
    if nodes.len() == 0 {
        Seq::empty()
    } else {
        let before = scored_results(nodes.drop_last(), scores);
        let node = nodes.last();
        if scores.contains_key(node.id) {
            before.push(
                RankedModel {
                    node,
                    score: scores[node.id].score,
                    breakdown: scores[node.id].breakdown,
                },
            )
        } else {
            before
        }
    }
}

/// The results of nodes that have scores, by the semantic part alone or by the whole score.
fn score_nodes(nodes: &Vec<NodeRecord>, inputs: &RankingInputs, semantic_only: bool) -> (r: Vec<
    RankedNodeResult,
>)
    ensures
        semantic_only ==> models(r@) == vector_results(models(nodes@), inputs.scores@),
        !semantic_only ==> models(r@) == scored_results(models(nodes@), inputs.scores@),
{
    let ghost all = models(nodes@);
    let mut out: Vec<RankedNodeResult> = Vec::new();
    let mut i: usize = 0;
    proof {
        assert(all.take(0).len() == 0);
        assert(models(out@) =~= Seq::empty());
    }
    while i < nodes.len()
        invariant
            i <= nodes.len(),
            all == models(nodes@),
            semantic_only ==> models(out@) == vector_results(all.take(i as int), inputs.scores@),
            !semantic_only ==> models(out@) == scored_results(all.take(i as int), inputs.scores@),
        decreases nodes.len() - i,
    {
        proof {
            assert(all.take(i + 1).drop_last() =~= all.take(i as int));
            assert(all.take(i + 1).last() == nodes@[i as int]@);
        }
        let ghost held = out@;
        match inputs.scores.get(&nodes[i].id) {
            Some(given) => {
                let result: RankedNodeResult = if semantic_only {
                    RankedNodeResult {
                        node: nodes[i].replicate(),
                        score: given.breakdown.semantic,
                        breakdown: ScoreBreakdown {
                            structural: 0,
                            semantic: given.breakdown.semantic,
                            temporal: 0,
                            importance: 0,
                            confidence: 0,
                        },
                    }
                } else {
                    RankedNodeResult {
                        node: nodes[i].replicate(),
                        score: given.score,
                        breakdown: given.breakdown,
                    }
                };
                let ghost model = result@;
                out.push(result);
                proof {
                    assert(models(out@) =~= models(held).push(model));
                }
            },
            None => {},
        }
        i = i + 1;
    }
    proof {
        assert(all.take(i as int) =~= all);
    }
    out
}

/// The nodes with a vector of a name.
fn keep_with_vector(nodes: Vec<NodeRecord>, name: &str) -> (r: Vec<NodeRecord>)
    ensures
        models(r@) == with_vector(models(nodes@), name@),
{
    let ghost whole = models(nodes@);
    let ghost test = |node: NodeModel| node.vectors.contains_key(name@);
    let mut out: Vec<NodeRecord> = Vec::new();
    let mut i: usize = 0;
    proof {
        reveal(Seq::filter);
        assert(whole.take(0).filter(test).len() == 0);
        assert(models(out@) =~= whole.take(0).filter(test));
    }
    while i < nodes.len()
        invariant
            i <= nodes.len(),
            whole == models(nodes@),
            test == (|node: NodeModel| node.vectors.contains_key(name@)),
            models(out@) == whole.take(i as int).filter(test),
        decreases nodes.len() - i,
    {
        proof {
            lemma_filter_step(whole, test, i as int);
            assert(whole[i as int] == nodes@[i as int]@);
        }
        let ghost held = out@;
        if nodes[i].vector(name).is_some() {
            out.push(nodes[i].replicate());
            proof {
                assert(models(out@) =~= models(held).push(nodes@[i as int]@));
            }
        }
        i = i + 1;
    }
    proof {
        assert(whole.take(i as int) =~= whole);
    }
    out
}

/// The name of the vector space of a request, or `default`.
fn space_name(name: &Option<String>) -> (r: &str)
    ensures
        r@ == vector_space_name(*name),
{
    match name {
        Some(n) => n.as_str(),
        None => "default",
    }
}

/// The nodes that a vector search compares with its query vector.
pub open spec fn vector_search_nodes<G: GraphView>(
    view: &G,
    dimension: nat,
    name: Seq<char>,
    node_type: Option<Seq<char>>,
    limit: usize,
    top_k: Option<usize>,
    hits: Option<Seq<Seq<char>>>,
) -> Seq<NodeModel> {
    with_vector(
        found_nodes(
            view,
            view.semantic_ids(
                SemanticModel {
                    query_dimension: dimension,
                    vector_name: name,
                    node_type,
                    limit,
                    top_k_override: top_k,
                    hits,
                },
            ),
        ),
        name,
    )
}

/// The distances that a ranked retrieval goes by: those from its reference node, if it has one.
pub open spec fn reference_distances<G: GraphView>(
    view: &G,
    reference: Option<NodeId>,
    edge_type: Option<String>,
) -> Option<Map<Seq<char>, u8>> {
    match reference {
        Some(node) => Some(distances(view, node@, text::optional_string(edge_type))),
        None => None,
    }
}

/// What a search by the query vector of a ranked retrieval gives, if it has one.
pub open spec fn retrieval_semantic_ids<G: GraphView>(
    view: &G,
    query_vector: Option<Vec<u32>>,
    name: Seq<char>,
    limit: usize,
    top_k: Option<usize>,
    hits: Option<Seq<Seq<char>>>,
) -> Option<Seq<Seq<char>>> {
    match query_vector {
        Some(vector) => Some(
            view.semantic_ids(
                SemanticModel {
                    query_dimension: vector@.len(),
                    vector_name: name,
                    node_type: None,
                    limit,
                    top_k_override: top_k,
                    hits,
                },
            ),
        ),
        None => None,
    }
}

/// The nodes that a ranked query compares, and none for other queries.
pub open spec fn compared_nodes<G: GraphView>(
    view: &G,
    request: QueryRequest,
    hits: Option<Seq<Seq<char>>>,
) -> Seq<NodeModel> {
    match request {
        QueryRequest::VectorSearch { query_vector, node_type, vector_name, limit, top_k } =>
            vector_search_nodes(
                view,
                query_vector@.len(),
                vector_space_name(vector_name),
                text::optional_string(node_type),
                limit,
                top_k,
                hits,
            ),
        QueryRequest::RankedRetrieval {
            query_vector,
            reference_node_id,
            edge_type,
            from_epoch_ms,
            to_epoch_ms,
            vector_name,
            limit,
            top_k,
            ..
        } => retrieval_nodes(
            view,
            retrieval_semantic_ids(
                view,
                query_vector,
                vector_space_name(vector_name),
                limit,
                top_k,
                hits,
            ),
            reference_distances(view, reference_node_id, edge_type),
            from_epoch_ms,
            to_epoch_ms,
        ),
        _ => Seq::empty(),
    }
}

/// A node that a ranked query compares, and how far it is from the reference node.
#[derive(Debug, PartialEq, Eq)]
pub struct RankingCandidate {
    pub node: NodeRecord,
    pub distance: Option<u8>,
}

/// The model of a node that a ranked query compares.
pub struct CandidateModel {
    pub node: NodeModel,
    pub distance: Option<u8>,
}

impl View for RankingCandidate {
    type V = CandidateModel;

    open spec fn view(&self) -> CandidateModel {
        CandidateModel { node: self.node@, distance: self.distance }
    }
}

/// The distance of a node, if it has one.
pub open spec fn distance_in(known: Option<Map<Seq<char>, u8>>, id: Seq<char>) -> Option<u8> {
    match known {
        Some(map) => if map.contains_key(id) {
            Some(map[id])
        } else {
            None
        },
        None => None,
    }
}

/// Nodes with their distances.
pub open spec fn with_distances(nodes: Seq<NodeModel>, known: Option<Map<Seq<char>, u8>>) -> Seq<
    CandidateModel,
> {
    Seq::new(
        nodes.len(),
        |i: int| CandidateModel { node: nodes[i], distance: distance_in(known, nodes[i].id) },
    )
}

/// The distances that a ranked query goes by.
pub open spec fn request_distances<G: GraphView>(view: &G, request: QueryRequest) -> Option<
    Map<Seq<char>, u8>,
> {
    match request {
        QueryRequest::RankedRetrieval { reference_node_id, edge_type, .. } => reference_distances(
            view,
            reference_node_id,
            edge_type,
        ),
        _ => None,
    }
}

// ---------------------------------------------------------------------------------------------
// The executor
// ---------------------------------------------------------------------------------------------

/// What is wrong with a request, if anything is: what a plan would find, and after that the name
/// of the profile.
pub open spec fn execution_error(request: QueryRequest) -> Option<ErrorModel> {
    match request_error(request) {
        Some(error) => Some(error),
        None => match request {
            QueryRequest::RankedRetrieval { retrieval_profile, .. } => profile_error(
                text::optional_string(retrieval_profile),
            ),
            _ => None,
        },
    }
}

/// The profile that an answer names.
pub open spec fn answer_profile(request: QueryRequest) -> Option<Seq<char>> {
    match request {
        QueryRequest::RankedRetrieval { .. } => Some("v1-default"@),
        _ => None,
    }
}

/// The items of an answer to a search for a path.
pub open spec fn path_answer<G: GraphView>(view: &G, path: Option<PathModel>) -> Seq<ItemModel> {
    match path {
        Some(found) => node_items(found_nodes(view, found.node_ids)) + edge_items(
            found_edges(view, found.edge_ids),
        ) + path_items(path),
        None => Seq::empty(),
    }
}

/// The nodes that a condition is tried on: those with a label, or all.
pub open spec fn looked_at<G: GraphView>(view: &G, label: Option<String>) -> Seq<NodeModel> {
    match label {
        Some(l) => found_nodes(view, view.typed_ids(l@)),
        None => view.all_nodes(),
    }
}

/// The first nodes that meet a condition, of those with a label or of all.
fn filter_nodes<G: GraphView>(
    view: &G,
    label: &Option<String>,
    filter: &FilterExpression,
    limit: usize,
) -> (r: Vec<NodeRecord>)
    ensures
        models(r@) == first(meeting(looked_at(view, *label), *filter), limit),
{
    let nodes: Vec<NodeRecord> = match label {
        Some(l) => {
            let ids: Vec<NodeId> = view.node_ids_by_type(l.as_str());
            proof {
                lemma_found_len(view, models(ids@));
                assert(models(ids@).len() == ids.len());
            }
            find_nodes(view, &ids, usize::MAX)
        },
        None => view.all_nodes_iter(),
    };
    let ghost whole = models(nodes@);
    let ghost test = |node: NodeModel| meets(*filter, node);
    let mut out: Vec<NodeRecord> = Vec::new();
    let mut i: usize = 0;
    proof {
        reveal(Seq::filter);
        assert(whole.take(0).filter(test).len() == 0);
        assert(models(out@) =~= whole.take(0).filter(test));
    }
    while i < nodes.len() && out.len() < limit
        invariant
            i <= nodes.len(),
            out.len() <= limit,
            whole == models(nodes@),
            test == (|node: NodeModel| meets(*filter, node)),
            models(out@) == whole.take(i as int).filter(test),
        decreases nodes.len() - i,
    {
        proof {
            lemma_filter_step(whole, test, i as int);
            assert(whole[i as int] == nodes@[i as int]@);
        }
        let ghost held = out@;
        if filter.matches_node(&nodes[i]) {
            out.push(nodes[i].replicate());
            proof {
                assert(models(out@) =~= models(held).push(nodes@[i as int]@));
            }
        }
        i = i + 1;
    }
    proof {
        assert(models(out@).len() == out.len());
        assert(whole.take(nodes.len() as int) =~= whole);
        lemma_filter_prefix(whole, test, i as int);
        assert(models(out@) =~= first(whole.filter(test), limit));
    }
    out
}

/// Whether items answer a request that is in order.
///
/// How far a traversal comes, and whether a path is found, depends on the clock where time is
/// short; the answer is then that of a traversal after some number of steps, or no path. It is
/// never cut short unless the clock shows that time is up.
pub open spec fn answers<G: GraphView>(
    request: QueryRequest,
    view: &G,
    inputs: RankingInputs,
    items: Seq<ItemModel>,
) -> bool {
    let hits = optional_models(inputs.hits);
    match request {
        QueryRequest::GetNodeById { node_id } => items == node_item(view.node_at(node_id@)),
        QueryRequest::GetNodeByUniqueKey { unique_key } => items == (match view.unique_key_at(
            unique_key@,
        ) {
            Some(id) => node_item(view.node_at(id)),
            None => Seq::empty(),
        }),
        QueryRequest::FilterNodes { label, filter, limit } => items == node_items(
            first(meeting(looked_at(view, label), filter), limit_or_default(limit)),
        ),
        QueryRequest::ListNeighbors { node_id, edge_type, direction, limit } => {
            let found = neighbor_results(
                view,
                node_id@,
                direction,
                text::optional_string(edge_type),
                limit_or_default(limit),
            );
            items == node_items(found.nodes) + edge_items(found.edges)
        },
        QueryRequest::Traverse {
            start_node_id,
            edge_type,
            direction,
            max_hops,
            limit,
            timeout_ms,
            constraints,
        } => exists|count: nat|
            {
                let walk = #[trigger] walked(
                    view,
                    start_node_id@,
                    direction,
                    runtime_model(max_hops, limit, timeout_ms, constraints).merged(
                        text::optional_string(edge_type),
                    ),
                    count,
                );
                &&& items == walk.items
                &&& walk.queue.len() == 0 || ran_out(timeout_or_default(timeout_ms))
                &&& count > 0 ==> was_in_time(timeout_or_default(timeout_ms))
            },
        QueryRequest::ShortestPath {
            source_node_id,
            target_node_id,
            direction,
            max_depth,
            limit,
            timeout_ms,
            constraints,
        } => exists|path: Option<PathModel>|
            items == path_answer(view, path) && #[trigger] path_allowed(
                view,
                source_node_id@,
                target_node_id@,
                direction,
                runtime_model(max_depth, limit, timeout_ms, constraints),
                path,
            ),
        QueryRequest::SearchByLabel { label, limit } => items == node_items(
            first(found_nodes(view, view.typed_ids(label@)), limit_or_default(limit)),
        ),
        QueryRequest::TimeRange { field, from_epoch_ms, to_epoch_ms, limit } => items
            == node_items(time_range_nodes(view, field@, from_epoch_ms, to_epoch_ms, limit)),
        QueryRequest::VectorSearch { limit, .. } => exists|listed: Seq<RankedModel>|
            items == ranked_items(listed) && #[trigger] is_listing(
                listed,
                vector_results(compared_nodes(view, request, hits), inputs.scores@),
                limit as nat,
            ),
        QueryRequest::RankedRetrieval { limit, .. } => exists|listed: Seq<RankedModel>|
            items == ranked_items(listed) && #[trigger] is_listing(
                listed,
                scored_results(compared_nodes(view, request, hits), inputs.scores@),
                limit as nat,
            ),
    }
}

/// The nodes that a ranked retrieval compares and the distances that it goes by.
fn compare_for_retrieval<G: GraphView>(
    request: &QueryRequest,
    view: &G,
    hits: &Option<Vec<NodeId>>,
) -> (r: (Vec<NodeRecord>, Option<OrderedMap<NodeId, u8>>))
    requires
        request is RankedRetrieval,
        request_error(*request) is None,
    ensures
        models(r.0@) == compared_nodes(view, *request, optional_models(*hits)),
        crate::graph::optional_view(r.1) == request_distances(view, *request),
{
    if let QueryRequest::RankedRetrieval {
        query_vector,
        reference_node_id,
        edge_type,
        from_epoch_ms,
        to_epoch_ms,
        vector_name,
        limit,
        top_k,
        ..
    } = request {
        let known: Option<OrderedMap<NodeId, u8>> = match reference_node_id {
            Some(reference) => Some(
                graph_distances(view, reference, text::as_optional_text(edge_type)),
            ),
            None => None,
        };
        let semantic: Option<Vec<NodeId>> = match query_vector {
            Some(vector) => {
                let query: SemanticCandidateQuery<'_> = SemanticCandidateQuery {
                    query_dimension: vector.len(),
                    vector_name: space_name(vector_name),
                    node_type: None,
                    limit: *limit,
                    top_k_override: *top_k,
                    hits,
                };
                Some(view.semantic_candidate_ids_iter(&query))
            },
            None => None,
        };
        let nodes: Vec<NodeRecord> = ranked_retrieval_candidates(
            view,
            &semantic,
            &known,
            *from_epoch_ms,
            *to_epoch_ms,
        );
        (nodes, known)
    } else {
        (Vec::new(), None)
    }
}

/// The nodes that a vector search compares.
fn compare_for_search<G: GraphView>(
    request: &QueryRequest,
    view: &G,
    hits: &Option<Vec<NodeId>>,
) -> (r: Vec<NodeRecord>)
    requires
        request is VectorSearch,
    ensures
        models(r@) == compared_nodes(view, *request, optional_models(*hits)),
{
    if let QueryRequest::VectorSearch { query_vector, node_type, vector_name, limit, top_k } =
        request {
        let name: &str = space_name(vector_name);
        let query: SemanticCandidateQuery<'_> = SemanticCandidateQuery {
            query_dimension: query_vector.len(),
            vector_name: name,
            node_type: text::as_optional_text(node_type),
            limit: *limit,
            top_k_override: *top_k,
            hits,
        };
        let ids: Vec<NodeId> = view.semantic_candidate_ids_iter(&query);
        let found: Vec<NodeRecord> = find_nodes(view, &ids, usize::MAX);
        proof {
            lemma_found_len(view, models(ids@));
            assert(models(ids@).len() == ids.len());
        }
        keep_with_vector(found, name)
    } else {
        Vec::new()
    }
}

/// Runs queries.
pub struct Executor;

impl Executor {
    /// The nodes that a ranked query compares, with their distances from the reference node: those
    /// whose scores the query needs.
    pub fn ranking_candidates<G: GraphView>(
        request: &QueryRequest,
        view: &G,
        hits: &Option<Vec<NodeId>>,
    ) -> (r: Result<Vec<RankingCandidate>>)
        ensures
            r is Ok <==> request_error(*request) is None,
            r matches Ok(candidates) ==> models(candidates@) == with_distances(
                compared_nodes(view, *request, optional_models(*hits)),
                request_distances(view, *request),
            ),
            r matches Err(e) ==> request_error(*request) == Some(e@),
    {
        match Planner::plan(request) {
            Ok(_) => {},
            Err(error) => {
                return Err(error);
            },
        }
        let mut nodes: Vec<NodeRecord> = Vec::new();
        let mut known: Option<OrderedMap<NodeId, u8>> = None;
        proof {
            assert(models(nodes@) =~= Seq::empty());
        }
        match request {
            QueryRequest::VectorSearch { .. } => {
                nodes = compare_for_search(request, view, hits);
            },
            QueryRequest::RankedRetrieval { .. } => {
                let found: (Vec<NodeRecord>, Option<OrderedMap<NodeId, u8>>) =
                    compare_for_retrieval(request, view, hits);
                nodes = found.0;
                known = found.1;
            },
            _ => {},
        }
        let ghost map = crate::graph::optional_view(known);
        let mut out: Vec<RankingCandidate> = Vec::new();
        let mut i: usize = 0;
        while i < nodes.len()
            invariant
                i <= nodes.len(),
                map == crate::graph::optional_view(known),
                out.len() == i,
                forall|k: int|
                    0 <= k < i ==> (#[trigger] out@[k])@ == (CandidateModel {
                        node: nodes@[k]@,
                        distance: distance_in(map, nodes@[k]@.id),
                    }),
            decreases nodes.len() - i,
        {
            let distance: Option<u8> = match &known {
                Some(distances) => match distances.get(&nodes[i].id) {
                    Some(value) => Some(*value),
                    None => None,
                },
                None => None,
            };
            out.push(RankingCandidate { node: nodes[i].replicate(), distance });
            i = i + 1;
        }
        proof {
            assert(models(out@) =~= with_distances(models(nodes@), map));
        }
        Ok(out)
    }

    /// The answer to a request, taken together.
    pub fn execute<G: GraphView>(request: &QueryRequest, view: &G, inputs: &RankingInputs) -> (r:
        Result<QueryResponse>)
        ensures
            r is Ok <==> execution_error(*request) is None,
            r matches Ok(response) ==> exists|items: Seq<ItemModel>|
                {
                    &&& #[trigger] answers(*request, view, *inputs, items)
                    &&& response@ == (crate::results::ExecutionModel {
                        plan_kind: planned(*request).kind,
                        retrieval_profile: answer_profile(*request),
                        items,
                    }).response()
                },
            r matches Err(e) ==> execution_error(*request) == Some(e@),
    {
        match Executor::execute_iter(request, view, inputs) {
            Ok(execution) => {
                proof {
                    assert(answers(*request, view, *inputs, execution@.items));
                }
                Ok(execution.collect_response())
            },
            Err(error) => Err(error),
        }
    }

    /// The answer to a request, item by item.
    #[verifier::rlimit(60)]
    pub fn execute_iter<G: GraphView>(
        request: &QueryRequest,
        view: &G,
        inputs: &RankingInputs,
    ) -> (r: Result<QueryExecution>)
        ensures
            r is Ok <==> execution_error(*request) is None,
            r matches Ok(execution) ==> execution@.plan_kind == planned(*request).kind
                && execution@.retrieval_profile == answer_profile(*request) && answers(
                *request,
                view,
                *inputs,
                execution@.items,
            ),
            r matches Err(e) ==> execution_error(*request) == Some(e@),
    {
        let plan: QueryPlan = match Planner::plan(request) {
            Ok(plan) => plan,
            Err(error) => {
                return Err(error);
            },
        };
        match request {
            QueryRequest::GetNodeById { node_id } => {
                let items: Vec<QueryExecutionItem> = optional_node(view.get_node(node_id));
                Ok(QueryExecution { plan_kind: plan.kind, retrieval_profile: None, items })
            },
            QueryRequest::GetNodeByUniqueKey { unique_key } => {
                let found: Option<NodeRecord> = match view.lookup_unique_key(unique_key.as_str()) {
                    Some(node_id) => view.get_node(&node_id),
                    None => None,
                };
                let items: Vec<QueryExecutionItem> = optional_node(found);
                Ok(QueryExecution { plan_kind: plan.kind, retrieval_profile: None, items })
            },
            QueryRequest::ListNeighbors { node_id, edge_type, direction, limit } => {
                let bound: usize = match resolve_result_limit(*limit) {
                    Ok(bound) => bound,
                    Err(error) => {
                        return Err(error);
                    },
                };
                let found: (Vec<NodeRecord>, Vec<EdgeRecord>) = collect_neighbor_results(
                    view,
                    node_id,
                    *direction,
                    text::as_optional_text(edge_type),
                    bound,
                );
                let response: QueryResponse = QueryResponse {
                    plan_kind: plan.kind,
                    nodes: found.0,
                    edges: found.1,
                    ranked_results: Vec::new(),
                    path: None,
                    retrieval_profile: None,
                };
                proof {
                    assert(response@.ranked_results.len() == 0);
                    assert(response@.items() =~= node_items(response@.nodes) + edge_items(
                        response@.edges,
                    ));
                }
                Ok(QueryExecution::from_response(response))
            },
            QueryRequest::Traverse {
                start_node_id,
                edge_type,
                direction,
                max_hops,
                limit,
                timeout_ms,
                constraints,
            } => {
                let bounds: TraversalRuntime = match resolve_traversal_runtime(
                    *max_hops,
                    *limit,
                    *timeout_ms,
                    crate::plan::copy_constraints(constraints),
                ) {
                    Ok(bounds) => bounds,
                    Err(error) => {
                        return Err(error);
                    },
                };
                let runtime: TraversalRuntime = bounds.merge_legacy_edge_type(
                    text::copy_optional(edge_type),
                );
                proof {
                    assert(runtime@ == runtime_model(
                        *max_hops,
                        *limit,
                        *timeout_ms,
                        *constraints,
                    ).merged(text::optional_string(*edge_type)));
                }
                let found: (Vec<QueryExecutionItem>, bool) = traverse(
                    view,
                    start_node_id,
                    *direction,
                    &runtime,
                );
                Ok(
                    QueryExecution {
                        plan_kind: plan.kind,
                        retrieval_profile: None,
                        items: found.0,
                    },
                )
            },
            QueryRequest::ShortestPath {
                source_node_id,
                target_node_id,
                direction,
                max_depth,
                limit,
                timeout_ms,
                constraints,
            } => {
                let runtime: TraversalRuntime = match resolve_traversal_runtime(
                    *max_depth,
                    *limit,
                    *timeout_ms,
                    crate::plan::copy_constraints(constraints),
                ) {
                    Ok(runtime) => runtime,
                    Err(error) => {
                        return Err(error);
                    },
                };
                let path: Option<GraphPath> = shortest_path(
                    view,
                    source_node_id,
                    target_node_id,
                    *direction,
                    &runtime,
                );
                let ghost model = crate::graph::optional_view(path);
                let mut nodes: Vec<NodeRecord> = Vec::new();
                let mut edges: Vec<EdgeRecord> = Vec::new();
                proof {
                    assert(models(nodes@) =~= Seq::empty());
                    assert(models(edges@) =~= Seq::empty());
                }
                match &path {
                    Some(found) => {
                        nodes = find_nodes(view, &found.node_ids, usize::MAX);
                        edges = find_edges(view, &found.edge_ids);
                        proof {
                            lemma_found_len(view, models(found.node_ids@));
                            assert(models(found.node_ids@).len() == found.node_ids.len());
                        }
                    },
                    None => {},
                }
                let response: QueryResponse = QueryResponse {
                    plan_kind: plan.kind,
                    nodes,
                    edges,
                    ranked_results: Vec::new(),
                    path,
                    retrieval_profile: None,
                };
                proof {
                    assert(runtime@ == runtime_model(
                        *max_depth,
                        *limit,
                        *timeout_ms,
                        *constraints,
                    ));
                    assert(response@.ranked_results.len() == 0);
                    assert(response@.items() =~= path_answer(view, model));
                    assert(path_allowed(
                        view,
                        source_node_id@,
                        target_node_id@,
                        *direction,
                        runtime@,
                        model,
                    ));
                }
                Ok(QueryExecution::from_response(response))
            },
            QueryRequest::FilterNodes { label, filter, limit } => {
                let bound: usize = match resolve_result_limit(*limit) {
                    Ok(bound) => bound,
                    Err(error) => {
                        return Err(error);
                    },
                };
                let nodes: Vec<NodeRecord> = filter_nodes(view, label, filter, bound);
                Ok(
                    QueryExecution {
                        plan_kind: plan.kind,
                        retrieval_profile: None,
                        items: nodes_as_items(nodes),
                    },
                )
            },
            QueryRequest::SearchByLabel { label, limit } => {
                let bound: usize = match resolve_result_limit(*limit) {
                    Ok(bound) => bound,
                    Err(error) => {
                        return Err(error);
                    },
                };
                let ids: Vec<NodeId> = view.node_ids_by_type(label.as_str());
                let nodes: Vec<NodeRecord> = find_nodes(view, &ids, bound);
                Ok(
                    QueryExecution {
                        plan_kind: plan.kind,
                        retrieval_profile: None,
                        items: nodes_as_items(nodes),
                    },
                )
            },
            QueryRequest::TimeRange { field, from_epoch_ms, to_epoch_ms, limit } => {
                let nodes: Vec<NodeRecord> = time_range_execution(
                    view,
                    field.as_str(),
                    *from_epoch_ms,
                    *to_epoch_ms,
                    *limit,
                );
                Ok(
                    QueryExecution {
                        plan_kind: plan.kind,
                        retrieval_profile: None,
                        items: nodes_as_items(nodes),
                    },
                )
            },
            QueryRequest::VectorSearch { limit, .. } => {
                let nodes: Vec<NodeRecord> = compare_for_search(request, view, &inputs.hits);
                let results: Vec<RankedNodeResult> = score_nodes(&nodes, inputs, true);
                let listed: Vec<RankedNodeResult> = top_ranked(results, *limit);
                proof {
                    assert(is_listing(
                        models(listed@),
                        vector_results(
                            compared_nodes(view, *request, optional_models(inputs.hits)),
                            inputs.scores@,
                        ),
                        *limit as nat,
                    ));
                }
                Ok(ranked_execution(plan, None, listed))
            },
            QueryRequest::RankedRetrieval { limit, retrieval_profile, .. } => {
                let profile: RetrievalProfile = match resolve_retrieval_profile(
                    text::as_optional_text(retrieval_profile),
                ) {
                    Ok(profile) => profile,
                    Err(error) => {
                        return Err(error);
                    },
                };
                let found: (Vec<NodeRecord>, Option<OrderedMap<NodeId, u8>>) =
                    compare_for_retrieval(request, view, &inputs.hits);
                let results: Vec<RankedNodeResult> = score_nodes(&found.0, inputs, false);
                let listed: Vec<RankedNodeResult> = top_ranked(results, *limit);
                proof {
                    assert(is_listing(
                        models(listed@),
                        scored_results(
                            compared_nodes(view, *request, optional_models(inputs.hits)),
                            inputs.scores@,
                        ),
                        *limit as nat,
                    ));
                }
                Ok(ranked_execution(plan, Some(profile.name), listed))
            },
        }
    }
}

/// A node that may be there, as items.
fn optional_node(node: Option<NodeRecord>) -> (r: Vec<QueryExecutionItem>)
    ensures
        models(r@) == node_item(crate::graph::optional_view(node)),
{
    let mut items: Vec<QueryExecutionItem> = Vec::new();
    let ghost want = node_item(crate::graph::optional_view(node));
    match node {
        Some(found) => items.push(QueryExecutionItem::Node(found)),
        None => {},
    }
    proof {
        assert(models(items@) =~= want);
    }
    items
}

/// The answer that lists ranked results.
fn ranked_execution(
    plan: QueryPlan,
    retrieval_profile: Option<String>,
    listed: Vec<RankedNodeResult>,
) -> (r: QueryExecution)
    ensures
        r@.plan_kind == plan@.kind,
        r@.retrieval_profile == text::optional_string(retrieval_profile),
        r@.items == ranked_items(models(listed@)),
{
    let ghost want = ranked_items(models(listed@));
    let mut nodes: Vec<NodeRecord> = Vec::new();
    let mut i: usize = 0;
    while i < listed.len()
        invariant
            i <= listed.len(),
            nodes.len() == i,
            forall|k: int| 0 <= k < i ==> (#[trigger] nodes@[k])@ == listed@[k].node@,
        decreases listed.len() - i,
    {
        nodes.push(listed[i].node.replicate());
        i = i + 1;
    }
    let response: QueryResponse = QueryResponse {
        plan_kind: plan.kind,
        nodes,
        edges: Vec::new(),
        ranked_results: listed,
        path: None,
        retrieval_profile,
    };
    proof {
        assert(response@.ranked_results == models(listed@));
        assert(response@.edges.len() == 0);
        assert(response@.items() =~= want);
    }
    QueryExecution::from_response(response)
}

} // verus!
