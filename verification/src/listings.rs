//! What the answers to ranked queries say of the scores that were given.
use vstd::arithmetic::power2::pow2;
use vstd::prelude::*;
use vstd::string::*;

use crate::commits::{seen_as, sound};
use crate::common::NodeId;
use crate::counters::{bucket_of, ScoreBucket, HALF, QUARTER, THREE_QUARTERS};
use crate::execute::{
    answers, compared_nodes, distance_ids, found_nodes, reference_distances, request_distances,
    retrieval_nodes, retrieval_semantic_ids, scored_results, vector_results, with_distances,
    within_optional_time, NodeScore, RankingInputs,
};
use crate::graph::{GraphSnapshot, GraphView, OverlayGraphView, SemanticModel};
use crate::index::optional_models;
use crate::mutation::planned;
use crate::ordered::{lemma_finite_sorted, sorted_keys};
use crate::plan::{vector_space_name, QueryRequest};
use crate::rank::{
    better, comes_before, in_order, is_listing, is_number, law_numbers_can_be_ordered,
    total_place, value_place,
};
use crate::reach::reach;
use crate::records::{BatchModel, NodeModel};
use crate::replies::{lemma_found_contains, lemma_passing};
use crate::results::{ranked_items, ItemModel, RankedModel, ScoreBreakdown};
use crate::text;
use crate::tours::{law_distances, tied};
use crate::truth::{
    has_type, hits_of_type, law_candidates_are_of_type, law_exact_candidates,
    law_sound_snapshot_is_truthful, timed_within, truthful,
};
use crate::writes::{law_view_candidates, law_view_of_a_batch_is_truthful};

verus! {

broadcast use {vstd::seq_lib::group_to_multiset_ensures, vstd::multiset::group_multiset_properties};

// ---------------------------------------------------------------------------------------------
// The numbers that bits stand for
// ---------------------------------------------------------------------------------------------

/// How large a single is whose sign is clear, in units of the least one above zero: the fraction
/// alone below the normal numbers, and else the fraction with its leading one, doubled for every
/// step of the exponent. An infinite one comes out larger than every finite one.
pub open spec fn size_of(bits: int) -> int {
    let exponent = bits / 0x80_0000;
    let fraction = bits % 0x80_0000;
    if exponent == 0 {
        fraction
    } else {
        (0x80_0000 + fraction) * pow2((exponent - 1) as nat)
    }
}

/// The number that the bits of a single stand for, in units of the least one above zero.
pub open spec fn number_of(bits: u32) -> int {
    if bits < 0x8000_0000 {
        size_of(bits as int)
    } else {
        -size_of(bits - 0x8000_0000)
    }
}

proof fn lemma_next_size(bits: int)
    requires
        0 <= bits,
    ensures
        size_of(bits) < size_of(bits + 1),
        size_of(bits) >= 0,
{
    let e = bits / 0x80_0000;
    let f = bits % 0x80_0000;
    let p = pow2((e - 1) as nat) as int;
    vstd::arithmetic::power2::lemma_pow2_pos((e - 1) as nat);
    if f + 1 < 0x80_0000 {
        assert((bits + 1) / 0x80_0000 == e);
        assert((bits + 1) % 0x80_0000 == f + 1);
        if e > 0 {
            assert((0x80_0000 + f + 1) * p == (0x80_0000 + f) * p + p) by (nonlinear_arith);
            assert((0x80_0000 + f) * p >= 0) by (nonlinear_arith)
                requires
                    p > 0,
                    f >= 0,
            ;
        }
    } else {
        assert((bits + 1) / 0x80_0000 == e + 1);
        assert((bits + 1) % 0x80_0000 == 0);
        vstd::arithmetic::power2::lemma_pow2_pos(e as nat);
        if e == 0 {
            vstd::arithmetic::power2::lemma2_to64();
            assert(pow2(0) == 1);
            assert((0x80_0000 + 0) * pow2(0) == 0x80_0000);
        } else {
            vstd::arithmetic::power2::lemma_pow2_unfold(e as nat);
            let q = pow2(e as nat) as int;
            assert(q == 2 * p);
            assert((0x80_0000 + 0) * q > (0x80_0000 + f) * p) by (nonlinear_arith)
                requires
                    q == 2 * p,
                    p > 0,
                    f < 0x80_0000,
            ;
            assert((0x80_0000 + f) * p >= 0) by (nonlinear_arith)
                requires
                    p > 0,
                    f >= 0,
            ;
        }
    }
}

proof fn lemma_size_grows(a: int, b: int)
    requires
        0 <= a < b,
    ensures
        0 <= size_of(a) < size_of(b),
    decreases b - a,
{
    lemma_next_size(a);
    if a + 1 < b {
        lemma_size_grows(a + 1, b);
    }
}

/// Scores that are numbers are listed by the numbers that they are, and none is kept in place of a
/// greater one.
pub proof fn law_scores_are_compared_as_numbers(a: u32, b: u32)
    requires
        is_number(a),
        is_number(b),
    ensures
        number_of(a) < number_of(b) <==> value_place(a) < value_place(b),
        number_of(a) == number_of(b) <==> value_place(a) == value_place(b),
        number_of(a) < number_of(b) ==> total_place(a) < total_place(b),
{
    let x = if a < 0x8000_0000 {
        a as int
    } else {
        a - 0x8000_0000
    };
    let y = if b < 0x8000_0000 {
        b as int
    } else {
        b - 0x8000_0000
    };
    if x < y {
        lemma_size_grows(x, y);
    }
    if y < x {
        lemma_size_grows(y, x);
    }
    lemma_next_size(x);
    lemma_next_size(y);
    assert(size_of(0) == 0);
    if x > 0 {
        lemma_size_grows(0, x);
    }
    if y > 0 {
        lemma_size_grows(0, y);
    }
}

/// A score is no number exactly if its exponent is the greatest and its fraction is not zero.
pub proof fn law_what_is_no_number(bits: u32)
    ensures
        is_number(bits) <==> !((bits / 0x80_0000) % 0x100 == 0xff && bits % 0x80_0000 != 0),
{
}

/// The class of a score that is a number is the quarter of the span from zero to one that it lies in:
/// the first also for what is below zero, the last also for what is above one.
pub proof fn law_score_classes(score: u32)
    requires
        is_number(score),
    ensures
        ({
            let one = number_of(0x3f80_0000u32);
            let x = 4 * number_of(score);
            &&& bucket_of(score) == ScoreBucket::Low <==> x < one
            &&& bucket_of(score) == ScoreBucket::Medium <==> one <= x < 2 * one
            &&& bucket_of(score) == ScoreBucket::High <==> 2 * one <= x < 3 * one
            &&& bucket_of(score) == ScoreBucket::Top <==> 3 * one <= x
        }),
{
    law_scores_are_compared_as_numbers(score, QUARTER);
    law_scores_are_compared_as_numbers(score, HALF);
    law_scores_are_compared_as_numbers(score, THREE_QUARTERS);
    let p = pow2(124) as int;
    vstd::arithmetic::power2::lemma_pow2_unfold(125);
    vstd::arithmetic::power2::lemma_pow2_unfold(126);
    assert(number_of(QUARTER) == 0x80_0000 * p) by {
        assert(0x3e80_0000int / 0x80_0000 == 125 && 0x3e80_0000int % 0x80_0000 == 0);
    }
    assert(number_of(HALF) == 0x80_0000 * (2 * p)) by {
        assert(0x3f00_0000int / 0x80_0000 == 126 && 0x3f00_0000int % 0x80_0000 == 0);
    }
    assert(number_of(THREE_QUARTERS) == 0xc0_0000 * (2 * p)) by {
        assert(0x3f40_0000int / 0x80_0000 == 126 && 0x3f40_0000int % 0x80_0000 == 0x40_0000);
    }
    assert(number_of(0x3f80_0000u32) == 0x80_0000 * (4 * p)) by {
        assert(0x3f80_0000int / 0x80_0000 == 127 && 0x3f80_0000int % 0x80_0000 == 0);
    }
    vstd::arithmetic::power2::lemma_pow2_pos(124);
    let one = number_of(0x3f80_0000u32);
    assert(one > 0);
    let quarter = number_of(QUARTER);
    assert(quarter == 0x80_0000 * p);
    assert(one == 0x80_0000 * (4 * p));
    assert(4 * quarter == one) by (nonlinear_arith)
        requires
            quarter == 0x80_0000 * p,
            one == 0x80_0000 * (4 * p),
    ;
    assert(4 * number_of(HALF) == 2 * one);
    assert(4 * number_of(THREE_QUARTERS) == 3 * one);
}

// ---------------------------------------------------------------------------------------------
// Ranked retrieval
// ---------------------------------------------------------------------------------------------

/// The result of a node under the scores that were given.
proof fn lemma_scored(nodes: Seq<NodeModel>, scores: Map<Seq<char>, NodeScore>, a: RankedModel)
    ensures
        scored_results(nodes, scores).contains(a) <==> nodes.contains(a.node)
            && scores.contains_key(a.node.id) && a.score == scores[a.node.id].score && a.breakdown
            == scores[a.node.id].breakdown,
    decreases nodes.len(),
{
    if nodes.len() > 0 {
        let short = nodes.drop_last();
        lemma_scored(short, scores, a);
        assert(nodes =~= short.push(nodes.last()));
        crate::replies::lemma_push_holds(short, nodes.last(), a.node);
        let node = nodes.last();
        if scores.contains_key(node.id) {
            crate::replies::lemma_push_holds(
                scored_results(short, scores),
                RankedModel {
                    node,
                    score: scores[node.id].score,
                    breakdown: scores[node.id].breakdown,
                },
                a,
            );
        }
    }
}

/// The result of a node under the semantic parts of the scores that were given.
proof fn lemma_vector_scored(
    nodes: Seq<NodeModel>,
    scores: Map<Seq<char>, NodeScore>,
    a: RankedModel,
)
    ensures
        vector_results(nodes, scores).contains(a) <==> nodes.contains(a.node)
            && scores.contains_key(a.node.id) && a.score == scores[a.node.id].breakdown.semantic
            && a.breakdown == (ScoreBreakdown {
            structural: 0,
            semantic: scores[a.node.id].breakdown.semantic,
            temporal: 0,
            importance: 0,
            confidence: 0,
        }),
    decreases nodes.len(),
{
    if nodes.len() > 0 {
        let short = nodes.drop_last();
        lemma_vector_scored(short, scores, a);
        assert(nodes =~= short.push(nodes.last()));
        crate::replies::lemma_push_holds(short, nodes.last(), a.node);
        let node = nodes.last();
        if scores.contains_key(node.id) {
            let semantic = scores[node.id].breakdown.semantic;
            crate::replies::lemma_push_holds(
                vector_results(short, scores),
                RankedModel {
                    node,
                    score: semantic,
                    breakdown: ScoreBreakdown {
                        structural: 0,
                        semantic,
                        temporal: 0,
                        importance: 0,
                        confidence: 0,
                    },
                },
                a,
            );
        }
    }
}

/// What a listing holds comes from what was to be listed.
proof fn lemma_listed_from(listed: Seq<RankedModel>, all: Seq<RankedModel>, limit: nat, i: int)
    requires
        is_listing(listed, all, limit),
        0 <= i < listed.len(),
    ensures
        all.contains(listed[i]),
{
    assert(listed.contains(listed[i]));
    assert(listed.to_multiset().count(listed[i]) <= all.to_multiset().count(listed[i]));
}

/// What a listing leaves out is better than nothing in it.
proof fn lemma_left_out(
    listed: Seq<RankedModel>,
    all: Seq<RankedModel>,
    limit: nat,
    a: RankedModel,
    i: int,
)
    requires
        is_listing(listed, all, limit),
        0 <= i < listed.len(),
        all.contains(a),
        !listed.contains(a),
    ensures
        !better(a, listed[i]),
{
    assert(all.to_multiset().count(a) > 0);
    assert(listed.to_multiset().count(a) == 0);
    assert(all.to_multiset().difference_with(listed.to_multiset()).contains(a));
}

/// A listing that leaves something out is as long as it may be.
proof fn lemma_full(listed: Seq<RankedModel>, all: Seq<RankedModel>, limit: nat, a: RankedModel)
    requires
        is_listing(listed, all, limit),
        all.contains(a),
        listed.len() < limit,
    ensures
        listed.contains(a),
{
    broadcast use vstd::multiset::group_multiset_axioms;

    let whole = all.to_multiset();
    let held = listed.to_multiset();
    assert(held.len() == listed.len());
    assert(whole.len() == held.len());
    let rest = whole.sub(held);
    assert(rest.len() == 0);
    assert(rest.count(a) <= rest.len());
    assert(whole.count(a) > 0);
    assert(held.count(a) > 0);
}

/// The result at a place of an answer.
pub open spec fn result_at(items: Seq<ItemModel>, i: int) -> RankedModel {
    items[i]->RankedResult_0
}

/// Whether an answer lists a node.
pub open spec fn lists_node(items: Seq<ItemModel>, id: Seq<char>) -> bool {
    exists|i: int|
        0 <= i < items.len() && (#[trigger] items[i] matches ItemModel::RankedResult(result)
            && result.node.id == id)
}

/// The answer to a ranked retrieval lists nodes that it compares and that were given a score, each
/// with its whole score and the parts that were given. It lists no more than were asked for, and
/// every one if they are fewer.
pub proof fn law_retrieval_gives_the_scores<G: GraphView>(
    view: &G,
    request: QueryRequest,
    inputs: RankingInputs,
    items: Seq<ItemModel>,
)
    requires
        request is RankedRetrieval,
        answers(request, view, inputs, items),
    ensures
        items.len() <= request->RankedRetrieval_limit,
        forall|i: int|
            0 <= i < items.len() ==> {
                let node = result_at(items, i).node;
                &&& #[trigger] items[i] is RankedResult
                &&& compared_nodes(view, request, optional_models(inputs.hits)).contains(node)
                &&& inputs.scores@.contains_key(node.id)
                &&& result_at(items, i).score == inputs.scores@[node.id].score
                &&& result_at(items, i).breakdown == inputs.scores@[node.id].breakdown
            },
        items.len() < request->RankedRetrieval_limit ==> forall|node: NodeModel| #[trigger]
            compared_nodes(view, request, optional_models(inputs.hits)).contains(node)
                && inputs.scores@.contains_key(node.id) ==> lists_node(items, node.id),
{
    let limit = request->RankedRetrieval_limit;
    let nodes = compared_nodes(view, request, optional_models(inputs.hits));
    let scores = inputs.scores@;
    let all = scored_results(nodes, scores);
    let listed = choose|listed: Seq<RankedModel>|
        items == ranked_items(listed) && #[trigger] is_listing(listed, all, limit as nat);
    assert forall|i: int| 0 <= i < items.len() implies {
        let node = result_at(items, i).node;
        &&& #[trigger] items[i] is RankedResult
        &&& nodes.contains(node)
        &&& scores.contains_key(node.id)
        &&& result_at(items, i).score == scores[node.id].score
        &&& result_at(items, i).breakdown == scores[node.id].breakdown
    } by {
        lemma_listed_from(listed, all, limit as nat, i);
        lemma_scored(nodes, scores, listed[i]);
    }
    if items.len() < limit {
        assert forall|node: NodeModel| #[trigger] nodes.contains(node) && scores.contains_key(
            node.id,
        ) implies lists_node(items, node.id) by {
            let a = RankedModel {
                node,
                score: scores[node.id].score,
                breakdown: scores[node.id].breakdown,
            };
            lemma_scored(nodes, scores, a);
            lemma_full(listed, all, limit as nat, a);
            let k = choose|k: int| 0 <= k < listed.len() && listed[k] == a;
            assert(items[k] == ItemModel::RankedResult(a));
        }
    }
}

/// In the answer to a ranked retrieval whose listed nodes were all given numbers as their whole
/// scores, the node with the greater score is listed first; of two with the same score, the one
/// with the lesser id.
pub proof fn law_retrieval_is_by_score<G: GraphView>(
    view: &G,
    request: QueryRequest,
    inputs: RankingInputs,
    items: Seq<ItemModel>,
)
    requires
        request is RankedRetrieval,
        answers(request, view, inputs, items),
        forall|i: int|
            0 <= i < items.len() ==> is_number(
                inputs.scores@[(#[trigger] items[i])->RankedResult_0.node.id].score,
            ),
    ensures
        forall|i: int, j: int|
            0 <= i < j < items.len() ==> {
                let a = (#[trigger] items[i])->RankedResult_0.node.id;
                let b = (#[trigger] items[j])->RankedResult_0.node.id;
                let x = number_of(inputs.scores@[a].score);
                let y = number_of(inputs.scores@[b].score);
                x > y || (x == y && !text::text_less(b, a))
            },
{
    let limit = request->RankedRetrieval_limit;
    let nodes = compared_nodes(view, request, optional_models(inputs.hits));
    let scores = inputs.scores@;
    let all = scored_results(nodes, scores);
    let listed = choose|listed: Seq<RankedModel>|
        items == ranked_items(listed) && #[trigger] is_listing(listed, all, limit as nat);
    assert forall|i: int| 0 <= i < listed.len() implies #[trigger] listed[i].score
        == scores[listed[i].node.id].score && items[i] == ItemModel::RankedResult(listed[i])
        && is_number(listed[i].score) by {
        lemma_listed_from(listed, all, limit as nat, i);
        lemma_scored(nodes, scores, listed[i]);
        assert(items[i]->RankedResult_0 == listed[i]);
    }
    lemma_listing_in_order(listed, all, limit as nat);
    assert forall|i: int, j: int| 0 <= i < j < items.len() implies {
        let a = (#[trigger] items[i])->RankedResult_0.node.id;
        let b = (#[trigger] items[j])->RankedResult_0.node.id;
        let x = number_of(scores[a].score);
        let y = number_of(scores[b].score);
        x > y || (x == y && !text::text_less(b, a))
    } by {
        assert(!comes_before(listed[j], listed[i]));
        law_scores_are_compared_as_numbers(listed[i].score, listed[j].score);
        law_scores_are_compared_as_numbers(listed[j].score, listed[i].score);
    }
}

/// A listing of numbers is in order.
proof fn lemma_listing_in_order(listed: Seq<RankedModel>, all: Seq<RankedModel>, limit: nat)
    requires
        is_listing(listed, all, limit),
        forall|i: int| 0 <= i < listed.len() ==> is_number((#[trigger] listed[i]).score),
    ensures
        in_order(listed),
{
    assert forall|a: RankedModel| #[trigger] listed.to_multiset().contains(a) implies is_number(
        a.score,
    ) by {
        assert(listed.contains(a));
        let i = choose|i: int| 0 <= i < listed.len() && listed[i] == a;
        assert(is_number(listed[i].score));
    }
    law_numbers_can_be_ordered(listed.to_multiset());
}

/// No node that a ranked retrieval compares and leaves out was given a greater whole score than
/// one that it lists, nor the same score under a lesser id.
pub proof fn law_retrieval_leaves_out_no_better<G: GraphView>(
    view: &G,
    request: QueryRequest,
    inputs: RankingInputs,
    items: Seq<ItemModel>,
    node: NodeModel,
    i: int,
)
    requires
        request is RankedRetrieval,
        answers(request, view, inputs, items),
        0 <= i < items.len(),
        compared_nodes(view, request, optional_models(inputs.hits)).contains(node),
        inputs.scores@.contains_key(node.id),
        !lists_node(items, node.id),
        is_number(inputs.scores@[node.id].score),
        is_number(inputs.scores@[result_at(items, i).node.id].score),
    ensures
        ({
            let given = inputs.scores@[node.id].score;
            let kept = inputs.scores@[result_at(items, i).node.id].score;
            &&& number_of(given) <= number_of(kept)
            &&& given == kept ==> !text::text_less(node.id, result_at(items, i).node.id)
        }),
{
    let limit = request->RankedRetrieval_limit;
    let nodes = compared_nodes(view, request, optional_models(inputs.hits));
    let scores = inputs.scores@;
    let all = scored_results(nodes, scores);
    let listed = choose|listed: Seq<RankedModel>|
        items == ranked_items(listed) && #[trigger] is_listing(listed, all, limit as nat);
    let a = RankedModel {
        node,
        score: scores[node.id].score,
        breakdown: scores[node.id].breakdown,
    };
    lemma_scored(nodes, scores, a);
    if listed.contains(a) {
        let k = choose|k: int| 0 <= k < listed.len() && listed[k] == a;
        assert(items[k] == ItemModel::RankedResult(a));
        assert(lists_node(items, node.id));
    }
    lemma_listed_from(listed, all, limit as nat, i);
    lemma_scored(nodes, scores, listed[i]);
    lemma_left_out(listed, all, limit as nat, a, i);
    law_scores_are_compared_as_numbers(listed[i].score, a.score);
}

// ---------------------------------------------------------------------------------------------
// Vector search
// ---------------------------------------------------------------------------------------------

/// The vector name that a request sets, or `default` where it sets none.
pub open spec fn asked_space(vector_name: Option<String>) -> Seq<char> {
    match vector_name {
        Some(name) => name@,
        None => "default"@,
    }
}

/// Whether a node of the graph is one to compare in a vector search: it has a vector of the name
/// and is of the type that is asked for, if some node is.
pub open spec fn to_compare<G: GraphView>(
    view: &G,
    node_type: Option<String>,
    vector_name: Option<String>,
    node: NodeModel,
) -> bool {
    &&& view.node_at(node.id) == Some(node)
    &&& node.vectors.contains_key(asked_space(vector_name))
    &&& node_type matches Some(t) ==> has_type(view, t@) ==> node.node_type == t@
}

/// What a vector search compares has a vector of the name, and was named by the graph.
proof fn lemma_compared<G: GraphView>(
    view: &G,
    query_vector: Vec<u32>,
    node_type: Option<String>,
    vector_name: Option<String>,
    limit: usize,
    top_k: Option<usize>,
    hits: Option<Seq<Seq<char>>>,
    node: NodeModel,
)
    requires
        truthful(view),
    ensures
        compared_nodes(
            view,
            QueryRequest::VectorSearch { query_vector, node_type, vector_name, limit, top_k },
            hits,
        ).contains(node) <==> {
            &&& view.node_at(node.id) == Some(node)
            &&& node.vectors.contains_key(asked_space(vector_name))
            &&& view.semantic_ids(
                SemanticModel {
                    query_dimension: query_vector@.len(),
                    vector_name: asked_space(vector_name),
                    node_type: text::optional_string(node_type),
                    limit,
                    top_k_override: top_k,
                    hits,
                },
            ).contains(node.id)
        },
{
    let query = SemanticModel {
        query_dimension: query_vector@.len(),
        vector_name: asked_space(vector_name),
        node_type: text::optional_string(node_type),
        limit,
        top_k_override: top_k,
        hits,
    };
    let ids = view.semantic_ids(query);
    let found = found_nodes(view, ids);
    let name = asked_space(vector_name);
    let test = |n: NodeModel| n.vectors.contains_key(name);
    assert(vector_space_name(vector_name) == name);
    lemma_found_contains(view, ids, node);
    lemma_passing(found, test, node);
    assert(compared_nodes(
        view,
        QueryRequest::VectorSearch { query_vector, node_type, vector_name, limit, top_k },
        hits,
    ) == found.filter(test));
    if found.contains(node) {
        let id = choose|id: Seq<char>|
            #![trigger ids.contains(id)]
            ids.contains(id) && view.node_at(id) == Some(node);
        assert(view.node_at(id)->0.id == id);
    }
}

/// The answer to a vector search lists nodes of the graph alone that have a vector of the name and
/// were given a score, each with the semantic part of it and no other part; no more than were asked
/// for.
pub proof fn law_vector_search_gives_the_scores<G: GraphView>(
    view: &G,
    query_vector: Vec<u32>,
    node_type: Option<String>,
    vector_name: Option<String>,
    limit: usize,
    top_k: Option<usize>,
    inputs: RankingInputs,
    items: Seq<ItemModel>,
)
    requires
        answers(
            QueryRequest::VectorSearch { query_vector, node_type, vector_name, limit, top_k },
            view,
            inputs,
            items,
        ),
        truthful(view),
    ensures
        items.len() <= limit,
        forall|i: int|
            0 <= i < items.len() ==> {
                let node = result_at(items, i).node;
                let given = inputs.scores@[node.id].breakdown.semantic;
                &&& #[trigger] items[i] is RankedResult
                &&& view.node_at(node.id) == Some(node)
                &&& node.vectors.contains_key(asked_space(vector_name))
                &&& inputs.scores@.contains_key(node.id)
                &&& result_at(items, i).score == given
                &&& result_at(items, i).breakdown == (ScoreBreakdown {
                    structural: 0,
                    semantic: given,
                    temporal: 0,
                    importance: 0,
                    confidence: 0,
                })
            },
{
    let request = QueryRequest::VectorSearch {
        query_vector,
        node_type,
        vector_name,
        limit,
        top_k,
    };
    let hits = optional_models(inputs.hits);
    let nodes = compared_nodes(view, request, hits);
    let scores = inputs.scores@;
    let all = vector_results(nodes, scores);
    let listed = choose|listed: Seq<RankedModel>|
        items == ranked_items(listed) && #[trigger] is_listing(listed, all, limit as nat);
    assert forall|i: int| 0 <= i < items.len() implies {
        let node = result_at(items, i).node;
        let given = scores[node.id].breakdown.semantic;
        &&& #[trigger] items[i] is RankedResult
        &&& view.node_at(node.id) == Some(node)
        &&& node.vectors.contains_key(asked_space(vector_name))
        &&& scores.contains_key(node.id)
        &&& result_at(items, i).score == given
        &&& result_at(items, i).breakdown == (ScoreBreakdown {
            structural: 0,
            semantic: given,
            temporal: 0,
            importance: 0,
            confidence: 0,
        })
    } by {
        lemma_listed_from(listed, all, limit as nat, i);
        lemma_vector_scored(nodes, scores, listed[i]);
        lemma_compared(
            view,
            query_vector,
            node_type,
            vector_name,
            limit,
            top_k,
            hits,
            listed[i].node,
        );
    }
}

/// If a vector search asks for a type that some node has, every node that it lists is of that type,
/// provided that what a search outside has found is, where one was made.
pub proof fn law_vector_search_is_of_type(
    view: &GraphSnapshot,
    query_vector: Vec<u32>,
    node_type: String,
    vector_name: Option<String>,
    limit: usize,
    top_k: Option<usize>,
    inputs: RankingInputs,
    items: Seq<ItemModel>,
)
    requires
        answers(
            QueryRequest::VectorSearch {
                query_vector,
                node_type: Some(node_type),
                vector_name,
                limit,
                top_k,
            },
            view,
            inputs,
            items,
        ),
        sound(view@),
        has_type(view, node_type@),
        view@.indexes.vectors is Exact || hits_of_type(
            view,
            optional_models(inputs.hits),
            node_type@,
        ),
    ensures
        forall|i: int|
            0 <= i < items.len() ==> (#[trigger] items[i] matches ItemModel::RankedResult(result)
                && result.node.node_type == node_type@),
{
    let kind = Some(node_type);
    let hits = optional_models(inputs.hits);
    let request = QueryRequest::VectorSearch {
        query_vector,
        node_type: kind,
        vector_name,
        limit,
        top_k,
    };
    law_sound_snapshot_is_truthful(view);
    let nodes = compared_nodes(view, request, hits);
    let scores = inputs.scores@;
    let all = vector_results(nodes, scores);
    let listed = choose|listed: Seq<RankedModel>|
        items == ranked_items(listed) && #[trigger] is_listing(listed, all, limit as nat);
    let query = SemanticModel {
        query_dimension: query_vector@.len(),
        vector_name: asked_space(vector_name),
        node_type: text::optional_string(kind),
        limit,
        top_k_override: top_k,
        hits,
    };
    assert forall|i: int| 0 <= i < items.len() implies (#[trigger] items[i] matches
        ItemModel::RankedResult(result) && result.node.node_type == node_type@) by {
        let node = listed[i].node;
        lemma_listed_from(listed, all, limit as nat, i);
        lemma_vector_scored(nodes, scores, listed[i]);
        lemma_compared(view, query_vector, kind, vector_name, limit, top_k, hits, node);
        law_candidates_are_of_type(view, query, node_type@, node.id);
    }
}

/// In the answer to a vector search whose listed nodes were all given numbers as the semantic parts
/// of their scores, the node with the greater one is listed first; of two with the same, the one
/// with the lesser id.
pub proof fn law_vector_search_is_by_score<G: GraphView>(
    view: &G,
    request: QueryRequest,
    inputs: RankingInputs,
    items: Seq<ItemModel>,
)
    requires
        request is VectorSearch,
        answers(request, view, inputs, items),
        forall|i: int|
            0 <= i < items.len() ==> is_number(
                inputs.scores@[(#[trigger] items[i])->RankedResult_0.node.id].breakdown.semantic,
            ),
    ensures
        forall|i: int, j: int|
            0 <= i < j < items.len() ==> {
                let a = (#[trigger] items[i])->RankedResult_0.node.id;
                let b = (#[trigger] items[j])->RankedResult_0.node.id;
                let x = number_of(inputs.scores@[a].breakdown.semantic);
                let y = number_of(inputs.scores@[b].breakdown.semantic);
                x > y || (x == y && !text::text_less(b, a))
            },
{
    let limit = request->VectorSearch_limit;
    let nodes = compared_nodes(view, request, optional_models(inputs.hits));
    let scores = inputs.scores@;
    let all = vector_results(nodes, scores);
    let listed = choose|listed: Seq<RankedModel>|
        items == ranked_items(listed) && #[trigger] is_listing(listed, all, limit as nat);
    assert forall|i: int| 0 <= i < listed.len() implies #[trigger] listed[i].score
        == scores[listed[i].node.id].breakdown.semantic && items[i] == ItemModel::RankedResult(
        listed[i],
    ) && is_number(listed[i].score) by {
        lemma_listed_from(listed, all, limit as nat, i);
        lemma_vector_scored(nodes, scores, listed[i]);
        assert(items[i]->RankedResult_0 == listed[i]);
    }
    lemma_listing_in_order(listed, all, limit as nat);
    assert forall|i: int, j: int| 0 <= i < j < items.len() implies {
        let a = (#[trigger] items[i])->RankedResult_0.node.id;
        let b = (#[trigger] items[j])->RankedResult_0.node.id;
        let x = number_of(scores[a].breakdown.semantic);
        let y = number_of(scores[b].breakdown.semantic);
        x > y || (x == y && !text::text_less(b, a))
    } by {
        assert(!comes_before(listed[j], listed[i]));
        law_scores_are_compared_as_numbers(listed[i].score, listed[j].score);
        law_scores_are_compared_as_numbers(listed[j].score, listed[i].score);
    }
}

/// Where vectors are compared one by one, a vector search lists every node to compare that was given
/// a score, if it lists fewer than were asked for; and otherwise it leaves out none that was given a
/// greater semantic part than one that it lists, nor the same under a lesser id.
pub proof fn law_vector_search_leaves_out_no_better(
    view: &GraphSnapshot,
    query_vector: Vec<u32>,
    node_type: Option<String>,
    vector_name: Option<String>,
    limit: usize,
    top_k: Option<usize>,
    inputs: RankingInputs,
    items: Seq<ItemModel>,
    node: NodeModel,
)
    requires
        answers(
            QueryRequest::VectorSearch { query_vector, node_type, vector_name, limit, top_k },
            view,
            inputs,
            items,
        ),
        sound(view@),
        view@.indexes.vectors is Exact,
        limit > 0,
        to_compare(view, node_type, vector_name, node),
        inputs.scores@.contains_key(node.id),
        !lists_node(items, node.id),
    ensures
        items.len() == limit,
        forall|i: int|
            0 <= i < items.len() ==> {
                let id = (#[trigger] items[i])->RankedResult_0.node.id;
                let given = inputs.scores@[node.id].breakdown.semantic;
                let kept = inputs.scores@[id].breakdown.semantic;
                is_number(given) && is_number(kept) ==> number_of(given) <= number_of(kept) && (
                given == kept ==> !text::text_less(node.id, id))
            },
{
    let request = QueryRequest::VectorSearch {
        query_vector,
        node_type,
        vector_name,
        limit,
        top_k,
    };
    let hits = optional_models(inputs.hits);
    law_sound_snapshot_is_truthful(view);
    let nodes = compared_nodes(view, request, hits);
    let scores = inputs.scores@;
    let all = vector_results(nodes, scores);
    let listed = choose|listed: Seq<RankedModel>|
        items == ranked_items(listed) && #[trigger] is_listing(listed, all, limit as nat);
    let query = SemanticModel {
        query_dimension: query_vector@.len(),
        vector_name: asked_space(vector_name),
        node_type: text::optional_string(node_type),
        limit,
        top_k_override: top_k,
        hits,
    };
    let semantic = scores[node.id].breakdown.semantic;
    let a = RankedModel {
        node,
        score: semantic,
        breakdown: ScoreBreakdown {
            structural: 0,
            semantic,
            temporal: 0,
            importance: 0,
            confidence: 0,
        },
    };
    lemma_compared(view, query_vector, node_type, vector_name, limit, top_k, hits, node);
    law_exact_candidates(view, query, node.id);
    lemma_vector_scored(nodes, scores, a);
    if listed.contains(a) {
        let k = choose|k: int| 0 <= k < listed.len() && listed[k] == a;
        assert(items[k] == ItemModel::RankedResult(a));
        assert(lists_node(items, node.id));
    }
    if listed.len() < limit {
        lemma_full(listed, all, limit as nat, a);
    }
    assert forall|i: int| 0 <= i < items.len() implies {
        let id = (#[trigger] items[i])->RankedResult_0.node.id;
        let given = scores[node.id].breakdown.semantic;
        let kept = scores[id].breakdown.semantic;
        is_number(given) && is_number(kept) ==> number_of(given) <= number_of(kept) && (given
            == kept ==> !text::text_less(node.id, id))
    } by {
        lemma_listed_from(listed, all, limit as nat, i);
        lemma_vector_scored(nodes, scores, listed[i]);
        lemma_left_out(listed, all, limit as nat, a, i);
        if is_number(listed[i].score) && is_number(a.score) {
            law_scores_are_compared_as_numbers(listed[i].score, a.score);
        }
    }
}

/// In a view of a batch over a sound snapshot, a vector search for a type lists nodes of that type
/// alone, and leaves out a node of it with a vector of the name and a score only if it lists as many
/// as were asked for, and none with a lesser semantic part.
pub proof fn law_vector_search_in_a_view(
    view: &OverlayGraphView<'_>,
    batch: BatchModel,
    query_vector: Vec<u32>,
    node_type: String,
    vector_name: Option<String>,
    limit: usize,
    top_k: Option<usize>,
    inputs: RankingInputs,
    items: Seq<ItemModel>,
)
    requires
        answers(
            QueryRequest::VectorSearch {
                query_vector,
                node_type: Some(node_type),
                vector_name,
                limit,
                top_k,
            },
            view,
            inputs,
            items,
        ),
        sound(view.base@),
        view.mutation@ == seen_as(planned(view.base@.nodes, view.base@.edges, batch)),
    ensures
        forall|i: int|
            0 <= i < items.len() ==> (#[trigger] items[i] matches ItemModel::RankedResult(result)
                && result.node.node_type == node_type@),
        forall|id: Seq<char>|
            (#[trigger] view.node_at(id)) matches Some(node) ==> (node.node_type == node_type@
                && node.vectors.contains_key(asked_space(vector_name))
                && inputs.scores@.contains_key(id) && !lists_node(items, id) ==> items.len()
                == limit && forall|i: int|
                0 <= i < items.len() ==> {
                    let kept =
                        inputs.scores@[(#[trigger] items[i])->RankedResult_0.node.id].breakdown.semantic;
                    let given = inputs.scores@[id].breakdown.semantic;
                    is_number(given) && is_number(kept) ==> number_of(given) <= number_of(kept)
                }),
{
    let kind = Some(node_type);
    let hits = optional_models(inputs.hits);
    let request = QueryRequest::VectorSearch {
        query_vector,
        node_type: kind,
        vector_name,
        limit,
        top_k,
    };
    law_view_of_a_batch_is_truthful(view, batch);
    let nodes = compared_nodes(view, request, hits);
    let scores = inputs.scores@;
    let all = vector_results(nodes, scores);
    let listed = choose|listed: Seq<RankedModel>|
        items == ranked_items(listed) && #[trigger] is_listing(listed, all, limit as nat);
    let query = SemanticModel {
        query_dimension: query_vector@.len(),
        vector_name: asked_space(vector_name),
        node_type: text::optional_string(kind),
        limit,
        top_k_override: top_k,
        hits,
    };
    assert forall|i: int| 0 <= i < items.len() implies (#[trigger] items[i] matches
        ItemModel::RankedResult(result) && result.node.node_type == node_type@) by {
        let node = listed[i].node;
        lemma_listed_from(listed, all, limit as nat, i);
        lemma_vector_scored(nodes, scores, listed[i]);
        lemma_compared(view, query_vector, kind, vector_name, limit, top_k, hits, node);
        law_view_candidates(view, batch, query, node.id);
    }
    assert forall|id: Seq<char>| (#[trigger] view.node_at(id)) is Some implies ({
        let node = view.node_at(id)->0;
        node.node_type == node_type@ && node.vectors.contains_key(asked_space(vector_name))
            && scores.contains_key(id) && !lists_node(items, id) ==> items.len() == limit
            && forall|i: int|
            0 <= i < items.len() ==> {
                let kept = scores[(#[trigger] items[i])->RankedResult_0.node.id].breakdown.semantic;
                let given = scores[id].breakdown.semantic;
                is_number(given) && is_number(kept) ==> number_of(given) <= number_of(kept)
            }
    }) by {
        let node = view.node_at(id)->0;
        if node.node_type == node_type@ && node.vectors.contains_key(asked_space(vector_name))
            && scores.contains_key(id) && !lists_node(items, id) {
            let semantic = scores[id].breakdown.semantic;
            let a = RankedModel {
                node,
                score: semantic,
                breakdown: ScoreBreakdown {
                    structural: 0,
                    semantic,
                    temporal: 0,
                    importance: 0,
                    confidence: 0,
                },
            };
            lemma_compared(view, query_vector, kind, vector_name, limit, top_k, hits, node);
            law_view_candidates(view, batch, query, id);
            lemma_vector_scored(nodes, scores, a);
            if listed.contains(a) {
                let k = choose|k: int| 0 <= k < listed.len() && listed[k] == a;
                assert(items[k] == ItemModel::RankedResult(a));
                assert(lists_node(items, id));
            }
            if listed.len() < limit {
                lemma_full(listed, all, limit as nat, a);
            }
            assert forall|i: int| 0 <= i < items.len() implies {
                let kept = scores[(#[trigger] items[i])->RankedResult_0.node.id].breakdown.semantic;
                is_number(semantic) && is_number(kept) ==> number_of(semantic) <= number_of(kept)
            } by {
                lemma_listed_from(listed, all, limit as nat, i);
                lemma_vector_scored(nodes, scores, listed[i]);
                lemma_left_out(listed, all, limit as nat, a, i);
                if is_number(listed[i].score) && is_number(a.score) {
                    law_scores_are_compared_as_numbers(listed[i].score, a.score);
                }
            }
        }
    }
}

// ---------------------------------------------------------------------------------------------
// What a ranked retrieval compares
// ---------------------------------------------------------------------------------------------

/// Whether a node's time lies in a span that may be open at either end: a node without a time lies
/// in none that is bounded.
pub open spec fn in_span(node: NodeModel, from: Option<i64>, to: Option<i64>) -> bool {
    ||| from is None && to is None
    ||| node.timestamp() matches Some(time) && (from matches Some(f) ==> f <= time) && (
    to matches Some(t) ==> time <= t)
}

/// Whether an id is near what a ranked retrieval asks for: its node has a vector of the name, or it
/// is within three edges of the reference node.
pub open spec fn is_near<G: GraphView>(
    view: &G,
    reference_node_id: Option<NodeId>,
    edge_type: Option<String>,
    vector_name: Option<String>,
    id: Seq<char>,
) -> bool {
    ||| view.node_at(id) matches Some(node) && node.vectors.contains_key(asked_space(vector_name))
    ||| reference_node_id matches Some(reference) && view.node_at(reference@) is Some && reach(
        tied(view, text::optional_string(edge_type)),
        reference@,
        3,
    ).contains(id)
}

/// Where vectors are compared one by one, a ranked retrieval compares exactly the nodes of the graph
/// whose time lies in its span and, if it has a query vector and anything is near, that are near.
pub proof fn law_retrieval_compares(
    view: &GraphSnapshot,
    query_vector: Option<Vec<u32>>,
    reference_node_id: Option<NodeId>,
    edge_type: Option<String>,
    from_epoch_ms: Option<i64>,
    to_epoch_ms: Option<i64>,
    vector_name: Option<String>,
    limit: usize,
    top_k: Option<usize>,
    now_epoch_ms: i64,
    retrieval_profile: Option<String>,
    hits: Option<Seq<Seq<char>>>,
    node: NodeModel,
)
    requires
        sound(view@),
        view@.indexes.vectors is Exact,
        limit > 0,
    ensures
        compared_nodes(
            view,
            QueryRequest::RankedRetrieval {
                query_vector,
                reference_node_id,
                edge_type,
                from_epoch_ms,
                to_epoch_ms,
                vector_name,
                limit,
                top_k,
                now_epoch_ms,
                retrieval_profile,
            },
            hits,
        ).contains(node) <==> {
            &&& view.node_at(node.id) == Some(node)
            &&& in_span(node, from_epoch_ms, to_epoch_ms)
            &&& query_vector is Some && (exists|id: Seq<char>| #[trigger]
                is_near(view, reference_node_id, edge_type, vector_name, id)) ==> is_near(
                view,
                reference_node_id,
                edge_type,
                vector_name,
                node.id,
            )
        },
{
    law_sound_snapshot_is_truthful(view);
    let name = asked_space(vector_name);
    assert(vector_space_name(vector_name) == name);
    let semantic = retrieval_semantic_ids(view, query_vector, name, limit, top_k, hits);
    let known = reference_distances(view, reference_node_id, edge_type);
    let kind = text::optional_string(edge_type);
    let near = match semantic {
        Some(ids) => ids.to_set().union(distance_ids(known)),
        None => Set::<Seq<char>>::empty(),
    };
    let within = |n: NodeModel| within_optional_time(n, from_epoch_ms, to_epoch_ms);
    let all = retrieval_nodes(view, semantic, known, from_epoch_ms, to_epoch_ms);
    assert(within(node) <==> in_span(node, from_epoch_ms, to_epoch_ms));
    if query_vector is Some {
        let query = SemanticModel {
            query_dimension: query_vector->0@.len(),
            vector_name: name,
            node_type: None,
            limit,
            top_k_override: top_k,
            hits,
        };
        assert forall|id: Seq<char>| #[trigger] near.contains(id) <==> is_near(
            view,
            reference_node_id,
            edge_type,
            vector_name,
            id,
        ) by {
            law_exact_candidates(view, query, id);
            if reference_node_id is Some {
                law_distances(view, reference_node_id->0@, kind, id);
            }
        }
        vstd::seq_lib::seq_to_set_is_finite(semantic->0);
        if reference_node_id is Some {
            law_distances(view, reference_node_id->0@, kind, node.id);
        }
        assert(near.finite());
    }
    if near != Set::<Seq<char>>::empty() {
        assert(exists|id: Seq<char>| #[trigger] near.contains(id)) by {
            if forall|id: Seq<char>| !near.contains(id) {
                assert(near =~= Set::<Seq<char>>::empty());
            }
        }
        let some = choose|id: Seq<char>| #[trigger] near.contains(id);
        assert(is_near(view, reference_node_id, edge_type, vector_name, some));
        lemma_finite_sorted::<NodeId>(near);
        let ids = sorted_keys::<NodeId>(near);
        let found = found_nodes(view, ids);
        lemma_found_contains(view, ids, node);
        lemma_passing(found, within, node);
        assert(all == found.filter(within));
        if found.contains(node) {
            let id = choose|id: Seq<char>|
                #![trigger ids.contains(id)]
                ids.contains(id) && view.node_at(id) == Some(node);
            assert(view.node_at(id)->0.id == id);
            assert(near.contains(id));
        }
        if view.node_at(node.id) == Some(node) && near.contains(node.id) {
            assert(ids.contains(node.id));
        }
    } else {
        assert forall|id: Seq<char>| query_vector is Some implies !(#[trigger] is_near(
            view,
            reference_node_id,
            edge_type,
            vector_name,
            id,
        )) by {
            assert(!near.contains(id));
        }
        if from_epoch_ms is Some && to_epoch_ms is Some {
            let ids = view.time_ids(from_epoch_ms->0, to_epoch_ms->0);
            lemma_found_contains(view, ids, node);
            if found_nodes(view, ids).contains(node) {
                let id = choose|id: Seq<char>|
                    #![trigger ids.contains(id)]
                    ids.contains(id) && view.node_at(id) == Some(node);
                assert(view.time_ids(from_epoch_ms->0, to_epoch_ms->0).contains(id));
                assert(view.node_at(id)->0.id == id);
            }
            if view.node_at(node.id) == Some(node) && in_span(node, from_epoch_ms, to_epoch_ms) {
                assert(timed_within(node, from_epoch_ms->0, to_epoch_ms->0));
                assert(view.time_ids(from_epoch_ms->0, to_epoch_ms->0).contains(node.id));
            }
        } else {
            lemma_passing(view.all_nodes(), within, node);
            assert(view.all_nodes().contains(node) <==> view.node_at(node.id) == Some(node));
        }
    }
}

/// However vectors are compared, every node that a ranked retrieval lists is a node of the graph
/// whose time lies in the span that is asked for.
pub proof fn law_retrieval_is_in_span<G: GraphView>(
    view: &G,
    request: QueryRequest,
    inputs: RankingInputs,
    items: Seq<ItemModel>,
    i: int,
)
    requires
        request is RankedRetrieval,
        answers(request, view, inputs, items),
        truthful(view),
        0 <= i < items.len(),
    ensures
        items[i] is RankedResult,
        view.node_at(result_at(items, i).node.id) == Some(result_at(items, i).node),
        in_span(
            result_at(items, i).node,
            request->RankedRetrieval_from_epoch_ms,
            request->RankedRetrieval_to_epoch_ms,
        ),
{
    let from = request->RankedRetrieval_from_epoch_ms;
    let to = request->RankedRetrieval_to_epoch_ms;
    let node = result_at(items, i).node;
    let nodes = compared_nodes(view, request, optional_models(inputs.hits));
    law_retrieval_gives_the_scores(view, request, inputs, items);
    assert(items[i] is RankedResult);
    assert(nodes.contains(node));
    let within = |n: NodeModel| within_optional_time(n, from, to);
    match request {
        QueryRequest::RankedRetrieval {
            query_vector,
            reference_node_id,
            edge_type,
            vector_name,
            limit,
            top_k,
            ..
        } => {
            let semantic = retrieval_semantic_ids(
                view,
                query_vector,
                vector_space_name(vector_name),
                limit,
                top_k,
                optional_models(inputs.hits),
            );
            let known = reference_distances(view, reference_node_id, edge_type);
            let near = match semantic {
                Some(ids) => ids.to_set().union(distance_ids(known)),
                None => Set::<Seq<char>>::empty(),
            };
            if near != Set::<Seq<char>>::empty() {
                let ids = sorted_keys::<NodeId>(near);
                lemma_passing(found_nodes(view, ids), within, node);
                lemma_found_contains(view, ids, node);
                let id = choose|id: Seq<char>|
                    #![trigger ids.contains(id)]
                    ids.contains(id) && view.node_at(id) == Some(node);
                assert(view.node_at(id)->0.id == id);
            } else if from is Some && to is Some {
                let ids = view.time_ids(from->0, to->0);
                lemma_found_contains(view, ids, node);
                let id = choose|id: Seq<char>|
                    #![trigger ids.contains(id)]
                    ids.contains(id) && view.node_at(id) == Some(node);
                assert(view.time_ids(from->0, to->0).contains(id));
                assert(view.node_at(id)->0.id == id);
            } else {
                lemma_passing(view.all_nodes(), within, node);
                assert(view.all_nodes().contains(node));
            }
        },
        _ => {},
    }
}

/// Every node that a ranked query compares is handed out with its distance from the reference node:
/// the least number of edges between them, of the type that is asked for, if it is no more than
/// three; and with none otherwise, or where there is no reference node.
pub proof fn law_candidates_have_their_distances<G: GraphView>(
    view: &G,
    request: QueryRequest,
    hits: Option<Seq<Seq<char>>>,
    i: int,
)
    requires
        truthful(view),
        0 <= i < compared_nodes(view, request, hits).len(),
    ensures
        ({
            let nodes = compared_nodes(view, request, hits);
            let given = with_distances(nodes, request_distances(view, request));
            &&& given.len() == nodes.len()
            &&& given[i].node == nodes[i]
            &&& request matches QueryRequest::RankedRetrieval { reference_node_id, edge_type, .. }
                ==> match reference_node_id {
                Some(reference) => {
                    let hops = tied(view, text::optional_string(edge_type));
                    let id = nodes[i].id;
                    match given[i].distance {
                        Some(d) => d <= 3 && view.node_at(reference@) is Some && reach(
                            hops,
                            reference@,
                            d as nat,
                        ).contains(id) && forall|n: nat|
                            n < d ==> !(#[trigger] reach(hops, reference@, n)).contains(id),
                        None => view.node_at(reference@) is None || !reach(
                            hops,
                            reference@,
                            3,
                        ).contains(id),
                    }
                },
                None => given[i].distance is None,
            }
            &&& request is VectorSearch ==> given[i].distance is None
        }),
{
    let nodes = compared_nodes(view, request, hits);
    match request {
        QueryRequest::RankedRetrieval { reference_node_id, edge_type, .. } => {
            match reference_node_id {
                Some(reference) => {
                    law_distances(
                        view,
                        reference@,
                        text::optional_string(edge_type),
                        nodes[i].id,
                    );
                },
                None => {},
            }
        },
        _ => {},
    }
}

} // verus!
