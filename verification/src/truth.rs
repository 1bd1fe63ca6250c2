//! What it means that the lists of a graph say what its records say.
use vstd::prelude::*;

use crate::commits::{law_sound_snapshot_lists_what_fits, sound};
use crate::faithful::{filed_under, has_vector, is_of_time, is_of_type};
use crate::graph::{GraphSnapshot, GraphView, SemanticModel};
use crate::index::{time_key, EdgeDirection, IndexModel};
use crate::ordered::{lemma_finite_sorted, sorted_keys};
use crate::records::{EdgeModel, NodeModel};
use crate::vectors::bucket;

verus! {

/// Whether an edge leaves a node, where the direction admits that, or enters it, where the
/// direction admits that.
pub open spec fn stands_at(edge: EdgeModel, node: Seq<char>, direction: EdgeDirection) -> bool {
    ||| direction != EdgeDirection::Incoming && edge.source == node
    ||| direction != EdgeDirection::Outgoing && edge.target == node
}

/// Whether an edge is of a type, if one is asked for.
pub open spec fn of_type(edge: EdgeModel, edge_type: Option<Seq<char>>) -> bool {
    edge_type matches Some(t) ==> edge.edge_type == t
}

/// Whether a node has a time from `from` to `to`.
pub open spec fn timed_within(node: NodeModel, from: i64, to: i64) -> bool {
    node.timestamp() matches Some(time) && from <= time && time <= to
}

/// Whether a graph finds its records under their own ids, and lists exactly the edges of a node in
/// a direction and of a type, the nodes of a type, the nodes of a span of time, and all nodes; and
/// whether its unique keys lead to nodes that have them.
pub open spec fn truthful<G: GraphView>(view: &G) -> bool {
    &&& forall|id: Seq<char>| (#[trigger] view.node_at(id)) matches Some(node) ==> node.id == id
    &&& forall|id: Seq<char>| (#[trigger] view.edge_at(id)) matches Some(edge) ==> edge.id == id
    &&& forall|id: Seq<char>| #[trigger] view.has_node(id) <==> view.node_at(id) is Some
    &&& forall|
        node: Seq<char>,
        direction: EdgeDirection,
        edge_type: Option<Seq<char>>,
        id: Seq<char>,
    |
        #![trigger view.incident_ids(node, direction, edge_type).contains(id)]
        view.incident_ids(node, direction, edge_type).contains(id) <==> (view.edge_at(
            id,
        ) matches Some(edge) && stands_at(edge, node, direction) && of_type(edge, edge_type))
    &&& forall|node_type: Seq<char>, id: Seq<char>|
        #![trigger view.typed_ids(node_type).contains(id)]
        view.typed_ids(node_type).contains(id) <==> (view.node_at(id) matches Some(node)
            && node.node_type == node_type)
    &&& forall|from: i64, to: i64, id: Seq<char>|
        #![trigger view.time_ids(from, to).contains(id)]
        view.time_ids(from, to).contains(id) <==> (view.node_at(id) matches Some(node)
            && timed_within(node, from, to))
    &&& forall|node: NodeModel|
        #![trigger view.all_nodes().contains(node)]
        view.all_nodes().contains(node) <==> view.node_at(node.id) == Some(node)
    &&& forall|key: Seq<char>|
        (#[trigger] view.unique_key_at(key)) matches Some(id) ==> (view.node_at(id) matches Some(
            node,
        ) && node.unique_key() == Some(key))
}

/// The times from `from` to `to` that an index lists an id under.
proof fn lemma_at_times(index: IndexModel, times: Seq<i64>, from: i64, to: i64, id: Seq<char>)
    ensures
        index.ids_at_times(times, from, to).contains(id) <==> (exists|t: i64| #[trigger]
            times.contains(t) && from <= t && t <= to && bucket(index.times, t).contains(id)),
    decreases times.len(),
{
    if times.len() > 0 {
        let short = times.drop_last();
        let last = times.last();
        lemma_at_times(index, short, from, to, id);
        let before = index.ids_at_times(short, from, to);
        let more = bucket(index.times, last);
        let whole = index.ids_at_times(times, from, to);
        assert(times.contains(last));
        assert forall|t: i64| #[trigger] times.contains(t) <==> short.contains(t) || t == last by {
            if times.contains(t) {
                let k = choose|k: int| 0 <= k < times.len() && times[k] == t;
                if k < short.len() {
                    assert(short[k] == t);
                }
            }
            if short.contains(t) {
                let k = choose|k: int| 0 <= k < short.len() && short[k] == t;
                assert(times[k] == t);
            }
        }
        assert((before + more).contains(id) <==> before.contains(id) || more.contains(id)) by {
            if before.contains(id) {
                let k = choose|k: int| 0 <= k < before.len() && before[k] == id;
                assert((before + more)[k] == id);
            }
            if more.contains(id) {
                let k = choose|k: int| 0 <= k < more.len() && more[k] == id;
                assert((before + more)[before.len() + k] == id);
            }
        }
        let holds = |t: i64| from <= t && t <= to && bucket(index.times, t).contains(id);
        if whole.contains(id) {
            if before.contains(id) {
                let t = choose|t: i64| #[trigger] short.contains(t) && holds(t);
                assert(times.contains(t) && holds(t));
            } else {
                assert(times.contains(last) && holds(last));
            }
        }
        if exists|t: i64| #[trigger] times.contains(t) && holds(t) {
            let t = choose|t: i64| #[trigger] times.contains(t) && holds(t);
            if short.contains(t) {
                assert(before.contains(id));
            } else {
                assert(more.contains(id));
            }
        }
    }
}

/// The time of a node is a machine integer.
proof fn lemma_time_fits(node: NodeModel)
    ensures
        node.timestamp() matches Some(t) ==> i64::MIN <= t && t <= i64::MAX && time_key(node)
            == Some(t as i64) && (t as i64) as int == t,
{
}

/// The lists of a sound snapshot say what its records say.
pub proof fn law_sound_snapshot_is_truthful(snapshot: &GraphSnapshot)
    requires
        sound(snapshot@),
    ensures
        truthful(snapshot),
{
    let s = snapshot@;
    assert forall|
        node: Seq<char>,
        direction: EdgeDirection,
        edge_type: Option<Seq<char>>,
        id: Seq<char>,
    |
        #![trigger snapshot.incident_ids(node, direction, edge_type).contains(id)]
        snapshot.incident_ids(node, direction, edge_type).contains(id) <==> (snapshot.edge_at(
            id,
        ) matches Some(edge) && stands_at(edge, node, direction) && of_type(edge, edge_type)) by {
        law_sound_snapshot_lists_what_fits(
            *snapshot,
            node,
            direction,
            edge_type,
            Seq::empty(),
            id,
        );
    }
    assert forall|node_type: Seq<char>, id: Seq<char>|
        #![trigger snapshot.typed_ids(node_type).contains(id)]
        snapshot.typed_ids(node_type).contains(id) <==> (snapshot.node_at(id) matches Some(node)
            && node.node_type == node_type) by {
        law_sound_snapshot_lists_what_fits(
            *snapshot,
            Seq::empty(),
            EdgeDirection::Both,
            None,
            node_type,
            id,
        );
    }
    lemma_times_finite(snapshot);
    lemma_finite_sorted::<i64>(s.indexes.times.dom());
    let times = sorted_keys::<i64>(s.indexes.times.dom());
    assert forall|from: i64, to: i64, id: Seq<char>|
        #![trigger snapshot.time_ids(from, to).contains(id)]
        snapshot.time_ids(from, to).contains(id) <==> (snapshot.node_at(id) matches Some(node)
            && timed_within(node, from, to)) by {
        lemma_at_times(s.indexes, times, from, to, id);
        if s.nodes.contains_key(id) {
            lemma_time_fits(s.nodes[id]);
        }
        if snapshot.time_ids(from, to).contains(id) {
            let t = choose|t: i64| #[trigger]
                times.contains(t) && from <= t && t <= to && bucket(s.indexes.times, t).contains(id);
            assert(filed_under(s.indexes.times, t, id));
            assert(is_of_time(s.nodes)(t, id));
        }
        if s.nodes.contains_key(id) && timed_within(s.nodes[id], from, to) {
            let t = s.nodes[id].timestamp()->0 as i64;
            assert(is_of_time(s.nodes)(t, id));
            assert(filed_under(s.indexes.times, t, id));
            assert(s.indexes.times.contains_key(t));
            assert(times.contains(t));
        }
    }
    lemma_finite_sorted::<String>(s.nodes.dom());
    let ids = sorted_keys::<String>(s.nodes.dom());
    assert forall|node: NodeModel|
        #![trigger snapshot.all_nodes().contains(node)]
        snapshot.all_nodes().contains(node) <==> snapshot.node_at(node.id) == Some(node) by {
        let all = snapshot.all_nodes();
        if all.contains(node) {
            let k = choose|k: int| 0 <= k < all.len() && all[k] == node;
            assert(ids.contains(ids[k]));
            assert(s.nodes.contains_key(ids[k]));
        }
        if snapshot.node_at(node.id) == Some(node) {
            assert(ids.contains(node.id));
            let k = choose|k: int| 0 <= k < ids.len() && ids[k] == node.id;
            assert(all[k] == node);
        }
    }
}

/// A sound snapshot knows finitely many times.
proof fn lemma_times_finite(snapshot: &GraphSnapshot)
    requires
        sound(snapshot@),
    ensures
        snapshot@.indexes.times.dom().finite(),
{
    let s = snapshot@;
    let when = |id: Seq<char>| s.nodes[id].timestamp()->0 as i64;
    let image = s.nodes.dom().map(when);
    s.nodes.dom().lemma_map_finite(when);
    assert forall|t: i64| #[trigger] s.indexes.times.dom().contains(t) implies image.contains(
        t,
    ) by {
        let id = s.indexes.times[t][0];
        assert(bucket(s.indexes.times, t).contains(id));
        assert(filed_under(s.indexes.times, t, id));
        assert(is_of_time(s.nodes)(t, id));
        lemma_time_fits(s.nodes[id]);
        assert(when(id) == t);
    }
    vstd::set_lib::lemma_set_subset_finite(image, s.indexes.times.dom());
}

// ---------------------------------------------------------------------------------------------
// Times in order
// ---------------------------------------------------------------------------------------------

/// Ids that an index lists by ascending times are listed so by the times of their nodes.
proof fn lemma_by_time(snapshot: &GraphSnapshot, times: Seq<i64>, from: i64, to: i64)
    requires
        sound(snapshot@),
        forall|i: int, j: int| 0 <= i < j < times.len() ==> #[trigger] times[i] < #[trigger] times[j],
    ensures
        ({
            let ids = snapshot@.indexes.ids_at_times(times, from, to);
            &&& forall|i: int|
                0 <= i < ids.len() ==> snapshot@.nodes.contains_key(#[trigger] ids[i]) && (time_key(
                    snapshot@.nodes[ids[i]],
                ) matches Some(t) && times.contains(t))
            &&& forall|i: int, j: int|
                0 <= i < j < ids.len() ==> time_key(snapshot@.nodes[#[trigger] ids[i]])->0
                    <= time_key(snapshot@.nodes[#[trigger] ids[j]])->0
        }),
    decreases times.len(),
{
    let s = snapshot@;
    let ids = s.indexes.ids_at_times(times, from, to);
    if times.len() > 0 {
        let short = times.drop_last();
        let last = times.last();
        assert forall|i: int, j: int| 0 <= i < j < short.len() implies #[trigger] short[i]
            < #[trigger] short[j] by {
            assert(times[i] < times[j]);
        }
        lemma_by_time(snapshot, short, from, to);
        let before = s.indexes.ids_at_times(short, from, to);
        assert(times[times.len() - 1] == last);
        assert forall|i: int| 0 <= i < ids.len() implies s.nodes.contains_key(#[trigger] ids[i])
            && (time_key(s.nodes[ids[i]]) matches Some(t) && times.contains(t)) && (i
            >= before.len() ==> time_key(s.nodes[ids[i]]) == Some(last)) && (i < before.len()
            ==> time_key(s.nodes[ids[i]])->0 < last) by {
            if i < before.len() {
                assert(ids[i] == before[i]);
                let t = time_key(s.nodes[before[i]])->0;
                assert(short.contains(t));
                let k = choose|k: int| 0 <= k < short.len() && short[k] == t;
                assert(times[k] == t);
                assert(times[k] < times[times.len() - 1]);
            } else {
                let more = bucket(s.indexes.times, last);
                assert(ids[i] == more[i - before.len()]);
                assert(more.contains(ids[i]));
                assert(filed_under(s.indexes.times, last, ids[i]));
                assert(is_of_time(s.nodes)(last, ids[i]));
            }
        }
        assert forall|i: int, j: int| 0 <= i < j < ids.len() implies time_key(
            s.nodes[#[trigger] ids[i]],
        )->0 <= time_key(s.nodes[#[trigger] ids[j]])->0 by {
            if j < before.len() {
                assert(ids[i] == before[i]);
                assert(ids[j] == before[j]);
            }
        }
    }
}

/// A sound snapshot lists the nodes of a span of time by ascending time.
pub proof fn law_time_ids_are_by_time(snapshot: &GraphSnapshot, from: i64, to: i64, i: int, j: int)
    requires
        sound(snapshot@),
        0 <= i < j < snapshot.time_ids(from, to).len(),
    ensures
        ({
            let a = snapshot.node_at(snapshot.time_ids(from, to)[i]);
            let b = snapshot.node_at(snapshot.time_ids(from, to)[j]);
            &&& a is Some && b is Some
            &&& a->0.timestamp() is Some && b->0.timestamp() is Some
            &&& a->0.timestamp()->0 <= b->0.timestamp()->0
        }),
{
    let s = snapshot@;
    lemma_times_finite(snapshot);
    lemma_finite_sorted::<i64>(s.indexes.times.dom());
    let times = sorted_keys::<i64>(s.indexes.times.dom());
    assert forall|x: int, y: int| 0 <= x < y < times.len() implies #[trigger] times[x]
        < #[trigger] times[y] by {}
    lemma_by_time(snapshot, times, from, to);
    let ids = snapshot.time_ids(from, to);
    assert(ids == s.indexes.ids_at_times(times, from, to));
    lemma_time_fits(s.nodes[ids[i]]);
    lemma_time_fits(s.nodes[ids[j]]);
    assert(time_key(s.nodes[ids[i]])->0 <= time_key(s.nodes[ids[j]])->0);
}

// ---------------------------------------------------------------------------------------------
// Candidates for a comparison with a vector
// ---------------------------------------------------------------------------------------------

/// Whether the graph has a node of a type.
pub open spec fn has_type<G: GraphView>(view: &G, node_type: Seq<char>) -> bool {
    exists|id: Seq<char>|
        (#[trigger] view.node_at(id)) matches Some(node) && node.node_type == node_type
}

/// Whether every node that a search outside has found is of a type.
pub open spec fn hits_of_type<G: GraphView>(
    view: &G,
    hits: Option<Seq<Seq<char>>>,
    node_type: Seq<char>,
) -> bool {
    hits matches Some(ids) ==> forall|k: int|
        0 <= k < ids.len() ==> ((view.node_at(#[trigger] ids[k])) matches Some(node)
            ==> node.node_type == node_type)
}

/// What an index of a sound snapshot says of a type.
proof fn lemma_type_allows(snapshot: &GraphSnapshot, node_type: Seq<char>, id: Seq<char>)
    requires
        sound(snapshot@),
    ensures
        snapshot@.indexes.type_allows(Some(node_type), id) <==> !has_type(snapshot, node_type) || (
        snapshot.node_at(id) matches Some(node) && node.node_type == node_type),
{
    let s = snapshot@;
    let labels = s.indexes.labels;
    assert(filed_under(labels, node_type, id) <==> is_of_type(s.nodes)(node_type, id));
    if labels.contains_key(node_type) {
        let other = labels[node_type][0];
        assert(bucket(labels, node_type).contains(other));
        assert(filed_under(labels, node_type, other));
        assert(is_of_type(s.nodes)(node_type, other));
        assert(snapshot.node_at(other) is Some);
    }
    if has_type(snapshot, node_type) {
        let other = choose|other: Seq<char>|
            (#[trigger] snapshot.node_at(other)) matches Some(node) && node.node_type == node_type;
        assert(is_of_type(s.nodes)(node_type, other));
        assert(filed_under(labels, node_type, other));
    }
}

/// Where vectors are compared one by one, the nodes that a sound snapshot compares with a query
/// vector are exactly those with a vector of the name and, if some node has the type that is asked
/// for, of this type. A type that no node has is not asked for.
pub proof fn law_exact_candidates(snapshot: &GraphSnapshot, query: SemanticModel, id: Seq<char>)
    requires
        sound(snapshot@),
        snapshot@.indexes.vectors is Exact,
    ensures
        snapshot.semantic_ids(query).contains(id) <==> query.limit > 0 && (snapshot.node_at(
            id,
        ) matches Some(node) && node.vectors.contains_key(query.vector_name) && (
        query.node_type matches Some(t) ==> has_type(snapshot, t) ==> node.node_type == t)),
{
    let s = snapshot@;
    let list = bucket(s.indexes.vectors.candidates(), query.vector_name);
    let test = |b: Seq<char>| s.indexes.type_allows(query.node_type, b);
    crate::replies::lemma_passing(list, test, id);
    assert(filed_under(s.indexes.vectors.candidates(), query.vector_name, id) <==> has_vector(
        s.nodes,
    )(query.vector_name, id));
    if query.node_type is Some {
        lemma_type_allows(snapshot, query.node_type->0, id);
    }
}

/// However vectors are compared, every node that a sound snapshot compares for a type that some
/// node has is of this type, provided that what a search outside has found is.
pub proof fn law_candidates_are_of_type(
    snapshot: &GraphSnapshot,
    query: SemanticModel,
    node_type: Seq<char>,
    id: Seq<char>,
)
    requires
        sound(snapshot@),
        query.node_type == Some(node_type),
        has_type(snapshot, node_type),
        snapshot@.indexes.vectors is Exact || hits_of_type(snapshot, query.hits, node_type),
        snapshot.semantic_ids(query).contains(id),
    ensures
        snapshot.node_at(id) matches Some(node) ==> node.node_type == node_type,
{
    let s = snapshot@;
    let list = bucket(s.indexes.vectors.candidates(), query.vector_name);
    let test = |b: Seq<char>| s.indexes.type_allows(query.node_type, b);
    crate::replies::lemma_passing(list, test, id);
    lemma_type_allows(snapshot, node_type, id);
    let ids = snapshot.semantic_ids(query);
    let k = choose|k: int| 0 <= k < ids.len() && ids[k] == id;
    if query.hits == Some(ids) {
        assert(query.hits->0[k] == id);
    }
}

} // verus!
