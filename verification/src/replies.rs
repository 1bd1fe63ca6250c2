//! What the answers to queries say of the graph, told by the records that they hold.
use vstd::prelude::*;
use vstd::string::*;

use crate::commits::sound;
use crate::common::NodeId;
use crate::execute::{
    answers, first, found_nodes, looked_at, neighbors_along, property_within, RankingInputs,
};
use crate::faithful::keys_found;
use crate::filters::{meeting, meets, FilterExpression};
use crate::graph::{GraphSnapshot, GraphView};
use crate::index::EdgeDirection;
use crate::plan::QueryRequest;
use crate::records::{EdgeModel, NodeModel};
use crate::results::{edge_items, node_items, ItemModel};
use crate::text;
use crate::traverse::far_end;
use crate::truth::{
    law_sound_snapshot_is_truthful, law_time_ids_are_by_time, of_type, stands_at, truthful,
};

verus! {

// ---------------------------------------------------------------------------------------------
// Lists
// ---------------------------------------------------------------------------------------------

/// The limit that a request sets, or 100 where it sets none.
pub open spec fn asked_limit(limit: Option<usize>) -> int {
    match limit {
        Some(l) => l as int,
        None => 100,
    }
}

/// The nodes that are found are those of the listed ids.
pub proof fn lemma_found_contains<G: GraphView>(view: &G, ids: Seq<Seq<char>>, node: NodeModel)
    ensures
        found_nodes(view, ids).contains(node) <==> (exists|id: Seq<char>|
            #![trigger ids.contains(id)]
            ids.contains(id) && view.node_at(id) == Some(node)),
    decreases ids.len(),
{
    if ids.len() > 0 {
        let short = ids.drop_last();
        let last = ids.last();
        lemma_found_contains(view, short, node);
        assert(ids =~= short.push(last));
        assert forall|id: Seq<char>| #[trigger] ids.contains(id) <==> short.contains(id) || id
            == last by {
            crate::reach::lemma_push_contains(short, last, id);
        }
        let before = found_nodes(view, short);
        match view.node_at(last) {
            Some(found) => {
                lemma_push_holds(before, found, node);
            },
            None => {},
        }
        if exists|id: Seq<char>|
            #![trigger short.contains(id)]
            short.contains(id) && view.node_at(id) == Some(node) {
            let id = choose|id: Seq<char>|
                #![trigger short.contains(id)]
                short.contains(id) && view.node_at(id) == Some(node);
            assert(ids.contains(id));
        }
        assert(ids.contains(last));
    }
}

/// What a list with one more item holds.
pub proof fn lemma_push_holds<A>(list: Seq<A>, item: A, b: A)
    ensures
        list.push(item).contains(b) <==> list.contains(b) || b == item,
{
    let next = list.push(item);
    if next.contains(b) {
        let k = choose|k: int| 0 <= k < next.len() && next[k] == b;
        if k < list.len() {
            assert(list[k] == b);
        }
    }
    if list.contains(b) {
        let k = choose|k: int| 0 <= k < list.len() && list[k] == b;
        assert(next[k] == b);
    }
    assert(next[list.len() as int] == item);
}

/// What passes a test is what the list holds that passes it.
pub proof fn lemma_passing<A>(list: Seq<A>, test: spec_fn(A) -> bool, item: A)
    ensures
        list.filter(test).contains(item) <==> list.contains(item) && test(item),
    decreases list.len(),
{
    reveal(Seq::filter);
    if list.len() > 0 {
        let short = list.drop_last();
        lemma_passing(short, test, item);
        assert(list =~= short.push(list.last()));
        lemma_push_holds(short, list.last(), item);
        lemma_push_holds(short.filter(test), list.last(), item);
    }
}

/// The first items of a list are items of it, no more than may be, and all if they are fewer.
pub proof fn lemma_first<A>(items: Seq<A>, count: usize)
    ensures
        first(items, count).len() <= count,
        first(items, count).len() < count ==> first(items, count) == items,
        forall|item: A| #[trigger] first(items, count).contains(item) ==> items.contains(item),
{
    assert forall|item: A| #[trigger] first(items, count).contains(item) implies items.contains(
        item,
    ) by {
        let k = choose|k: int|
            0 <= k < first(items, count).len() && first(items, count)[k] == item;
        assert(items[k] == item);
    }
}

/// Nodes as items.
proof fn lemma_as_items(nodes: Seq<NodeModel>)
    ensures
        node_items(nodes).len() == nodes.len(),
        forall|node: NodeModel| #[trigger]
            node_items(nodes).contains(ItemModel::Node(node)) <==> nodes.contains(node),
        forall|item: ItemModel| #[trigger] node_items(nodes).contains(item) ==> item is Node,
{
    let items = node_items(nodes);
    assert forall|node: NodeModel| #[trigger]
        items.contains(ItemModel::Node(node)) <==> nodes.contains(node) by {
        if items.contains(ItemModel::Node(node)) {
            let k = choose|k: int| 0 <= k < items.len() && items[k] == ItemModel::Node(node);
            assert(nodes[k] == node);
        }
        if nodes.contains(node) {
            let k = choose|k: int| 0 <= k < nodes.len() && nodes[k] == node;
            assert(items[k] == ItemModel::Node(node));
        }
    }
}

// ---------------------------------------------------------------------------------------------
// Single nodes
// ---------------------------------------------------------------------------------------------

/// A node that is asked for by its id is the whole answer, and the answer is empty where the graph
/// does not have it.
pub proof fn law_lookup_by_id<G: GraphView>(
    view: &G,
    node_id: NodeId,
    inputs: RankingInputs,
    items: Seq<ItemModel>,
)
    requires
        answers(QueryRequest::GetNodeById { node_id }, view, inputs, items),
        truthful(view),
    ensures
        items.len() <= 1,
        items.len() == 0 <==> view.node_at(node_id@) is None,
        items.len() == 1 ==> (items[0] matches ItemModel::Node(node) && node.id == node_id@
            && view.node_at(node_id@) == Some(node)),
{
}

/// A node that is asked for by its unique key is a node of the graph that has this key.
pub proof fn law_lookup_by_key<G: GraphView>(
    view: &G,
    unique_key: String,
    inputs: RankingInputs,
    items: Seq<ItemModel>,
)
    requires
        answers(QueryRequest::GetNodeByUniqueKey { unique_key }, view, inputs, items),
        truthful(view),
    ensures
        items.len() <= 1,
        items.len() == 0 <==> view.unique_key_at(unique_key@) is None,
        items.len() == 1 ==> (items[0] matches ItemModel::Node(node) && node.unique_key() == Some(
            unique_key@,
        ) && view.node_at(node.id) == Some(node)),
{
}

/// Over a snapshot whose index knows the unique key of every node, a node that is asked for by its
/// unique key is found.
pub proof fn law_lookup_by_key_finds(
    view: &GraphSnapshot,
    unique_key: String,
    inputs: RankingInputs,
    items: Seq<ItemModel>,
    id: Seq<char>,
)
    requires
        answers(QueryRequest::GetNodeByUniqueKey { unique_key }, view, inputs, items),
        keys_found(view@.indexes.unique_keys, view@.nodes),
        view.node_at(id) matches Some(node) && node.unique_key() == Some(unique_key@),
    ensures
        items == seq![ItemModel::Node(view.node_at(id)->0)],
{
    assert(view@.nodes.contains_key(id));
}

// ---------------------------------------------------------------------------------------------
// Nodes by a label, by a span of time and by a condition
// ---------------------------------------------------------------------------------------------

/// A search by a label gives nodes of that type alone, no more than were asked for, and every one
/// if they are fewer.
pub proof fn law_label_search<G: GraphView>(
    view: &G,
    label: String,
    limit: Option<usize>,
    inputs: RankingInputs,
    items: Seq<ItemModel>,
)
    requires
        answers(QueryRequest::SearchByLabel { label, limit }, view, inputs, items),
        truthful(view),
    ensures
        items.len() <= asked_limit(limit),
        forall|item: ItemModel| #[trigger]
            items.contains(item) ==> (item matches ItemModel::Node(node) && node.node_type
                == label@ && view.node_at(node.id) == Some(node)),
        items.len() < asked_limit(limit) ==> forall|id: Seq<char>|
            (#[trigger] view.node_at(id)) matches Some(node) ==> (node.node_type == label@
                ==> items.contains(ItemModel::Node(node))),
{
    let ids = view.typed_ids(label@);
    let found = found_nodes(view, ids);
    let bound = crate::plan::limit_or_default(limit);
    lemma_first(found, bound);
    lemma_as_items(first(found, bound));
    assert forall|item: ItemModel| #[trigger] items.contains(item) implies (item matches
        ItemModel::Node(node) && node.node_type == label@ && view.node_at(node.id) == Some(
        node,
    )) by {
        let node = item->Node_0;
        assert(item == ItemModel::Node(node));
        lemma_found_contains(view, ids, node);
        let id = choose|id: Seq<char>|
            #![trigger ids.contains(id)]
            ids.contains(id) && view.node_at(id) == Some(node);
        assert(view.typed_ids(label@).contains(id));
    }
    if items.len() < asked_limit(limit) {
        assert forall|id: Seq<char>| (#[trigger] view.node_at(id)) is Some implies ({
            let node = view.node_at(id)->0;
            node.node_type == label@ ==> items.contains(ItemModel::Node(node))
        }) by {
            let node = view.node_at(id)->0;
            if node.node_type == label@ {
                assert(view.typed_ids(label@).contains(id));
                lemma_found_contains(view, ids, node);
                assert(found.contains(node));
            }
        }
    }
}

/// Whether a property of a node, as an integer, lies from `from` to `to`.
pub open spec fn lies_within(node: NodeModel, field: Seq<char>, from: i64, to: i64) -> bool {
    node.integer_property(field) matches Some(value) && from <= value && value <= to
}

/// A search by a span of time gives nodes alone whose property lies in the span, no more than were
/// asked for, and every one if they are fewer.
pub proof fn law_time_range<G: GraphView>(
    view: &G,
    field: String,
    from_epoch_ms: i64,
    to_epoch_ms: i64,
    limit: usize,
    inputs: RankingInputs,
    items: Seq<ItemModel>,
)
    requires
        answers(
            QueryRequest::TimeRange { field, from_epoch_ms, to_epoch_ms, limit },
            view,
            inputs,
            items,
        ),
        truthful(view),
    ensures
        items.len() <= limit,
        forall|item: ItemModel| #[trigger]
            items.contains(item) ==> (item matches ItemModel::Node(node) && lies_within(
                node,
                field@,
                from_epoch_ms,
                to_epoch_ms,
            ) && view.node_at(node.id) == Some(node)),
        items.len() < limit ==> forall|id: Seq<char>|
            (#[trigger] view.node_at(id)) matches Some(node) ==> (lies_within(
                node,
                field@,
                from_epoch_ms,
                to_epoch_ms,
            ) ==> items.contains(ItemModel::Node(node))),
{
    let timed = field@ == "timestamp"@;
    let ids = view.time_ids(from_epoch_ms, to_epoch_ms);
    let test = |node: NodeModel| property_within(node, field@, from_epoch_ms, to_epoch_ms);
    let found = if timed {
        found_nodes(view, ids)
    } else {
        view.all_nodes().filter(test)
    };
    lemma_first(found, limit);
    lemma_as_items(first(found, limit));
    assert forall|item: ItemModel| #[trigger] items.contains(item) implies (item matches
        ItemModel::Node(node) && lies_within(node, field@, from_epoch_ms, to_epoch_ms)
        && view.node_at(node.id) == Some(node)) by {
        let node = item->Node_0;
        assert(item == ItemModel::Node(node));
        if timed {
            lemma_found_contains(view, ids, node);
            let id = choose|id: Seq<char>|
                #![trigger ids.contains(id)]
                ids.contains(id) && view.node_at(id) == Some(node);
            assert(view.time_ids(from_epoch_ms, to_epoch_ms).contains(id));
        } else {
            lemma_passing(view.all_nodes(), test, node);
            assert(view.all_nodes().contains(node));
        }
    }
    if items.len() < limit {
        assert forall|id: Seq<char>| (#[trigger] view.node_at(id)) is Some implies ({
            let node = view.node_at(id)->0;
            lies_within(node, field@, from_epoch_ms, to_epoch_ms) ==> items.contains(
            ItemModel::Node(node),
        )
        }) by {
            let node = view.node_at(id)->0;
            if lies_within(node, field@, from_epoch_ms, to_epoch_ms) {
                if timed {
                    assert(view.time_ids(from_epoch_ms, to_epoch_ms).contains(id));
                    lemma_found_contains(view, ids, node);
                } else {
                    assert(view.all_nodes().contains(node));
                    lemma_passing(view.all_nodes(), test, node);
                }
                assert(found.contains(node));
            }
        }
    }
}

/// Over a sound snapshot, a search by the time of nodes lists the earlier nodes first.
pub proof fn law_time_range_is_by_time(
    view: &GraphSnapshot,
    field: String,
    from_epoch_ms: i64,
    to_epoch_ms: i64,
    limit: usize,
    inputs: RankingInputs,
    items: Seq<ItemModel>,
    i: int,
    j: int,
)
    requires
        answers(
            QueryRequest::TimeRange { field, from_epoch_ms, to_epoch_ms, limit },
            view,
            inputs,
            items,
        ),
        sound(view@),
        field@ == "timestamp"@,
        0 <= i < j < items.len(),
    ensures
        items[i] is Node && items[j] is Node,
        items[i]->Node_0.timestamp()->0 <= items[j]->Node_0.timestamp()->0,
{
    let ids = view.time_ids(from_epoch_ms, to_epoch_ms);
    law_sound_snapshot_is_truthful(view);
    assert forall|k: int| 0 <= k < ids.len() implies view.node_at(#[trigger] ids[k]) is Some by {
        assert(view.time_ids(from_epoch_ms, to_epoch_ms).contains(ids[k]));
    }
    crate::tours::lemma_all_found(view, ids);
    let found = found_nodes(view, ids);
    lemma_first(found, limit);
    law_time_ids_are_by_time(view, from_epoch_ms, to_epoch_ms, i, j);
    assert(view.node_at(ids[i]) == Some(found[i]));
    assert(view.node_at(ids[j]) == Some(found[j]));
    assert(items[i] == ItemModel::Node(found[i]));
    assert(items[j] == ItemModel::Node(found[j]));
}

/// A search by a condition gives nodes alone that meet it and are of the label, if one is asked
/// for; no more than were asked for, and every one if they are fewer.
pub proof fn law_filtered_nodes<G: GraphView>(
    view: &G,
    label: Option<String>,
    filter: FilterExpression,
    limit: Option<usize>,
    inputs: RankingInputs,
    items: Seq<ItemModel>,
)
    requires
        answers(QueryRequest::FilterNodes { label, filter, limit }, view, inputs, items),
        truthful(view),
    ensures
        items.len() <= asked_limit(limit),
        forall|item: ItemModel| #[trigger]
            items.contains(item) ==> (item matches ItemModel::Node(node) && meets(filter, node) && (
            label matches Some(l) ==> node.node_type == l@) && view.node_at(node.id) == Some(node)),
        items.len() < asked_limit(limit) ==> forall|id: Seq<char>|
            (#[trigger] view.node_at(id)) matches Some(node) ==> (meets(filter, node) && (
            label matches Some(l) ==> node.node_type == l@) ==> items.contains(
                ItemModel::Node(node),
            )),
{
    let bound = crate::plan::limit_or_default(limit);
    let looked = looked_at(view, label);
    let test = |node: NodeModel| meets(filter, node);
    let found = meeting(looked, filter);
    lemma_first(found, bound);
    lemma_as_items(first(found, bound));
    assert forall|node: NodeModel| #[trigger] looked.contains(node) <==> view.node_at(node.id)
        == Some(node) && (label matches Some(l) ==> node.node_type == l@) by {
        match label {
            Some(l) => {
                let ids = view.typed_ids(l@);
                lemma_found_contains(view, ids, node);
                if looked.contains(node) {
                    let id = choose|id: Seq<char>|
                        #![trigger ids.contains(id)]
                        ids.contains(id) && view.node_at(id) == Some(node);
                    assert(view.typed_ids(l@).contains(id));
                }
                if view.node_at(node.id) == Some(node) && node.node_type == l@ {
                    assert(view.typed_ids(l@).contains(node.id));
                }
            },
            None => {
                assert(view.all_nodes().contains(node) <==> view.node_at(node.id) == Some(node));
            },
        }
    }
    assert forall|item: ItemModel| #[trigger] items.contains(item) implies (item matches
        ItemModel::Node(node) && meets(filter, node) && (label matches Some(l) ==> node.node_type
        == l@) && view.node_at(node.id) == Some(node)) by {
        let node = item->Node_0;
        assert(item == ItemModel::Node(node));
        lemma_passing(looked, test, node);
        assert(looked.contains(node));
    }
    if items.len() < asked_limit(limit) {
        assert forall|id: Seq<char>| (#[trigger] view.node_at(id)) is Some implies ({
            let node = view.node_at(id)->0;
            meets(filter, node) && (label matches Some(l) ==> node.node_type == l@) ==> items.contains(
            ItemModel::Node(node),
        )
        }) by {
            let node = view.node_at(id)->0;
            if meets(filter, node) && (label matches Some(l) ==> node.node_type == l@) {
                assert(looked.contains(node));
                lemma_passing(looked, test, node);
                assert(found.contains(node));
            }
        }
    }
}

// ---------------------------------------------------------------------------------------------
// Neighbours
// ---------------------------------------------------------------------------------------------

/// What is found along edges of a node: the edges of the ids, and the nodes that these lead to.
proof fn lemma_along<G: GraphView>(
    view: &G,
    node: Seq<char>,
    direction: EdgeDirection,
    ids: Seq<Seq<char>>,
)
    ensures
        ({
            let found = neighbors_along(view, node, direction, ids);
            &&& found.edges.len() <= ids.len()
            &&& (forall|i: int| 0 <= i < ids.len() ==> view.edge_at(#[trigger] ids[i]) is Some)
                ==> found.edges.len() == ids.len()
            &&& forall|edge: EdgeModel| #[trigger]
                found.edges.contains(edge) <==> (exists|i: int|
                    0 <= i < ids.len() && view.edge_at(#[trigger] ids[i]) == Some(edge))
            &&& forall|to: Seq<char>| #[trigger]
                found.seen.contains(to) <==> (exists|edge: EdgeModel| #[trigger]
                    found.edges.contains(edge) && far_end(edge, node, direction) == to)
            &&& forall|n: NodeModel| #[trigger]
                found.nodes.contains(n) <==> (exists|to: Seq<char>| #[trigger]
                    found.seen.contains(to) && view.node_at(to) == Some(n))
            &&& truthful(view) ==> found.nodes.no_duplicates()
        }),
    decreases ids.len(),
{
    let found = neighbors_along(view, node, direction, ids);
    if ids.len() > 0 {
        let short = ids.drop_last();
        let last = ids.last();
        lemma_along(view, node, direction, short);
        let before = neighbors_along(view, node, direction, short);
        assert forall|edge: EdgeModel| #[trigger] found.edges.contains(edge) <==> (exists|i: int|
            0 <= i < ids.len() && view.edge_at(#[trigger] ids[i]) == Some(edge)) by {
            if view.edge_at(last) is Some {
                lemma_push_holds(before.edges, view.edge_at(last)->0, edge);
            }
            if exists|i: int| 0 <= i < ids.len() && view.edge_at(#[trigger] ids[i]) == Some(edge) {
                let i = choose|i: int|
                    0 <= i < ids.len() && view.edge_at(#[trigger] ids[i]) == Some(edge);
                if i < short.len() {
                    assert(view.edge_at(short[i]) == Some(edge));
                }
            }
            if before.edges.contains(edge) {
                let i = choose|i: int|
                    0 <= i < short.len() && view.edge_at(#[trigger] short[i]) == Some(edge);
                assert(view.edge_at(ids[i]) == Some(edge));
            }
            if view.edge_at(last) == Some(edge) {
                assert(view.edge_at(ids[ids.len() - 1]) == Some(edge));
            }
        }
        if forall|i: int| 0 <= i < ids.len() ==> view.edge_at(#[trigger] ids[i]) is Some {
            assert forall|i: int| 0 <= i < short.len() implies view.edge_at(
                #[trigger] short[i],
            ) is Some by {
                assert(view.edge_at(ids[i]) is Some);
            }
            assert(view.edge_at(ids[ids.len() - 1]) is Some);
        }
        match view.edge_at(last) {
            Some(edge) => {
                let to = far_end(edge, node, direction);
                assert forall|e: EdgeModel| #[trigger] found.edges.contains(e)
                    <==> before.edges.contains(e) || e == edge by {
                    lemma_push_holds(before.edges, edge, e);
                }
                assert forall|t: Seq<char>| #[trigger] found.seen.contains(t) <==> (exists|
                    e: EdgeModel,
                | #[trigger]
                    found.edges.contains(e) && far_end(e, node, direction) == t) by {
                    if t == to {
                        assert(found.edges.contains(edge));
                    }
                    if before.seen.contains(t) {
                        let e = choose|e: EdgeModel| #[trigger]
                            before.edges.contains(e) && far_end(e, node, direction) == t;
                        assert(found.edges.contains(e));
                    }
                }
                assert forall|n: NodeModel| #[trigger] found.nodes.contains(n) <==> (exists|
                    t: Seq<char>,
                | #[trigger]
                    found.seen.contains(t) && view.node_at(t) == Some(n)) by {
                    if !before.seen.contains(to) && view.node_at(to) is Some {
                        lemma_push_holds(before.nodes, view.node_at(to)->0, n);
                        assert(found.seen.contains(to));
                    }
                    if before.nodes.contains(n) {
                        let t = choose|t: Seq<char>| #[trigger]
                            before.seen.contains(t) && view.node_at(t) == Some(n);
                        assert(found.seen.contains(t));
                    }
                    if exists|t: Seq<char>| #[trigger]
                        found.seen.contains(t) && view.node_at(t) == Some(n) {
                        let t = choose|t: Seq<char>| #[trigger]
                            found.seen.contains(t) && view.node_at(t) == Some(n);
                        if t != to || before.seen.contains(to) {
                            assert(before.seen.contains(t));
                            assert(before.nodes.contains(n));
                        }
                    }
                }
                if truthful(view) && !before.seen.contains(to) && view.node_at(to) is Some {
                    let n = view.node_at(to)->0;
                    if before.nodes.contains(n) {
                        let t = choose|t: Seq<char>| #[trigger]
                            before.seen.contains(t) && view.node_at(t) == Some(n);
                        assert(view.node_at(t)->0.id == t);
                        assert(view.node_at(to)->0.id == to);
                    }
                    assert forall|i: int, j: int|
                        0 <= i < found.nodes.len() && 0 <= j < found.nodes.len() && i
                            != j implies found.nodes[i] != found.nodes[j] by {
                        if i < before.nodes.len() {
                            assert(before.nodes.contains(before.nodes[i]));
                        }
                        if j < before.nodes.len() {
                            assert(before.nodes.contains(before.nodes[j]));
                        }
                    }
                }
            },
            None => {},
        }
    }
}

/// The end of an edge that is not the node itself, where the edge stands at the node in the
/// direction.
pub open spec fn other_end(edge: EdgeModel, node: Seq<char>, direction: EdgeDirection) -> Seq<
    char,
> {
    if direction != EdgeDirection::Incoming && edge.source == node {
        edge.target
    } else {
        edge.source
    }
}

/// A listing of neighbours gives edges alone that stand at the node in the direction asked for and
/// are of the type asked for, if one is; and nodes alone that are the other ends of such edges. It
/// gives no more edges than were asked for, and every one if they are fewer. Every other end of an
/// edge that it gives is given too, once, where the graph has it.
pub proof fn law_neighbors<G: GraphView>(
    view: &G,
    node_id: NodeId,
    edge_type: Option<String>,
    direction: EdgeDirection,
    limit: Option<usize>,
    inputs: RankingInputs,
    items: Seq<ItemModel>,
)
    requires
        answers(
            QueryRequest::ListNeighbors { node_id, edge_type, direction, limit },
            view,
            inputs,
            items,
        ),
        truthful(view),
    ensures
        forall|item: ItemModel| #[trigger] items.contains(item) ==> item is Node || item is Edge,
        forall|edge: EdgeModel| #[trigger]
            items.contains(ItemModel::Edge(edge)) ==> view.edge_at(edge.id) == Some(edge)
                && stands_at(edge, node_id@, direction) && (edge_type matches Some(t)
                ==> edge.edge_type == t@),
        forall|node: NodeModel| #[trigger]
            items.contains(ItemModel::Node(node)) ==> view.node_at(node.id) == Some(node) && exists|
                edge: EdgeModel,
            | #[trigger]
                items.contains(ItemModel::Edge(edge)) && other_end(edge, node_id@, direction)
                    == node.id,
        forall|edge: EdgeModel| #[trigger]
            items.contains(ItemModel::Edge(edge)) ==> (view.node_at(
                other_end(edge, node_id@, direction),
            ) matches Some(node) ==> items.contains(ItemModel::Node(node))),
        crate::results::edges_of(items).len() <= asked_limit(limit),
        crate::results::edges_of(items).len() < asked_limit(limit) ==> forall|id: Seq<char>|
            (#[trigger] view.edge_at(id)) matches Some(edge) ==> (stands_at(
                edge,
                node_id@,
                direction,
            ) && (edge_type matches Some(t) ==> edge.edge_type == t@) ==> items.contains(
                ItemModel::Edge(edge),
            )),
        crate::results::nodes_of(items).no_duplicates(),
{
    let bound = crate::plan::limit_or_default(limit);
    let kind = text::optional_string(edge_type);
    let ids = view.incident_ids(node_id@, direction, kind);
    let taken = first(ids, bound);
    let found = neighbors_along(view, node_id@, direction, taken);
    lemma_first(ids, bound);
    lemma_along(view, node_id@, direction, taken);
    lemma_as_items(found.nodes);
    lemma_two_parts(found.nodes, found.edges);
    assert forall|i: int| 0 <= i < taken.len() implies (view.edge_at(
        #[trigger] taken[i],
    ) matches Some(edge) && stands_at(edge, node_id@, direction) && of_type(edge, kind)) by {
        assert(taken.contains(taken[i]));
        assert(ids.contains(taken[i]));
        assert(view.incident_ids(node_id@, direction, kind).contains(taken[i]));
    }
    assert forall|edge: EdgeModel| #[trigger] items.contains(
        ItemModel::Edge(edge),
    ) implies view.edge_at(edge.id) == Some(edge) && stands_at(edge, node_id@, direction) && (
    edge_type matches Some(t) ==> edge.edge_type == t@) && far_end(edge, node_id@, direction)
        == other_end(edge, node_id@, direction) by {
        assert(found.edges.contains(edge));
        let i = choose|i: int|
            0 <= i < taken.len() && view.edge_at(#[trigger] taken[i]) == Some(edge);
        assert(stands_at(edge, node_id@, direction));
    }
    assert forall|node: NodeModel| #[trigger]
        items.contains(ItemModel::Node(node)) implies view.node_at(node.id) == Some(node) && exists|
        edge: EdgeModel,
    | #[trigger]
        items.contains(ItemModel::Edge(edge)) && other_end(edge, node_id@, direction)
            == node.id by {
        assert(found.nodes.contains(node));
        let to = choose|to: Seq<char>| #[trigger]
            found.seen.contains(to) && view.node_at(to) == Some(node);
        let edge = choose|edge: EdgeModel| #[trigger]
            found.edges.contains(edge) && far_end(edge, node_id@, direction) == to;
        assert(items.contains(ItemModel::Edge(edge)));
    }
    assert forall|edge: EdgeModel| #[trigger]
        items.contains(ItemModel::Edge(edge)) implies (view.node_at(
        other_end(edge, node_id@, direction),
    ) matches Some(node) ==> items.contains(ItemModel::Node(node))) by {
        let to = other_end(edge, node_id@, direction);
        assert(found.edges.contains(edge));
        assert(found.seen.contains(to));
        if view.node_at(to) is Some {
            assert(found.nodes.contains(view.node_at(to)->0));
        }
    }
    if found.edges.len() < bound {
        assert forall|id: Seq<char>| (#[trigger] view.edge_at(id)) is Some implies ({
            let edge = view.edge_at(id)->0;
            stands_at(edge, node_id@, direction) && (edge_type matches Some(t) ==> edge.edge_type
            == t@) ==> items.contains(ItemModel::Edge(edge))
        }) by {
            let edge = view.edge_at(id)->0;
            if stands_at(edge, node_id@, direction) && (edge_type matches Some(t)
                ==> edge.edge_type == t@) {
                assert(of_type(edge, kind));
                assert(view.incident_ids(node_id@, direction, kind).contains(id));
                let i = choose|i: int| 0 <= i < ids.len() && ids[i] == id;
                assert(view.edge_at(taken[i]) == Some(edge));
                assert(found.edges.contains(edge));
            }
        }
    }
}

/// Nodes and then edges as items.
proof fn lemma_two_parts(nodes: Seq<NodeModel>, edges: Seq<EdgeModel>)
    ensures
        ({
            let items = node_items(nodes) + edge_items(edges);
            &&& crate::results::edges_of(items) == edges
            &&& crate::results::nodes_of(items) == nodes
            &&& forall|node: NodeModel| #[trigger]
                items.contains(ItemModel::Node(node)) <==> nodes.contains(node)
            &&& forall|edge: EdgeModel| #[trigger]
                items.contains(ItemModel::Edge(edge)) <==> edges.contains(edge)
            &&& forall|item: ItemModel| #[trigger]
                items.contains(item) ==> item is Node || item is Edge
        }),
{
    let head = node_items(nodes);
    let tail = edge_items(edges);
    let items = head + tail;
    crate::results::lemma_prefix_items(head, tail);
    crate::results::lemma_node_items(nodes);
    crate::results::lemma_edge_items(edges);
    assert(crate::results::edges_of(items) =~= edges);
    assert(crate::results::nodes_of(items) =~= nodes);
    assert forall|node: NodeModel| #[trigger]
        items.contains(ItemModel::Node(node)) <==> nodes.contains(node) by {
        if items.contains(ItemModel::Node(node)) {
            let k = choose|k: int| 0 <= k < items.len() && items[k] == ItemModel::Node(node);
            if k < head.len() {
                assert(nodes[k] == node);
            } else {
                assert(items[k] == tail[k - head.len()]);
            }
        }
        if nodes.contains(node) {
            let k = choose|k: int| 0 <= k < nodes.len() && nodes[k] == node;
            assert(items[k] == ItemModel::Node(node));
        }
    }
    assert forall|edge: EdgeModel| #[trigger]
        items.contains(ItemModel::Edge(edge)) <==> edges.contains(edge) by {
        if items.contains(ItemModel::Edge(edge)) {
            let k = choose|k: int| 0 <= k < items.len() && items[k] == ItemModel::Edge(edge);
            if k >= head.len() {
                assert(items[k] == tail[k - head.len()]);
                assert(edges[k - head.len()] == edge);
            }
        }
        if edges.contains(edge) {
            let k = choose|k: int| 0 <= k < edges.len() && edges[k] == edge;
            assert(items[head.len() + k] == ItemModel::Edge(edge));
        }
    }
}

} // verus!
