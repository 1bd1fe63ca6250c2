//! What commits keep, and what they make true.
use vstd::prelude::*;

use crate::common::{EdgeId, NodeId};
use crate::faithful::{
    edge_records, edges_keyed, faithful, filed_under, is_of_type, keys_found, keys_unshared,
    law_deleted_edge_is_gone, law_deleted_node_is_gone, law_listed_edges_fit,
    law_written_edge_is_found, law_written_node_is_found, lemma_unshared_before, node_records,
    nodes_keyed, Edges, Nodes,
};
use crate::graph::{edge_fits, GraphView, MutationModel, OverlayGraphView, SnapshotModel};
use crate::index::{edge_type_matches, EdgeDirection, IndexModel};
use crate::mutation::{
    edge_listed, edges_after, edges_dropped, edges_in, edges_listed, edges_out, index_after,
    node_listed, nodes_after, nodes_dropped, nodes_in, nodes_listed, nodes_out, nodes_written,
    planned, refused_of, snapshot_after, BatchMutationModel, RefusalModel,
};
use crate::ordered::{lemma_finite_sorted, sorted_keys, OrderedKey};
use crate::records::{BatchModel, EdgeModel, NodeModel};

verus! {

// ---------------------------------------------------------------------------------------------
// Records and lists of records
// ---------------------------------------------------------------------------------------------

/// Whether no two nodes of a list have the same id.
pub open spec fn nodes_distinct(list: Seq<NodeModel>) -> bool {
    forall|i: int, j: int|
        0 <= i < j < list.len() ==> (#[trigger] list[i]).id != (#[trigger] list[j]).id
}

/// Whether no two edges of a list have the same id.
pub open spec fn edges_distinct(list: Seq<EdgeModel>) -> bool {
    forall|i: int, j: int|
        0 <= i < j < list.len() ==> (#[trigger] list[i]).id != (#[trigger] list[j]).id
}

/// Nodes without those of a list.
spec fn nodes_less(nodes: Nodes, list: Seq<NodeModel>) -> Nodes {
    nodes.remove_keys(Set::new(|id: Seq<char>| node_listed(list, list.len() as int, id)))
}

/// Edges without those of a list.
spec fn edges_less(edges: Edges, list: Seq<EdgeModel>) -> Edges {
    edges.remove_keys(Set::new(|id: Seq<char>| edge_listed(list, list.len() as int, id)))
}

proof fn lemma_node_listed_step(list: Seq<NodeModel>, id: Seq<char>)
    requires
        list.len() > 0,
    ensures
        node_listed(list, list.len() as int, id) <==> node_listed(
            list.drop_last(),
            list.len() - 1,
            id,
        ) || list.last().id == id,
{
    let short = list.drop_last();
    if node_listed(list, list.len() as int, id) {
        let i = choose|i: int| 0 <= i < list.len() && (#[trigger] list[i]).id == id;
        if i < short.len() {
            assert(short[i].id == id);
        }
    }
    if node_listed(short, list.len() - 1, id) {
        let i = choose|i: int| 0 <= i < short.len() && (#[trigger] short[i]).id == id;
        assert(list[i].id == id);
    }
    if list.last().id == id {
        assert(list[list.len() - 1].id == id);
    }
}

proof fn lemma_edge_listed_step(list: Seq<EdgeModel>, id: Seq<char>)
    requires
        list.len() > 0,
    ensures
        edge_listed(list, list.len() as int, id) <==> edge_listed(
            list.drop_last(),
            list.len() - 1,
            id,
        ) || list.last().id == id,
{
    let short = list.drop_last();
    if edge_listed(list, list.len() as int, id) {
        let i = choose|i: int| 0 <= i < list.len() && (#[trigger] list[i]).id == id;
        if i < short.len() {
            assert(short[i].id == id);
        }
    }
    if edge_listed(short, list.len() - 1, id) {
        let i = choose|i: int| 0 <= i < short.len() && (#[trigger] short[i]).id == id;
        assert(list[i].id == id);
    }
    if list.last().id == id {
        assert(list[list.len() - 1].id == id);
    }
}

/// The records of a list: which ids they have, and that each stands under its own.
pub proof fn lemma_node_records(list: Seq<NodeModel>)
    ensures
        nodes_keyed(node_records(list)),
        forall|id: Seq<char>| #[trigger]
            node_records(list).contains_key(id) <==> node_listed(list, list.len() as int, id),
    decreases list.len(),
{
    if list.len() > 0 {
        lemma_node_records(list.drop_last());
        assert forall|id: Seq<char>| #[trigger]
            node_records(list).contains_key(id) <==> node_listed(list, list.len() as int, id) by {
            lemma_node_listed_step(list, id);
        }
    }
}

/// The records of a list: which ids they have, and that each stands under its own.
pub proof fn lemma_edge_records(list: Seq<EdgeModel>)
    ensures
        edges_keyed(edge_records(list)),
        forall|id: Seq<char>| #[trigger]
            edge_records(list).contains_key(id) <==> edge_listed(list, list.len() as int, id),
    decreases list.len(),
{
    if list.len() > 0 {
        lemma_edge_records(list.drop_last());
        assert forall|id: Seq<char>| #[trigger]
            edge_records(list).contains_key(id) <==> edge_listed(list, list.len() as int, id) by {
            lemma_edge_listed_step(list, id);
        }
    }
}

/// In a list without two records of an id, every record stands under its id.
proof fn lemma_node_at(list: Seq<NodeModel>, i: int)
    requires
        nodes_distinct(list),
        0 <= i < list.len(),
    ensures
        node_records(list)[list[i].id] == list[i],
    decreases list.len(),
{
    if i < list.len() - 1 {
        let short = list.drop_last();
        assert forall|a: int, b: int| 0 <= a < b < short.len() implies (#[trigger] short[a]).id != (
        #[trigger] short[b]).id by {
            assert(short[a] == list[a]);
            assert(short[b] == list[b]);
        }
        lemma_node_at(short, i);
        assert(list[i].id != list[list.len() - 1].id);
    }
}

/// In a list without two records of an id, every record stands under its id.
proof fn lemma_edge_at(list: Seq<EdgeModel>, i: int)
    requires
        edges_distinct(list),
        0 <= i < list.len(),
    ensures
        edge_records(list)[list[i].id] == list[i],
    decreases list.len(),
{
    if i < list.len() - 1 {
        let short = list.drop_last();
        assert forall|a: int, b: int| 0 <= a < b < short.len() implies (#[trigger] short[a]).id != (
        #[trigger] short[b]).id by {
            assert(short[a] == list[a]);
            assert(short[b] == list[b]);
        }
        lemma_edge_at(short, i);
        assert(list[i].id != list[list.len() - 1].id);
    }
}

/// The list of a map of nodes names each of them once, and makes the map again.
proof fn lemma_nodes_listed(nodes: Nodes)
    requires
        nodes_keyed(nodes),
        nodes.dom().finite(),
    ensures
        nodes_distinct(nodes_listed(nodes)),
        node_records(nodes_listed(nodes)) == nodes,
        forall|i: int|
            0 <= i < nodes_listed(nodes).len() ==> nodes.contains_key(
                (#[trigger] nodes_listed(nodes)[i]).id,
            ) && nodes[nodes_listed(nodes)[i].id] == nodes_listed(nodes)[i],
        forall|id: Seq<char>|
            nodes.contains_key(id) <==> #[trigger] node_listed(
                nodes_listed(nodes),
                nodes_listed(nodes).len() as int,
                id,
            ),
{
    lemma_finite_sorted::<NodeId>(nodes.dom());
    let keys = sorted_keys::<NodeId>(nodes.dom());
    let list = nodes_listed(nodes);
    assert forall|i: int| 0 <= i < list.len() implies nodes.contains_key((#[trigger] list[i]).id)
        && nodes[list[i].id] == list[i] && list[i].id == keys[i] by {
        assert(keys.contains(keys[i]));
        assert(nodes.contains_key(keys[i]));
    }
    assert forall|i: int, j: int| 0 <= i < j < list.len() implies (#[trigger] list[i]).id != (
    #[trigger] list[j]).id by {
        assert(NodeId::less(keys[i], keys[j]));
        NodeId::less_irreflexive(keys[i]);
    }
    assert forall|id: Seq<char>| nodes.contains_key(id) <==> #[trigger] node_listed(
        list,
        list.len() as int,
        id,
    ) by {
        if nodes.contains_key(id) {
            assert(keys.contains(id));
            let i = choose|i: int| 0 <= i < keys.len() && keys[i] == id;
            assert(list[i].id == id);
        }
    }
    lemma_node_records(list);
    assert forall|id: Seq<char>| nodes.contains_key(id) implies node_records(list)[id]
        == nodes[id] by {
        assert(node_listed(list, list.len() as int, id));
        let i = choose|i: int| 0 <= i < list.len() && (#[trigger] list[i]).id == id;
        lemma_node_at(list, i);
    }
    assert(node_records(list) =~= nodes);
}

/// The list of a map of edges names each of them once, and makes the map again.
proof fn lemma_edges_listed(edges: Edges)
    requires
        edges_keyed(edges),
        edges.dom().finite(),
    ensures
        edges_distinct(edges_listed(edges)),
        edge_records(edges_listed(edges)) == edges,
        forall|i: int|
            0 <= i < edges_listed(edges).len() ==> edges.contains_key(
                (#[trigger] edges_listed(edges)[i]).id,
            ) && edges[edges_listed(edges)[i].id] == edges_listed(edges)[i],
        forall|id: Seq<char>|
            edges.contains_key(id) <==> #[trigger] edge_listed(
                edges_listed(edges),
                edges_listed(edges).len() as int,
                id,
            ),
{
    lemma_finite_sorted::<EdgeId>(edges.dom());
    let keys = sorted_keys::<EdgeId>(edges.dom());
    let list = edges_listed(edges);
    assert forall|i: int| 0 <= i < list.len() implies edges.contains_key((#[trigger] list[i]).id)
        && edges[list[i].id] == list[i] && list[i].id == keys[i] by {
        assert(keys.contains(keys[i]));
        assert(edges.contains_key(keys[i]));
    }
    assert forall|i: int, j: int| 0 <= i < j < list.len() implies (#[trigger] list[i]).id != (
    #[trigger] list[j]).id by {
        assert(EdgeId::less(keys[i], keys[j]));
        EdgeId::less_irreflexive(keys[i]);
    }
    assert forall|id: Seq<char>| edges.contains_key(id) <==> #[trigger] edge_listed(
        list,
        list.len() as int,
        id,
    ) by {
        if edges.contains_key(id) {
            assert(keys.contains(id));
            let i = choose|i: int| 0 <= i < keys.len() && keys[i] == id;
            assert(list[i].id == id);
        }
    }
    lemma_edge_records(list);
    assert forall|id: Seq<char>| edges.contains_key(id) implies edge_records(list)[id]
        == edges[id] by {
        assert(edge_listed(list, list.len() as int, id));
        let i = choose|i: int| 0 <= i < list.len() && (#[trigger] list[i]).id == id;
        lemma_edge_at(list, i);
    }
    assert(edge_records(list) =~= edges);
}

// ---------------------------------------------------------------------------------------------
// The index
// ---------------------------------------------------------------------------------------------

proof fn lemma_edges_go(index: IndexModel, nodes: Nodes, edges: Edges, list: Seq<EdgeModel>)
    requires
        faithful(index, nodes, edges),
        edges_distinct(list),
        forall|i: int|
            0 <= i < list.len() ==> edges.contains_key((#[trigger] list[i]).id)
                && edges[list[i].id] == list[i],
    ensures
        faithful(edges_dropped(index, list), nodes, edges_less(edges, list)),
        edges_dropped(index, list).unique_keys == index.unique_keys,
    decreases list.len(),
{
    if list.len() == 0 {
        assert(edges_less(edges, list) =~= edges);
    } else {
        let short = list.drop_last();
        let edge = list[list.len() - 1];
        assert forall|i: int| 0 <= i < short.len() implies edges.contains_key(
            (#[trigger] short[i]).id,
        ) && edges[short[i].id] == short[i] by {
            assert(short[i] == list[i]);
        }
        assert forall|a: int, b: int| 0 <= a < b < short.len() implies (#[trigger] short[a]).id != (
        #[trigger] short[b]).id by {
            assert(short[a] == list[a]);
            assert(short[b] == list[b]);
        }
        lemma_edges_go(index, nodes, edges, short);
        let left = edges_less(edges, short);
        assert(!edge_listed(short, short.len() as int, edge.id)) by {
            if edge_listed(short, short.len() as int, edge.id) {
                let i = choose|i: int| 0 <= i < short.len() && (#[trigger] short[i]).id == edge.id;
                assert(list[i].id == edge.id);
            }
        }
        law_deleted_edge_is_gone(edges_dropped(index, short), nodes, left, edge);
        let less = left.remove(edge.id);
        let goal = edges_less(edges, list);
        assert forall|id: Seq<char>| #[trigger] less.dom().contains(id) <==> goal.dom().contains(
            id,
        ) by {
            lemma_edge_listed_step(list, id);
        }
        assert(less =~= goal);
    }
}

proof fn lemma_nodes_go(index: IndexModel, nodes: Nodes, edges: Edges, list: Seq<NodeModel>)
    requires
        faithful(index, nodes, edges),
        nodes_distinct(list),
        forall|i: int|
            0 <= i < list.len() ==> nodes.contains_key((#[trigger] list[i]).id)
                && nodes[list[i].id] == list[i],
    ensures
        faithful(nodes_dropped(index, list), nodes_less(nodes, list), edges),
        keys_found(index.unique_keys, nodes) ==> keys_found(
            nodes_dropped(index, list).unique_keys,
            nodes_less(nodes, list),
        ),
    decreases list.len(),
{
    if list.len() == 0 {
        assert(nodes_less(nodes, list) =~= nodes);
    } else {
        let short = list.drop_last();
        let node = list[list.len() - 1];
        assert forall|i: int| 0 <= i < short.len() implies nodes.contains_key(
            (#[trigger] short[i]).id,
        ) && nodes[short[i].id] == short[i] by {
            assert(short[i] == list[i]);
        }
        assert forall|a: int, b: int| 0 <= a < b < short.len() implies (#[trigger] short[a]).id != (
        #[trigger] short[b]).id by {
            assert(short[a] == list[a]);
            assert(short[b] == list[b]);
        }
        lemma_nodes_go(index, nodes, edges, short);
        let left = nodes_less(nodes, short);
        assert(!node_listed(short, short.len() as int, node.id)) by {
            if node_listed(short, short.len() as int, node.id) {
                let i = choose|i: int| 0 <= i < short.len() && (#[trigger] short[i]).id == node.id;
                assert(list[i].id == node.id);
            }
        }
        law_deleted_node_is_gone(nodes_dropped(index, short), left, edges, node);
        let less = left.remove(node.id);
        let goal = nodes_less(nodes, list);
        assert forall|id: Seq<char>| #[trigger] less.dom().contains(id) <==> goal.dom().contains(
            id,
        ) by {
            lemma_node_listed_step(list, id);
        }
        assert(less =~= goal);
    }
}

proof fn lemma_nodes_come(
    index: IndexModel,
    nodes: Nodes,
    edges: Edges,
    list: Seq<NodeModel>,
    refusals: RefusalModel,
)
    requires
        faithful(index, nodes, edges),
        nodes_distinct(list),
        forall|i: int| 0 <= i < list.len() ==> !nodes.contains_key((#[trigger] list[i]).id),
    ensures
        faithful(
            nodes_written(index, list, refusals),
            nodes.union_prefer_right(node_records(list)),
            edges,
        ),
        keys_found(index.unique_keys, nodes) && keys_unshared(
            nodes.union_prefer_right(node_records(list)),
        ) ==> keys_found(
            nodes_written(index, list, refusals).unique_keys,
            nodes.union_prefer_right(node_records(list)),
        ),
    decreases list.len(),
{
    if list.len() == 0 {
        assert(nodes.union_prefer_right(node_records(list)) =~= nodes);
    } else {
        let short = list.drop_last();
        let node = list[list.len() - 1];
        assert forall|i: int| 0 <= i < short.len() implies !nodes.contains_key(
            (#[trigger] short[i]).id,
        ) by {
            assert(short[i] == list[i]);
        }
        assert forall|a: int, b: int| 0 <= a < b < short.len() implies (#[trigger] short[a]).id != (
        #[trigger] short[b]).id by {
            assert(short[a] == list[a]);
            assert(short[b] == list[b]);
        }
        lemma_nodes_come(index, nodes, edges, short, refusals);
        lemma_node_records(short);
        let held = nodes.union_prefer_right(node_records(short));
        assert(!node_listed(short, short.len() as int, node.id)) by {
            if node_listed(short, short.len() as int, node.id) {
                let i = choose|i: int| 0 <= i < short.len() && (#[trigger] short[i]).id == node.id;
                assert(list[i].id == node.id);
            }
        }
        law_written_node_is_found(
            nodes_written(index, short, refusals),
            held,
            edges,
            node,
            refused_of(refusals, node.id),
        );
        assert(held.insert(node.id, node) =~= nodes.union_prefer_right(node_records(list)));
        if keys_unshared(nodes.union_prefer_right(node_records(list))) {
            lemma_unshared_before(held, node);
        }
    }
}

proof fn lemma_edges_come(index: IndexModel, nodes: Nodes, edges: Edges, list: Seq<EdgeModel>)
    requires
        faithful(index, nodes, edges),
        edges_distinct(list),
        forall|i: int| 0 <= i < list.len() ==> !edges.contains_key((#[trigger] list[i]).id),
    ensures
        faithful(index.with_edges(list), nodes, edges.union_prefer_right(edge_records(list))),
        index.with_edges(list).unique_keys == index.unique_keys,
    decreases list.len(),
{
    if list.len() == 0 {
        assert(edges.union_prefer_right(edge_records(list)) =~= edges);
    } else {
        let short = list.drop_last();
        let edge = list[list.len() - 1];
        assert forall|i: int| 0 <= i < short.len() implies !edges.contains_key(
            (#[trigger] short[i]).id,
        ) by {
            assert(short[i] == list[i]);
        }
        assert forall|a: int, b: int| 0 <= a < b < short.len() implies (#[trigger] short[a]).id != (
        #[trigger] short[b]).id by {
            assert(short[a] == list[a]);
            assert(short[b] == list[b]);
        }
        lemma_edges_come(index, nodes, edges, short);
        lemma_edge_records(short);
        let held = edges.union_prefer_right(edge_records(short));
        assert(!edge_listed(short, short.len() as int, edge.id)) by {
            if edge_listed(short, short.len() as int, edge.id) {
                let i = choose|i: int| 0 <= i < short.len() && (#[trigger] short[i]).id == edge.id;
                assert(list[i].id == edge.id);
            }
        }
        law_written_edge_is_found(index.with_edges(short), nodes, held, edge);
        assert(held.insert(edge.id, edge) =~= edges.union_prefer_right(edge_records(list)));
    }
}

/// The records of a list are finitely many.
pub proof fn lemma_records_finite(list: Seq<NodeModel>)
    ensures
        node_records(list).dom().finite(),
    decreases list.len(),
{
    if list.len() > 0 {
        lemma_records_finite(list.drop_last());
    }
}

/// The records of a list are finitely many.
pub proof fn lemma_edge_records_finite(list: Seq<EdgeModel>)
    ensures
        edge_records(list).dom().finite(),
    decreases list.len(),
{
    if list.len() > 0 {
        lemma_edge_records_finite(list.drop_last());
    }
}

/// What a batch takes out of a graph and puts in is finite, stands under its own ids, and is taken
/// as it stands.
pub proof fn lemma_planned(nodes: Nodes, edges: Edges, batch: BatchModel)
    requires
        nodes_keyed(nodes),
        edges_keyed(edges),
        nodes.dom().finite(),
        edges.dom().finite(),
    ensures
        nodes_keyed(nodes_out(nodes, batch)),
        edges_keyed(edges_out(edges, batch)),
        nodes_keyed(nodes_in(batch)),
        edges_keyed(edges_in(edges, batch)),
        nodes_out(nodes, batch).dom().finite(),
        edges_out(edges, batch).dom().finite(),
        nodes_in(batch).dom().finite(),
        edges_in(edges, batch).dom().finite(),
{
    let written = batch.edges_upserted.filter(batch.keeps_edge());
    lemma_node_records(batch.nodes_upserted);
    lemma_edge_records(written);
    lemma_records_finite(batch.nodes_upserted);
    lemma_edge_records_finite(written);
    vstd::set_lib::lemma_set_subset_finite(nodes.dom(), nodes_out(nodes, batch).dom());
    vstd::set_lib::lemma_set_subset_finite(edges.dom(), edges_out(edges, batch).dom());
    vstd::set_lib::lemma_set_subset_finite(
        node_records(batch.nodes_upserted).dom(),
        nodes_in(batch).dom(),
    );
    vstd::set_lib::lemma_set_subset_finite(
        edge_records(written).dom(),
        edges_in(edges, batch).dom(),
    );
}

/// The edges that a batch puts in are edges that it writes.
pub proof fn lemma_edges_in_are_written(edges: Edges, batch: BatchModel, id: Seq<char>)
    requires
        edges_in(edges, batch).contains_key(id),
    ensures
        edge_listed(batch.edges_upserted, batch.edges_upserted.len() as int, id),
        edges_in(edges, batch)[id].id == id,
        !batch.cuts(edges_in(edges, batch)[id]),
        !batch.deleted_edge_ids.contains(id),
        exists|i: int|
            0 <= i < batch.edges_upserted.len() && #[trigger] batch.edges_upserted[i] == edges_in(
                edges,
                batch,
            )[id],
{
    let keeps = batch.keeps_edge();
    let written = batch.edges_upserted.filter(keeps);
    lemma_edge_records(written);
    lemma_record_is_listed(written, id);
    let i = choose|i: int|
        0 <= i < written.len() && #[trigger] written[i] == edge_records(written)[id];
    lemma_filter_passes(batch.edges_upserted, keeps, i);
    let j = choose|j: int|
        0 <= j < batch.edges_upserted.len() && batch.edges_upserted[j] == written[i];
    assert(batch.edges_upserted[j].id == id);
}

proof fn lemma_record_is_listed(list: Seq<EdgeModel>, id: Seq<char>)
    requires
        edge_records(list).contains_key(id),
    ensures
        exists|i: int| 0 <= i < list.len() && #[trigger] list[i] == edge_records(list)[id],
        edge_records(list)[id].id == id,
    decreases list.len(),
{
    if list.len() > 0 {
        if list.last().id == id {
            assert(list[list.len() - 1] == edge_records(list)[id]);
        } else {
            let short = list.drop_last();
            lemma_record_is_listed(short, id);
            let i = choose|i: int|
                0 <= i < short.len() && #[trigger] short[i] == edge_records(short)[id];
            assert(list[i] == edge_records(list)[id]);
        }
    }
}

/// What a filter lets through passes its test and comes from the list.
proof fn lemma_filter_passes<A>(list: Seq<A>, test: spec_fn(A) -> bool, i: int)
    requires
        0 <= i < list.filter(test).len(),
    ensures
        test(list.filter(test)[i]),
        list.contains(list.filter(test)[i]),
    decreases list.len(),
{
    reveal(Seq::filter);
    if list.len() > 0 {
        let short = list.drop_last();
        let item = list.filter(test)[i];
        if i < short.filter(test).len() {
            lemma_filter_passes(short, test, i);
            assert(short.contains(item));
            let j = choose|j: int| 0 <= j < short.len() && short[j] == item;
            assert(list[j] == item);
        } else {
            assert(list[list.len() - 1] == item);
        }
    }
}

/// A commit keeps an index faithful to the records: an index that said what the records of a graph
/// say says, once a batch is applied to both, what the new records say. Where every unique key led
/// to its node, every one still does, unless two of the new nodes have the same one.
pub proof fn law_commit_keeps_index_faithful(
    index: IndexModel,
    nodes: Nodes,
    edges: Edges,
    batch: BatchModel,
    refusals: RefusalModel,
)
    requires
        faithful(index, nodes, edges),
        nodes.dom().finite(),
        edges.dom().finite(),
    ensures
        faithful(
            index_after(index, planned(nodes, edges, batch), refusals),
            nodes_after(nodes, planned(nodes, edges, batch)),
            edges_after(edges, planned(nodes, edges, batch)),
        ),
        keys_found(index.unique_keys, nodes) && keys_unshared(
            nodes_after(nodes, planned(nodes, edges, batch)),
        ) ==> keys_found(
            index_after(index, planned(nodes, edges, batch), refusals).unique_keys,
            nodes_after(nodes, planned(nodes, edges, batch)),
        ),
        nodes_after(nodes, planned(nodes, edges, batch)).dom().finite(),
        edges_after(edges, planned(nodes, edges, batch)).dom().finite(),
{
    let plan = planned(nodes, edges, batch);
    lemma_planned(nodes, edges, batch);
    lemma_edges_listed(plan.removed_edges);
    lemma_nodes_listed(plan.removed_nodes);
    lemma_nodes_listed(plan.added_nodes);
    lemma_edges_listed(plan.added_edges);
    let edges_gone = edges_listed(plan.removed_edges);
    let nodes_gone = nodes_listed(plan.removed_nodes);
    let nodes_new = nodes_listed(plan.added_nodes);
    let edges_new = edges_listed(plan.added_edges);
    lemma_edges_go(index, nodes, edges, edges_gone);
    let edges_left = edges_less(edges, edges_gone);
    let first = edges_dropped(index, edges_gone);
    lemma_nodes_go(first, nodes, edges_left, nodes_gone);
    let nodes_left = nodes_less(nodes, nodes_gone);
    let second = nodes_dropped(first, nodes_gone);
    lemma_node_records(batch.nodes_upserted);
    assert forall|i: int| 0 <= i < nodes_new.len() implies !nodes_left.contains_key(
        (#[trigger] nodes_new[i]).id,
    ) by {
        let id = nodes_new[i].id;
        assert(plan.added_nodes.contains_key(id));
        assert(node_records(batch.nodes_upserted).contains_key(id));
        if nodes.contains_key(id) {
            assert(plan.removed_nodes.contains_key(id));
            assert(node_listed(nodes_gone, nodes_gone.len() as int, id));
        }
    }
    lemma_nodes_come(second, nodes_left, edges_left, nodes_new, refusals);
    let third = nodes_written(second, nodes_new, refusals);
    let nodes_now = nodes_left.union_prefer_right(plan.added_nodes);
    assert forall|i: int| 0 <= i < edges_new.len() implies !edges_left.contains_key(
        (#[trigger] edges_new[i]).id,
    ) by {
        let id = edges_new[i].id;
        assert(plan.added_edges.contains_key(id));
        lemma_edges_in_are_written(edges, batch, id);
        if edges.contains_key(id) {
            assert(plan.removed_edges.contains_key(id));
            assert(edge_listed(edges_gone, edges_gone.len() as int, id));
        }
    }
    lemma_edges_come(third, nodes_now, edges_left, edges_new);
    assert(nodes_left =~= nodes.remove_keys(plan.removed_nodes.dom())) by {
        assert forall|id: Seq<char>| nodes_left.contains_key(id) <==> nodes.remove_keys(
            plan.removed_nodes.dom(),
        ).contains_key(id) by {
            assert(node_listed(nodes_gone, nodes_gone.len() as int, id)
                <==> plan.removed_nodes.contains_key(id));
        }
    }
    assert(edges_left =~= edges.remove_keys(plan.removed_edges.dom())) by {
        assert forall|id: Seq<char>| edges_left.contains_key(id) <==> edges.remove_keys(
            plan.removed_edges.dom(),
        ).contains_key(id) by {
            assert(edge_listed(edges_gone, edges_gone.len() as int, id)
                <==> plan.removed_edges.contains_key(id));
        }
    }
    vstd::set_lib::lemma_set_subset_finite(
        nodes.dom().union(plan.added_nodes.dom()),
        nodes_after(nodes, plan).dom(),
    );
    vstd::set_lib::lemma_set_subset_finite(
        edges.dom().union(plan.added_edges.dom()),
        edges_after(edges, plan).dom(),
    );
}

// ---------------------------------------------------------------------------------------------
// Records
// ---------------------------------------------------------------------------------------------

/// A batch that does nothing changes no record.
pub proof fn law_empty_batch_changes_nothing(nodes: Nodes, edges: Edges)
    ensures
        nodes_after(nodes, planned(nodes, edges, BatchModel::empty())) == nodes,
        edges_after(edges, planned(nodes, edges, BatchModel::empty())) == edges,
        BatchModel::empty().error() is None,
{
    reveal(Seq::filter);
    let batch = BatchModel::empty();
    let plan = planned(nodes, edges, batch);
    let none = batch.edges_upserted.filter(batch.keeps_edge());
    assert(none.len() == 0);
    assert(plan.added_nodes =~= Map::empty());
    assert(plan.added_edges =~= Map::empty());
    assert(nodes_after(nodes, plan) =~= nodes);
    assert(edges_after(edges, plan) =~= edges);
}

/// A node that a batch writes last of its id and does not delete is what the graph has afterwards.
pub proof fn law_written_node_is_read_back(nodes: Nodes, edges: Edges, batch: BatchModel, i: int)
    requires
        0 <= i < batch.nodes_upserted.len(),
        !batch.deletes_node(batch.nodes_upserted[i].id),
        forall|j: int|
            i < j < batch.nodes_upserted.len() ==> (#[trigger] batch.nodes_upserted[j]).id
                != batch.nodes_upserted[i].id,
    ensures
        nodes_after(nodes, planned(nodes, edges, batch)).contains_key(batch.nodes_upserted[i].id),
        nodes_after(nodes, planned(nodes, edges, batch))[batch.nodes_upserted[i].id]
            == batch.nodes_upserted[i],
{
    lemma_last_written(batch.nodes_upserted, i);
}

pub proof fn lemma_last_written(list: Seq<NodeModel>, i: int)
    requires
        0 <= i < list.len(),
        forall|j: int| i < j < list.len() ==> (#[trigger] list[j]).id != list[i].id,
    ensures
        node_records(list).contains_key(list[i].id),
        node_records(list)[list[i].id] == list[i],
    decreases list.len(),
{
    if i < list.len() - 1 {
        let short = list.drop_last();
        assert forall|j: int| i < j < short.len() implies (#[trigger] short[j]).id
            != short[i].id by {
            assert(short[j] == list[j]);
        }
        lemma_last_written(short, i);
        assert(list[list.len() - 1].id != list[i].id);
    }
}

/// After a batch, the graph has no node that the batch deletes, and no edge that has such a node as
/// an end.
pub proof fn law_deleted_node_takes_its_edges(
    nodes: Nodes,
    edges: Edges,
    batch: BatchModel,
    id: Seq<char>,
)
    requires
        batch.deletes_node(id),
    ensures
        !nodes_after(nodes, planned(nodes, edges, batch)).contains_key(id),
        forall|edge_id: Seq<char>| #[trigger]
            edges_after(edges, planned(nodes, edges, batch)).contains_key(edge_id) ==> {
                let edge = edges_after(edges, planned(nodes, edges, batch))[edge_id];
                edge.source != id && edge.target != id
            },
{
    let plan = planned(nodes, edges, batch);
    let after = edges_after(edges, plan);
    assert forall|edge_id: Seq<char>| #[trigger] after.contains_key(edge_id) implies
        after[edge_id].source != id && after[edge_id].target != id by {
        if plan.added_edges.contains_key(edge_id) {
            lemma_edges_in_are_written(edges, batch, edge_id);
        }
    }
}

/// After a batch, the graph has no edge that the batch deletes.
pub proof fn law_deleted_edge_is_not_there(
    nodes: Nodes,
    edges: Edges,
    batch: BatchModel,
    id: Seq<char>,
)
    requires
        batch.deleted_edge_ids.contains(id),
    ensures
        !edges_after(edges, planned(nodes, edges, batch)).contains_key(id),
{
    let plan = planned(nodes, edges, batch);
    if plan.added_edges.contains_key(id) {
        lemma_edges_in_are_written(edges, batch, id);
    }
}

/// What a batch does not name stays as it is.
pub proof fn law_other_records_stay(nodes: Nodes, edges: Edges, batch: BatchModel, id: Seq<char>)
    ensures
        !batch.replaces_node(id) && nodes.contains_key(id) ==> nodes_after(
            nodes,
            planned(nodes, edges, batch),
        ).contains_key(id) && nodes_after(nodes, planned(nodes, edges, batch))[id] == nodes[id],
        edges.contains_key(id) && !batch.replaces_edge(id, edges[id]) ==> edges_after(
            edges,
            planned(nodes, edges, batch),
        ).contains_key(id) && edges_after(edges, planned(nodes, edges, batch))[id] == edges[id],
{
    let plan = planned(nodes, edges, batch);
    lemma_node_records(batch.nodes_upserted);
    if plan.added_nodes.contains_key(id) {
        assert(node_records(batch.nodes_upserted).contains_key(id));
    }
    if plan.added_edges.contains_key(id) {
        lemma_edges_in_are_written(edges, batch, id);
    }
}

/// To apply a batch once more changes no node, and no edge either unless the batch writes an edge
/// in the place of one that it cuts.
pub proof fn law_applying_twice(nodes: Nodes, edges: Edges, batch: BatchModel)
    requires
        forall|id: Seq<char>| #[trigger]
            edges.contains_key(id) && batch.cuts(edges[id]) ==> !edge_listed(
                batch.edges_upserted,
                batch.edges_upserted.len() as int,
                id,
            ),
    ensures
        ({
            let once_nodes = nodes_after(nodes, planned(nodes, edges, batch));
            let once_edges = edges_after(edges, planned(nodes, edges, batch));
            let again = planned(once_nodes, once_edges, batch);
            nodes_after(once_nodes, again) == once_nodes && edges_after(once_edges, again)
                == once_edges
        }),
{
    let plan = planned(nodes, edges, batch);
    let once_nodes = nodes_after(nodes, plan);
    let once_edges = edges_after(edges, plan);
    let again = planned(once_nodes, once_edges, batch);
    lemma_node_records(batch.nodes_upserted);
    assert forall|id: Seq<char>| #[trigger] nodes_after(once_nodes, again).dom().contains(id)
        <==> once_nodes.dom().contains(id) by {
        if batch.replaces_node(id) && !batch.deletes_node(id) {
            assert(node_records(batch.nodes_upserted).contains_key(id));
        }
    }
    assert(nodes_after(once_nodes, again) =~= once_nodes);
    let written = batch.edges_upserted.filter(batch.keeps_edge());
    assert forall|id: Seq<char>| #[trigger] again.added_edges.dom().contains(id)
        <==> plan.added_edges.dom().contains(id) by {
        if again.added_edges.contains_key(id) {
            lemma_edges_in_are_written(once_edges, batch, id);
        }
        if plan.added_edges.contains_key(id) {
            lemma_edges_in_are_written(edges, batch, id);
        }
    }
    assert(again.added_edges =~= plan.added_edges);
    assert forall|id: Seq<char>| #[trigger] edges_after(once_edges, again).dom().contains(id)
        <==> once_edges.dom().contains(id) by {
        if once_edges.contains_key(id) && !plan.added_edges.contains_key(id) {
            assert(edges.contains_key(id));
            assert(!batch.replaces_edge(id, edges[id]));
        }
    }
    assert(edges_after(once_edges, again) =~= once_edges);
}

// ---------------------------------------------------------------------------------------------
// Views
// ---------------------------------------------------------------------------------------------

/// What a view has to know of what a batch does.
pub open spec fn seen_as(plan: BatchMutationModel) -> MutationModel {
    MutationModel {
        removed_node_ids: plan.removed_nodes.dom(),
        removed_edge_ids: plan.removed_edges.dom(),
        added_nodes: plan.added_nodes,
        added_edges: plan.added_edges,
    }
}

/// A view of a mutation over a snapshot shows every record as it will be once the mutation is
/// applied.
pub proof fn law_view_shows_the_commit(
    view: OverlayGraphView<'_>,
    plan: BatchMutationModel,
    refusals: RefusalModel,
    id: Seq<char>,
)
    requires
        view.mutation@ == seen_as(plan),
    ensures
        view.node_at(id) == snapshot_after(view.base@, plan, refusals).node(id),
        view.edge_at(id) == snapshot_after(view.base@, plan, refusals).edge(id),
        view.has_node(id) <==> snapshot_after(view.base@, plan, refusals).nodes.contains_key(id),
        view.present() == snapshot_after(view.base@, plan, refusals).nodes.dom(),
{
    assert(view.present() =~= snapshot_after(view.base@, plan, refusals).nodes.dom());
}

/// Whether a snapshot's index says what its records say, and there are finitely many of them.
pub open spec fn sound(snapshot: SnapshotModel) -> bool {
    &&& faithful(snapshot.indexes, snapshot.nodes, snapshot.edges)
    &&& snapshot.nodes.dom().finite()
    &&& snapshot.edges.dom().finite()
}

/// A snapshot that is sound is sound after every batch.
pub proof fn law_snapshots_stay_sound(
    base: SnapshotModel,
    batch: BatchModel,
    refusals: RefusalModel,
)
    requires
        sound(base),
    ensures
        sound(snapshot_after(base, planned(base.nodes, base.edges, batch), refusals)),
{
    law_commit_keeps_index_faithful(base.indexes, base.nodes, base.edges, batch, refusals);
}

/// A sound snapshot lists for a node exactly the edges that fit, and for a type exactly the nodes
/// of that type.
pub proof fn law_sound_snapshot_lists_what_fits(
    snapshot: crate::graph::GraphSnapshot,
    node: Seq<char>,
    direction: EdgeDirection,
    edge_type: Option<Seq<char>>,
    node_type: Seq<char>,
    id: Seq<char>,
)
    requires
        sound(snapshot@),
    ensures
        snapshot.incident_ids(node, direction, edge_type).contains(id) <==> (snapshot.edge_at(
            id,
        ) matches Some(edge) && edge_fits(edge, node, direction, edge_type)),
        snapshot.typed_ids(node_type).contains(id) <==> (snapshot.node_at(id) matches Some(n)
            && n.node_type == node_type),
        snapshot.has_node(id) <==> snapshot.node_at(id) is Some,
{
    let s = snapshot@;
    law_listed_edges_fit(s.indexes, s.nodes, s.edges, node, direction, id);
    let listed = s.indexes.edges_of(node, direction);
    let test = |e: Seq<char>| edge_type_matches(s.edge(e), edge_type);
    lemma_filter_contains(listed, test, id);
    assert(filed_under(s.indexes.labels, node_type, id) <==> is_of_type(s.nodes)(node_type, id));
}

/// What a filter lets through are the items of the list that pass its test.
proof fn lemma_filter_contains(
    list: Seq<Seq<char>>,
    test: spec_fn(Seq<char>) -> bool,
    item: Seq<char>,
)
    ensures
        list.filter(test).contains(item) <==> list.contains(item) && test(item),
    decreases list.len(),
{
    reveal(Seq::filter);
    if list.len() > 0 {
        let short = list.drop_last();
        lemma_filter_contains(short, test, item);
        assert(list =~= short.push(list.last()));
        crate::reach::lemma_push_contains(short, list.last(), item);
        crate::reach::lemma_push_contains(short.filter(test), list.last(), item);
    }
}

/// A view of a batch over a sound snapshot lists for a node exactly the edges, and for a type
/// exactly the nodes, that the snapshot will list once the batch is applied.
pub proof fn law_view_lists_the_commit(
    view: OverlayGraphView<'_>,
    batch: BatchModel,
    node: Seq<char>,
    direction: EdgeDirection,
    edge_type: Option<Seq<char>>,
    node_type: Seq<char>,
    id: Seq<char>,
)
    requires
        sound(view.base@),
        view.mutation@ == seen_as(planned(view.base@.nodes, view.base@.edges, batch)),
    ensures
        ({
            let plan = planned(view.base@.nodes, view.base@.edges, batch);
            let nodes = nodes_after(view.base@.nodes, plan);
            let edges = edges_after(view.base@.edges, plan);
            &&& view.incident_ids(node, direction, edge_type).contains(id) <==> edges.contains_key(
                id,
            ) && edge_fits(edges[id], node, direction, edge_type)
            &&& view.typed_ids(node_type).contains(id) <==> nodes.contains_key(id)
                && nodes[id].node_type == node_type
        }),
{
    let base = view.base@;
    let plan = planned(base.nodes, base.edges, batch);
    let nodes = nodes_after(base.nodes, plan);
    let edges = edges_after(base.edges, plan);
    lemma_planned(base.nodes, base.edges, batch);
    law_commit_keeps_index_faithful(base.indexes, base.nodes, base.edges, batch, Map::empty());
    let listed = view.base.incident_ids(node, direction, edge_type);
    let fitting = view.fitting(listed, node, direction, edge_type);
    assert forall|e: Seq<char>| #[trigger] fitting.contains(e) <==> edges.contains_key(e)
        && edge_fits(edges[e], node, direction, edge_type) by {
        law_sound_snapshot_lists_what_fits(
            *view.base,
            node,
            direction,
            edge_type,
            node_type,
            e,
        );
        if exists|k: Seq<char>|
            view.mutation@.added_edges.contains_key(k) && #[trigger] view.mutation@.added_edges[k].id
                == e && edge_fits(view.mutation@.added_edges[k], node, direction, edge_type) {
            let k = choose|k: Seq<char>|
                view.mutation@.added_edges.contains_key(k)
                    && #[trigger] view.mutation@.added_edges[k].id == e && edge_fits(
                    view.mutation@.added_edges[k],
                    node,
                    direction,
                    edge_type,
                );
            assert(k == e);
        }
        if plan.added_edges.contains_key(e) {
            assert(view.mutation@.added_edges[e].id == e);
        }
    }
    vstd::set_lib::lemma_set_subset_finite(edges.dom(), fitting);
    lemma_finite_sorted::<EdgeId>(fitting);
    assert(fitting.contains(id) <==> sorted_keys::<EdgeId>(fitting).contains(id));
    let typed = Set::new(
        |n: Seq<char>|
            (view.base.typed_ids(node_type).contains(n) && view.node(n) is Some && view.node(
                n,
            )->0.node_type == node_type) || (exists|k: Seq<char>|
                view.mutation@.added_nodes.contains_key(k)
                    && #[trigger] view.mutation@.added_nodes[k].id == n
                    && view.mutation@.added_nodes[k].node_type == node_type),
    );
    assert forall|n: Seq<char>| #[trigger] typed.contains(n) <==> nodes.contains_key(n)
        && nodes[n].node_type == node_type by {
        law_sound_snapshot_lists_what_fits(
            *view.base,
            node,
            direction,
            edge_type,
            node_type,
            n,
        );
        if exists|k: Seq<char>|
            view.mutation@.added_nodes.contains_key(k) && #[trigger] view.mutation@.added_nodes[k].id
                == n && view.mutation@.added_nodes[k].node_type == node_type {
            let k = choose|k: Seq<char>|
                view.mutation@.added_nodes.contains_key(k)
                    && #[trigger] view.mutation@.added_nodes[k].id == n
                    && view.mutation@.added_nodes[k].node_type == node_type;
            assert(k == n);
        }
        if plan.added_nodes.contains_key(n) {
            assert(view.mutation@.added_nodes[n].id == n);
        }
    }
    vstd::set_lib::lemma_set_subset_finite(nodes.dom(), typed);
    lemma_finite_sorted::<NodeId>(typed);
    assert(typed.contains(id) <==> sorted_keys::<NodeId>(typed).contains(id));
    assert(view.typed_ids(node_type) == sorted_keys::<NodeId>(typed));
}

/// In a sound snapshot that has both ends of every edge, every edge stands in its place for the
/// search of paths.
pub proof fn law_sound_snapshot_has_edges_in_place(snapshot: &crate::graph::GraphSnapshot)
    requires
        sound(snapshot@),
        forall|id: Seq<char>| #[trigger]
            snapshot@.edges.contains_key(id) ==> snapshot@.nodes.contains_key(
                snapshot@.edges[id].source,
            ) && snapshot@.nodes.contains_key(snapshot@.edges[id].target),
    ensures
        crate::paths::edges_in_place(snapshot),
        crate::walks::keyed(snapshot),
{
    assert forall|node: Seq<char>, direction: EdgeDirection, id: Seq<char>|
        #![trigger snapshot.incident_ids(node, direction, None).contains(id)]
        snapshot.incident_ids(node, direction, None).contains(id) <==> (snapshot.edge_at(
            id,
        ) matches Some(edge) && edge_fits(edge, node, direction, None)) by {
        law_sound_snapshot_lists_what_fits(
            *snapshot,
            node,
            direction,
            None,
            Seq::empty(),
            id,
        );
    }
}

} // verus!
