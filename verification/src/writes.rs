//! What a batch of writes does to a graph, told by what the batch lists.
use vstd::prelude::*;
use vstd::string::*;

use crate::commits::{
    law_view_lists_the_commit, law_view_shows_the_commit, lemma_edge_records,
    lemma_edges_in_are_written, lemma_last_written, lemma_node_records, lemma_planned, seen_as,
    sound,
};
use crate::common::NodeId;
use crate::database::DatabaseModel;
use crate::faithful::{edge_records, Edges, Nodes};
use crate::graph::{GraphView, NodeTest, OverlayGraphView, SemanticModel};
use crate::index::EdgeDirection;
use crate::mutation::{edges_after, first_error, nodes_after, planned, RefusalModel};
use crate::ordered::{lemma_finite_sorted, sorted_keys};
use crate::records::{BatchModel, EdgeModel, NodeModel};
use crate::replication::ReplicationMode;
use crate::replies::lemma_passing;
use crate::truth::{law_sound_snapshot_is_truthful, of_type, stands_at, timed_within, truthful};

verus! {

// ---------------------------------------------------------------------------------------------
// Records
// ---------------------------------------------------------------------------------------------

/// Whether a batch writes a node of an id, last at the given place.
pub open spec fn writes_node_at(batch: BatchModel, id: Seq<char>, i: int) -> bool {
    &&& 0 <= i < batch.nodes_upserted.len()
    &&& batch.nodes_upserted[i].id == id
    &&& forall|j: int|
        i < j < batch.nodes_upserted.len() ==> (#[trigger] batch.nodes_upserted[j]).id != id
}

/// Whether a batch names a node among those that it writes.
pub open spec fn writes_node(batch: BatchModel, id: Seq<char>) -> bool {
    exists|i: int| 0 <= i < batch.nodes_upserted.len() && (#[trigger] batch.nodes_upserted[i]).id == id
}

/// Whether a batch names an edge among those that it writes.
pub open spec fn writes_edge(batch: BatchModel, id: Seq<char>) -> bool {
    exists|i: int| 0 <= i < batch.edges_upserted.len() && (#[trigger] batch.edges_upserted[i]).id == id
}

/// Whether a batch deletes one of the two nodes that an edge joins.
pub open spec fn takes_an_end(batch: BatchModel, edge: EdgeModel) -> bool {
    batch.deleted_node_ids.contains(edge.source) || batch.deleted_node_ids.contains(edge.target)
}

/// After a batch the graph has a node exactly if the batch does not delete it, and either writes it
/// or the graph had it: as it was written last, or else as it was.
pub proof fn law_nodes_after_a_batch(nodes: Nodes, edges: Edges, batch: BatchModel, id: Seq<char>)
    ensures
        ({
            let after = nodes_after(nodes, planned(nodes, edges, batch));
            &&& after.contains_key(id) <==> !batch.deleted_node_ids.contains(id) && (writes_node(
                batch,
                id,
            ) || nodes.contains_key(id))
            &&& after.contains_key(id) && !writes_node(batch, id) ==> after[id] == nodes[id]
            &&& forall|i: int| #[trigger]
                writes_node_at(batch, id, i) && after.contains_key(id) ==> after[id]
                    == batch.nodes_upserted[i]
        }),
{
    let plan = planned(nodes, edges, batch);
    let after = nodes_after(nodes, plan);
    lemma_node_records(batch.nodes_upserted);
    assert(crate::faithful::node_records(batch.nodes_upserted).contains_key(id)
        <==> writes_node(batch, id));
    assert forall|i: int| #[trigger]
        writes_node_at(batch, id, i) && after.contains_key(id) implies after[id]
        == batch.nodes_upserted[i] by {
        lemma_last_written(batch.nodes_upserted, i);
        assert(writes_node(batch, id));
    }
}

proof fn lemma_last_edge(list: Seq<EdgeModel>, test: spec_fn(EdgeModel) -> bool, i: int)
    requires
        0 <= i < list.len(),
        test(list[i]),
        forall|j: int| i < j < list.len() ==> (#[trigger] list[j]).id != list[i].id,
    ensures
        edge_records(list.filter(test)).contains_key(list[i].id),
        edge_records(list.filter(test))[list[i].id] == list[i],
    decreases list.len(),
{
    reveal(Seq::filter);
    let short = list.drop_last();
    if i == list.len() - 1 {
        assert(list.filter(test).drop_last() =~= short.filter(test));
    } else {
        assert forall|j: int| i < j < short.len() implies (#[trigger] short[j]).id
            != short[i].id by {
            assert(short[j] == list[j]);
        }
        lemma_last_edge(short, test, i);
        assert(list[list.len() - 1].id != list[i].id);
        if test(list.last()) {
            assert(list.filter(test).drop_last() =~= short.filter(test));
        }
    }
}

/// After a batch the graph has no edge that the batch deletes and none of which it deletes an end.
/// An edge that the batch does not name and of which it deletes no end stays as it was, and none
/// comes from nowhere. An edge that the batch writes last of its id, of which it deletes no end and
/// which it does not delete, is what the graph has, unless it stands in for an edge of the graph of
/// which the batch deletes an end: that one goes.
pub proof fn law_edges_after_a_batch(nodes: Nodes, edges: Edges, batch: BatchModel, id: Seq<char>)
    ensures
        ({
            let after = edges_after(edges, planned(nodes, edges, batch));
            let loses = edges.contains_key(id) && takes_an_end(batch, edges[id]);
            &&& batch.deleted_edge_ids.contains(id) || loses ==> !after.contains_key(id)
            &&& after.contains_key(id) ==> !takes_an_end(batch, after[id])
            &&& after.contains_key(id) && !writes_edge(batch, id) ==> edges.contains_key(id)
                && after[id] == edges[id]
            &&& !writes_edge(batch, id) && edges.contains_key(id) && !loses
                && !batch.deleted_edge_ids.contains(id) ==> after.contains_key(id)
            &&& after.contains_key(id) && writes_edge(batch, id) ==> exists|i: int|
                0 <= i < batch.edges_upserted.len() && #[trigger] batch.edges_upserted[i]
                    == after[id] && after[id].id == id
            &&& forall|i: int|
                #![trigger batch.edges_upserted[i]]
                0 <= i < batch.edges_upserted.len() && batch.edges_upserted[i].id == id && (forall|
                    j: int,
                |
                    i < j < batch.edges_upserted.len() ==> (
                    #[trigger] batch.edges_upserted[j]).id != id) && !takes_an_end(
                    batch,
                    batch.edges_upserted[i],
                ) && !batch.deleted_edge_ids.contains(id) && !loses ==> after.contains_key(id)
                    && after[id] == batch.edges_upserted[i]
        }),
{
    let plan = planned(nodes, edges, batch);
    let after = edges_after(edges, plan);
    let loses = edges.contains_key(id) && takes_an_end(batch, edges[id]);
    let keeps = batch.keeps_edge();
    let written = batch.edges_upserted.filter(keeps);
    lemma_edge_records(written);
    assert(crate::mutation::edge_listed(
        batch.edges_upserted,
        batch.edges_upserted.len() as int,
        id,
    ) <==> writes_edge(batch, id));
    if plan.added_edges.contains_key(id) {
        lemma_edges_in_are_written(edges, batch, id);
    }
    assert forall|i: int|
        #![trigger batch.edges_upserted[i]]
        0 <= i < batch.edges_upserted.len() && batch.edges_upserted[i].id == id && (forall|j: int|
            i < j < batch.edges_upserted.len() ==> (#[trigger] batch.edges_upserted[j]).id != id)
            && !takes_an_end(batch, batch.edges_upserted[i]) && !batch.deleted_edge_ids.contains(
            id,
        ) && !loses implies after.contains_key(id) && after[id] == batch.edges_upserted[i] by {
        lemma_last_edge(batch.edges_upserted, keeps, i);
    }
}

/// Whether the memory metadata of a node is in order: it carries no vector among its properties, and
/// its time, importance and confidence, where it has them, are numbers.
pub open spec fn metadata_in_order(node: NodeModel) -> bool {
    &&& !node.properties.contains_key("embedding"@)
    &&& number_or_missing(node, "timestamp"@)
    &&& number_or_missing(node, "importance"@)
    &&& number_or_missing(node, "confidence"@)
}

/// Whether a property of a node is missing or a number.
pub open spec fn number_or_missing(node: NodeModel, key: Seq<char>) -> bool {
    node.properties.contains_key(key) ==> node.properties[key] is Integer
        || node.properties[key] is Float
}

proof fn lemma_first_error(nodes: Seq<NodeModel>)
    ensures
        first_error(nodes) is None <==> forall|i: int|
            0 <= i < nodes.len() ==> (#[trigger] nodes[i]).metadata_error() is None,
        first_error(nodes) is Some ==> exists|i: int|
            0 <= i < nodes.len() && (#[trigger] nodes[i]).metadata_error() == first_error(nodes),
    decreases nodes.len(),
{
    if nodes.len() > 0 {
        let short = nodes.drop_last();
        lemma_first_error(short);
        assert(nodes[nodes.len() - 1] == nodes.last());
        assert forall|i: int| 0 <= i < short.len() implies #[trigger] short[i] == nodes[i] by {}
        if first_error(short) is Some {
            let i = choose|i: int|
                0 <= i < short.len() && (#[trigger] short[i]).metadata_error() == first_error(
                    short,
                );
            assert(nodes[i].metadata_error() == first_error(nodes));
        } else {
            assert forall|i: int| 0 <= i < short.len() implies (
            #[trigger] nodes[i]).metadata_error() is None by {
                assert(short[i].metadata_error() is None);
            }
        }
    }
}

/// A batch is accepted exactly if the memory metadata of every node that it writes is in order.
pub proof fn law_batches_are_checked(batch: BatchModel)
    ensures
        batch.error() is None <==> forall|i: int|
            0 <= i < batch.nodes_upserted.len() ==> metadata_in_order(
                #[trigger] batch.nodes_upserted[i],
            ),
{
    lemma_first_error(batch.nodes_upserted);
    assert forall|i: int| 0 <= i < batch.nodes_upserted.len() implies (
    #[trigger] batch.nodes_upserted[i]).metadata_error() is None == metadata_in_order(
        batch.nodes_upserted[i],
    ) by {}
}

// ---------------------------------------------------------------------------------------------
// Databases
// ---------------------------------------------------------------------------------------------

/// A client's batch can be written exactly if the database follows no other and the memory metadata
/// of every node that the batch writes is in order.
pub proof fn law_what_clients_may_write(database: DatabaseModel, batch: BatchModel)
    ensures
        database.write_error(batch) is None <==> database.replication.status.mode
            != ReplicationMode::Follower && forall|i: int|
            0 <= i < batch.nodes_upserted.len() ==> metadata_in_order(
                #[trigger] batch.nodes_upserted[i],
            ),
{
    law_batches_are_checked(batch);
}

/// A node that is written is what the database gives for its id from then on; every other node and
/// every edge is as it was.
pub proof fn law_a_written_node(
    database: DatabaseModel,
    node: NodeModel,
    refusals: RefusalModel,
    id: Seq<char>,
)
    ensures
        ({
            let batch = BatchModel { nodes_upserted: seq![node], ..BatchModel::empty() };
            let after = database.applied(database.plan(batch), refusals).snapshot;
            &&& after.node(node.id) == Some(node)
            &&& id != node.id ==> after.node(id) == database.snapshot.node(id)
            &&& after.edge(id) == database.snapshot.edge(id)
        }),
{
    let batch = BatchModel { nodes_upserted: seq![node], ..BatchModel::empty() };
    let nodes = database.snapshot.nodes;
    let edges = database.snapshot.edges;
    law_nodes_after_a_batch(nodes, edges, batch, id);
    law_nodes_after_a_batch(nodes, edges, batch, node.id);
    law_edges_after_a_batch(nodes, edges, batch, id);
    assert(batch.nodes_upserted[0] == node);
    assert(writes_node(batch, node.id));
    assert(writes_node_at(batch, node.id, 0));
    assert(!writes_edge(batch, id));
}

/// An edge that is written is what the database gives for its id from then on; every other edge and
/// every node is as it was.
pub proof fn law_a_written_edge(
    database: DatabaseModel,
    edge: EdgeModel,
    refusals: RefusalModel,
    id: Seq<char>,
)
    ensures
        ({
            let batch = BatchModel { edges_upserted: seq![edge], ..BatchModel::empty() };
            let after = database.applied(database.plan(batch), refusals).snapshot;
            &&& after.edge(edge.id) == Some(edge)
            &&& id != edge.id ==> after.edge(id) == database.snapshot.edge(id)
            &&& after.node(id) == database.snapshot.node(id)
        }),
{
    let batch = BatchModel { edges_upserted: seq![edge], ..BatchModel::empty() };
    let nodes = database.snapshot.nodes;
    let edges = database.snapshot.edges;
    law_nodes_after_a_batch(nodes, edges, batch, id);
    law_edges_after_a_batch(nodes, edges, batch, id);
    law_edges_after_a_batch(nodes, edges, batch, edge.id);
    assert(batch.edges_upserted[0] == edge);
    assert(!writes_node(batch, id));
    assert(writes_edge(batch, id) ==> id == edge.id);
}

/// A node that is deleted is gone, with every edge that it was an end of; every other node and every
/// other edge is as it was.
pub proof fn law_a_deleted_node(
    database: DatabaseModel,
    node_id: Seq<char>,
    refusals: RefusalModel,
    id: Seq<char>,
)
    ensures
        ({
            let batch = BatchModel { deleted_node_ids: seq![node_id], ..BatchModel::empty() };
            let after = database.applied(database.plan(batch), refusals).snapshot;
            &&& after.node(node_id) is None
            &&& id != node_id ==> after.node(id) == database.snapshot.node(id)
            &&& after.edge(id) == (match database.snapshot.edge(id) {
                Some(edge) => if edge.source == node_id || edge.target == node_id {
                    None
                } else {
                    Some(edge)
                },
                None => None,
            })
        }),
{
    let batch = BatchModel { deleted_node_ids: seq![node_id], ..BatchModel::empty() };
    let nodes = database.snapshot.nodes;
    let edges = database.snapshot.edges;
    law_nodes_after_a_batch(nodes, edges, batch, id);
    law_nodes_after_a_batch(nodes, edges, batch, node_id);
    law_edges_after_a_batch(nodes, edges, batch, id);
    assert(batch.deleted_node_ids[0] == node_id);
    assert(batch.deleted_node_ids.contains(node_id));
    assert(!writes_node(batch, id));
    assert(!writes_node(batch, node_id));
    assert(!writes_edge(batch, id));
    assert(!batch.deleted_edge_ids.contains(id));
}

/// An edge that is deleted is gone; every other edge and every node is as it was.
pub proof fn law_a_deleted_edge(
    database: DatabaseModel,
    edge_id: Seq<char>,
    refusals: RefusalModel,
    id: Seq<char>,
)
    ensures
        ({
            let batch = BatchModel { deleted_edge_ids: seq![edge_id], ..BatchModel::empty() };
            let after = database.applied(database.plan(batch), refusals).snapshot;
            &&& after.edge(edge_id) is None
            &&& id != edge_id ==> after.edge(id) == database.snapshot.edge(id)
            &&& after.node(id) == database.snapshot.node(id)
        }),
{
    let batch = BatchModel { deleted_edge_ids: seq![edge_id], ..BatchModel::empty() };
    let nodes = database.snapshot.nodes;
    let edges = database.snapshot.edges;
    law_nodes_after_a_batch(nodes, edges, batch, id);
    law_edges_after_a_batch(nodes, edges, batch, id);
    law_edges_after_a_batch(nodes, edges, batch, edge_id);
    assert(batch.deleted_edge_ids[0] == edge_id);
    assert(batch.deleted_edge_ids.contains(edge_id));
    assert(!writes_node(batch, id));
    assert(!writes_edge(batch, id));
    assert(!batch.deleted_node_ids.contains(id));
}

// ---------------------------------------------------------------------------------------------
// Views
// ---------------------------------------------------------------------------------------------

/// The nodes that an overlay has written and that pass a test stand under their own ids.
proof fn lemma_added(view: OverlayGraphView<'_>, batch: BatchModel, id: Seq<char>)
    requires
        sound(view.base@),
        view.mutation@ == seen_as(planned(view.base@.nodes, view.base@.edges, batch)),
    ensures
        forall|k: Seq<char>|
            view.mutation@.added_nodes.contains_key(k) ==> (
            #[trigger] view.mutation@.added_nodes[k]).id == k,
        view.mutation@.added_nodes.dom().finite(),
        view.present().finite(),
{
    let base = view.base@;
    lemma_planned(base.nodes, base.edges, batch);
    vstd::set_lib::lemma_set_subset_finite(
        base.nodes.dom().union(view.mutation@.added_nodes.dom()),
        view.present(),
    );
}

/// The first of the listed nodes with a key has it.
proof fn lemma_first_with_key(nodes: Nodes, ids: Seq<Seq<char>>, key: Seq<char>)
    requires
        forall|k: int| 0 <= k < ids.len() ==> nodes.contains_key(#[trigger] ids[k]),
        forall|k: Seq<char>| nodes.contains_key(k) ==> (#[trigger] nodes[k]).id == k,
    ensures
        crate::graph::first_with_key(nodes, ids, key) matches Some(id) ==> nodes.contains_key(id)
            && nodes[id].unique_key() == Some(key),
    decreases ids.len(),
{
    if ids.len() > 0 {
        assert(nodes.contains_key(ids[0]));
        let rest = ids.drop_first();
        assert forall|k: int| 0 <= k < rest.len() implies nodes.contains_key(#[trigger] rest[k]) by {
            assert(rest[k] == ids[k + 1]);
        }
        lemma_first_with_key(nodes, rest, key);
    }
}

/// The lists of a view of a batch over a sound snapshot say what its records say.
pub proof fn law_view_of_a_batch_is_truthful(view: &OverlayGraphView<'_>, batch: BatchModel)
    requires
        sound(view.base@),
        view.mutation@ == seen_as(planned(view.base@.nodes, view.base@.edges, batch)),
    ensures
        truthful(view),
{
    let base = view.base@;
    let plan = planned(base.nodes, base.edges, batch);
    lemma_planned(base.nodes, base.edges, batch);
    lemma_added(*view, batch, Seq::empty());
    law_sound_snapshot_is_truthful(view.base);
    assert forall|id: Seq<char>| (#[trigger] view.node_at(id)) is Some implies view.node_at(
        id,
    )->0.id == id by {
        assert(view.base.node_at(id) is Some ==> view.base.node_at(id)->0.id == id);
        if view.mutation@.added_nodes.contains_key(id) {
            assert(view.mutation@.added_nodes[id].id == id);
        }
    }
    assert forall|id: Seq<char>| (#[trigger] view.edge_at(id)) is Some implies view.edge_at(
        id,
    )->0.id == id by {
        assert(view.base.edge_at(id) is Some ==> view.base.edge_at(id)->0.id == id);
    }
    assert forall|
        node: Seq<char>,
        direction: EdgeDirection,
        edge_type: Option<Seq<char>>,
        id: Seq<char>,
    |
        #![trigger view.incident_ids(node, direction, edge_type).contains(id)]
        view.incident_ids(node, direction, edge_type).contains(id) <==> (view.edge_at(
            id,
        ) matches Some(edge) && stands_at(edge, node, direction) && of_type(edge, edge_type)) by {
        law_view_lists_the_commit(
            *view,
            batch,
            node,
            direction,
            edge_type,
            Seq::empty(),
            id,
        );
        law_view_shows_the_commit(*view, plan, Map::empty(), id);
    }
    assert forall|node_type: Seq<char>, id: Seq<char>|
        #![trigger view.typed_ids(node_type).contains(id)]
        view.typed_ids(node_type).contains(id) <==> (view.node_at(id) matches Some(node)
            && node.node_type == node_type) by {
        law_view_lists_the_commit(
            *view,
            batch,
            Seq::empty(),
            EdgeDirection::Both,
            None,
            node_type,
            id,
        );
        law_view_shows_the_commit(*view, plan, Map::empty(), id);
    }
    assert forall|from: i64, to: i64, id: Seq<char>|
        #![trigger view.time_ids(from, to).contains(id)]
        view.time_ids(from, to).contains(id) <==> (view.node_at(id) matches Some(node)
            && timed_within(node, from, to)) by {
        let test = NodeTest::Time(from, to);
        let passing = view.passing(view.base.time_ids(from, to), test);
        assert forall|b: Seq<char>| #[trigger] passing.contains(b) <==> (view.node_at(
            b,
        ) matches Some(node) && timed_within(node, from, to)) by {
            assert(view.base.time_ids(from, to).contains(b) <==> (view.base.node_at(
                b,
            ) matches Some(node) && timed_within(node, from, to)));
            if view.mutation@.added_nodes.contains_key(b) {
                assert(view.mutation@.added_nodes[b].id == b);
            }
        }
        assert forall|b: Seq<char>| #[trigger] passing.contains(b) implies view.present().contains(
            b,
        ) by {
            assert(view.node_at(b) is Some);
        }
        vstd::set_lib::lemma_set_subset_finite(view.present(), passing);
        lemma_finite_sorted::<NodeId>(passing);
        assert(passing.contains(id) <==> sorted_keys::<NodeId>(passing).contains(id));
    }
    lemma_finite_sorted::<NodeId>(view.present());
    let ids = sorted_keys::<NodeId>(view.present());
    assert forall|node: NodeModel|
        #![trigger view.all_nodes().contains(node)]
        view.all_nodes().contains(node) <==> view.node_at(node.id) == Some(node) by {
        let all = view.all_nodes();
        if all.contains(node) {
            let k = choose|k: int| 0 <= k < all.len() && all[k] == node;
            assert(ids.contains(ids[k]));
            assert(view.present().contains(ids[k]));
            assert(view.node_at(ids[k]) is Some);
            assert(view.node_at(ids[k])->0.id == ids[k]);
        }
        if view.node_at(node.id) == Some(node) {
            assert(view.present().contains(node.id));
            assert(ids.contains(node.id));
            let k = choose|k: int| 0 <= k < ids.len() && ids[k] == node.id;
            assert(all[k] == node);
        }
    }
    let added = view.mutation@.added_nodes;
    lemma_finite_sorted::<NodeId>(added.dom());
    let listed = sorted_keys::<NodeId>(added.dom());
    assert forall|k: int| 0 <= k < listed.len() implies added.contains_key(#[trigger] listed[k]) by {
        assert(listed.contains(listed[k]));
    }
    assert forall|key: Seq<char>| (#[trigger] view.unique_key_at(key)) is Some implies (
    view.node_at(view.unique_key_at(key)->0) matches Some(node) && node.unique_key() == Some(
        key,
    )) by {
        lemma_first_with_key(added, listed, key);
    }
}

/// The nodes that a view of a batch compares with a query vector are exactly those with a vector of
/// the name and, if a type is asked for, of this type; where none is asked for, this holds where the
/// snapshot compares vectors one by one.
pub proof fn law_view_candidates(
    view: &OverlayGraphView<'_>,
    batch: BatchModel,
    query: SemanticModel,
    id: Seq<char>,
)
    requires
        sound(view.base@),
        view.mutation@ == seen_as(planned(view.base@.nodes, view.base@.edges, batch)),
        query.node_type is Some || view.base@.indexes.vectors is Exact,
    ensures
        view.semantic_ids(query).contains(id) <==> (view.node_at(id) matches Some(node)
            && node.vectors.contains_key(query.vector_name) && (query.node_type matches Some(t)
            ==> node.node_type == t)),
{
    law_view_of_a_batch_is_truthful(view, batch);
    let name = query.vector_name;
    match query.node_type {
        Some(t) => {
            let test = |b: Seq<char>|
                view.node(b) is Some && view.node(b)->0.vectors.contains_key(name);
            lemma_passing(view.typed_ids(t), test, id);
            assert(view.typed_ids(t).contains(id) <==> (view.node_at(id) matches Some(node)
                && node.node_type == t));
        },
        None => {
            let base = view.base@;
            lemma_added(*view, batch, id);
            let found = Set::new(
                |b: Seq<char>|
                    (view.base.vector_ids(name).contains(b) && view.node(b) is Some && view.node(
                        b,
                    )->0.vectors.contains_key(name)) || (exists|k: Seq<char>|
                        view.mutation@.added_nodes.contains_key(k)
                            && #[trigger] view.mutation@.added_nodes[k].id == b
                            && view.mutation@.added_nodes[k].vectors.contains_key(name)),
            );
            assert forall|b: Seq<char>| #[trigger] found.contains(b) <==> (view.node_at(
                b,
            ) matches Some(node) && node.vectors.contains_key(name)) by {
                assert(crate::faithful::filed_under(
                    base.indexes.vectors.candidates(),
                    name,
                    b,
                ) <==> crate::faithful::has_vector(base.nodes)(name, b));
                if view.mutation@.added_nodes.contains_key(b) {
                    assert(view.mutation@.added_nodes[b].id == b);
                }
            }
            assert forall|b: Seq<char>| #[trigger] found.contains(b) implies view.present().contains(
                b,
            ) by {
                assert(view.node_at(b) is Some);
            }
            vstd::set_lib::lemma_set_subset_finite(view.present(), found);
            lemma_finite_sorted::<NodeId>(found);
            assert(found.contains(id) <==> sorted_keys::<NodeId>(found).contains(id));
            assert(view.vector_ids(name) == sorted_keys::<NodeId>(found));
        },
    }
}

} // verus!
