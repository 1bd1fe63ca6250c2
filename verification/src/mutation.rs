//! What a batch of writes does to a graph.
use im::OrdMap;
use vstd::prelude::*;

use crate::common::{EdgeId, ErrorModel, NodeId, Result};
use crate::faithful::{
    edge_records, node_records, Edges, Nodes,
};
use crate::graph::{
    drop_edge, drop_node, edge_keys, edge_map, find_edge, find_node, node_map, put_edge, put_node, share_edges,
    share_nodes, GraphMutation, GraphSnapshot, MutationModel, SnapshotModel,
};
use crate::index::{GraphIndex, IndexModel};
use crate::ordered::{
    lemma_filter_step, lists_sorted, models, sorted_keys, OrderedKey, OrderedMap, OrderedSet,
    Replicate,
};
use crate::records::{BatchModel, EdgeModel, EdgeRecord, NodeModel, NodeRecord, WriteBatch};

verus! {

/// Records that a batch takes out of a graph and records that it puts in.
#[derive(Debug, PartialEq, Eq)]
pub struct BatchMutation {
    pub removed_nodes: OrderedMap<NodeId, NodeRecord>,
    pub removed_edges: OrderedMap<EdgeId, EdgeRecord>,
    pub added_nodes: OrderedMap<NodeId, NodeRecord>,
    pub added_edges: OrderedMap<EdgeId, EdgeRecord>,
}

/// The model of what a batch takes out and puts in.
pub struct BatchMutationModel {
    pub removed_nodes: Nodes,
    pub removed_edges: Edges,
    pub added_nodes: Nodes,
    pub added_edges: Edges,
}

impl View for BatchMutation {
    type V = BatchMutationModel;

    open spec fn view(&self) -> BatchMutationModel {
        BatchMutationModel {
            removed_nodes: self.removed_nodes@,
            removed_edges: self.removed_edges@,
            added_nodes: self.added_nodes@,
            added_edges: self.added_edges@,
        }
    }
}

impl Default for BatchMutation {
    fn default() -> (r: BatchMutation)
        ensures
            r@ == (BatchMutationModel {
                removed_nodes: Map::empty(),
                removed_edges: Map::empty(),
                added_nodes: Map::empty(),
                added_edges: Map::empty(),
            }),
    {
        BatchMutation {
            removed_nodes: OrderedMap::new(),
            removed_edges: OrderedMap::new(),
            added_nodes: OrderedMap::new(),
            added_edges: OrderedMap::new(),
        }
    }
}

// ---------------------------------------------------------------------------------------------
// Planning
// ---------------------------------------------------------------------------------------------

/// What is wrong with the first node of a list that has something wrong with it.
pub open spec fn first_error(nodes: Seq<NodeModel>) -> Option<ErrorModel>
    decreases nodes.len(),
{
    if nodes.len() == 0 {
        None
    } else {
        match first_error(nodes.drop_last()) {
            Some(error) => Some(error),
            None => nodes.last().metadata_error(),
        }
    }
}

/// Whether one of the first nodes of a list has an id.
pub open spec fn node_listed(nodes: Seq<NodeModel>, count: int, id: Seq<char>) -> bool {
    exists|i: int| 0 <= i < count && (#[trigger] nodes[i]).id == id
}

/// Whether one of the first edges of a list has an id.
pub open spec fn edge_listed(edges: Seq<EdgeModel>, count: int, id: Seq<char>) -> bool {
    exists|i: int| 0 <= i < count && (#[trigger] edges[i]).id == id
}

/// Whether one of the first ids of a list is the given one.
pub open spec fn id_listed(ids: Seq<Seq<char>>, count: int, id: Seq<char>) -> bool {
    exists|i: int| 0 <= i < count && #[trigger] ids[i] == id
}

impl BatchModel {
    /// What is wrong with the batch, if anything is.
    pub open spec fn error(self) -> Option<ErrorModel> {
        first_error(self.nodes_upserted)
    }

    /// Whether the batch replaces or deletes the node of an id.
    pub open spec fn replaces_node(self, id: Seq<char>) -> bool {
        node_listed(self.nodes_upserted, self.nodes_upserted.len() as int, id)
            || self.deletes_node(id)
    }

    /// Whether the batch deletes the node of an id.
    pub open spec fn deletes_node(self, id: Seq<char>) -> bool {
        self.deleted_node_ids.contains(id)
    }

    /// Whether the batch deletes an end of an edge.
    pub open spec fn cuts(self, edge: EdgeModel) -> bool {
        self.deletes_node(edge.source) || self.deletes_node(edge.target)
    }

    /// Whether the batch replaces or deletes an edge, or deletes an end of it.
    pub open spec fn replaces_edge(self, id: Seq<char>, edge: EdgeModel) -> bool {
        edge_listed(self.edges_upserted, self.edges_upserted.len() as int, id)
            || self.deleted_edge_ids.contains(id) || self.cuts(edge)
    }

    /// Whether an edge that the batch writes is to be put in.
    pub open spec fn keeps_edge(self) -> spec_fn(EdgeModel) -> bool {
        |edge: EdgeModel| !self.deleted_edge_ids.contains(edge.id) && !self.cuts(edge)
    }
}

/// The nodes of a graph that a batch takes out.
pub open spec fn nodes_out(nodes: Nodes, batch: BatchModel) -> Nodes {
    nodes.restrict(Set::new(|id: Seq<char>| batch.replaces_node(id)))
}

/// The edges of a graph that a batch takes out.
pub open spec fn edges_out(edges: Edges, batch: BatchModel) -> Edges {
    edges.restrict(
        Set::new(|id: Seq<char>| edges.contains_key(id) && batch.replaces_edge(id, edges[id])),
    )
}

/// The nodes that a batch puts in: those that it writes and does not delete.
pub open spec fn nodes_in(batch: BatchModel) -> Nodes {
    node_records(batch.nodes_upserted).remove_keys(
        Set::new(|id: Seq<char>| batch.deletes_node(id)),
    )
}

/// The edges that a batch puts in: those that it writes and that it neither deletes nor cuts, but
/// for those that stand in for an edge of the graph that it cuts.
pub open spec fn edges_in(edges: Edges, batch: BatchModel) -> Edges {
    edge_records(batch.edges_upserted.filter(batch.keeps_edge())).remove_keys(
        Set::new(|id: Seq<char>| edges.contains_key(id) && batch.cuts(edges[id])),
    )
}

/// What a batch does to a graph.
pub open spec fn planned(nodes: Nodes, edges: Edges, batch: BatchModel) -> BatchMutationModel {
    BatchMutationModel {
        removed_nodes: nodes_out(nodes, batch),
        removed_edges: edges_out(edges, batch),
        added_nodes: nodes_in(batch),
        added_edges: edges_in(edges, batch),
    }
}

proof fn lemma_first_error_stays(nodes: Seq<NodeModel>, i: int)
    requires
        0 <= i <= nodes.len(),
        first_error(nodes.take(i)) is Some,
    ensures
        first_error(nodes) == first_error(nodes.take(i)),
    decreases nodes.len(),
{
    if i == nodes.len() {
        assert(nodes.take(i) =~= nodes);
    } else {
        assert(nodes.drop_last().take(i) =~= nodes.take(i));
        lemma_first_error_stays(nodes.drop_last(), i);
    }
}

/// Accepts a batch whose nodes have their memory metadata in order.
fn check_nodes(nodes: &Vec<NodeRecord>) -> (r: Result<()>)
    ensures
        r is Ok <==> first_error(models(nodes@)) is None,
        r matches Err(e) ==> first_error(models(nodes@)) == Some(e@),
{
    let ghost all = models(nodes@);
    let mut i: usize = 0;
    proof {
        assert(all.take(0) =~= Seq::empty());
    }
    while i < nodes.len()
        invariant
            i <= nodes.len(),
            all == models(nodes@),
            first_error(all.take(i as int)) is None,
        decreases nodes.len() - i,
    {
        let mut node: NodeRecord = nodes[i].clone();
        proof {
            let next = all.take(i + 1);
            assert(next.drop_last() =~= all.take(i as int));
            assert(next.last() == nodes@[i as int]@);
        }
        match node.normalize_memory_metadata() {
            Ok(_) => {},
            Err(error) => {
                proof {
                    lemma_first_error_stays(all, i + 1);
                }
                return Err(error);
            },
        }
        i = i + 1;
    }
    proof {
        assert(all.take(i as int) =~= all);
    }
    Ok(())
}

/// The set of the items of a list.
fn set_of<K: OrderedKey + Replicate>(items: &Vec<K>) -> (r: OrderedSet<K>)
    ensures
        forall|key: K::V| #[trigger] r@.contains(key) <==> models(items@).contains(key),
{
    let ghost all = models(items@);
    let mut out: OrderedSet<K> = OrderedSet::new();
    let mut i: usize = 0;
    while i < items.len()
        invariant
            i <= items.len(),
            all == models(items@),
            forall|key: K::V| #[trigger]
                out@.contains(key) <==> exists|j: int| 0 <= j < i && all[j] == key,
        decreases items.len() - i,
    {
        let ghost before = out@;
        let _fresh: bool = out.insert(items[i].replicate());
        proof {
            assert forall|key: K::V| #[trigger] out@.contains(key) <==> exists|j: int|
                0 <= j < i + 1 && all[j] == key by {
                if out@.contains(key) && !before.contains(key) {
                    assert(all[i as int] == key);
                }
                if exists|j: int| 0 <= j < i + 1 && all[j] == key {
                    let j = choose|j: int| 0 <= j < i + 1 && all[j] == key;
                    if j < i {
                        assert(before.contains(key));
                    }
                }
            }
        }
        i = i + 1;
    }
    out
}

/// The nodes of a snapshot that a batch takes out.
fn plan_nodes_out(base: &GraphSnapshot, batch: &WriteBatch) -> (r: OrderedMap<NodeId, NodeRecord>)
    ensures
        r@ == nodes_out(base@.nodes, batch@),
{
    let ghost nodes = base@.nodes;
    let ghost model = batch@;
    let ghost written = model.nodes_upserted;
    let ghost deleted = model.deleted_node_ids;
    let mut out: OrderedMap<NodeId, NodeRecord> = OrderedMap::new();
    let mut i: usize = 0;
    while i < batch.nodes_upserted.len()
        invariant
            i <= batch.nodes_upserted.len(),
            nodes == base@.nodes,
            written == models(batch.nodes_upserted@),
            forall|id: Seq<char>| #[trigger]
                out@.contains_key(id) <==> nodes.contains_key(id) && node_listed(
                    written,
                    i as int,
                    id,
                ),
            forall|id: Seq<char>| #[trigger] out@.contains_key(id) ==> out@[id] == nodes[id],
        decreases batch.nodes_upserted.len() - i,
    {
        let ghost before = out@;
        let id: &NodeId = &batch.nodes_upserted[i].id;
        proof {
            assert(written[i as int].id == id@);
        }
        match find_node(&base.nodes, id.as_str()) {
            Some(previous) => {
                out.insert(id.clone(), previous.clone());
            },
            None => {},
        }
        proof {
            assert forall|k: Seq<char>| #[trigger] out@.contains_key(k) <==> nodes.contains_key(k)
                && node_listed(written, i + 1, k) by {
                assert(before.contains_key(k) <==> nodes.contains_key(k) && node_listed(
                    written,
                    i as int,
                    k,
                ));
                if node_listed(written, i + 1, k) && k != id@ {
                    let j = choose|j: int| 0 <= j < i + 1 && (#[trigger] written[j]).id == k;
                    assert(j < i);
                }
            }
        }
        i = i + 1;
    }
    let ghost kept = out@;
    let mut j: usize = 0;
    while j < batch.deleted_node_ids.len()
        invariant
            j <= batch.deleted_node_ids.len(),
            nodes == base@.nodes,
            deleted == models(batch.deleted_node_ids@),
            forall|id: Seq<char>| #[trigger] kept.contains_key(id) ==> nodes.contains_key(id),
            forall|id: Seq<char>| #[trigger]
                out@.contains_key(id) <==> kept.contains_key(id) || (nodes.contains_key(id)
                    && id_listed(deleted, j as int, id)),
            forall|id: Seq<char>| #[trigger] out@.contains_key(id) ==> out@[id] == nodes[id],
        decreases batch.deleted_node_ids.len() - j,
    {
        let ghost before = out@;
        let id: &NodeId = &batch.deleted_node_ids[j];
        proof {
            assert(deleted[j as int] == id@);
        }
        match find_node(&base.nodes, id.as_str()) {
            Some(previous) => {
                out.insert(id.clone(), previous.clone());
            },
            None => {},
        }
        proof {
            assert forall|k: Seq<char>| #[trigger] out@.contains_key(k) <==> kept.contains_key(k)
                || (nodes.contains_key(k) && id_listed(deleted, j + 1, k)) by {
                assert(before.contains_key(k) <==> kept.contains_key(k) || (nodes.contains_key(k)
                    && id_listed(deleted, j as int, k)));
                if id_listed(deleted, j + 1, k) && k != id@ {
                    let l = choose|l: int| 0 <= l < j + 1 && #[trigger] deleted[l] == k;
                    assert(l < j);
                }
            }
        }
        j = j + 1;
    }
    proof {
        assert forall|id: Seq<char>| out@.contains_key(id) <==> nodes_out(
            nodes,
            model,
        ).contains_key(id) by {
            if deleted.contains(id) {
                let l = choose|l: int| 0 <= l < deleted.len() && deleted[l] == id;
                assert(id_listed(deleted, j as int, id));
            }
        }
        assert(out@ =~= nodes_out(nodes, model));
    }
    out
}

/// The nodes that a batch puts in.
fn plan_nodes_in(batch: &WriteBatch, deleted: &OrderedSet<NodeId>) -> (r: OrderedMap<
    NodeId,
    NodeRecord,
>)
    requires
        forall|id: Seq<char>| #[trigger] deleted@.contains(id) <==> batch@.deletes_node(id),
    ensures
        r@ == nodes_in(batch@),
{
    let ghost model = batch@;
    let ghost written = model.nodes_upserted;
    let ghost gone = Set::new(|id: Seq<char>| model.deletes_node(id));
    let mut out: OrderedMap<NodeId, NodeRecord> = OrderedMap::new();
    let mut i: usize = 0;
    proof {
        assert(written.take(0) =~= Seq::empty());
        assert(out@ =~= node_records(written.take(0)).remove_keys(gone));
    }
    while i < batch.nodes_upserted.len()
        invariant
            i <= batch.nodes_upserted.len(),
            model == batch@,
            written == models(batch.nodes_upserted@),
            gone == Set::new(|id: Seq<char>| model.deletes_node(id)),
            forall|id: Seq<char>| #[trigger] deleted@.contains(id) <==> model.deletes_node(id),
            out@ == node_records(written.take(i as int)).remove_keys(gone),
        decreases batch.nodes_upserted.len() - i,
    {
        let node: &NodeRecord = &batch.nodes_upserted[i];
        let ghost before = out@;
        proof {
            let next = written.take(i + 1);
            assert(next.drop_last() =~= written.take(i as int));
            assert(next.last() == node@);
            assert(deleted@.contains(node@.id) <==> gone.contains(node@.id));
        }
        if !deleted.contains(&node.id) {
            out.insert(node.id.clone(), node.clone());
        }
        proof {
            assert(out@ =~= node_records(written.take(i + 1)).remove_keys(gone));
        }
        i = i + 1;
    }
    proof {
        assert(written.take(i as int) =~= written);
    }
    out
}

/// The edges of a snapshot that a batch takes out.
fn plan_edges_out(base: &GraphSnapshot, batch: &WriteBatch, deleted: &OrderedSet<NodeId>) -> (r:
    OrderedMap<EdgeId, EdgeRecord>)
    requires
        forall|id: Seq<char>| #[trigger] deleted@.contains(id) <==> batch@.deletes_node(id),
    ensures
        r@ == edges_out(base@.edges, batch@),
{
    let ghost edges = base@.edges;
    let ghost model = batch@;
    let ghost written = model.edges_upserted;
    let ghost gone = model.deleted_edge_ids;
    let mut out: OrderedMap<EdgeId, EdgeRecord> = OrderedMap::new();
    let mut i: usize = 0;
    while i < batch.edges_upserted.len()
        invariant
            i <= batch.edges_upserted.len(),
            edges == base@.edges,
            written == models(batch.edges_upserted@),
            forall|id: Seq<char>| #[trigger]
                out@.contains_key(id) <==> edges.contains_key(id) && edge_listed(
                    written,
                    i as int,
                    id,
                ),
            forall|id: Seq<char>| #[trigger] out@.contains_key(id) ==> out@[id] == edges[id],
        decreases batch.edges_upserted.len() - i,
    {
        let ghost before = out@;
        let id: &EdgeId = &batch.edges_upserted[i].id;
        proof {
            assert(written[i as int].id == id@);
        }
        match find_edge(&base.edges, id.as_str()) {
            Some(previous) => {
                out.insert(id.clone(), previous.clone());
            },
            None => {},
        }
        proof {
            assert forall|k: Seq<char>| #[trigger] out@.contains_key(k) <==> edges.contains_key(k)
                && edge_listed(written, i + 1, k) by {
                assert(before.contains_key(k) <==> edges.contains_key(k) && edge_listed(
                    written,
                    i as int,
                    k,
                ));
                if edge_listed(written, i + 1, k) && k != id@ {
                    let j = choose|j: int| 0 <= j < i + 1 && (#[trigger] written[j]).id == k;
                    assert(j < i);
                }
            }
        }
        i = i + 1;
    }
    let ghost replaced = out@;
    let mut j: usize = 0;
    while j < batch.deleted_edge_ids.len()
        invariant
            j <= batch.deleted_edge_ids.len(),
            edges == base@.edges,
            gone == models(batch.deleted_edge_ids@),
            forall|id: Seq<char>| #[trigger]
                out@.contains_key(id) <==> replaced.contains_key(id) || (edges.contains_key(id)
                    && id_listed(gone, j as int, id)),
            forall|id: Seq<char>| #[trigger] out@.contains_key(id) ==> out@[id] == edges[id],
        decreases batch.deleted_edge_ids.len() - j,
    {
        let ghost before = out@;
        let id: &EdgeId = &batch.deleted_edge_ids[j];
        proof {
            assert(gone[j as int] == id@);
        }
        match find_edge(&base.edges, id.as_str()) {
            Some(previous) => {
                out.insert(id.clone(), previous.clone());
            },
            None => {},
        }
        proof {
            assert forall|k: Seq<char>| #[trigger] out@.contains_key(k) <==> replaced.contains_key(
                k,
            ) || (edges.contains_key(k) && id_listed(gone, j + 1, k)) by {
                assert(before.contains_key(k) <==> replaced.contains_key(k) || (
                edges.contains_key(k) && id_listed(gone, j as int, k)));
                if id_listed(gone, j + 1, k) && k != id@ {
                    let l = choose|l: int| 0 <= l < j + 1 && #[trigger] gone[l] == k;
                    assert(l < j);
                }
            }
        }
        j = j + 1;
    }
    let ghost taken = out@;
    let keys: Vec<String> = edge_keys(&base.edges);
    let ghost ids = models(keys@);
    let mut k: usize = 0;
    while k < keys.len()
        invariant
            k <= keys.len(),
            edges == base@.edges,
            model == batch@,
            ids == models(keys@),
            lists_sorted::<String>(ids, edges.dom()),
            forall|id: Seq<char>| #[trigger] deleted@.contains(id) <==> model.deletes_node(id),
            forall|id: Seq<char>| #[trigger]
                out@.contains_key(id) <==> taken.contains_key(id) || (edges.contains_key(id)
                    && id_listed(ids, k as int, id) && model.cuts(edges[id])),
            forall|id: Seq<char>| #[trigger] out@.contains_key(id) ==> out@[id] == edges[id],
        decreases keys.len() - k,
    {
        let ghost before = out@;
        let ghost key = ids[k as int];
        proof {
            assert(key == keys@[k as int]@);
            assert(ids.contains(key));
        }
        match find_edge(&base.edges, keys[k].as_str()) {
            Some(edge) => {
                if deleted.contains(&edge.source) || deleted.contains(&edge.target) {
                    out.insert(EdgeId::from_stored(keys[k].clone()), edge.clone());
                }
            },
            None => {},
        }
        proof {
            assert forall|id: Seq<char>| #[trigger] out@.contains_key(id) <==> taken.contains_key(
                id,
            ) || (edges.contains_key(id) && id_listed(ids, k + 1, id) && model.cuts(
                edges[id],
            )) by {
                assert(before.contains_key(id) <==> taken.contains_key(id) || (edges.contains_key(
                    id,
                ) && id_listed(ids, k as int, id) && model.cuts(edges[id])));
                if id_listed(ids, k + 1, id) && id != key {
                    let l = choose|l: int| 0 <= l < k + 1 && #[trigger] ids[l] == id;
                    assert(l < k);
                }
            }
        }
        k = k + 1;
    }
    proof {
        assert forall|id: Seq<char>| out@.contains_key(id) <==> edges_out(
            edges,
            model,
        ).contains_key(id) by {
            if gone.contains(id) {
                let l = choose|l: int| 0 <= l < gone.len() && gone[l] == id;
                assert(id_listed(gone, j as int, id));
            }
            if edges.contains_key(id) {
                assert(ids.contains(id));
                let l = choose|l: int| 0 <= l < ids.len() && ids[l] == id;
                assert(id_listed(ids, k as int, id));
            }
        }
        assert(out@ =~= edges_out(edges, model));
    }
    out
}

/// The edges that a batch puts into a snapshot.
fn plan_edges_in(base: &GraphSnapshot, batch: &WriteBatch, deleted: &OrderedSet<NodeId>) -> (r:
    OrderedMap<EdgeId, EdgeRecord>)
    requires
        forall|id: Seq<char>| #[trigger] deleted@.contains(id) <==> batch@.deletes_node(id),
    ensures
        r@ == edges_in(base@.edges, batch@),
{
    let ghost edges = base@.edges;
    let ghost model = batch@;
    let ghost written = model.edges_upserted;
    let ghost keeps = model.keeps_edge();
    let gone: OrderedSet<EdgeId> = set_of(&batch.deleted_edge_ids);
    let mut out: OrderedMap<EdgeId, EdgeRecord> = OrderedMap::new();
    let mut i: usize = 0;
    proof {
        reveal(Seq::filter);
        assert(written.take(0).filter(keeps).len() == 0);
        assert(out@ =~= edge_records(written.take(0).filter(keeps)));
    }
    while i < batch.edges_upserted.len()
        invariant
            i <= batch.edges_upserted.len(),
            model == batch@,
            written == models(batch.edges_upserted@),
            keeps == model.keeps_edge(),
            forall|id: Seq<char>| #[trigger] deleted@.contains(id) <==> model.deletes_node(id),
            forall|id: Seq<char>| #[trigger]
                gone@.contains(id) <==> model.deleted_edge_ids.contains(id),
            out@ == edge_records(written.take(i as int).filter(keeps)),
        decreases batch.edges_upserted.len() - i,
    {
        let edge: &EdgeRecord = &batch.edges_upserted[i];
        proof {
            lemma_filter_step(written, keeps, i as int);
            assert(written[i as int] == edge@);
            let kept = written.take(i as int).filter(keeps);
            assert(kept.push(edge@).drop_last() =~= kept);
        }
        if !gone.contains(&edge.id) && !deleted.contains(&edge.source) && !deleted.contains(
            &edge.target,
        ) {
            out.insert(edge.id.clone(), edge.clone());
        }
        i = i + 1;
    }
    let ghost kept = out@;
    proof {
        assert(written.take(i as int) =~= written);
    }
    let keys: Vec<String> = edge_keys(&base.edges);
    let ghost ids = models(keys@);
    let mut k: usize = 0;
    while k < keys.len()
        invariant
            k <= keys.len(),
            edges == base@.edges,
            model == batch@,
            ids == models(keys@),
            lists_sorted::<String>(ids, edges.dom()),
            forall|id: Seq<char>| #[trigger] deleted@.contains(id) <==> model.deletes_node(id),
            forall|id: Seq<char>| #[trigger]
                out@.contains_key(id) <==> kept.contains_key(id) && !(edges.contains_key(id)
                    && id_listed(ids, k as int, id) && model.cuts(edges[id])),
            forall|id: Seq<char>| #[trigger] out@.contains_key(id) ==> out@[id] == kept[id],
        decreases keys.len() - k,
    {
        let ghost before = out@;
        let ghost key = ids[k as int];
        proof {
            assert(key == keys@[k as int]@);
            assert(ids.contains(key));
        }
        match find_edge(&base.edges, keys[k].as_str()) {
            Some(edge) => {
                if deleted.contains(&edge.source) || deleted.contains(&edge.target) {
                    let _taken: Option<EdgeRecord> = out.remove(&EdgeId::from_stored(keys[k].clone()));
                }
            },
            None => {},
        }
        proof {
            assert forall|id: Seq<char>| #[trigger] out@.contains_key(id) <==> kept.contains_key(id)
                && !(edges.contains_key(id) && id_listed(ids, k + 1, id) && model.cuts(
                edges[id],
            )) by {
                assert(before.contains_key(id) <==> kept.contains_key(id) && !(edges.contains_key(
                    id,
                ) && id_listed(ids, k as int, id) && model.cuts(edges[id])));
                if id_listed(ids, k + 1, id) && id != key {
                    let l = choose|l: int| 0 <= l < k + 1 && #[trigger] ids[l] == id;
                    assert(l < k);
                }
            }
        }
        k = k + 1;
    }
    proof {
        assert forall|id: Seq<char>| out@.contains_key(id) <==> edges_in(
            edges,
            model,
        ).contains_key(id) by {
            if edges.contains_key(id) {
                assert(ids.contains(id));
                let l = choose|l: int| 0 <= l < ids.len() && ids[l] == id;
                assert(id_listed(ids, k as int, id));
            }
        }
        assert(out@ =~= edges_in(edges, model));
    }
    out
}

/// What a batch does to a snapshot, unless something is wrong with the batch.
pub fn plan_batch_mutation(base: &GraphSnapshot, batch: &WriteBatch) -> (r: Result<BatchMutation>)
    ensures
        r is Ok <==> batch@.error() is None,
        r matches Ok(mutation) ==> mutation@ == planned(base@.nodes, base@.edges, batch@),
        r matches Err(e) ==> batch@.error() == Some(e@),
{
    match check_nodes(&batch.nodes_upserted) {
        Ok(_) => {},
        Err(error) => {
            return Err(error);
        },
    }
    let deleted: OrderedSet<NodeId> = set_of(&batch.deleted_node_ids);
    Ok(
        BatchMutation {
            removed_nodes: plan_nodes_out(base, batch),
            removed_edges: plan_edges_out(base, batch, &deleted),
            added_nodes: plan_nodes_in(batch, &deleted),
            added_edges: plan_edges_in(base, batch, &deleted),
        },
    )
}

// ---------------------------------------------------------------------------------------------
// Applying
// ---------------------------------------------------------------------------------------------

/// For a node's id, the spaces whose search graph refused its vector.
pub type Refusals = OrderedMap<NodeId, OrderedSet<String>>;

/// The model of what search graphs refused.
pub type RefusalModel = Map<Seq<char>, Set<Seq<char>>>;

/// The spaces whose search graph refused the vector of a node.
pub open spec fn refused_of(refusals: RefusalModel, id: Seq<char>) -> Set<Seq<char>> {
    if refusals.contains_key(id) {
        refusals[id]
    } else {
        Set::empty()
    }
}

/// The nodes of a map in the order of their keys.
pub open spec fn nodes_listed(nodes: Nodes) -> Seq<NodeModel> {
    let keys = sorted_keys::<NodeId>(nodes.dom());
    Seq::new(keys.len(), |i: int| nodes[keys[i]])
}

/// The edges of a map in the order of their keys.
pub open spec fn edges_listed(edges: Edges) -> Seq<EdgeModel> {
    let keys = sorted_keys::<EdgeId>(edges.dom());
    Seq::new(keys.len(), |i: int| edges[keys[i]])
}

/// An index once edges are deleted one after the other.
pub open spec fn edges_dropped(index: IndexModel, edges: Seq<EdgeModel>) -> IndexModel
    decreases edges.len(),
{
    if edges.len() == 0 {
        index
    } else {
        edges_dropped(index, edges.drop_last()).without_edge(edges.last())
    }
}

/// An index once nodes are deleted one after the other.
pub open spec fn nodes_dropped(index: IndexModel, nodes: Seq<NodeModel>) -> IndexModel
    decreases nodes.len(),
{
    if nodes.len() == 0 {
        index
    } else {
        nodes_dropped(index, nodes.drop_last()).without_node(nodes.last())
    }
}

/// An index once nodes are written one after the other.
pub open spec fn nodes_written(
    index: IndexModel,
    nodes: Seq<NodeModel>,
    refusals: RefusalModel,
) -> IndexModel
    decreases nodes.len(),
{
    if nodes.len() == 0 {
        index
    } else {
        nodes_written(index, nodes.drop_last(), refusals).with_node(
            nodes.last(),
            refused_of(refusals, nodes.last().id),
        )
    }
}

/// An index after a mutation: edges go first, then nodes; nodes come first, then edges.
pub open spec fn index_after(
    index: IndexModel,
    mutation: BatchMutationModel,
    refusals: RefusalModel,
) -> IndexModel {
    let without = nodes_dropped(
        edges_dropped(index, edges_listed(mutation.removed_edges)),
        nodes_listed(mutation.removed_nodes),
    );
    nodes_written(without, nodes_listed(mutation.added_nodes), refusals).with_edges(
        edges_listed(mutation.added_edges),
    )
}

/// The nodes of a graph after a mutation.
pub open spec fn nodes_after(nodes: Nodes, mutation: BatchMutationModel) -> Nodes {
    nodes.remove_keys(mutation.removed_nodes.dom()).union_prefer_right(mutation.added_nodes)
}

/// The edges of a graph after a mutation.
pub open spec fn edges_after(edges: Edges, mutation: BatchMutationModel) -> Edges {
    edges.remove_keys(mutation.removed_edges.dom()).union_prefer_right(mutation.added_edges)
}

/// A snapshot after a mutation.
pub open spec fn snapshot_after(
    base: SnapshotModel,
    mutation: BatchMutationModel,
    refusals: RefusalModel,
) -> SnapshotModel {
    SnapshotModel {
        nodes: nodes_after(base.nodes, mutation),
        edges: edges_after(base.edges, mutation),
        indexes: index_after(base.indexes, mutation, refusals),
    }
}

fn drop_edges(index: &mut GraphIndex, edges: &OrderedMap<EdgeId, EdgeRecord>)
    ensures
        final(index)@ == edges_dropped(old(index)@, edges_listed(edges@)),
{
    let ghost start = index@;
    let ghost list = edges_listed(edges@);
    let n: usize = edges.len();
    let mut i: usize = 0;
    proof {
        assert(list.take(0) =~= Seq::empty());
    }
    while i < n
        invariant
            i <= n,
            n == edges.keys().len(),
            list == edges_listed(edges@),
            index@ == edges_dropped(start, list.take(i as int)),
        decreases n - i,
    {
        index.delete_edge(edges.value_at(i));
        proof {
            let next = list.take(i + 1);
            assert(next.drop_last() =~= list.take(i as int));
            assert(next.last() == list[i as int]);
        }
        i = i + 1;
    }
    proof {
        assert(list.take(i as int) =~= list);
    }
}

fn drop_nodes(index: &mut GraphIndex, nodes: &OrderedMap<NodeId, NodeRecord>)
    ensures
        final(index)@ == nodes_dropped(old(index)@, nodes_listed(nodes@)),
{
    let ghost start = index@;
    let ghost list = nodes_listed(nodes@);
    let n: usize = nodes.len();
    let mut i: usize = 0;
    proof {
        assert(list.take(0) =~= Seq::empty());
    }
    while i < n
        invariant
            i <= n,
            n == nodes.keys().len(),
            list == nodes_listed(nodes@),
            index@ == nodes_dropped(start, list.take(i as int)),
        decreases n - i,
    {
        index.delete_node(nodes.value_at(i));
        proof {
            let next = list.take(i + 1);
            assert(next.drop_last() =~= list.take(i as int));
            assert(next.last() == list[i as int]);
        }
        i = i + 1;
    }
    proof {
        assert(list.take(i as int) =~= list);
    }
}

fn write_nodes(
    index: &mut GraphIndex,
    nodes: &OrderedMap<NodeId, NodeRecord>,
    refusals: &Refusals,
)
    ensures
        final(index)@ == nodes_written(old(index)@, nodes_listed(nodes@), refusals@),
{
    let ghost start = index@;
    let ghost list = nodes_listed(nodes@);
    let n: usize = nodes.len();
    let mut i: usize = 0;
    proof {
        assert(list.take(0) =~= Seq::empty());
    }
    while i < n
        invariant
            i <= n,
            n == nodes.keys().len(),
            list == nodes_listed(nodes@),
            index@ == nodes_written(start, list.take(i as int), refusals@),
        decreases n - i,
    {
        let node: &NodeRecord = nodes.value_at(i);
        match refusals.get(&node.id) {
            Some(refused) => index.upsert_node_with_refusals(node, refused),
            None => index.upsert_node(node),
        }
        proof {
            let next = list.take(i + 1);
            assert(next.drop_last() =~= list.take(i as int));
            assert(next.last() == list[i as int]);
        }
        i = i + 1;
    }
    proof {
        assert(list.take(i as int) =~= list);
    }
}

fn write_edges(index: &mut GraphIndex, edges: &OrderedMap<EdgeId, EdgeRecord>)
    ensures
        final(index)@ == old(index)@.with_edges(edges_listed(edges@)),
{
    let ghost start = index@;
    let ghost list = edges_listed(edges@);
    let n: usize = edges.len();
    let mut i: usize = 0;
    proof {
        assert(list.take(0) =~= Seq::empty());
    }
    while i < n
        invariant
            i <= n,
            n == edges.keys().len(),
            list == edges_listed(edges@),
            index@ == start.with_edges(list.take(i as int)),
        decreases n - i,
    {
        index.upsert_edge(edges.value_at(i));
        proof {
            let next = list.take(i + 1);
            assert(next.drop_last() =~= list.take(i as int));
            assert(next.last() == list[i as int]);
        }
        i = i + 1;
    }
    proof {
        assert(list.take(i as int) =~= list);
    }
}

/// An index after a mutation, with the index itself left as it is.
pub fn indexes_with_mutation(
    base: &GraphIndex,
    mutation: &BatchMutation,
    refusals: &Refusals,
) -> (r: GraphIndex)
    ensures
        r@ == index_after(base@, mutation@, refusals@),
{
    let mut indexes: GraphIndex = base.replicate();
    drop_edges(&mut indexes, &mutation.removed_edges);
    drop_nodes(&mut indexes, &mutation.removed_nodes);
    write_nodes(&mut indexes, &mutation.added_nodes, refusals);
    write_edges(&mut indexes, &mutation.added_edges);
    indexes
}

/// The keys of a map as a set.
fn keys_of<K: OrderedKey + Replicate, V: View>(map: &OrderedMap<K, V>) -> (r: OrderedSet<K>)
    ensures
        r@ == map@.dom(),
{
    let n: usize = map.len();
    let mut out: OrderedSet<K> = OrderedSet::new();
    let mut i: usize = 0;
    while i < n
        invariant
            i <= n,
            n == map.keys().len(),
            lists_sorted::<K>(map.keys(), map@.dom()),
            forall|key: K::V| #[trigger]
                out@.contains(key) <==> exists|j: int| 0 <= j < i && map.keys()[j] == key,
        decreases n - i,
    {
        let ghost before = out@;
        let _fresh: bool = out.insert(map.key_at(i).replicate());
        proof {
            assert forall|key: K::V| #[trigger] out@.contains(key) <==> exists|j: int|
                0 <= j < i + 1 && map.keys()[j] == key by {
                if out@.contains(key) && !before.contains(key) {
                    assert(map.keys()[i as int] == key);
                }
                if exists|j: int| 0 <= j < i + 1 && map.keys()[j] == key {
                    let j = choose|j: int| 0 <= j < i + 1 && map.keys()[j] == key;
                    if j < i {
                        assert(before.contains(key));
                    }
                }
            }
        }
        i = i + 1;
    }
    proof {
        assert forall|key: K::V| out@.contains(key) <==> map@.dom().contains(key) by {
            if out@.contains(key) {
                assert(map.keys().contains(key));
            }
            if map@.dom().contains(key) {
                assert(map.keys().contains(key));
            }
        }
        assert(out@ =~= map@.dom());
    }
    out
}

/// What a view of a graph has to know of a mutation.
pub fn graph_mutation_from_batch(batch: &BatchMutation) -> (r: GraphMutation)
    ensures
        r@ == (MutationModel {
            removed_node_ids: batch@.removed_nodes.dom(),
            removed_edge_ids: batch@.removed_edges.dom(),
            added_nodes: batch@.added_nodes,
            added_edges: batch@.added_edges,
        }),
{
    GraphMutation {
        removed_node_ids: keys_of(&batch.removed_nodes),
        removed_edge_ids: keys_of(&batch.removed_edges),
        added_nodes: batch.added_nodes.replicate(),
        added_edges: batch.added_edges.replicate(),
    }
}

/// The nodes of a snapshot after a mutation.
fn nodes_with_mutation(base: &GraphSnapshot, mutation: &BatchMutation) -> (r: OrdMap<
    String,
    NodeRecord,
>)
    ensures
        node_map(r) == nodes_after(base@.nodes, mutation@),
{
    let ghost start = base@.nodes;
    let removed: &OrderedMap<NodeId, NodeRecord> = &mutation.removed_nodes;
    let added: &OrderedMap<NodeId, NodeRecord> = &mutation.added_nodes;
    let mut nodes: OrdMap<String, NodeRecord> = share_nodes(&base.nodes);
    let n: usize = removed.len();
    let ghost out_keys = removed.keys();
    let mut i: usize = 0;
    while i < n
        invariant
            i <= n,
            out_keys == removed.keys(),
            n == out_keys.len(),
            forall|id: Seq<char>| #[trigger]
                node_map(nodes).contains_key(id) <==> start.contains_key(id)
                    && !id_listed(out_keys, i as int, id),
            forall|id: Seq<char>| #[trigger]
                node_map(nodes).contains_key(id) ==> node_map(nodes)[id]
                    == start[id],
        decreases n - i,
    {
        let ghost before = node_map(nodes);
        let key: &NodeId = removed.key_at(i);
        drop_node(&mut nodes, key.as_str());
        proof {
            let now = node_map(nodes);
            assert forall|id: Seq<char>| #[trigger] now.contains_key(id) <==> start.contains_key(id)
                && !id_listed(out_keys, i + 1, id) by {
                assert(before.contains_key(id) <==> start.contains_key(id) && !id_listed(
                    out_keys,
                    i as int,
                    id,
                ));
                assert(out_keys[i as int] == key@);
                if id_listed(out_keys, i + 1, id) && id != key@ {
                    let l = choose|l: int| 0 <= l < i + 1 && #[trigger] out_keys[l] == id;
                    assert(l < i);
                }
            }
        }
        i = i + 1;
    }
    let ghost kept = node_map(nodes);
    let m: usize = added.len();
    let ghost in_keys = added.keys();
    let mut j: usize = 0;
    while j < m
        invariant
            j <= m,
            in_keys == added.keys(),
            m == in_keys.len(),
            forall|id: Seq<char>| #[trigger]
                node_map(nodes).contains_key(id) <==> kept.contains_key(id)
                    || id_listed(in_keys, j as int, id),
            forall|id: Seq<char>| #[trigger]
                node_map(nodes).contains_key(id) ==> node_map(nodes)[id]
                    == if id_listed(in_keys, j as int, id) {
                    added@[id]
                } else {
                    kept[id]
                },
        decreases m - j,
    {
        let ghost before = node_map(nodes);
        let key: &NodeId = added.key_at(j);
        put_node(&mut nodes, key.as_str().to_owned(), added.value_at(j).clone());
        proof {
            let now = node_map(nodes);
            assert(in_keys[j as int] == key@);
            assert forall|id: Seq<char>|
                id_listed(in_keys, j + 1, id) <==> #[trigger] id_listed(in_keys, j as int, id) || id
                    == key@ by {
                if id_listed(in_keys, j + 1, id) && id != key@ {
                    let l = choose|l: int| 0 <= l < j + 1 && #[trigger] in_keys[l] == id;
                    assert(l < j);
                }
            }
            assert forall|id: Seq<char>| #[trigger] now.contains_key(id) <==> kept.contains_key(id)
                || id_listed(in_keys, j + 1, id) by {
                assert(before.contains_key(id) <==> kept.contains_key(id) || id_listed(
                    in_keys,
                    j as int,
                    id,
                ));
            }
            assert forall|id: Seq<char>| #[trigger] now.contains_key(id) implies now[id]
                == if id_listed(in_keys, j + 1, id) {
                added@[id]
            } else {
                kept[id]
            } by {
                if id != key@ {
                    assert(before.contains_key(id));
                }
            }
        }
        j = j + 1;
    }
    proof {
        let end = node_map(nodes);
        let goal = nodes_after(start, mutation@);
        assert forall|id: Seq<char>| end.contains_key(id) <==> goal.contains_key(id) by {
            lemma_listed(out_keys, removed@.dom(), id);
            lemma_listed(in_keys, added@.dom(), id);
        }
        assert forall|id: Seq<char>| end.contains_key(id) implies end[id] == goal[id] by {
            lemma_listed(out_keys, removed@.dom(), id);
            lemma_listed(in_keys, added@.dom(), id);
        }
        assert(end =~= goal);
    }
    nodes
}

proof fn lemma_listed(keys: Seq<Seq<char>>, domain: Set<Seq<char>>, id: Seq<char>)
    requires
        forall|key: Seq<char>| #[trigger] keys.contains(key) <==> domain.contains(key),
    ensures
        id_listed(keys, keys.len() as int, id) <==> domain.contains(id),
{
    if domain.contains(id) {
        assert(keys.contains(id));
        let l = choose|l: int| 0 <= l < keys.len() && keys[l] == id;
        assert(id_listed(keys, keys.len() as int, id));
    }
    if id_listed(keys, keys.len() as int, id) {
        let l = choose|l: int| 0 <= l < keys.len() && #[trigger] keys[l] == id;
        assert(keys.contains(keys[l]));
    }
}

/// The edges of a snapshot after a mutation.
fn edges_with_mutation(base: &GraphSnapshot, mutation: &BatchMutation) -> (r: OrdMap<
    String,
    EdgeRecord,
>)
    ensures
        edge_map(r) == edges_after(base@.edges, mutation@),
{
    let ghost start = base@.edges;
    let removed: &OrderedMap<EdgeId, EdgeRecord> = &mutation.removed_edges;
    let added: &OrderedMap<EdgeId, EdgeRecord> = &mutation.added_edges;
    let mut edges: OrdMap<String, EdgeRecord> = share_edges(&base.edges);
    let n: usize = removed.len();
    let ghost out_keys = removed.keys();
    let mut i: usize = 0;
    while i < n
        invariant
            i <= n,
            out_keys == removed.keys(),
            n == out_keys.len(),
            forall|id: Seq<char>| #[trigger]
                edge_map(edges).contains_key(id) <==> start.contains_key(id)
                    && !id_listed(out_keys, i as int, id),
            forall|id: Seq<char>| #[trigger]
                edge_map(edges).contains_key(id) ==> edge_map(edges)[id]
                    == start[id],
        decreases n - i,
    {
        let ghost before = edge_map(edges);
        let key: &EdgeId = removed.key_at(i);
        drop_edge(&mut edges, key.as_str());
        proof {
            let now = edge_map(edges);
            assert forall|id: Seq<char>| #[trigger] now.contains_key(id) <==> start.contains_key(id)
                && !id_listed(out_keys, i + 1, id) by {
                assert(before.contains_key(id) <==> start.contains_key(id) && !id_listed(
                    out_keys,
                    i as int,
                    id,
                ));
                assert(out_keys[i as int] == key@);
                if id_listed(out_keys, i + 1, id) && id != key@ {
                    let l = choose|l: int| 0 <= l < i + 1 && #[trigger] out_keys[l] == id;
                    assert(l < i);
                }
            }
        }
        i = i + 1;
    }
    let ghost kept = edge_map(edges);
    let m: usize = added.len();
    let ghost in_keys = added.keys();
    let mut j: usize = 0;
    while j < m
        invariant
            j <= m,
            in_keys == added.keys(),
            m == in_keys.len(),
            forall|id: Seq<char>| #[trigger]
                edge_map(edges).contains_key(id) <==> kept.contains_key(id)
                    || id_listed(in_keys, j as int, id),
            forall|id: Seq<char>| #[trigger]
                edge_map(edges).contains_key(id) ==> edge_map(edges)[id]
                    == if id_listed(in_keys, j as int, id) {
                    added@[id]
                } else {
                    kept[id]
                },
        decreases m - j,
    {
        let ghost before = edge_map(edges);
        let key: &EdgeId = added.key_at(j);
        put_edge(&mut edges, key.as_str().to_owned(), added.value_at(j).clone());
        proof {
            let now = edge_map(edges);
            assert(in_keys[j as int] == key@);
            assert forall|id: Seq<char>|
                id_listed(in_keys, j + 1, id) <==> #[trigger] id_listed(in_keys, j as int, id) || id
                    == key@ by {
                if id_listed(in_keys, j + 1, id) && id != key@ {
                    let l = choose|l: int| 0 <= l < j + 1 && #[trigger] in_keys[l] == id;
                    assert(l < j);
                }
            }
            assert forall|id: Seq<char>| #[trigger] now.contains_key(id) <==> kept.contains_key(id)
                || id_listed(in_keys, j + 1, id) by {
                assert(before.contains_key(id) <==> kept.contains_key(id) || id_listed(
                    in_keys,
                    j as int,
                    id,
                ));
            }
            assert forall|id: Seq<char>| #[trigger] now.contains_key(id) implies now[id]
                == if id_listed(in_keys, j + 1, id) {
                added@[id]
            } else {
                kept[id]
            } by {
                if id != key@ {
                    assert(before.contains_key(id));
                }
            }
        }
        j = j + 1;
    }
    proof {
        let end = edge_map(edges);
        let goal = edges_after(start, mutation@);
        assert forall|id: Seq<char>| end.contains_key(id) <==> goal.contains_key(id) by {
            lemma_listed(out_keys, removed@.dom(), id);
            lemma_listed(in_keys, added@.dom(), id);
        }
        assert forall|id: Seq<char>| end.contains_key(id) implies end[id] == goal[id] by {
            lemma_listed(out_keys, removed@.dom(), id);
            lemma_listed(in_keys, added@.dom(), id);
        }
        assert(end =~= goal);
    }
    edges
}

/// A snapshot after a mutation, with the snapshot itself left as it is.
pub fn snapshot_with_mutation(
    base: &GraphSnapshot,
    mutation: &BatchMutation,
    refusals: &Refusals,
) -> (r: GraphSnapshot)
    ensures
        r@ == snapshot_after(base@, mutation@, refusals@),
{
    GraphSnapshot {
        nodes: nodes_with_mutation(base, mutation),
        edges: edges_with_mutation(base, mutation),
        indexes: indexes_with_mutation(&base.indexes, mutation, refusals),
    }
}

} // verus!
