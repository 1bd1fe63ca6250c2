//! What leaders and followers do with records, told by the records.
use vstd::prelude::*;

use crate::cluster::{led_by, replaced, with_node, ClusterNode, ClusterNodeModel, NodeRole};
use crate::replication::{
    accepted, by_id, followed, lags, law_lags, replica_at, with_replica, FollowModel, ProgressModel,
    RecordModel, ReplicaProgress,
};
use crate::sorting::{first_of, lemma_first_of, lemma_sorted_contains, Named};

verus! {

// ---------------------------------------------------------------------------------------------
// Records
// ---------------------------------------------------------------------------------------------

/// Whether records go forward from a place in the log and a term: places only go up, and terms
/// never go down.
pub open spec fn goes_forward(records: Seq<RecordModel>, lsn: u64, term: u64) -> bool {
    &&& forall|i: int|
        0 <= i < records.len() ==> (#[trigger] records[i]).source_lsn > lsn
            && records[i].source_term >= term
    &&& forall|i: int, j: int|
        0 <= i < j < records.len() ==> (#[trigger] records[i]).source_lsn < (
        #[trigger] records[j]).source_lsn && records[i].source_term <= records[j].source_term
}

/// The place that records lead to from another one.
pub open spec fn place_after(records: Seq<RecordModel>, lsn: u64) -> u64 {
    if records.len() == 0 {
        lsn
    } else {
        records.last().source_lsn
    }
}

/// The term that records lead to from another one.
pub open spec fn term_after(records: Seq<RecordModel>, term: u64) -> u64 {
    if records.len() == 0 {
        term
    } else {
        records.last().source_term
    }
}

/// What a follower accepts are records that it was given, in their order; they go forward from where
/// it stands, and it ends where they lead. If it refuses none, a record that it was given and did
/// not accept is at or before the place that it has reached.
pub proof fn law_followers_go_forward(start: FollowModel, records: Seq<RecordModel>)
    requires
        start.error is None,
    ensures
        ({
            let taken = accepted(start, records);
            let end = followed(start, records);
            &&& goes_forward(taken, start.last_applied_source_lsn, start.current_term)
            &&& forall|k: int| 0 <= k < taken.len() ==> records.contains(#[trigger] taken[k])
            &&& taken.len() <= records.len()
            &&& end.last_applied_source_lsn == place_after(taken, start.last_applied_source_lsn)
            &&& end.current_term == term_after(taken, start.current_term)
            &&& taken.len() > 0 ==> end.last_pulled_source_lsn == end.last_applied_source_lsn
                && end.last == Some(taken.last().source_lsn)
            &&& taken.len() == 0 ==> end.last == start.last && end.last_pulled_source_lsn
                == start.last_pulled_source_lsn
            &&& end.error is None ==> forall|k: int|
                0 <= k < records.len() ==> taken.contains(#[trigger] records[k])
                    || records[k].source_lsn <= end.last_applied_source_lsn
        }),
    decreases records.len(),
{
    let taken = accepted(start, records);
    let end = followed(start, records);
    if records.len() > 0 {
        let short = records.drop_last();
        let record = records.last();
        law_followers_go_forward(start, short);
        let kept = accepted(start, short);
        let before = followed(start, short);
        assert(records[records.len() - 1] == record);
        assert forall|k: int| 0 <= k < taken.len() implies records.contains(#[trigger] taken[k]) by {
            if k < kept.len() {
                assert(short.contains(kept[k]));
                let j = choose|j: int| 0 <= j < short.len() && short[j] == kept[k];
                assert(records[j] == kept[k]);
            }
        }
        if kept.len() > 0 {
            assert(kept.last() == kept[kept.len() - 1]);
        }
        assert(goes_forward(taken, start.last_applied_source_lsn, start.current_term));
        if end.error is None {
            assert forall|k: int| 0 <= k < records.len() implies taken.contains(
                #[trigger] records[k],
            ) || records[k].source_lsn <= end.last_applied_source_lsn by {
                if k < short.len() {
                    assert(short[k] == records[k]);
                    if kept.contains(short[k]) {
                        let j = choose|j: int| 0 <= j < kept.len() && kept[j] == short[k];
                        assert(taken[j] == short[k]);
                    }
                } else if taken.len() > kept.len() {
                    assert(taken[taken.len() - 1] == record);
                }
            }
        }
    }
}

/// Whether a record is of a term before the one that a follower has reached by then.
pub open spec fn comes_late(start: FollowModel, records: Seq<RecordModel>, k: int) -> bool {
    records[k].source_term < term_after(accepted(start, records.take(k)), start.current_term)
}

/// A follower refuses records exactly if one of them is of a term before the one that it has reached
/// by then.
pub proof fn law_followers_refuse_past_terms(start: FollowModel, records: Seq<RecordModel>)
    requires
        start.error is None,
    ensures
        followed(start, records).error is Some <==> exists|k: int|
            0 <= k < records.len() && #[trigger] comes_late(start, records, k),
    decreases records.len(),
{
    if records.len() > 0 {
        let short = records.drop_last();
        let n = records.len() - 1;
        law_followers_refuse_past_terms(start, short);
        law_followers_go_forward(start, short);
        assert(records.take(n) =~= short);
        assert(followed(start, short).error is None ==> (followed(start, records).error is Some
            <==> comes_late(start, records, n)));
        if followed(start, short).error is Some {
            let k = choose|k: int| 0 <= k < short.len() && #[trigger] comes_late(start, short, k);
            assert(records.take(k) =~= short.take(k));
            assert(comes_late(start, records, k));
        }
        if exists|k: int| 0 <= k < records.len() && #[trigger] comes_late(start, records, k) {
            let k = choose|k: int|
                0 <= k < records.len() && #[trigger] comes_late(start, records, k);
            if k < n {
                assert(records.take(k) =~= short.take(k));
                assert(comes_late(start, short, k));
            }
        }
    }
}

// ---------------------------------------------------------------------------------------------
// Replicas
// ---------------------------------------------------------------------------------------------

/// Where no two replicas have the same id, what a replica is behind by is what has been committed
/// and it has not acknowledged, and nothing if it has acknowledged more.
pub proof fn law_lag_is_what_is_missing(committed: u64, replicas: Seq<ProgressModel>, i: int)
    requires
        by_id(replicas),
        0 <= i < replicas.len(),
    ensures
        ({
            let id = replicas[i].replica_node_id;
            let acked = replicas[i].last_acked_source_lsn;
            &&& lags(committed, replicas).contains_key(id)
            &&& acked <= committed ==> lags(committed, replicas)[id] + acked == committed
            &&& acked >= committed ==> lags(committed, replicas)[id] == 0
        }),
{
    let id = replicas[i].replica_node_id;
    law_lags(committed, replicas, id);
    lemma_first_of::<ReplicaProgress>(replicas, id);
    let at = replica_at(replicas, id);
    if at > i {
        assert(ReplicaProgress::id_of(replicas[i]) != id);
    }
    if at < i {
        assert(crate::text::text_less(
            ReplicaProgress::id_of(replicas[at]),
            ReplicaProgress::id_of(replicas[i]),
        ));
        crate::text::lemma_text_less_irreflexive(id);
    }
}

/// A replica that is registered is there; every other one stays as it was, and none else comes. One
/// that is new has acknowledged and applied nothing.
pub proof fn law_registered_replicas(
    replicas: Seq<ProgressModel>,
    id: Seq<char>,
    progress: ProgressModel,
)
    ensures
        ({
            let after = with_replica(replicas, id);
            let known = exists|i: int|
                0 <= i < replicas.len() && (#[trigger] replicas[i]).replica_node_id == id;
            &&& known ==> after == replicas
            &&& !known ==> (after.contains(progress) <==> replicas.contains(progress) || (
            progress.replica_node_id == id && progress.last_acked_source_lsn == 0
                && progress.last_applied_source_lsn == 0))
        }),
{
    lemma_first_of::<ReplicaProgress>(replicas, id);
    let at = replica_at(replicas, id);
    let known = exists|i: int|
        0 <= i < replicas.len() && (#[trigger] replicas[i]).replica_node_id == id;
    if at < replicas.len() {
        assert(replicas[at].replica_node_id == id);
    } else if known {
        let i = choose|i: int|
            0 <= i < replicas.len() && (#[trigger] replicas[i]).replica_node_id == id;
        assert(ReplicaProgress::id_of(replicas[i]) != id);
    }
    let fresh = ProgressModel {
        replica_node_id: id,
        last_acked_source_lsn: 0,
        last_applied_source_lsn: 0,
    };
    lemma_sorted_contains::<ReplicaProgress>(replicas.push(fresh), progress);
    crate::replies::lemma_push_holds(replicas, fresh, progress);
}

// ---------------------------------------------------------------------------------------------
// Clusters
// ---------------------------------------------------------------------------------------------

/// When a node of a cluster is made to lead, no other node changes but that a primary becomes a
/// replica: its address and its health stay as they were.
pub proof fn law_others_stay_when_one_leads(
    nodes: Seq<ClusterNodeModel>,
    id: Seq<char>,
    i: int,
)
    requires
        0 <= i < nodes.len(),
        nodes[i].node_id != id,
    ensures
        led_by(nodes, id).len() == nodes.len(),
        led_by(nodes, id)[i].node_id == nodes[i].node_id,
        led_by(nodes, id)[i].address == nodes[i].address,
        led_by(nodes, id)[i].healthy == nodes[i].healthy,
        led_by(nodes, id)[i].role != NodeRole::Primary,
        nodes[i].role != NodeRole::Primary ==> led_by(nodes, id)[i].role == nodes[i].role,
{
}

/// A node that is added to a cluster is in it, every other one stays as it was, and none else comes.
pub proof fn law_added_node(
    nodes: Seq<ClusterNodeModel>,
    node: ClusterNodeModel,
    other: ClusterNodeModel,
)
    ensures
        with_node(nodes, node).contains(other) <==> nodes.contains(other) || other == node,
{
    lemma_sorted_contains::<ClusterNode>(nodes.push(node), other);
    crate::replies::lemma_push_holds(nodes, node, other);
}

/// What is set of a node of a cluster is set of the first of its id, and of no other.
pub proof fn law_changed_node(
    nodes: Seq<ClusterNodeModel>,
    id: Seq<char>,
    change: spec_fn(ClusterNodeModel) -> ClusterNodeModel,
    i: int,
)
    requires
        0 <= i < nodes.len(),
    ensures
        replaced(nodes, id, change).len() == nodes.len(),
        replaced(nodes, id, change)[i] == (if nodes[i].node_id == id && (forall|j: int|
            0 <= j < i ==> (#[trigger] nodes[j]).node_id != id) {
            change(nodes[i])
        } else {
            nodes[i]
        }),
{
    lemma_first_of::<ClusterNode>(nodes, id);
    let at = first_of::<ClusterNode>(nodes, id);
    let is_first = nodes[i].node_id == id && (forall|j: int|
        0 <= j < i ==> (#[trigger] nodes[j]).node_id != id);
    if at == i {
        assert forall|j: int| 0 <= j < i implies (#[trigger] nodes[j]).node_id != id by {
            assert(ClusterNode::id_of(nodes[j]) != id);
        }
    } else if is_first {
        if at < i {
            assert(nodes[at].node_id != id);
        } else {
            assert(ClusterNode::id_of(nodes[i]) != id);
        }
    }
}

} // verus!
