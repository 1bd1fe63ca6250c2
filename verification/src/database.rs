//! The database: the published graph, and the node's part in replication and in its cluster.
//!
//! A write is planned here, handed to the storage engine, and committed here once the engine has
//! given it its place in the log.
use std::sync::Arc;
use vstd::prelude::*;
use vstd::string::*;

use crate::cluster::{
    has_id, led_by, lone_topology, missing_node, replaced, with_node, ClusterManager,
    ClusterNodeModel, ClusterTopology, FailoverPlan, NodeRole, TopologyModel,
};
use crate::common::{EdgeId, ErrorModel, NodeId, Result, Undr9Error};
use crate::faithful::{edge_records, node_records};
use crate::graph::{
    edge_map, new_edge_map, new_node_map, node_map, put_edge, put_node, GraphMutation,
    GraphSnapshot, GraphView, SnapshotModel,
};
use crate::index::{GraphIndex, IndexModel};
use crate::mutation::{
    graph_mutation_from_batch, plan_batch_mutation, planned, snapshot_after,
    snapshot_with_mutation, BatchMutation, BatchMutationModel, RefusalModel, Refusals,
};
use crate::ordered::{models, OrderedMap, Replicate};
use crate::records::{
    BatchModel, EdgeModel, EdgeRecord, NodeModel, NodeRecord, WriteBatch,
};
use crate::replication::{
    accepted, after_following, follow_start, followed, follower_wanted, lags, leader_wanted,
    lone_status, replica_at, validate_replication_records, with_replica, ManagerModel,
    ProgressModel, RecordModel, ReplicationManager, ReplicationMode, ReplicationRecord,
    ReplicationStatus, StatusModel,
};
use crate::text;
use crate::vectors::VectorIndexConfig;

verus! {

/// `Arc::clone` makes another pointer to the same value.
#[verifier::external_body]
fn share_snapshot(snapshot: &Arc<GraphSnapshot>) -> (r: Arc<GraphSnapshot>)
    ensures
        r == *snapshot,
{
    Arc::clone(snapshot)
}

/// The graph as it was published last, and the node's part in replication and in its cluster.
#[derive(Debug)]
pub struct Database {
    published_snapshot: Arc<GraphSnapshot>,
    vector_index_config: VectorIndexConfig,
    replication: ReplicationManager,
    cluster: ClusterManager,
    wal_replay_latency_ms: u64,
}

/// The model of a database.
pub struct DatabaseModel {
    pub snapshot: SnapshotModel,
    pub vector_index: VectorIndexConfig,
    pub replication: ManagerModel,
    pub cluster: TopologyModel,
    pub wal_replay_latency_ms: u64,
}

impl View for Database {
    type V = DatabaseModel;

    closed spec fn view(&self) -> DatabaseModel {
        DatabaseModel {
            snapshot: self.published_snapshot@,
            vector_index: self.vector_index_config,
            replication: self.replication@,
            cluster: self.cluster@,
            wal_replay_latency_ms: self.wal_replay_latency_ms,
        }
    }
}

/// What the storage engine and the metadata files hold when a database is opened.
#[derive(Debug)]
pub struct StoredState {
    pub nodes: Vec<NodeRecord>,
    pub edges: Vec<EdgeRecord>,
    pub vector_index: VectorIndexConfig,
    pub replication: Option<ReplicationManager>,
    pub cluster: Option<ClusterManager>,
    pub wal_replay_latency_ms: u64,
}

/// A write that is to be handed to the storage engine and then committed.
#[derive(Debug, PartialEq, Eq)]
pub struct PlannedWrite {
    pub batch: WriteBatch,
    pub mutation: BatchMutation,
}

/// Where replication stands, and by how much every replica is behind.
#[derive(Debug, PartialEq, Eq)]
pub struct ReplicationStatusResponse {
    pub status: ReplicationStatus,
    pub replica_lag: OrderedMap<String, u64>,
}

impl ReplicationStatusResponse {
    /// Whether this tells where replication stands.
    pub open spec fn tells(self, status: StatusModel) -> bool {
        &&& self.status@ == status
        &&& self.replica_lag@ == lags(status.last_committed_source_lsn, status.replicas)
    }
}

// ---------------------------------------------------------------------------------------------
// Snapshots of stored records
// ---------------------------------------------------------------------------------------------

/// The snapshot of stored records with an index; of records of the same id the last one counts.
pub fn build_snapshot(nodes: &[NodeRecord], edges: &[EdgeRecord], indexes: GraphIndex) -> (r:
    GraphSnapshot)
    ensures
        r@ == (SnapshotModel {
            nodes: node_records(models(nodes@)),
            edges: edge_records(models(edges@)),
            indexes: indexes@,
        }),
{
    let ghost all_nodes = models(nodes@);
    let ghost all_edges = models(edges@);
    let mut node_records_by_id = new_node_map();
    let mut i: usize = 0;
    proof {
        assert(all_nodes.take(0) =~= Seq::empty());
        assert(node_map(node_records_by_id) =~= node_records(all_nodes.take(0)));
    }
    while i < nodes.len()
        invariant
            i <= nodes.len(),
            all_nodes == models(nodes@),
            node_map(node_records_by_id) == node_records(all_nodes.take(i as int)),
        decreases nodes.len() - i,
    {
        put_node(&mut node_records_by_id, nodes[i].id.as_str().to_owned(), nodes[i].clone());
        proof {
            let next = all_nodes.take(i + 1);
            assert(next.drop_last() =~= all_nodes.take(i as int));
            assert(next.last() == nodes@[i as int]@);
        }
        i = i + 1;
    }
    let mut edge_records_by_id = new_edge_map();
    let mut j: usize = 0;
    proof {
        assert(all_nodes.take(i as int) =~= all_nodes);
        assert(all_edges.take(0) =~= Seq::empty());
        assert(edge_map(edge_records_by_id) =~= edge_records(all_edges.take(0)));
    }
    while j < edges.len()
        invariant
            j <= edges.len(),
            all_edges == models(edges@),
            edge_map(edge_records_by_id) == edge_records(all_edges.take(j as int)),
        decreases edges.len() - j,
    {
        put_edge(&mut edge_records_by_id, edges[j].id.as_str().to_owned(), edges[j].clone());
        proof {
            let next = all_edges.take(j + 1);
            assert(next.drop_last() =~= all_edges.take(j as int));
            assert(next.last() == edges@[j as int]@);
        }
        j = j + 1;
    }
    proof {
        assert(all_edges.take(j as int) =~= all_edges);
    }
    GraphSnapshot { nodes: node_records_by_id, edges: edge_records_by_id, indexes }
}

/// The snapshot of stored records, with an index that is built from them.
pub open spec fn stored_snapshot(
    nodes: Seq<NodeModel>,
    edges: Seq<EdgeModel>,
    config: VectorIndexConfig,
) -> SnapshotModel {
    SnapshotModel {
        nodes: node_records(nodes),
        edges: edge_records(edges),
        indexes: IndexModel::rebuilt(nodes, edges, config),
    }
}

/// The database over what is stored. Where no metadata was stored, the node stands alone.
pub open spec fn opened(
    stored: StoredState,
    local_node_id: Seq<char>,
    advertise_address: Seq<char>,
) -> DatabaseModel {
    DatabaseModel {
        snapshot: stored_snapshot(
            models(stored.nodes@),
            models(stored.edges@),
            stored.vector_index,
        ),
        vector_index: stored.vector_index,
        replication: match stored.replication {
            Some(manager) => manager@,
            None => ManagerModel { status: lone_status(local_node_id), history: Seq::empty() },
        },
        cluster: match stored.cluster {
            Some(manager) => manager@,
            None => lone_topology(local_node_id, advertise_address),
        },
        wal_replay_latency_ms: stored.wal_replay_latency_ms,
    }
}

/// Whether search graphs that were written may be loaded again: only after a clean shutdown, and
/// only if nothing has been applied since.
pub fn may_load_vector_index(
    last_clean_shutdown: bool,
    latest_applied_lsn: Option<u64>,
    manifest_last_applied_lsn: Option<u64>,
) -> (r: bool)
    ensures
        r == (last_clean_shutdown && latest_applied_lsn == manifest_last_applied_lsn),
{
    if !last_clean_shutdown {
        return false;
    }
    match (latest_applied_lsn, manifest_last_applied_lsn) {
        (Some(a), Some(b)) => a == b,
        (None, None) => true,
        _ => false,
    }
}

// ---------------------------------------------------------------------------------------------
// Writing
// ---------------------------------------------------------------------------------------------

/// What is said of a write that a client sends to a follower.
pub open spec fn follower_refuses() -> ErrorModel {
    ErrorModel::Conflict("node is in follower mode and only accepts replicated writes"@)
}

impl DatabaseModel {
    /// What is said of a batch that a client wants to write, if it cannot be written.
    pub open spec fn write_error(self, batch: BatchModel) -> Option<ErrorModel> {
        if self.replication.status.mode == ReplicationMode::Follower {
            Some(follower_refuses())
        } else {
            batch.error()
        }
    }

    /// What a batch does to the published graph.
    pub open spec fn plan(self, batch: BatchModel) -> BatchMutationModel {
        planned(self.snapshot.nodes, self.snapshot.edges, batch)
    }

    /// The database once a mutation is applied.
    pub open spec fn applied(
        self,
        mutation: BatchMutationModel,
        refusals: RefusalModel,
    ) -> DatabaseModel {
        DatabaseModel { snapshot: snapshot_after(self.snapshot, mutation, refusals), ..self }
    }

    /// The database once note is taken of a commit: a leader adds it to what it passes on.
    pub open spec fn noted(self, lsn: u64, batch: BatchModel) -> DatabaseModel {
        let status = self.replication.status;
        DatabaseModel {
            replication: if status.mode == ReplicationMode::Leader {
                ManagerModel {
                    status: StatusModel {
                        last_committed_source_lsn: lsn,
                        last_applied_lsn: lsn,
                        last_applied_source_lsn: lsn,
                        ..status
                    },
                    history: self.replication.history.push(
                        RecordModel {
                            source_node_id: status.local_node_id,
                            source_term: status.current_term,
                            source_lsn: lsn,
                            batch,
                        },
                    ),
                }
            } else {
                ManagerModel {
                    status: StatusModel { last_applied_lsn: lsn, ..status },
                    ..self.replication
                }
            },
            ..self
        }
    }
}

impl Database {
    /// Opens a database over what is stored. Where no metadata was stored, the node stands alone.
    pub fn open_with_identity(
        stored: StoredState,
        local_node_id: &str,
        advertise_address: &str,
    ) -> (r: Self)
        ensures
            r@ == opened(stored, local_node_id@, advertise_address@),
    {
        let nodes: &[NodeRecord] = stored.nodes.as_slice();
        let edges: &[EdgeRecord] = stored.edges.as_slice();
        let indexes: GraphIndex = GraphIndex::rebuild_with_config(
            nodes,
            edges,
            &stored.vector_index,
        );
        let snapshot: GraphSnapshot = build_snapshot(nodes, edges, indexes);
        let replication: ReplicationManager = match stored.replication {
            Some(manager) => manager,
            None => ReplicationManager::single_node(local_node_id),
        };
        let cluster: ClusterManager = match stored.cluster {
            Some(manager) => manager,
            None => ClusterManager::single_node_with_id(local_node_id, advertise_address),
        };
        Database {
            published_snapshot: Arc::new(snapshot),
            vector_index_config: stored.vector_index,
            replication,
            cluster,
            wal_replay_latency_ms: stored.wal_replay_latency_ms,
        }
    }

    /// Opens the database of the node `node-1`, which is reached where it listens.
    pub fn open(stored: StoredState, bind_address: &str) -> (r: Self)
        ensures
            r@ == opened(stored, "node-1"@, bind_address@),
    {
        Database::open_with_identity(stored, "node-1", bind_address)
    }

    /// The graph as it was published last. Later commits leave it as it is.
    pub fn snapshot(&self) -> (r: Arc<GraphSnapshot>)
        ensures
            r@ == self@.snapshot,
    {
        share_snapshot(&self.published_snapshot)
    }

    /// Where replication stands and what has been committed.
    pub fn replication(&self) -> (r: &ReplicationManager)
        ensures
            r@ == self@.replication,
    {
        &self.replication
    }

    /// How long it took to open the database, in milliseconds.
    pub fn wal_replay_latency_ms(&self) -> (r: u64)
        ensures
            r == self@.wal_replay_latency_ms,
    {
        self.wal_replay_latency_ms
    }

    /// The node of an identifier.
    pub fn get_node(&self, node_id: &NodeId) -> (r: Option<NodeRecord>)
        ensures
            crate::graph::optional_view(r) == self@.snapshot.node(node_id@),
    {
        self.published_snapshot.get_node(node_id)
    }

    /// The edge of an identifier.
    pub fn get_edge(&self, edge_id: &EdgeId) -> (r: Option<EdgeRecord>)
        ensures
            crate::graph::optional_view(r) == self@.snapshot.edge(edge_id@),
    {
        self.published_snapshot.get_edge(edge_id)
    }

    /// Accepts writes of clients, unless this node follows another one.
    pub fn ensure_client_write_allowed(&self) -> (r: Result<()>)
        ensures
            r is Ok <==> self@.replication.status.mode != ReplicationMode::Follower,
            r matches Err(e) ==> e@ == follower_refuses(),
    {
        if self.replication.status().mode == ReplicationMode::Follower {
            return Err(
                Undr9Error::Conflict(
                    "node is in follower mode and only accepts replicated writes".to_owned(),
                ),
            );
        }
        Ok(())
    }

    /// Plans a batch that a client wants to write, such as that of a transaction.
    pub fn plan_write(&self, batch: WriteBatch) -> (r: Result<PlannedWrite>)
        ensures
            r is Ok <==> self@.write_error(batch@) is None,
            r matches Ok(write) ==> write.batch@ == batch@ && write.mutation@ == self@.plan(batch@),
            r matches Err(e) ==> self@.write_error(batch@) == Some(e@),
    {
        match self.ensure_client_write_allowed() {
            Ok(_) => {},
            Err(error) => {
                return Err(error);
            },
        }
        match plan_batch_mutation(&self.published_snapshot, &batch) {
            Ok(mutation) => Ok(PlannedWrite { batch, mutation }),
            Err(error) => Err(error),
        }
    }

    /// Plans to write a node.
    pub fn upsert_node(&self, node: NodeRecord) -> (r: Result<PlannedWrite>)
        ensures
            ({
                let batch = BatchModel { nodes_upserted: seq![node@], ..BatchModel::empty() };
                &&& r is Ok <==> self@.write_error(batch) is None
                &&& r matches Ok(write) ==> write.batch@ == batch && write.mutation@ == self@.plan(
                    batch,
                )
                &&& r matches Err(e) ==> self@.write_error(batch) == Some(e@)
            }),
    {
        let mut batch: WriteBatch = WriteBatch::default();
        let ghost model = node@;
        batch.nodes_upserted.push(node);
        proof {
            assert(batch@.nodes_upserted =~= seq![model]);
        }
        self.plan_write(batch)
    }

    /// Plans to delete a node, and hands it out; nothing is to be done where there is none.
    pub fn delete_node(&self, node_id: &NodeId) -> (r: Result<Option<(NodeRecord, PlannedWrite)>>)
        ensures
            ({
                let batch = BatchModel {
                    deleted_node_ids: seq![node_id@],
                    ..BatchModel::empty()
                };
                &&& r is Ok <==> self@.write_error(BatchModel::empty()) is None
                &&& r matches Ok(removed) ==> (removed is None <==> self@.snapshot.node(node_id@)
                    is None)
                &&& r matches Ok(Some(removed)) ==> self@.snapshot.node(node_id@) == Some(
                    removed.0@,
                ) && removed.1.batch@ == batch && removed.1.mutation@ == self@.plan(batch)
                &&& r matches Err(e) ==> self@.write_error(BatchModel::empty()) == Some(e@)
            }),
    {
        match self.ensure_client_write_allowed() {
            Ok(_) => {},
            Err(error) => {
                return Err(error);
            },
        }
        let removed: NodeRecord = match self.get_node(node_id) {
            Some(node) => node,
            None => {
                return Ok(None);
            },
        };
        let mut batch: WriteBatch = WriteBatch::default();
        batch.deleted_node_ids.push(node_id.clone());
        proof {
            assert(batch@.deleted_node_ids =~= seq![node_id@]);
        }
        match self.plan_write(batch) {
            Ok(write) => Ok(Some((removed, write))),
            Err(error) => Err(error),
        }
    }

    /// Plans to write an edge.
    pub fn upsert_edge(&self, edge: EdgeRecord) -> (r: Result<PlannedWrite>)
        ensures
            ({
                let batch = BatchModel { edges_upserted: seq![edge@], ..BatchModel::empty() };
                &&& r is Ok <==> self@.write_error(batch) is None
                &&& r matches Ok(write) ==> write.batch@ == batch && write.mutation@ == self@.plan(
                    batch,
                )
                &&& r matches Err(e) ==> self@.write_error(batch) == Some(e@)
            }),
    {
        let mut batch: WriteBatch = WriteBatch::default();
        let ghost model = edge@;
        batch.edges_upserted.push(edge);
        proof {
            assert(batch@.edges_upserted =~= seq![model]);
        }
        self.plan_write(batch)
    }

    /// Plans to delete an edge, and hands it out; nothing is to be done where there is none.
    pub fn delete_edge(&self, edge_id: &EdgeId) -> (r: Result<Option<(EdgeRecord, PlannedWrite)>>)
        ensures
            ({
                let batch = BatchModel {
                    deleted_edge_ids: seq![edge_id@],
                    ..BatchModel::empty()
                };
                &&& r is Ok <==> self@.write_error(BatchModel::empty()) is None
                &&& r matches Ok(removed) ==> (removed is None <==> self@.snapshot.edge(edge_id@)
                    is None)
                &&& r matches Ok(Some(removed)) ==> self@.snapshot.edge(edge_id@) == Some(
                    removed.0@,
                ) && removed.1.batch@ == batch && removed.1.mutation@ == self@.plan(batch)
                &&& r matches Err(e) ==> self@.write_error(BatchModel::empty()) == Some(e@)
            }),
    {
        match self.ensure_client_write_allowed() {
            Ok(_) => {},
            Err(error) => {
                return Err(error);
            },
        }
        let removed: EdgeRecord = match self.get_edge(edge_id) {
            Some(edge) => edge,
            None => {
                return Ok(None);
            },
        };
        let mut batch: WriteBatch = WriteBatch::default();
        batch.deleted_edge_ids.push(edge_id.clone());
        proof {
            assert(batch@.deleted_edge_ids =~= seq![edge_id@]);
        }
        match self.plan_write(batch) {
            Ok(write) => Ok(Some((removed, write))),
            Err(error) => Err(error),
        }
    }

    /// Takes note of a commit: a leader adds it to what it passes on.
    pub fn record_local_commit(&mut self, committed_lsn: u64, batch: WriteBatch)
        ensures
            final(self)@ == old(self)@.noted(committed_lsn, batch@),
    {
        self.replication.observe_local_apply(committed_lsn);
        if self.replication.status().mode == ReplicationMode::Leader {
            let _noted: Result<()> = self.replication.record_leader_commit(committed_lsn, batch);
        }
    }

    /// Publishes the graph with a mutation applied.
    pub fn apply_batch_mutation(&mut self, mutation: &BatchMutation, refusals: &Refusals)
        ensures
            final(self)@ == old(self)@.applied(mutation@, refusals@),
    {
        let next: GraphSnapshot = snapshot_with_mutation(
            &self.published_snapshot,
            mutation,
            refusals,
        );
        self.published_snapshot = Arc::new(next);
    }

    /// Commits a write to which the storage engine has given its place in the log.
    pub fn commit_write(&mut self, committed_lsn: u64, write: PlannedWrite, refusals: &Refusals)
        ensures
            final(self)@ == old(self)@.noted(committed_lsn, write.batch@).applied(
                write.mutation@,
                refusals@,
            ),
    {
        self.record_local_commit(committed_lsn, write.batch);
        self.apply_batch_mutation(&write.mutation, refusals);
    }

    /// What a transaction reads: the published graph, and what it has staged over it.
    pub fn transaction_query_view(&self, delta: &BatchMutation) -> (r: (
        Arc<GraphSnapshot>,
        GraphMutation,
    ))
        ensures
            r.0@ == self@.snapshot,
            r.1@ == crate::commits::seen_as(delta@),
    {
        (self.snapshot(), graph_mutation_from_batch(delta))
    }

    /// Publishes the graph of stored records, with an index that is built anew.
    pub fn rebuild_indexes(&mut self, nodes: &[NodeRecord], edges: &[EdgeRecord])
        ensures
            final(self)@ == (DatabaseModel {
                snapshot: stored_snapshot(
                    models(nodes@),
                    models(edges@),
                    old(self)@.vector_index,
                ),
                ..old(self)@
            }),
    {
        let indexes: GraphIndex = GraphIndex::rebuild_with_config(
            nodes,
            edges,
            &self.vector_index_config,
        );
        let snapshot: GraphSnapshot = build_snapshot(nodes, edges, indexes);
        self.published_snapshot = Arc::new(snapshot);
    }

    /// Publishes the graph of restored or repaired records, under the settings then in force.
    pub fn restore_from(
        &mut self,
        nodes: &[NodeRecord],
        edges: &[EdgeRecord],
        vector_index: &VectorIndexConfig,
    )
        ensures
            final(self)@ == (DatabaseModel {
                snapshot: stored_snapshot(models(nodes@), models(edges@), *vector_index),
                vector_index: *vector_index,
                ..old(self)@
            }),
    {
        self.vector_index_config = *vector_index;
        self.rebuild_indexes(nodes, edges);
    }

    /// Publishes the graph with note taken of whether a search graph stands beside a space.
    pub fn set_search_graph(&mut self, vector_name: &str, present: bool)
        ensures
            final(self)@ == (DatabaseModel {
                snapshot: SnapshotModel {
                    indexes: IndexModel {
                        vectors: old(self)@.snapshot.indexes.vectors.with_search_graph(
                            vector_name@,
                            present,
                        ),
                        ..old(self)@.snapshot.indexes
                    },
                    ..old(self)@.snapshot
                },
                ..old(self)@
            }),
    {
        let mut next: GraphSnapshot = self.published_snapshot.replicate();
        next.indexes.set_search_graph(vector_name, present);
        self.published_snapshot = Arc::new(next);
    }

    // -----------------------------------------------------------------------------------------
    // Replication and cluster
    // -----------------------------------------------------------------------------------------

    /// Where replication stands.
    pub fn replication_status(&self) -> (r: ReplicationStatusResponse)
        ensures
            r.tells(self@.replication.status),
    {
        ReplicationStatusResponse {
            status: self.replication.status().replicate(),
            replica_lag: self.replication.replica_lag_map(),
        }
    }

    /// The records behind a place in the log.
    pub fn replication_history_since(&self, after_source_lsn: u64) -> (r: Vec<ReplicationRecord>)
        ensures
            models(r@) == self@.replication.history.filter(
                |record: RecordModel| record.source_lsn > after_source_lsn,
            ),
    {
        self.replication.history_since(after_source_lsn)
    }

    /// The nodes of the cluster and who leads them.
    pub fn cluster_topology(&self) -> (r: ClusterTopology)
        ensures
            r@ == self@.cluster,
    {
        self.cluster.topology().replicate()
    }

    /// Makes this node the leader of its cluster.
    pub fn configure_as_leader(&mut self) -> (r: Result<ReplicationStatusResponse>)
        requires
            has_id(old(self)@.cluster.nodes, old(self)@.replication.status.local_node_id)
                && old(self)@.cluster.leader_node_id != Some(
                old(self)@.replication.status.local_node_id,
            ) ==> old(self)@.cluster.term < u64::MAX,
        ensures
            ({
                let id = old(self)@.replication.status.local_node_id;
                let known = has_id(old(self)@.cluster.nodes, id);
                let term = if old(self)@.cluster.leader_node_id == Some(id) {
                    old(self)@.cluster.term
                } else {
                    (old(self)@.cluster.term + 1) as u64
                };
                &&& r is Ok <==> known
                &&& r matches Ok(response) ==> response.tells(final(self)@.replication.status)
                &&& r matches Err(e) ==> e@ == missing_node(id)
                &&& final(self)@ == (DatabaseModel {
                    cluster: TopologyModel {
                        nodes: led_by(old(self)@.cluster.nodes, id),
                        term: if known {
                            term
                        } else {
                            old(self)@.cluster.term
                        },
                        leader_node_id: if known {
                            Some(id)
                        } else {
                            old(self)@.cluster.leader_node_id
                        },
                    },
                    replication: if known {
                        promoted(old(self)@.replication, term)
                    } else {
                        old(self)@.replication
                    },
                    ..old(self)@
                })
            }),
    {
        let local_node_id: String = self.replication.status().local_node_id.clone();
        match self.cluster.ensure_leader(local_node_id.as_str()) {
            Ok(plan) => {
                self.replication.promote_to_leader(plan.term);
                Ok(self.replication_status())
            },
            Err(error) => Err(error),
        }
    }

    /// Makes this node follow a leader, which is added to the cluster if it is not in it.
    pub fn configure_as_follower(&mut self, leader_node_id: &str, leader_address: &str) -> (r:
        ReplicationStatusResponse)
        ensures
            r.tells(final(self)@.replication.status),
            ({
                let node = ClusterNodeModel {
                    node_id: leader_node_id@,
                    address: leader_address@,
                    role: NodeRole::Replica,
                    healthy: true,
                };
                let nodes = if has_id(old(self)@.cluster.nodes, leader_node_id@) {
                    replaced(
                        old(self)@.cluster.nodes,
                        leader_node_id@,
                        |n: ClusterNodeModel| node,
                    )
                } else {
                    with_node(old(self)@.cluster.nodes, node)
                };
                final(self)@ == (DatabaseModel {
                    cluster: TopologyModel {
                        nodes: led_by(nodes, leader_node_id@),
                        leader_node_id: Some(leader_node_id@),
                        ..old(self)@.cluster
                    },
                    replication: following(
                        old(self)@.replication,
                        leader_node_id@,
                        old(self)@.cluster.term,
                    ),
                    ..old(self)@
                })
            }),
    {
        let ghost before = self.cluster@.nodes;
        let ghost node = ClusterNodeModel {
            node_id: leader_node_id@,
            address: leader_address@,
            role: NodeRole::Replica,
            healthy: true,
        };
        self.cluster.upsert_node(leader_node_id, leader_address, NodeRole::Replica, true);
        proof {
            crate::cluster::lemma_node_is_there(before, node);
        }
        let _observed: Result<()> = self.cluster.observe_leader(leader_node_id);
        let term: u64 = self.cluster.topology().term;
        self.replication.failover_to_follower(leader_node_id, term);
        self.replication_status()
    }

    /// Adds a replica to the cluster and to what this leader passes its log on to. The replica
    /// stays in the cluster where this node does not lead.
    pub fn register_replica(&mut self, node_id: &str, address: &str) -> (r: Result<
        ClusterTopology,
    >)
        ensures
            ({
                let known = has_id(old(self)@.cluster.nodes, node_id@);
                let leads = old(self)@.replication.status.mode == ReplicationMode::Leader;
                &&& r is Ok <==> !known && leads
                &&& r matches Ok(topology) ==> topology@ == final(self)@.cluster
                &&& r matches Err(e) ==> e@ == if known {
                    ErrorModel::Conflict("cluster node '"@ + node_id@ + "' already exists"@)
                } else {
                    leader_wanted()
                }
                &&& final(self)@ == (DatabaseModel {
                    cluster: if known {
                        old(self)@.cluster
                    } else {
                        TopologyModel {
                            nodes: with_node(
                                old(self)@.cluster.nodes,
                                ClusterNodeModel {
                                    node_id: node_id@,
                                    address: address@,
                                    role: NodeRole::Replica,
                                    healthy: true,
                                },
                            ),
                            ..old(self)@.cluster
                        }
                    },
                    replication: if !known && leads {
                        ManagerModel {
                            status: StatusModel {
                                replicas: with_replica(
                                    old(self)@.replication.status.replicas,
                                    node_id@,
                                ),
                                ..old(self)@.replication.status
                            },
                            ..old(self)@.replication
                        }
                    } else {
                        old(self)@.replication
                    },
                    ..old(self)@
                })
            }),
    {
        match self.cluster.add_replica(node_id, address) {
            Ok(_) => {},
            Err(error) => {
                return Err(error);
            },
        }
        match self.replication.register_replica(node_id) {
            Ok(_) => Ok(self.cluster_topology()),
            Err(error) => Err(error),
        }
    }

    /// Takes note of how far a replica has come.
    pub fn acknowledge_replica(&mut self, replica_node_id: &str, source_lsn: u64) -> (r: Result<
        ReplicationStatusResponse,
    >)
        ensures
            ({
                let replicas = old(self)@.replication.status.replicas;
                let at = replica_at(replicas, replica_node_id@);
                let leads = old(self)@.replication.status.mode == ReplicationMode::Leader;
                let known = at < replicas.len();
                &&& r is Ok <==> leads && known
                &&& r matches Ok(response) ==> {
                    &&& response.tells(final(self)@.replication.status)
                    &&& final(self)@ == (DatabaseModel {
                        replication: ManagerModel {
                            status: StatusModel {
                                replicas: replicas.update(
                                    at,
                                    ProgressModel {
                                        replica_node_id: replica_node_id@,
                                        last_acked_source_lsn: source_lsn,
                                        last_applied_source_lsn: source_lsn,
                                    },
                                ),
                                ..old(self)@.replication.status
                            },
                            ..old(self)@.replication
                        },
                        ..old(self)@
                    })
                }
                &&& r matches Err(e) ==> final(self)@ == old(self)@ && e@ == if !leads {
                    leader_wanted()
                } else {
                    ErrorModel::NotFound(
                        "replica '"@ + replica_node_id@ + "' is not registered"@,
                    )
                }
            }),
    {
        match self.replication.acknowledge_replica(replica_node_id, source_lsn) {
            Ok(_) => Ok(self.replication_status()),
            Err(error) => Err(error),
        }
    }

    /// Sets whether a node of the cluster is healthy.
    pub fn mark_node_health(&mut self, node_id: &str, healthy: bool) -> (r: Result<
        ClusterTopology,
    >)
        ensures
            r is Ok <==> has_id(old(self)@.cluster.nodes, node_id@),
            r matches Ok(topology) ==> topology@ == final(self)@.cluster && final(self)@ == (
            DatabaseModel {
                cluster: TopologyModel {
                    nodes: replaced(
                        old(self)@.cluster.nodes,
                        node_id@,
                        |n: ClusterNodeModel| ClusterNodeModel { healthy, ..n },
                    ),
                    ..old(self)@.cluster
                },
                ..old(self)@
            }),
            r matches Err(e) ==> final(self)@ == old(self)@ && e@ == missing_node(node_id@),
    {
        match self.cluster.mark_node_health(node_id, healthy) {
            Ok(_) => Ok(self.cluster_topology()),
            Err(error) => Err(error),
        }
    }

    /// Makes a node the leader of the next term: this node leads or follows accordingly.
    pub fn promote_node(&mut self, node_id: &str) -> (r: Result<FailoverPlan>)
        requires
            has_id(old(self)@.cluster.nodes, node_id@) ==> old(self)@.cluster.term < u64::MAX,
        ensures
            ({
                let known = has_id(old(self)@.cluster.nodes, node_id@);
                let term = (old(self)@.cluster.term + 1) as u64;
                &&& r is Ok <==> known
                &&& r matches Ok(plan) ==> {
                    &&& text::optional_string(plan.old_leader_node_id)
                        == old(self)@.cluster.leader_node_id
                    &&& plan.new_leader_node_id@ == node_id@
                    &&& plan.term == term
                }
                &&& r matches Err(e) ==> e@ == missing_node(node_id@)
                &&& final(self)@ == (DatabaseModel {
                    cluster: TopologyModel {
                        nodes: led_by(old(self)@.cluster.nodes, node_id@),
                        term: if known {
                            term
                        } else {
                            old(self)@.cluster.term
                        },
                        leader_node_id: if known {
                            Some(node_id@)
                        } else {
                            old(self)@.cluster.leader_node_id
                        },
                    },
                    replication: if !known {
                        old(self)@.replication
                    } else if old(self)@.replication.status.local_node_id == node_id@ {
                        promoted(old(self)@.replication, term)
                    } else {
                        following(old(self)@.replication, node_id@, term)
                    },
                    ..old(self)@
                })
            }),
    {
        match self.cluster.promote_node(node_id) {
            Ok(plan) => {
                if text::same_text(self.replication.status().local_node_id.as_str(), node_id) {
                    self.replication.promote_to_leader(plan.term);
                } else {
                    self.replication.failover_to_follower(node_id, plan.term);
                }
                Ok(plan)
            },
            Err(error) => Err(error),
        }
    }

    /// The records of a leader that this follower has to apply, unless one of them is of a past
    /// term.
    pub fn accept_replication(&self, records: &[ReplicationRecord]) -> (r: Result<
        Vec<ReplicationRecord>,
    >)
        ensures
            ({
                let status = self@.replication.status;
                let follows = status.mode == ReplicationMode::Follower;
                let end = followed(follow_start(status), models(records@));
                &&& r is Ok <==> follows && end.error is None
                &&& r matches Ok(list) ==> models(list@) == accepted(
                    follow_start(status),
                    models(records@),
                )
                &&& r matches Err(e) ==> Some(e@) == (if follows {
                    end.error
                } else {
                    Some(ErrorModel::Conflict("replication apply requires follower mode"@))
                })
            }),
    {
        if self.replication.status().mode != ReplicationMode::Follower {
            return Err(
                Undr9Error::Conflict("replication apply requires follower mode".to_owned()),
            );
        }
        validate_replication_records(self.replication.status(), records)
    }

    /// Plans the batch of a record that this follower has accepted.
    pub fn plan_replicated(&self, record: &ReplicationRecord) -> (r: Result<BatchMutation>)
        ensures
            r is Ok <==> record@.batch.error() is None,
            r matches Ok(mutation) ==> mutation@ == self@.plan(record@.batch),
            r matches Err(e) ==> record@.batch.error() == Some(e@),
    {
        plan_batch_mutation(&self.published_snapshot, &record.batch)
    }

    /// Takes note that accepted records have been applied, the last of them at a place in the
    /// local log.
    pub fn finish_replication(
        &mut self,
        accepted_records: &[ReplicationRecord],
        last_local_lsn: Option<u64>,
    ) -> (r: Result<ReplicationStatusResponse>)
        ensures
            ({
                let status = old(self)@.replication.status;
                let follows = status.mode == ReplicationMode::Follower;
                let end = followed(follow_start(status), models(accepted_records@));
                let taken_over = after_following(status, models(accepted_records@));
                &&& r is Ok <==> follows && end.error is None
                &&& r matches Ok(response) ==> response.tells(final(self)@.replication.status)
                &&& r matches Err(e) ==> Some(e@) == (if follows {
                    end.error
                } else {
                    Some(follower_wanted())
                })
                &&& final(self)@ == (DatabaseModel {
                    replication: ManagerModel {
                        status: if !follows {
                            status
                        } else if end.error is Some {
                            taken_over
                        } else {
                            StatusModel {
                                last_applied_lsn: match last_local_lsn {
                                    Some(lsn) => lsn,
                                    None => status.last_applied_lsn,
                                },
                                ..taken_over
                            }
                        },
                        ..old(self)@.replication
                    },
                    ..old(self)@
                })
            }),
    {
        match self.replication.apply_follower_records(accepted_records) {
            Ok(_) => {},
            Err(error) => {
                return Err(error);
            },
        }
        match last_local_lsn {
            Some(lsn) => {
                self.replication.observe_local_apply(lsn);
            },
            None => {},
        }
        Ok(self.replication_status())
    }
}

/// Replication once this node leads a term.
pub open spec fn promoted(manager: ManagerModel, term: u64) -> ManagerModel {
    ManagerModel {
        status: StatusModel {
            mode: ReplicationMode::Leader,
            leader_node_id: Some(manager.status.local_node_id),
            current_term: term,
            last_committed_source_lsn: manager.status.last_applied_source_lsn,
            ..manager.status
        },
        ..manager
    }
}

/// Replication once this node follows a leader in a term.
pub open spec fn following(manager: ManagerModel, leader: Seq<char>, term: u64) -> ManagerModel {
    ManagerModel {
        status: StatusModel {
            mode: ReplicationMode::Follower,
            leader_node_id: Some(leader),
            current_term: term,
            ..manager.status
        },
        ..manager
    }
}

// ---------------------------------------------------------------------------------------------
// Laws
// ---------------------------------------------------------------------------------------------

/// A database after commits, each a place in the log and a batch, one after the other.
pub open spec fn committed(start: DatabaseModel, commits: Seq<(u64, BatchModel)>) -> DatabaseModel
    decreases commits.len(),
{
    if commits.len() == 0 {
        start
    } else {
        let before = committed(start, commits.drop_last());
        let (lsn, batch) = commits.last();
        before.noted(lsn, batch).applied(before.plan(batch), Map::empty())
    }
}

/// A snapshot after the batches of records, one after the other.
pub open spec fn replayed(start: SnapshotModel, records: Seq<RecordModel>) -> SnapshotModel
    decreases records.len(),
{
    if records.len() == 0 {
        start
    } else {
        let before = replayed(start, records.drop_last());
        snapshot_after(
            before,
            planned(before.nodes, before.edges, records.last().batch),
            Map::empty(),
        )
    }
}

/// What a leader passes on of its commits.
pub open spec fn shipped(leader: StatusModel, commits: Seq<(u64, BatchModel)>) -> Seq<
    RecordModel,
> {
    Seq::new(
        commits.len(),
        |i: int|
            RecordModel {
                source_node_id: leader.local_node_id,
                source_term: leader.current_term,
                source_lsn: commits[i].0,
                batch: commits[i].1,
            },
    )
}

/// A leader passes on every commit, in its order and under its term; and a follower that had the
/// leader's records and applies what it is passed has the leader's records again.
pub proof fn law_followers_get_the_leaders_records(
    leader: DatabaseModel,
    commits: Seq<(u64, BatchModel)>,
    follower: SnapshotModel,
)
    requires
        leader.replication.status.mode == ReplicationMode::Leader,
        follower.nodes == leader.snapshot.nodes,
        follower.edges == leader.snapshot.edges,
    ensures
        committed(leader, commits).replication.history == leader.replication.history + shipped(
            leader.replication.status,
            commits,
        ),
        committed(leader, commits).replication.status.mode == ReplicationMode::Leader,
        replayed(follower, shipped(leader.replication.status, commits)).nodes == committed(
            leader,
            commits,
        ).snapshot.nodes,
        replayed(follower, shipped(leader.replication.status, commits)).edges == committed(
            leader,
            commits,
        ).snapshot.edges,
    decreases commits.len(),
{
    law_leaders_stay(leader, commits);
    if commits.len() == 0 {
        assert(leader.replication.history + shipped(leader.replication.status, commits)
            =~= leader.replication.history);
    } else {
        let short = commits.drop_last();
        law_followers_get_the_leaders_records(leader, short, follower);
        law_leaders_stay(leader, short);
        let all = shipped(leader.replication.status, commits);
        let some = shipped(leader.replication.status, short);
        assert(all.drop_last() =~= some);
        assert(committed(leader, commits).replication.history =~= leader.replication.history
            + all);
    }
}

/// Commits leave the mode, the term, the node's id and its replicas as they are.
pub proof fn law_leaders_stay(leader: DatabaseModel, commits: Seq<(u64, BatchModel)>)
    ensures
        committed(leader, commits).replication.status.mode == leader.replication.status.mode,
        committed(leader, commits).replication.status.current_term
            == leader.replication.status.current_term,
        committed(leader, commits).replication.status.local_node_id
            == leader.replication.status.local_node_id,
        committed(leader, commits).replication.status.replicas
            == leader.replication.status.replicas,
        committed(leader, commits).cluster == leader.cluster,
    decreases commits.len(),
{
    if commits.len() > 0 {
        law_leaders_stay(leader, commits.drop_last());
    }
}

/// A database that is opened over records of which no two have the same id publishes a sound
/// snapshot, and publishes a sound one after every commit.
pub proof fn law_published_snapshots_are_sound(
    nodes: Seq<NodeModel>,
    edges: Seq<EdgeModel>,
    config: VectorIndexConfig,
    start: DatabaseModel,
    commits: Seq<(u64, BatchModel)>,
)
    requires
        crate::commits::nodes_distinct(nodes),
        crate::commits::edges_distinct(edges),
        start.snapshot == stored_snapshot(nodes, edges, config),
    ensures
        crate::commits::sound(committed(start, commits).snapshot),
    decreases commits.len(),
{
    if commits.len() == 0 {
        crate::faithful::law_rebuilt_index_is_faithful(nodes, edges, config);
        crate::commits::lemma_records_finite(nodes);
        crate::commits::lemma_edge_records_finite(edges);
    } else {
        let short = commits.drop_last();
        law_published_snapshots_are_sound(nodes, edges, config, start, short);
        crate::commits::law_snapshots_stay_sound(
            committed(start, short).snapshot,
            commits.last().1,
            Map::empty(),
        );
    }
}

/// As long as no commit leaves two nodes with the same unique key, every key leads to its node in
/// every snapshot that is published, and no other key leads anywhere.
pub proof fn law_published_keys_lead_to_their_nodes(
    nodes: Seq<NodeModel>,
    edges: Seq<EdgeModel>,
    config: VectorIndexConfig,
    start: DatabaseModel,
    commits: Seq<(u64, BatchModel)>,
)
    requires
        crate::commits::nodes_distinct(nodes),
        crate::commits::edges_distinct(edges),
        start.snapshot == stored_snapshot(nodes, edges, config),
        forall|n: int|
            0 <= n <= commits.len() ==> crate::faithful::keys_unshared(
                (#[trigger] committed(start, commits.take(n))).snapshot.nodes,
            ),
    ensures
        ({
            let snapshot = committed(start, commits).snapshot;
            &&& crate::faithful::keys_found(snapshot.indexes.unique_keys, snapshot.nodes)
            &&& crate::faithful::keys_lead_home(snapshot.indexes.unique_keys, snapshot.nodes)
        }),
    decreases commits.len(),
{
    law_published_snapshots_are_sound(nodes, edges, config, start, commits);
    assert(commits.take(commits.len() as int) =~= commits);
    if commits.len() == 0 {
        crate::faithful::law_rebuilt_index_is_faithful(nodes, edges, config);
        assert(crate::faithful::keys_unshared(committed(start, commits.take(0)).snapshot.nodes));
    } else {
        let short = commits.drop_last();
        assert forall|n: int| 0 <= n <= short.len() implies crate::faithful::keys_unshared(
            (#[trigger] committed(start, short.take(n))).snapshot.nodes,
        ) by {
            assert(short.take(n) =~= commits.take(n));
        }
        law_published_keys_lead_to_their_nodes(nodes, edges, config, start, short);
        law_published_snapshots_are_sound(nodes, edges, config, start, short);
        let before = committed(start, short).snapshot;
        crate::commits::law_commit_keeps_index_faithful(
            before.indexes,
            before.nodes,
            before.edges,
            commits.last().1,
            Map::empty(),
        );
        assert(crate::faithful::keys_unshared(
            committed(start, commits.take(commits.len() as int)).snapshot.nodes,
        ));
    }
}

} // verus!
