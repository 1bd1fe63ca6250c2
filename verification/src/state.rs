//! The state of the service, and what its endpoints do with it.
use dashmap::DashMap;
use std::result::Result as StdResult;
use vstd::prelude::*;
use vstd::string::*;

use crate::auth::{holder, Action, Principal};
use crate::common::{identifier_error, is_identifier, EdgeId, NodeId};
use crate::config::AppConfig;
use crate::counters::{
    endpoint_map, endpoints_listed, no_endpoint_metrics, record_api_error_metric,
    record_endpoint_metrics, snapshot_endpoint_metrics, AtomicServiceCounters, EndpointCounts,
    RequestCounts,
};
use crate::database::{opened, Database, DatabaseModel, PlannedWrite, StoredState};
use crate::execute::{answer_profile, answers, execution_error, Executor, RankingInputs};
use crate::graph::GraphView;
use crate::metrics::{MetricsSnapshot, ServiceCounters};
use crate::mutation::Refusals;
use crate::ordered::{models, sorted_keys};
use crate::plan::{planned, QueryRequest};
use crate::records::{BatchModel, EdgeRecord, NodeRecord};
use crate::results::{ExecutionModel, ItemModel, QueryResponse};
use crate::service::{
    answer_to, authorization_error, authorize, check_path_edge, check_path_node, edge_not_found,
    enforce_query_response_budget, metrics_disabled, node_not_found, path_edge_id, path_node_id,
    plain_error, response_items, ApiError, ApiErrorModel, MaintenanceStatusResponse,
    MAX_QUERY_RESPONSE_ITEMS,
};
use crate::text;

verus! {

/// The state of the service.
#[derive(Debug)]
pub struct ApiState {
    pub service_name: String,
    pub config: AppConfig,
    pub readiness: bool,
    pub database: Database,
    pub counters: AtomicServiceCounters,
    pub maintenance_status: MaintenanceStatusResponse,
    pub endpoint_metrics: DashMap<String, EndpointCounts>,
}

/// What the storage engine tells of itself.
#[derive(Debug, Clone, Copy, PartialEq, Eq, Structural)]
pub struct EngineNumbers {
    pub node_count: usize,
    pub edge_count: usize,
    pub active_transactions: usize,
    pub current_revision: u64,
    pub latest_applied_lsn: Option<u64>,
    pub needs_checkpoint: bool,
    pub pending_checkpoint_count: usize,
}

/// What is answered to a node that is to be written, if it cannot be.
pub open spec fn node_write_error(
    database: DatabaseModel,
    path_id: Option<Seq<char>>,
    node: crate::records::NodeModel,
) -> Option<ApiErrorModel> {
    let unfit = match path_id {
        Some(id) => if !is_identifier(id) {
            Some(answer_to(identifier_error("node"@, id)))
        } else if id != node.id {
            Some(
                plain_error(
                    400,
                    "validation_error"@,
                    "path node id does not match request body id"@,
                ),
            )
        } else {
            None
        },
        None => None,
    };
    match unfit {
        Some(error) => Some(error),
        None => match database.write_error(
            BatchModel { nodes_upserted: seq![node], ..BatchModel::empty() },
        ) {
            Some(error) => Some(answer_to(error)),
            None => None,
        },
    }
}

/// What is answered to an edge that is to be written, if it cannot be.
pub open spec fn edge_write_error(
    database: DatabaseModel,
    path_id: Option<Seq<char>>,
    edge: crate::records::EdgeModel,
) -> Option<ApiErrorModel> {
    let unfit = match path_id {
        Some(id) => if !is_identifier(id) {
            Some(answer_to(identifier_error("edge"@, id)))
        } else if id != edge.id {
            Some(
                plain_error(
                    400,
                    "validation_error"@,
                    "path edge id does not match request body id"@,
                ),
            )
        } else {
            None
        },
        None => None,
    };
    match unfit {
        Some(error) => Some(error),
        None => match database.write_error(
            BatchModel { edges_upserted: seq![edge], ..BatchModel::empty() },
        ) {
            Some(error) => Some(answer_to(error)),
            None => None,
        },
    }
}

/// What is answered where a node is asked for and cannot be given.
pub open spec fn missing_node_error(database: DatabaseModel, id: Seq<char>) -> Option<
    ApiErrorModel,
> {
    if !is_identifier(id) {
        Some(answer_to(identifier_error("node"@, id)))
    } else if database.snapshot.node(id) is None {
        Some(plain_error(404, "not_found"@, "node '"@ + id + "' was not found"@))
    } else {
        None
    }
}

/// What is answered where an edge is asked for and cannot be given.
pub open spec fn missing_edge_error(database: DatabaseModel, id: Seq<char>) -> Option<
    ApiErrorModel,
> {
    if !is_identifier(id) {
        Some(answer_to(identifier_error("edge"@, id)))
    } else if database.snapshot.edge(id) is None {
        Some(plain_error(404, "not_found"@, "edge '"@ + id + "' was not found"@))
    } else {
        None
    }
}

/// What is answered where a node is to be deleted and cannot be: an id that is none comes first,
/// then a node that follows another one.
pub open spec fn node_deletion_error(database: DatabaseModel, id: Seq<char>) -> Option<
    ApiErrorModel,
> {
    if !is_identifier(id) {
        Some(answer_to(identifier_error("node"@, id)))
    } else {
        match database.write_error(BatchModel::empty()) {
            Some(error) => Some(answer_to(error)),
            None => missing_node_error(database, id),
        }
    }
}

/// What is answered where an edge is to be deleted and cannot be.
pub open spec fn edge_deletion_error(database: DatabaseModel, id: Seq<char>) -> Option<
    ApiErrorModel,
> {
    if !is_identifier(id) {
        Some(answer_to(identifier_error("edge"@, id)))
    } else {
        match database.write_error(BatchModel::empty()) {
            Some(error) => Some(answer_to(error)),
            None => missing_edge_error(database, id),
        }
    }
}

impl ApiState {
    /// A service over what is stored. It is ready, and has counted nothing.
    pub fn try_new_with_identity(
        config: AppConfig,
        stored: StoredState,
        local_node_id: &str,
        advertise_address: &str,
    ) -> (r: Self)
        ensures
            r.service_name@ == "undr9"@,
            r.config == config,
            r.readiness,
            r.database@ == opened(stored, local_node_id@, advertise_address@),
            r.counters.requests == RequestCounts::none(),
            forall|key: Seq<char>|
                !(#[trigger] crate::counters::count_map(r.counters.error_counters).contains_key(
                    key,
                )),
            forall|key: Seq<char>| !(#[trigger] endpoint_map(r.endpoint_metrics).contains_key(key)),
            r.maintenance_status@ == (crate::service::MaintenanceModel {
                in_progress: false,
                last_operation: None,
                last_outcome: None,
                detail: None,
                started_at_ms: None,
                finished_at_ms: None,
                elapsed_ms: None,
                last_node_count: 0,
                last_edge_count: 0,
                max_node_count: config.maintenance.max_node_count,
                max_edge_count: config.maintenance.max_edge_count,
            }),
    {
        let maintenance_status: MaintenanceStatusResponse = MaintenanceStatusResponse::idle(
            &config.maintenance,
        );
        ApiState {
            service_name: "undr9".to_owned(),
            config,
            readiness: true,
            database: Database::open_with_identity(stored, local_node_id, advertise_address),
            counters: AtomicServiceCounters::default(),
            maintenance_status,
            endpoint_metrics: no_endpoint_metrics(),
        }
    }

    /// A service of the node `node-1` over what is stored, which is reached where it listens.
    pub fn try_new(config: AppConfig, stored: StoredState) -> (r: Self)
        ensures
            r.service_name@ == "undr9"@,
            r.config == config,
            r.readiness,
            r.database@ == opened(stored, "node-1"@, config.server.bind_address@),
            r.counters.requests == RequestCounts::none(),
            forall|key: Seq<char>|
                !(#[trigger] crate::counters::count_map(r.counters.error_counters).contains_key(
                    key,
                )),
            forall|key: Seq<char>| !(#[trigger] endpoint_map(r.endpoint_metrics).contains_key(key)),
            r.maintenance_status@ == (crate::service::MaintenanceModel {
                in_progress: false,
                last_operation: None,
                last_outcome: None,
                detail: None,
                started_at_ms: None,
                finished_at_ms: None,
                elapsed_ms: None,
                last_node_count: 0,
                last_edge_count: 0,
                max_node_count: config.maintenance.max_node_count,
                max_edge_count: config.maintenance.max_edge_count,
            }),
    {
        let address: String = config.server.bind_address.clone();
        ApiState::try_new_with_identity(config, stored, "node-1", address.as_str())
    }

    /// Whether the service takes requests.
    pub fn is_ready(&self) -> (r: bool)
        ensures
            r == self.readiness,
    {
        self.readiness
    }

    /// Sets whether the service takes requests.
    pub fn set_readiness(&mut self, ready: bool)
        ensures
            *final(self) == (ApiState { readiness: ready, ..*old(self) }),
    {
        self.readiness = ready;
    }

    /// Lets a request through, or says why not.
    pub fn authorize(&self, api_key: Option<&str>, has_token: bool, action: Action) -> (r: StdResult<
        Principal,
        ApiError,
    >)
        ensures
            ({
                let error = authorization_error(
                    self.config.auth@,
                    text::optional_text(api_key),
                    has_token,
                    action,
                );
                &&& r is Ok <==> error is None
                &&& r matches Ok(principal) ==> holder(self.config.auth@, api_key->0@) == Some(
                    principal@,
                )
                &&& r matches Err(e) ==> error == Some(e@)
            }),
    {
        authorize(&self.config.auth, api_key, has_token, action)
    }

    /// Plans to write a node; where a path names it, the node has to be the one that it names.
    pub fn plan_node_write(&self, path_id: Option<&str>, node: NodeRecord) -> (r: StdResult<
        PlannedWrite,
        ApiError,
    >)
        ensures
            ({
                let error = node_write_error(
                    self.database@,
                    text::optional_text(path_id),
                    node@,
                );
                let batch = BatchModel { nodes_upserted: seq![node@], ..BatchModel::empty() };
                &&& r is Ok <==> error is None
                &&& r matches Ok(write) ==> write.batch@ == batch && write.mutation@
                    == self.database@.plan(batch)
                &&& r matches Err(e) ==> error == Some(e@)
            }),
    {
        match path_id {
            Some(id) => match check_path_node(id, &node) {
                Ok(_) => {},
                Err(error) => {
                    return Err(error);
                },
            },
            None => {},
        }
        match self.database.upsert_node(node) {
            Ok(write) => Ok(write),
            Err(error) => Err(ApiError::from_error(error)),
        }
    }

    /// Plans to write an edge; where a path names it, the edge has to be the one that it names.
    pub fn plan_edge_write(&self, path_id: Option<&str>, edge: EdgeRecord) -> (r: StdResult<
        PlannedWrite,
        ApiError,
    >)
        ensures
            ({
                let error = edge_write_error(
                    self.database@,
                    text::optional_text(path_id),
                    edge@,
                );
                let batch = BatchModel { edges_upserted: seq![edge@], ..BatchModel::empty() };
                &&& r is Ok <==> error is None
                &&& r matches Ok(write) ==> write.batch@ == batch && write.mutation@
                    == self.database@.plan(batch)
                &&& r matches Err(e) ==> error == Some(e@)
            }),
    {
        match path_id {
            Some(id) => match check_path_edge(id, &edge) {
                Ok(_) => {},
                Err(error) => {
                    return Err(error);
                },
            },
            None => {},
        }
        match self.database.upsert_edge(edge) {
            Ok(write) => Ok(write),
            Err(error) => Err(ApiError::from_error(error)),
        }
    }

    /// Plans to delete the node that a path names.
    pub fn plan_node_deletion(&self, id: &str) -> (r: StdResult<PlannedWrite, ApiError>)
        ensures
            ({
                let error = node_deletion_error(self.database@, id@);
                let batch = BatchModel { deleted_node_ids: seq![id@], ..BatchModel::empty() };
                &&& r is Ok <==> error is None
                &&& r matches Ok(write) ==> write.batch@ == batch && write.mutation@
                    == self.database@.plan(batch)
                &&& r matches Err(e) ==> error == Some(e@)
            }),
    {
        let node_id: NodeId = match path_node_id(id) {
            Ok(node_id) => node_id,
            Err(error) => {
                return Err(error);
            },
        };
        match self.database.delete_node(&node_id) {
            Ok(Some((_, write))) => Ok(write),
            Ok(None) => Err(node_not_found(&node_id)),
            Err(error) => Err(ApiError::from_error(error)),
        }
    }

    /// Plans to delete the edge that a path names.
    pub fn plan_edge_deletion(&self, id: &str) -> (r: StdResult<PlannedWrite, ApiError>)
        ensures
            ({
                let error = edge_deletion_error(self.database@, id@);
                let batch = BatchModel { deleted_edge_ids: seq![id@], ..BatchModel::empty() };
                &&& r is Ok <==> error is None
                &&& r matches Ok(write) ==> write.batch@ == batch && write.mutation@
                    == self.database@.plan(batch)
                &&& r matches Err(e) ==> error == Some(e@)
            }),
    {
        let edge_id: EdgeId = match path_edge_id(id) {
            Ok(edge_id) => edge_id,
            Err(error) => {
                return Err(error);
            },
        };
        match self.database.delete_edge(&edge_id) {
            Ok(Some((_, write))) => Ok(write),
            Ok(None) => Err(edge_not_found(&edge_id)),
            Err(error) => Err(ApiError::from_error(error)),
        }
    }

    /// The node that a path names.
    pub fn read_node(&self, id: &str) -> (r: StdResult<NodeRecord, ApiError>)
        ensures
            r is Ok <==> missing_node_error(self.database@, id@) is None,
            r matches Ok(node) ==> self.database@.snapshot.node(id@) == Some(node@),
            r matches Err(e) ==> missing_node_error(self.database@, id@) == Some(e@),
    {
        let node_id: NodeId = match path_node_id(id) {
            Ok(node_id) => node_id,
            Err(error) => {
                return Err(error);
            },
        };
        match self.database.get_node(&node_id) {
            Some(node) => Ok(node),
            None => Err(node_not_found(&node_id)),
        }
    }

    /// The edge that a path names.
    pub fn read_edge(&self, id: &str) -> (r: StdResult<EdgeRecord, ApiError>)
        ensures
            r is Ok <==> missing_edge_error(self.database@, id@) is None,
            r matches Ok(edge) ==> self.database@.snapshot.edge(id@) == Some(edge@),
            r matches Err(e) ==> missing_edge_error(self.database@, id@) == Some(e@),
    {
        let edge_id: EdgeId = match path_edge_id(id) {
            Ok(edge_id) => edge_id,
            Err(error) => {
                return Err(error);
            },
        };
        match self.database.get_edge(&edge_id) {
            Some(edge) => Ok(edge),
            None => Err(edge_not_found(&edge_id)),
        }
    }

    /// Commits a write that the storage engine has given its place in the log, and counts it.
    pub fn commit_write(&mut self, committed_lsn: u64, write: PlannedWrite, refusals: &Refusals)
        ensures
            final(self).database@ == old(self).database@.noted(committed_lsn, write.batch@).applied(
                write.mutation@,
                refusals@,
            ),
            final(self).counters.requests == (RequestCounts {
                write_requests_total: old(self).counters.requests.write_requests_total.wrapping_add(
                    1,
                ),
                ..old(self).counters.requests
            }),
            final(self).counters.error_counters == old(self).counters.error_counters,
            final(self).service_name == old(self).service_name,
            final(self).config == old(self).config,
            final(self).readiness == old(self).readiness,
            final(self).maintenance_status == old(self).maintenance_status,
            final(self).endpoint_metrics == old(self).endpoint_metrics,
    {
        self.database.commit_write(committed_lsn, write, refusals);
        self.counters.requests.count_write();
    }

    /// Takes note of a request that was answered: where it was answered with an error, of the error
    /// as well.
    pub fn count_answer(
        &mut self,
        method: &str,
        route: &str,
        status: u16,
        error_code: Option<&str>,
        elapsed_ms: u64,
    )
        ensures
            ({
                let key = crate::counters::endpoint_key(method@, route@);
                let before = endpoint_map(old(self).endpoint_metrics);
                &&& endpoint_map(final(self).endpoint_metrics) == before.insert(
                    key,
                    (if before.contains_key(key) {
                        before[key]
                    } else {
                        EndpointCounts::empty()
                    }).answered(status, elapsed_ms),
                )
            }),
            ({
                let before = crate::counters::count_map(old(self).counters.error_counters);
                crate::counters::count_map(final(self).counters.error_counters)
                    == match text::optional_text(error_code) {
                    Some(code) => {
                        let key = crate::counters::error_key(code, status);
                        before.insert(
                            key,
                            if before.contains_key(key) {
                                before[key].wrapping_add(1)
                            } else {
                                1
                            },
                        )
                    },
                    None => before,
                }
            }),
            final(self).counters.requests == old(self).counters.requests,
            final(self).database == old(self).database,
            final(self).service_name == old(self).service_name,
            final(self).config == old(self).config,
            final(self).readiness == old(self).readiness,
            final(self).maintenance_status == old(self).maintenance_status,
    {
        match error_code {
            Some(code) => {
                record_api_error_metric(&mut self.counters.error_counters, status, code);
            },
            None => {},
        }
        record_endpoint_metrics(&mut self.endpoint_metrics, method, route, status, elapsed_ms);
    }

    /// What the service shows of itself, unless it shows nothing.
    pub fn metrics(&self, engine: &EngineNumbers) -> (r: StdResult<MetricsSnapshot, ApiError>)
        ensures
            r is Ok <==> self.config.observability.metrics_enabled,
            r matches Ok(shown) ==> {
                &&& shown.service_name@ == self.service_name@
                &&& shown.ready == self.readiness
                &&& shown.node_count == engine.node_count
                &&& shown.edge_count == engine.edge_count
                &&& shown.active_transactions == engine.active_transactions
                &&& shown.current_revision == engine.current_revision
                &&& shown.latest_applied_lsn == (match engine.latest_applied_lsn {
                    Some(lsn) => lsn,
                    None => 0,
                })
                &&& shown.checkpoint_dirty == engine.needs_checkpoint
                &&& shown.pending_checkpoint_entries == engine.pending_checkpoint_count
                &&& models(shown.endpoint_metrics@) == endpoints_listed(
                    endpoint_map(self.endpoint_metrics),
                    sorted_keys::<String>(endpoint_map(self.endpoint_metrics).dom()),
                )
                &&& self.counters.shown_as(
                    shown.counters,
                    self.database@.wal_replay_latency_ms,
                )
            },
            r matches Err(e) ==> e@ == plain_error(
                404,
                "not_found"@,
                "metrics endpoint is disabled"@,
            ),
    {
        if !self.config.observability.metrics_enabled {
            return Err(metrics_disabled());
        }
        let counters: ServiceCounters = self.counters.snapshot(
            self.database.wal_replay_latency_ms(),
        );
        Ok(
            MetricsSnapshot {
                service_name: self.service_name.clone(),
                ready: self.readiness,
                node_count: engine.node_count,
                edge_count: engine.edge_count,
                active_transactions: engine.active_transactions,
                current_revision: engine.current_revision,
                latest_applied_lsn: match engine.latest_applied_lsn {
                    Some(lsn) => lsn,
                    None => 0,
                },
                checkpoint_dirty: engine.needs_checkpoint,
                pending_checkpoint_entries: engine.pending_checkpoint_count,
                endpoint_metrics: snapshot_endpoint_metrics(&self.endpoint_metrics),
                counters,
            },
        )
    }
}

/// Answers a query: with an error where it cannot be run, or where the answer holds too much.
pub fn answer_query<G: GraphView>(request: &QueryRequest, view: &G, inputs: &RankingInputs) -> (r:
    StdResult<QueryResponse, ApiError>)
    ensures
        execution_error(*request) matches Some(error) ==> r is Err && r->Err_0@ == answer_to(error),
        r matches Ok(response) ==> response_items(response@) <= MAX_QUERY_RESPONSE_ITEMS && exists|
            items: Seq<ItemModel>,
        |
            {
                &&& #[trigger] answers(*request, view, *inputs, items)
                &&& response@ == (ExecutionModel {
                    plan_kind: planned(*request).kind,
                    retrieval_profile: answer_profile(*request),
                    items,
                }).response()
            },
        r matches Err(e) ==> execution_error(*request) is Some || exists|items: Seq<ItemModel>|
            {
                let response = (ExecutionModel {
                    plan_kind: planned(*request).kind,
                    retrieval_profile: answer_profile(*request),
                    items,
                }).response();
                &&& #[trigger] answers(*request, view, *inputs, items)
                &&& response_items(response) > MAX_QUERY_RESPONSE_ITEMS
                &&& e@ == plain_error(
                    422,
                    "query_result_too_large"@,
                    "query response exceeded budget: "@ + text::decimal(response_items(response))
                        + " items > 1024"@,
                )
            },
{
    match Executor::execute(request, view, inputs) {
        Ok(response) => match enforce_query_response_budget(&response) {
            Ok(_) => Ok(response),
            Err(error) => Err(error),
        },
        Err(error) => Err(ApiError::from_error(error)),
    }
}

} // verus!
