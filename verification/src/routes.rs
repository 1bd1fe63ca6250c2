//! What can be asked of the service, where, and by whom.
use vstd::prelude::*;
use vstd::string::*;

use crate::audit::AuditEvent;
use crate::auth::Action;

verus! {

/// What can be asked of the service.
#[derive(Debug, Clone, Copy, PartialEq, Eq, Structural)]
pub enum Endpoint {
    Health,
    Readiness,
    Metrics,
    CreateNode,
    GetNode,
    UpdateNode,
    DeleteNode,
    CreateEdge,
    GetEdge,
    UpdateEdge,
    DeleteEdge,
    Query,
    QueryStream,
    ListTransactions,
    BeginTransaction,
    TransactionSummary,
    StageTransactionOperation,
    TransactionQuery,
    TransactionQueryStream,
    CommitTransaction,
    RollbackTransaction,
    Compact,
    Backup,
    Restore,
    Repair,
    RebuildIndexes,
    MaintenanceStatus,
    Integrity,
    AuditExport,
    ReplicationStatus,
    ReplicationHistory,
    ConfigureLeader,
    ConfigureFollower,
    ReplicaAck,
    ApplyReplication,
    ClusterTopology,
    RegisterReplica,
    MarkNodeHealth,
    PromoteNode,
}

/// The methods by which something is asked.
#[derive(Debug, Clone, Copy, PartialEq, Eq, Structural)]
pub enum Method {
    Get,
    Post,
    Put,
    Delete,
}

impl Endpoint {
    /// The path of the endpoint; `:id` stands for an id.
    pub open spec fn path_text(self) -> Seq<char> {
        match self {
            Endpoint::Health => "/healthz"@,
            Endpoint::Readiness => "/readyz"@,
            Endpoint::Metrics => "/metrics"@,
            Endpoint::CreateNode => "/v1/nodes"@,
            Endpoint::GetNode => "/v1/nodes/:id"@,
            Endpoint::UpdateNode => "/v1/nodes/:id"@,
            Endpoint::DeleteNode => "/v1/nodes/:id"@,
            Endpoint::CreateEdge => "/v1/edges"@,
            Endpoint::GetEdge => "/v1/edges/:id"@,
            Endpoint::UpdateEdge => "/v1/edges/:id"@,
            Endpoint::DeleteEdge => "/v1/edges/:id"@,
            Endpoint::Query => "/v1/query"@,
            Endpoint::QueryStream => "/v1/query/stream"@,
            Endpoint::ListTransactions => "/v1/transactions"@,
            Endpoint::BeginTransaction => "/v1/transactions/begin"@,
            Endpoint::TransactionSummary => "/v1/transactions/:id"@,
            Endpoint::StageTransactionOperation => "/v1/transactions/:id/operations"@,
            Endpoint::TransactionQuery => "/v1/transactions/:id/query"@,
            Endpoint::TransactionQueryStream => "/v1/transactions/:id/query/stream"@,
            Endpoint::CommitTransaction => "/v1/transactions/:id/commit"@,
            Endpoint::RollbackTransaction => "/v1/transactions/:id/rollback"@,
            Endpoint::Compact => "/v1/admin/compact"@,
            Endpoint::Backup => "/v1/admin/backup"@,
            Endpoint::Restore => "/v1/admin/restore"@,
            Endpoint::Repair => "/v1/admin/repair"@,
            Endpoint::RebuildIndexes => "/v1/admin/rebuild-indexes"@,
            Endpoint::MaintenanceStatus => "/v1/admin/maintenance/status"@,
            Endpoint::Integrity => "/v1/admin/integrity"@,
            Endpoint::AuditExport => "/v1/admin/audit"@,
            Endpoint::ReplicationStatus => "/v1/admin/replication/status"@,
            Endpoint::ReplicationHistory => "/v1/admin/replication/history"@,
            Endpoint::ConfigureLeader => "/v1/admin/replication/leader"@,
            Endpoint::ConfigureFollower => "/v1/admin/replication/follower"@,
            Endpoint::ReplicaAck => "/v1/admin/replication/ack"@,
            Endpoint::ApplyReplication => "/v1/admin/replication/apply"@,
            Endpoint::ClusterTopology => "/v1/admin/cluster/topology"@,
            Endpoint::RegisterReplica => "/v1/admin/cluster/nodes"@,
            Endpoint::MarkNodeHealth => "/v1/admin/cluster/nodes/:id/health"@,
            Endpoint::PromoteNode => "/v1/admin/cluster/promote"@,
        }
    }

    /// The path of the endpoint; `:id` stands for an id.
    pub fn path(self) -> (r: &'static str)
        ensures
            r@ == self.path_text(),
    {
        match self {
            Endpoint::Health => "/healthz",
            Endpoint::Readiness => "/readyz",
            Endpoint::Metrics => "/metrics",
            Endpoint::CreateNode => "/v1/nodes",
            Endpoint::GetNode => "/v1/nodes/:id",
            Endpoint::UpdateNode => "/v1/nodes/:id",
            Endpoint::DeleteNode => "/v1/nodes/:id",
            Endpoint::CreateEdge => "/v1/edges",
            Endpoint::GetEdge => "/v1/edges/:id",
            Endpoint::UpdateEdge => "/v1/edges/:id",
            Endpoint::DeleteEdge => "/v1/edges/:id",
            Endpoint::Query => "/v1/query",
            Endpoint::QueryStream => "/v1/query/stream",
            Endpoint::ListTransactions => "/v1/transactions",
            Endpoint::BeginTransaction => "/v1/transactions/begin",
            Endpoint::TransactionSummary => "/v1/transactions/:id",
            Endpoint::StageTransactionOperation => "/v1/transactions/:id/operations",
            Endpoint::TransactionQuery => "/v1/transactions/:id/query",
            Endpoint::TransactionQueryStream => "/v1/transactions/:id/query/stream",
            Endpoint::CommitTransaction => "/v1/transactions/:id/commit",
            Endpoint::RollbackTransaction => "/v1/transactions/:id/rollback",
            Endpoint::Compact => "/v1/admin/compact",
            Endpoint::Backup => "/v1/admin/backup",
            Endpoint::Restore => "/v1/admin/restore",
            Endpoint::Repair => "/v1/admin/repair",
            Endpoint::RebuildIndexes => "/v1/admin/rebuild-indexes",
            Endpoint::MaintenanceStatus => "/v1/admin/maintenance/status",
            Endpoint::Integrity => "/v1/admin/integrity",
            Endpoint::AuditExport => "/v1/admin/audit",
            Endpoint::ReplicationStatus => "/v1/admin/replication/status",
            Endpoint::ReplicationHistory => "/v1/admin/replication/history",
            Endpoint::ConfigureLeader => "/v1/admin/replication/leader",
            Endpoint::ConfigureFollower => "/v1/admin/replication/follower",
            Endpoint::ReplicaAck => "/v1/admin/replication/ack",
            Endpoint::ApplyReplication => "/v1/admin/replication/apply",
            Endpoint::ClusterTopology => "/v1/admin/cluster/topology",
            Endpoint::RegisterReplica => "/v1/admin/cluster/nodes",
            Endpoint::MarkNodeHealth => "/v1/admin/cluster/nodes/:id/health",
            Endpoint::PromoteNode => "/v1/admin/cluster/promote",
        }
    }

    /// The method of the endpoint.
    pub open spec fn asked_by(self) -> Method {
        match self {
            Endpoint::Health => Method::Get,
            Endpoint::Readiness => Method::Get,
            Endpoint::Metrics => Method::Get,
            Endpoint::GetNode => Method::Get,
            Endpoint::UpdateNode => Method::Put,
            Endpoint::DeleteNode => Method::Delete,
            Endpoint::GetEdge => Method::Get,
            Endpoint::UpdateEdge => Method::Put,
            Endpoint::DeleteEdge => Method::Delete,
            Endpoint::ListTransactions => Method::Get,
            Endpoint::TransactionSummary => Method::Get,
            Endpoint::MaintenanceStatus => Method::Get,
            Endpoint::Integrity => Method::Get,
            Endpoint::AuditExport => Method::Get,
            Endpoint::ReplicationStatus => Method::Get,
            Endpoint::ReplicationHistory => Method::Get,
            Endpoint::ClusterTopology => Method::Get,
            _ => Method::Post,
        }
    }

    /// The method of the endpoint.
    pub fn method(self) -> (r: Method)
        ensures
            r == self.asked_by(),
    {
        match self {
            Endpoint::Health => Method::Get,
            Endpoint::Readiness => Method::Get,
            Endpoint::Metrics => Method::Get,
            Endpoint::GetNode => Method::Get,
            Endpoint::UpdateNode => Method::Put,
            Endpoint::DeleteNode => Method::Delete,
            Endpoint::GetEdge => Method::Get,
            Endpoint::UpdateEdge => Method::Put,
            Endpoint::DeleteEdge => Method::Delete,
            Endpoint::ListTransactions => Method::Get,
            Endpoint::TransactionSummary => Method::Get,
            Endpoint::MaintenanceStatus => Method::Get,
            Endpoint::Integrity => Method::Get,
            Endpoint::AuditExport => Method::Get,
            Endpoint::ReplicationStatus => Method::Get,
            Endpoint::ReplicationHistory => Method::Get,
            Endpoint::ClusterTopology => Method::Get,
            _ => Method::Post,
        }
    }

    /// What one must be allowed to do to ask. How the service is, anyone may ask.
    pub open spec fn needs(self) -> Option<Action> {
        match self {
            Endpoint::Health => None,
            Endpoint::Readiness => None,
            Endpoint::Metrics => None,
            Endpoint::CreateNode => Some(Action::Write),
            Endpoint::GetNode => Some(Action::Read),
            Endpoint::UpdateNode => Some(Action::Write),
            Endpoint::DeleteNode => Some(Action::Write),
            Endpoint::CreateEdge => Some(Action::Write),
            Endpoint::GetEdge => Some(Action::Read),
            Endpoint::UpdateEdge => Some(Action::Write),
            Endpoint::DeleteEdge => Some(Action::Write),
            Endpoint::Query => Some(Action::Read),
            Endpoint::QueryStream => Some(Action::Read),
            Endpoint::ListTransactions => Some(Action::Read),
            Endpoint::BeginTransaction => Some(Action::Write),
            Endpoint::TransactionSummary => Some(Action::Read),
            Endpoint::StageTransactionOperation => Some(Action::Write),
            Endpoint::TransactionQuery => Some(Action::Read),
            Endpoint::TransactionQueryStream => Some(Action::Read),
            Endpoint::CommitTransaction => Some(Action::Write),
            Endpoint::RollbackTransaction => Some(Action::Write),
            _ => Some(Action::Maintain),
        }
    }

    /// What one must be allowed to do to ask.
    pub fn action(self) -> (r: Option<Action>)
        ensures
            r == self.needs(),
    {
        match self {
            Endpoint::Health => None,
            Endpoint::Readiness => None,
            Endpoint::Metrics => None,
            Endpoint::CreateNode => Some(Action::Write),
            Endpoint::GetNode => Some(Action::Read),
            Endpoint::UpdateNode => Some(Action::Write),
            Endpoint::DeleteNode => Some(Action::Write),
            Endpoint::CreateEdge => Some(Action::Write),
            Endpoint::GetEdge => Some(Action::Read),
            Endpoint::UpdateEdge => Some(Action::Write),
            Endpoint::DeleteEdge => Some(Action::Write),
            Endpoint::Query => Some(Action::Read),
            Endpoint::QueryStream => Some(Action::Read),
            Endpoint::ListTransactions => Some(Action::Read),
            Endpoint::BeginTransaction => Some(Action::Write),
            Endpoint::TransactionSummary => Some(Action::Read),
            Endpoint::StageTransactionOperation => Some(Action::Write),
            Endpoint::TransactionQuery => Some(Action::Read),
            Endpoint::TransactionQueryStream => Some(Action::Read),
            Endpoint::CommitTransaction => Some(Action::Write),
            Endpoint::RollbackTransaction => Some(Action::Write),
            _ => Some(Action::Maintain),
        }
    }

    /// Under which action and which resource a success stands in the audit log, if it does.
    pub open spec fn audited_as(self) -> Option<(Seq<char>, Seq<char>)> {
        match self {
            Endpoint::CreateNode => Some(("create_node"@, "node"@)),
            Endpoint::UpdateNode => Some(("update_node"@, "node"@)),
            Endpoint::DeleteNode => Some(("delete_node"@, "node"@)),
            Endpoint::CreateEdge => Some(("create_edge"@, "edge"@)),
            Endpoint::UpdateEdge => Some(("update_edge"@, "edge"@)),
            Endpoint::DeleteEdge => Some(("delete_edge"@, "edge"@)),
            Endpoint::BeginTransaction => Some(("begin_transaction"@, "transaction"@)),
            Endpoint::StageTransactionOperation => Some(("stage_transaction_operation"@, "transaction"@)),
            Endpoint::CommitTransaction => Some(("commit_transaction"@, "transaction"@)),
            Endpoint::RollbackTransaction => Some(("rollback_transaction"@, "transaction"@)),
            Endpoint::Compact => Some(("compact"@, "storage"@)),
            Endpoint::Backup => Some(("backup"@, "storage"@)),
            Endpoint::Restore => Some(("restore"@, "storage"@)),
            Endpoint::Repair => Some(("repair"@, "storage"@)),
            Endpoint::RebuildIndexes => Some(("rebuild_indexes"@, "index"@)),
            Endpoint::AuditExport => Some(("audit_export"@, "audit_log"@)),
            Endpoint::ConfigureLeader => Some(("configure_leader"@, "replication"@)),
            Endpoint::ConfigureFollower => Some(("configure_follower"@, "replication"@)),
            Endpoint::RegisterReplica => Some(("register_replica"@, "cluster"@)),
            Endpoint::ReplicaAck => Some(("replica_ack"@, "replication"@)),
            Endpoint::ApplyReplication => Some(("apply_replication"@, "replication"@)),
            Endpoint::MarkNodeHealth => Some(("mark_node_health"@, "cluster"@)),
            Endpoint::PromoteNode => Some(("promote_node"@, "cluster"@)),
            _ => None,
        }
    }

    /// Under which action and which resource a success stands in the audit log, if it does.
    pub fn audit_label(self) -> (r: Option<(&'static str, &'static str)>)
        ensures
            match r {
                Some((action, resource)) => self.audited_as() == Some((action@, resource@)),
                None => self.audited_as() is None,
            },
    {
        match self {
            Endpoint::CreateNode => Some(("create_node", "node")),
            Endpoint::UpdateNode => Some(("update_node", "node")),
            Endpoint::DeleteNode => Some(("delete_node", "node")),
            Endpoint::CreateEdge => Some(("create_edge", "edge")),
            Endpoint::UpdateEdge => Some(("update_edge", "edge")),
            Endpoint::DeleteEdge => Some(("delete_edge", "edge")),
            Endpoint::BeginTransaction => Some(("begin_transaction", "transaction")),
            Endpoint::StageTransactionOperation => Some(("stage_transaction_operation", "transaction")),
            Endpoint::CommitTransaction => Some(("commit_transaction", "transaction")),
            Endpoint::RollbackTransaction => Some(("rollback_transaction", "transaction")),
            Endpoint::Compact => Some(("compact", "storage")),
            Endpoint::Backup => Some(("backup", "storage")),
            Endpoint::Restore => Some(("restore", "storage")),
            Endpoint::Repair => Some(("repair", "storage")),
            Endpoint::RebuildIndexes => Some(("rebuild_indexes", "index")),
            Endpoint::AuditExport => Some(("audit_export", "audit_log")),
            Endpoint::ConfigureLeader => Some(("configure_leader", "replication")),
            Endpoint::ConfigureFollower => Some(("configure_follower", "replication")),
            Endpoint::RegisterReplica => Some(("register_replica", "cluster")),
            Endpoint::ReplicaAck => Some(("replica_ack", "replication")),
            Endpoint::ApplyReplication => Some(("apply_replication", "replication")),
            Endpoint::MarkNodeHealth => Some(("mark_node_health", "cluster")),
            Endpoint::PromoteNode => Some(("promote_node", "cluster")),
            _ => None,
        }
    }

    /// What goes to the audit log where someone has had what they asked for, if anything does.
    pub fn success_event(self, actor: &str, detail: &str) -> (r: Option<AuditEvent>)
        ensures
            match r {
                Some(event) => {
                    &&& self.audited_as() == Some((event.action@, event.resource@))
                    &&& event.actor@ == actor@
                    &&& event.outcome@ == "success"@
                    &&& event.detail@ == detail@
                },
                None => self.audited_as() is None,
            },
    {
        match self.audit_label() {
            Some((action, resource)) => Some(
                AuditEvent::new(actor, action, resource, "success", detail),
            ),
            None => None,
        }
    }
}

/// Whoever changes something has to be allowed to write or to maintain, and stands in the audit
/// log; what anyone may read does not.
pub proof fn law_changes_are_guarded_and_audited(endpoint: Endpoint)
    ensures
        endpoint.needs() == Some(Action::Write) ==> endpoint.audited_as() is Some,
        endpoint.asked_by() == Method::Put || endpoint.asked_by() == Method::Delete
            ==> endpoint.needs() == Some(Action::Write),
        endpoint.needs() == Some(Action::Read) ==> endpoint.audited_as() is None,
        endpoint.needs() is None ==> endpoint.asked_by() == Method::Get,
{
}

} // verus!
