//! Maintenance operations: what is noted, counted and answered as they start, fail and end.
use std::result::Result as StdResult;
use vstd::prelude::*;
use vstd::string::*;

use crate::audit::AuditEvent;
use crate::auth::Principal;
use crate::common::{join2, Undr9Error};
use crate::config::MaintenanceConfig;
use crate::counters::RequestCounts;
use crate::routes::Endpoint;
use crate::service::{
    answer_to, budget_exceeded, budget_note, over_budget, ApiError, MaintenanceModel,
    MaintenanceResponse,
};
use crate::state::ApiState;
use crate::text;

verus! {

// ---------------------------------------------------------------------------------------------
// Tasks
// ---------------------------------------------------------------------------------------------

/// A maintenance operation.
#[derive(Debug, PartialEq, Eq)]
pub enum MaintenanceTask {
    Compact,
    Backup { destination: String },
    Restore { source: String },
    Repair,
    RebuildIndexes,
}

impl MaintenanceTask {
    /// Where the operation is asked for.
    pub open spec fn asked_at(self) -> Endpoint {
        match self {
            MaintenanceTask::Compact => Endpoint::Compact,
            MaintenanceTask::Backup { .. } => Endpoint::Backup,
            MaintenanceTask::Restore { .. } => Endpoint::Restore,
            MaintenanceTask::Repair => Endpoint::Repair,
            MaintenanceTask::RebuildIndexes => Endpoint::RebuildIndexes,
        }
    }

    /// Where the operation is asked for.
    pub fn endpoint(&self) -> (r: Endpoint)
        ensures
            r == self.asked_at(),
    {
        match self {
            MaintenanceTask::Compact => Endpoint::Compact,
            MaintenanceTask::Backup { .. } => Endpoint::Backup,
            MaintenanceTask::Restore { .. } => Endpoint::Restore,
            MaintenanceTask::Repair => Endpoint::Repair,
            MaintenanceTask::RebuildIndexes => Endpoint::RebuildIndexes,
        }
    }

    /// The name of the operation.
    pub open spec fn name(self) -> Seq<char> {
        match self {
            MaintenanceTask::Compact => "compact"@,
            MaintenanceTask::Backup { .. } => "backup"@,
            MaintenanceTask::Restore { .. } => "restore"@,
            MaintenanceTask::Repair => "repair"@,
            MaintenanceTask::RebuildIndexes => "rebuild_indexes"@,
        }
    }

    /// The name of the operation.
    pub fn operation(&self) -> (r: &'static str)
        ensures
            r@ == self.name(),
    {
        match self {
            MaintenanceTask::Compact => "compact",
            MaintenanceTask::Backup { .. } => "backup",
            MaintenanceTask::Restore { .. } => "restore",
            MaintenanceTask::Repair => "repair",
            MaintenanceTask::RebuildIndexes => "rebuild_indexes",
        }
    }

    /// What is said of the operation once it is done.
    pub open spec fn done(self) -> Seq<char> {
        match self {
            MaintenanceTask::Compact => "storage compacted"@,
            MaintenanceTask::Backup { destination } => "backup created at "@ + destination@,
            MaintenanceTask::Restore { source } => "storage restored from "@ + source@,
            MaintenanceTask::Repair => "repair completed"@,
            MaintenanceTask::RebuildIndexes => "index snapshot rebuilt"@,
        }
    }

    /// What is said of the operation once it is done.
    pub fn done_detail(&self) -> (r: String)
        ensures
            r@ == self.done(),
    {
        match self {
            MaintenanceTask::Compact => "storage compacted".to_owned(),
            MaintenanceTask::Backup { destination } => join2(
                "backup created at ",
                destination.as_str(),
            ),
            MaintenanceTask::Restore { source } => join2(
                "storage restored from ",
                source.as_str(),
            ),
            MaintenanceTask::Repair => "repair completed".to_owned(),
            MaintenanceTask::RebuildIndexes => "index snapshot rebuilt".to_owned(),
        }
    }

    /// What the audit log says of the operation: of a copy, where it went to or came from.
    pub open spec fn audited(self) -> Seq<char> {
        match self {
            MaintenanceTask::Backup { destination } => destination@,
            MaintenanceTask::Restore { source } => source@,
            _ => self.done(),
        }
    }

    /// What the audit log says of the operation.
    pub fn audit_detail(&self) -> (r: String)
        ensures
            r@ == self.audited(),
    {
        match self {
            MaintenanceTask::Backup { destination } => destination.clone(),
            MaintenanceTask::Restore { source } => source.clone(),
            _ => self.done_detail(),
        }
    }
}

// ---------------------------------------------------------------------------------------------
// Operations under way
// ---------------------------------------------------------------------------------------------

/// A maintenance operation under way: who asked for it, when it started, and how large the graph
/// was.
#[derive(Debug, PartialEq, Eq)]
pub struct MaintenanceRun {
    pub task: MaintenanceTask,
    pub actor: String,
    pub started_at_ms: u128,
    pub node_count: usize,
    pub edge_count: usize,
}

/// How maintenance stands while an operation is under way.
pub open spec fn under_way(
    config: MaintenanceConfig,
    operation: Seq<char>,
    started_at_ms: u128,
    nodes: usize,
    edges: usize,
) -> MaintenanceModel {
    MaintenanceModel {
        in_progress: true,
        last_operation: Some(operation),
        last_outcome: None,
        detail: Some("maintenance operation in progress"@),
        started_at_ms: Some(started_at_ms),
        finished_at_ms: None,
        elapsed_ms: None,
        last_node_count: nodes,
        last_edge_count: edges,
        max_node_count: config.max_node_count,
        max_edge_count: config.max_edge_count,
    }
}

/// How maintenance stands once an operation has come to an end.
pub open spec fn over(
    config: MaintenanceConfig,
    operation: Seq<char>,
    outcome: Seq<char>,
    detail: Seq<char>,
    started_at_ms: u128,
    elapsed_ms: u64,
    nodes: usize,
    edges: usize,
) -> MaintenanceModel {
    MaintenanceModel {
        in_progress: false,
        last_operation: Some(operation),
        last_outcome: Some(outcome),
        detail: Some(detail),
        started_at_ms: Some(started_at_ms),
        finished_at_ms: Some((started_at_ms + elapsed_ms) as u128),
        elapsed_ms: Some(elapsed_ms),
        last_node_count: nodes,
        last_edge_count: edges,
        max_node_count: config.max_node_count,
        max_edge_count: config.max_edge_count,
    }
}

impl ApiState {
    /// Starts a maintenance operation, unless the graph is too large for it.
    pub fn start_maintenance(
        &mut self,
        task: MaintenanceTask,
        principal: &Principal,
        now_ms: u128,
        node_count: usize,
        edge_count: usize,
    ) -> (r: StdResult<MaintenanceRun, ApiError>)
        ensures
            r is Ok <==> !over_budget(old(self).config.maintenance, node_count, edge_count),
            r matches Ok(run) ==> {
                &&& run.task == task
                &&& run.actor@ == principal.name@
                &&& run.started_at_ms == now_ms
                &&& run.node_count == node_count
                &&& run.edge_count == edge_count
                &&& final(self).maintenance_status@ == under_way(
                    old(self).config.maintenance,
                    task.name(),
                    now_ms,
                    node_count,
                    edge_count,
                )
            },
            r matches Err(e) ==> {
                &&& e@ == budget_exceeded(
                    old(self).config.maintenance,
                    task.name(),
                    node_count,
                    edge_count,
                )
                &&& final(self).maintenance_status@ == over(
                    old(self).config.maintenance,
                    task.name(),
                    "rejected"@,
                    budget_note(old(self).config.maintenance, node_count, edge_count),
                    now_ms,
                    0,
                    node_count,
                    edge_count,
                )
            },
            *final(self) == (ApiState {
                maintenance_status: final(self).maintenance_status,
                ..*old(self)
            }),
    {
        match self.maintenance_status.enforce_maintenance_budget(
            &self.config.maintenance,
            task.operation(),
            now_ms,
            node_count,
            edge_count,
        ) {
            Ok(()) => {},
            Err(error) => {
                return Err(error);
            },
        }
        self.maintenance_status.mark_maintenance_started(
            &self.config.maintenance,
            task.operation(),
            now_ms,
            node_count,
            edge_count,
        );
        Ok(
            MaintenanceRun {
                task,
                actor: principal.name.clone(),
                started_at_ms: now_ms,
                node_count,
                edge_count,
            },
        )
    }

    /// Takes note that a maintenance operation has failed, and gives the answer.
    pub fn fail_maintenance(&mut self, run: MaintenanceRun, error: Undr9Error, elapsed_ms: u64) -> (r:
        ApiError)
        requires
            run.started_at_ms + elapsed_ms <= u128::MAX,
        ensures
            r@ == answer_to(error@),
            final(self).maintenance_status@ == over(
                old(self).config.maintenance,
                run.task.name(),
                "failed"@,
                error@.shown(),
                run.started_at_ms,
                elapsed_ms,
                run.node_count,
                run.edge_count,
            ),
            *final(self) == (ApiState {
                maintenance_status: final(self).maintenance_status,
                ..*old(self)
            }),
    {
        let shown: String = error.to_string();
        self.maintenance_status.mark_maintenance_finished(
            &self.config.maintenance,
            run.task.operation(),
            "failed",
            shown.as_str(),
            run.started_at_ms,
            elapsed_ms,
            run.node_count,
            run.edge_count,
        );
        ApiError::from_error(error)
    }

    /// Counts a maintenance operation that is done, and gives what goes to the audit log. Until it
    /// is there, the operation is still under way.
    pub fn audit_maintenance(&mut self, run: &MaintenanceRun, elapsed_ms: u64) -> (r: AuditEvent)
        ensures
            r.actor@ == run.actor@,
            run.task.asked_at().audited_as() == Some((r.action@, r.resource@)),
            r.outcome@ == "success"@,
            r.detail@ == run.task.audited(),
            final(self).counters.requests == (RequestCounts {
                maintenance_operations_total: old(
                    self,
                ).counters.requests.maintenance_operations_total.wrapping_add(1),
                compaction_latency: if run.task is Compact {
                    crate::counters::timed(
                        old(self).counters.requests.compaction_latency,
                        elapsed_ms,
                    )
                } else {
                    old(self).counters.requests.compaction_latency
                },
                ..old(self).counters.requests
            }),
            final(self).counters.error_counters == old(self).counters.error_counters,
            *final(self) == (ApiState { counters: final(self).counters, ..*old(self) }),
    {
        let compaction: bool = match &run.task {
            MaintenanceTask::Compact => true,
            _ => false,
        };
        self.counters.requests.count_maintenance(compaction, elapsed_ms);
        let detail: String = run.task.audit_detail();
        let resource: &'static str = match &run.task {
            MaintenanceTask::RebuildIndexes => "index",
            _ => "storage",
        };
        AuditEvent::new(
            run.actor.as_str(),
            run.task.operation(),
            resource,
            "success",
            detail.as_str(),
        )
    }

    /// Takes note that a maintenance operation is done and stands in the audit log, and gives the
    /// answer.
    pub fn finish_maintenance(&mut self, run: MaintenanceRun, elapsed_ms: u64) -> (r:
        MaintenanceResponse)
        requires
            run.started_at_ms + elapsed_ms <= u128::MAX,
        ensures
            r.status@ == "ok"@,
            r.operation@ == run.task.name(),
            r.elapsed_ms == elapsed_ms,
            r.detail@ == run.task.done(),
            final(self).maintenance_status@ == over(
                old(self).config.maintenance,
                run.task.name(),
                "success"@,
                run.task.done(),
                run.started_at_ms,
                elapsed_ms,
                run.node_count,
                run.edge_count,
            ),
            *final(self) == (ApiState {
                maintenance_status: final(self).maintenance_status,
                ..*old(self)
            }),
    {
        let detail: String = run.task.done_detail();
        self.maintenance_status.mark_maintenance_finished(
            &self.config.maintenance,
            run.task.operation(),
            "success",
            detail.as_str(),
            run.started_at_ms,
            elapsed_ms,
            run.node_count,
            run.edge_count,
        );
        MaintenanceResponse { status: "ok", operation: run.task.operation(), elapsed_ms, detail }
    }
}

// ---------------------------------------------------------------------------------------------
// What the audit log says of other requests
// ---------------------------------------------------------------------------------------------

/// What the audit log says where events were exported from it.
pub fn exported_detail(count: usize) -> (r: String)
    ensures
        r@ == "exported "@ + text::decimal(count as nat) + " audit events"@,
{
    let number: String = text::decimal_text(count as u128);
    crate::common::join3("exported ", number.as_str(), " audit events")
}

/// What the audit log says where records of a leader were applied.
pub fn applied_detail(count: usize) -> (r: String)
    ensures
        r@ == "records="@ + text::decimal(count as nat),
{
    let number: String = text::decimal_text(count as u128);
    join2("records=", number.as_str())
}

/// Every maintenance operation is asked for by whoever may maintain, and stands in the audit log
/// under its name.
pub proof fn law_maintenance_is_guarded_and_audited(task: MaintenanceTask)
    ensures
        task.asked_at().needs() == Some(crate::auth::Action::Maintain),
        task.asked_at().audited_as() matches Some((action, _)) && action == task.name(),
{
}

} // verus!
