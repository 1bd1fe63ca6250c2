//! What an operator does: to start the service, and to find out whether a backup can be restored.
use std::result::Result as StdResult;
use vstd::prelude::*;
use vstd::string::*;

use crate::common::{join2, join3};
use crate::config::{config_error, AppConfig, ConfigModel, StorageModel, ServerModel, Variables};
use crate::text;

verus! {

// ---------------------------------------------------------------------------------------------
// Starting the service
// ---------------------------------------------------------------------------------------------

/// Whether a variable is set to something that is not blank.
pub open spec fn says_something(variables: Map<Seq<char>, Seq<char>>, name: Seq<char>) -> bool {
    variables.contains_key(name) && !text::is_blank(variables[name])
}

/// Whether the environment gives all three keys.
pub open spec fn gives_keys(variables: Map<Seq<char>, Seq<char>>) -> bool {
    says_something(variables, "UNDR9_ADMIN_API_KEY"@) && says_something(
        variables,
        "UNDR9_WRITER_API_KEY"@,
    ) && says_something(variables, "UNDR9_READER_API_KEY"@)
}

/// The configuration of a service at a place and an address, under an environment.
pub open spec fn server_config(
    base: ConfigModel,
    root: Seq<char>,
    bind: Seq<char>,
    variables: Map<Seq<char>, Seq<char>>,
) -> ConfigModel {
    ConfigModel {
        storage: StorageModel { root_dir: root, ..base.storage },
        server: ServerModel { bind_address: bind, ..base.server },
        ..base
    }.overridden(variables)
}

/// Why a service is not started, if it is not.
pub open spec fn start_error(
    config: ConfigModel,
    variables: Map<Seq<char>, Seq<char>>,
) -> Option<Seq<char>> {
    if !config.auth.enabled {
        Some(
            "auth must remain enabled for `undr9 serve`; refusing insecure auth-disabled startup"@,
        )
    } else if !gives_keys(variables) {
        Some(
            "set UNDR9_ADMIN_API_KEY, UNDR9_WRITER_API_KEY, and UNDR9_READER_API_KEY before running `undr9 serve`"@,
        )
    } else {
        match config_error(config) {
            Some(error) => Some("invalid runtime server config: "@ + error.shown()),
            None => None,
        }
    }
}

/// Whether a variable is set to something that is not blank.
fn is_given(variables: &Variables, name: &str) -> (r: bool)
    ensures
        r == says_something(variables@, name@),
{
    match variables.get_text(name) {
        Some(value) => !text::blank(value.as_str()),
        None => false,
    }
}

/// The configuration under which a service is started, or why it is not started. Keys have to be
/// given: those of `base` are not enough.
pub fn runtime_server_config(
    base: AppConfig,
    root: &str,
    bind: &str,
    variables: &Variables,
) -> (r: StdResult<AppConfig, String>)
    ensures
        ({
            let config = server_config(base@, root@, bind@, variables@);
            let error = start_error(config, variables@);
            &&& r is Ok <==> error is None
            &&& r matches Ok(started) ==> started@ == config
            &&& r matches Err(e) ==> error == Some(e@)
        }),
{
    let mut config: AppConfig = base;
    config.storage.root_dir = root.to_owned();
    config.server.bind_address = bind.to_owned();
    config.apply_env_overrides(variables);
    if !config.auth.enabled {
        return Err(
            "auth must remain enabled for `undr9 serve`; refusing insecure auth-disabled startup".to_owned(),
        );
    }
    if !is_given(variables, "UNDR9_ADMIN_API_KEY") || !is_given(
        variables,
        "UNDR9_WRITER_API_KEY",
    ) || !is_given(variables, "UNDR9_READER_API_KEY") {
        return Err(
            "set UNDR9_ADMIN_API_KEY, UNDR9_WRITER_API_KEY, and UNDR9_READER_API_KEY before running `undr9 serve`".to_owned(),
        );
    }
    match config.validate() {
        Ok(_) => Ok(config),
        Err(error) => {
            let shown: String = error.to_string();
            Err(join2("invalid runtime server config: ", shown.as_str()))
        },
    }
}

/// A service that is started asks for keys, and its keys are those of the environment.
pub proof fn law_started_services_ask_for_the_given_keys(
    base: ConfigModel,
    root: Seq<char>,
    bind: Seq<char>,
    variables: Map<Seq<char>, Seq<char>>,
)
    ensures
        ({
            let config = server_config(base, root, bind, variables);
            start_error(config, variables) is None ==> {
                &&& config.auth.enabled
                &&& config_error(config) is None
                &&& config.auth.admin_api_key == variables["UNDR9_ADMIN_API_KEY"@]
                &&& config.auth.writer_api_key == variables["UNDR9_WRITER_API_KEY"@]
                &&& config.auth.reader_api_key == variables["UNDR9_READER_API_KEY"@]
            }
        }),
{
}

// ---------------------------------------------------------------------------------------------
// The recovery drill
// ---------------------------------------------------------------------------------------------

/// What is to be done next in a recovery drill.
#[derive(Debug, Clone, Copy, PartialEq, Eq, Structural)]
pub enum DrillStep {
    OpenSource,
    ReadLog,
    VerifySource,
    MakeScratch,
    Backup,
    Restore,
    OpenRestored,
    VerifyRestored,
    RestoreToLsn,
    OpenPitr,
    VerifyPitr,
    Finished,
}

/// How many records a storage holds.
#[derive(Debug, Clone, Copy, PartialEq, Eq, Structural)]
pub struct RecordCounts {
    pub nodes: usize,
    pub edges: usize,
}

/// What came of what was to be done.
#[derive(Debug, PartialEq, Eq)]
pub enum DrillEvent {
    /// It failed.
    Failed(String),
    /// A storage is open.
    Opened(RecordCounts, Option<u64>),
    /// The log has been read; this is the place of its last record, if it has any.
    LogRead(Option<u64>),
    /// The storage has been verified.
    Verified,
    /// There is a directory for the copies.
    ScratchMade,
    /// Something was copied, which took so many milliseconds.
    Copied(u128),
}

/// A recovery drill, and what it has found so far.
#[derive(Debug, Clone, Copy, PartialEq, Eq, Structural)]
pub struct RecoveryDrill {
    pub step: DrillStep,
    pub source: RecordCounts,
    pub source_last_applied_lsn: u64,
    pub latest_restorable_lsn: u64,
    pub backup_elapsed_ms: u128,
    pub restore_elapsed_ms: u128,
    pub restored: RecordCounts,
    pub pitr_elapsed_ms: Option<u128>,
    pub pitr: RecordCounts,
}

/// Whether this can come of what was to be done.
pub open spec fn can_happen(step: DrillStep, event: DrillEvent) -> bool {
    match event {
        DrillEvent::Failed(_) => step != DrillStep::Finished,
        DrillEvent::Opened(_, _) => step == DrillStep::OpenSource || step
            == DrillStep::OpenRestored || step == DrillStep::OpenPitr,
        DrillEvent::LogRead(_) => step == DrillStep::ReadLog,
        DrillEvent::Verified => step == DrillStep::VerifySource || step
            == DrillStep::VerifyRestored || step == DrillStep::VerifyPitr,
        DrillEvent::ScratchMade => step == DrillStep::MakeScratch,
        DrillEvent::Copied(_) => step == DrillStep::Backup || step == DrillStep::Restore || step
            == DrillStep::RestoreToLsn,
    }
}

/// What is said where something failed, up to the error itself.
pub open spec fn failure_of(step: DrillStep) -> Seq<char> {
    match step {
        DrillStep::OpenSource => "failed to open source storage for recovery drill: "@,
        DrillStep::ReadLog => "failed to enumerate retained WAL for recovery drill: "@,
        DrillStep::VerifySource => "failed to verify source integrity for recovery drill: "@,
        DrillStep::MakeScratch => "failed to create recovery drill tempdir: "@,
        DrillStep::Backup => "recovery drill backup failed: "@,
        DrillStep::Restore => "recovery drill restore failed: "@,
        DrillStep::OpenRestored => "failed to open restored storage for recovery drill: "@,
        DrillStep::VerifyRestored => "failed to verify restored integrity for recovery drill: "@,
        DrillStep::RestoreToLsn => "recovery drill PITR restore failed: "@,
        DrillStep::OpenPitr => "failed to open PITR storage for recovery drill: "@,
        DrillStep::VerifyPitr => "failed to verify PITR integrity for recovery drill: "@,
        DrillStep::Finished => ""@,
    }
}

/// Two counts, as they are shown.
pub open spec fn counts_shown(counts: RecordCounts) -> Seq<char> {
    "("@ + text::decimal(counts.nodes as nat) + ","@ + text::decimal(counts.edges as nat) + ")"@
}

/// What is said where a copy holds other records than the source.
pub open spec fn divergence(
    what: Seq<char>,
    name: Seq<char>,
    source: RecordCounts,
    copy: RecordCounts,
) -> Seq<char> {
    "recovery drill "@ + what + " counts diverged: source="@ + counts_shown(source) + " "@ + name
        + "="@ + counts_shown(copy)
}

impl RecoveryDrill {
    /// Whether a copy holds as many records as the source.
    pub open spec fn same_counts(self, copy: RecordCounts) -> bool {
        copy == self.source
    }

    /// The drill after something has happened, or why it has failed.
    pub open spec fn after(self, event: DrillEvent) -> StdResult<RecoveryDrill, Seq<char>> {
        match event {
            DrillEvent::Failed(error) => Err(failure_of(self.step) + error@),
            DrillEvent::Opened(counts, last_applied) => match self.step {
                DrillStep::OpenSource => Ok(
                    RecoveryDrill {
                        step: DrillStep::ReadLog,
                        source: counts,
                        source_last_applied_lsn: match last_applied {
                            Some(lsn) => lsn,
                            None => 0,
                        },
                        ..self
                    },
                ),
                DrillStep::OpenRestored => Ok(
                    RecoveryDrill { step: DrillStep::VerifyRestored, restored: counts, ..self },
                ),
                _ => if self.same_counts(counts) {
                    Ok(RecoveryDrill { step: DrillStep::VerifyPitr, pitr: counts, ..self })
                } else {
                    Err(divergence("PITR"@, "pitr"@, self.source, counts))
                },
            },
            DrillEvent::LogRead(last) => Ok(
                RecoveryDrill {
                    step: DrillStep::VerifySource,
                    latest_restorable_lsn: match last {
                        Some(lsn) => lsn,
                        None => self.source_last_applied_lsn,
                    },
                    ..self
                },
            ),
            DrillEvent::Verified => match self.step {
                DrillStep::VerifySource => Ok(
                    RecoveryDrill { step: DrillStep::MakeScratch, ..self },
                ),
                DrillStep::VerifyRestored => if !self.same_counts(self.restored) {
                    Err(divergence("restore"@, "restored"@, self.source, self.restored))
                } else if self.latest_restorable_lsn > 0 {
                    Ok(RecoveryDrill { step: DrillStep::RestoreToLsn, ..self })
                } else {
                    Ok(RecoveryDrill { step: DrillStep::Finished, ..self })
                },
                _ => Ok(RecoveryDrill { step: DrillStep::Finished, ..self }),
            },
            DrillEvent::ScratchMade => Ok(RecoveryDrill { step: DrillStep::Backup, ..self }),
            DrillEvent::Copied(elapsed_ms) => match self.step {
                DrillStep::Backup => Ok(
                    RecoveryDrill {
                        step: DrillStep::Restore,
                        backup_elapsed_ms: elapsed_ms,
                        ..self
                    },
                ),
                DrillStep::Restore => Ok(
                    RecoveryDrill {
                        step: DrillStep::OpenRestored,
                        restore_elapsed_ms: elapsed_ms,
                        ..self
                    },
                ),
                _ => Ok(
                    RecoveryDrill {
                        step: DrillStep::OpenPitr,
                        pitr_elapsed_ms: Some(elapsed_ms),
                        ..self
                    },
                ),
            },
        }
    }

    /// A drill that has not begun.
    pub open spec fn begun() -> RecoveryDrill {
        let none = RecordCounts { nodes: 0, edges: 0 };
        RecoveryDrill {
            step: DrillStep::OpenSource,
            source: none,
            source_last_applied_lsn: 0,
            latest_restorable_lsn: 0,
            backup_elapsed_ms: 0,
            restore_elapsed_ms: 0,
            restored: none,
            pitr_elapsed_ms: None,
            pitr: none,
        }
    }

    /// A drill that has not begun, unless something is wrong with the configuration of its source.
    pub fn begin(source_config: &AppConfig) -> (r: StdResult<Self, String>)
        ensures
            r is Ok <==> config_error(source_config@) is None,
            r matches Ok(drill) ==> drill == RecoveryDrill::begun(),
            r matches Err(e) ==> e@ == "invalid recovery drill source config: "@ + config_error(
                source_config@,
            )->0.shown(),
    {
        match source_config.validate() {
            Ok(_) => {},
            Err(error) => {
                let shown: String = error.to_string();
                return Err(join2("invalid recovery drill source config: ", shown.as_str()));
            },
        }
        let none: RecordCounts = RecordCounts { nodes: 0, edges: 0 };
        Ok(
            RecoveryDrill {
                step: DrillStep::OpenSource,
                source: none,
                source_last_applied_lsn: 0,
                latest_restorable_lsn: 0,
                backup_elapsed_ms: 0,
                restore_elapsed_ms: 0,
                restored: none,
                pitr_elapsed_ms: None,
                pitr: none,
            },
        )
    }

    /// The drill after something has happened, or why it has failed.
    pub fn advance(self, event: DrillEvent) -> (r: StdResult<RecoveryDrill, String>)
        requires
            can_happen(self.step, event),
        ensures
            match self.after(event) {
                Ok(next) => r is Ok && r->Ok_0 == next,
                Err(error) => r is Err && r->Err_0@ == error,
            },
    {
        match event {
            DrillEvent::Failed(error) => Err(join2(failure_text(self.step), error.as_str())),
            DrillEvent::Opened(counts, last_applied) => match self.step {
                DrillStep::OpenSource => Ok(
                    RecoveryDrill {
                        step: DrillStep::ReadLog,
                        source: counts,
                        source_last_applied_lsn: match last_applied {
                            Some(lsn) => lsn,
                            None => 0,
                        },
                        ..self
                    },
                ),
                DrillStep::OpenRestored => Ok(
                    RecoveryDrill { step: DrillStep::VerifyRestored, restored: counts, ..self },
                ),
                _ => {
                    if counts.nodes == self.source.nodes && counts.edges == self.source.edges {
                        Ok(RecoveryDrill { step: DrillStep::VerifyPitr, pitr: counts, ..self })
                    } else {
                        Err(divergence_text("PITR", "pitr", self.source, counts))
                    }
                },
            },
            DrillEvent::LogRead(last) => Ok(
                RecoveryDrill {
                    step: DrillStep::VerifySource,
                    latest_restorable_lsn: match last {
                        Some(lsn) => lsn,
                        None => self.source_last_applied_lsn,
                    },
                    ..self
                },
            ),
            DrillEvent::Verified => match self.step {
                DrillStep::VerifySource => Ok(
                    RecoveryDrill { step: DrillStep::MakeScratch, ..self },
                ),
                DrillStep::VerifyRestored => {
                    if self.restored.nodes != self.source.nodes || self.restored.edges
                        != self.source.edges {
                        Err(divergence_text("restore", "restored", self.source, self.restored))
                    } else if self.latest_restorable_lsn > 0 {
                        Ok(RecoveryDrill { step: DrillStep::RestoreToLsn, ..self })
                    } else {
                        Ok(RecoveryDrill { step: DrillStep::Finished, ..self })
                    }
                },
                _ => Ok(RecoveryDrill { step: DrillStep::Finished, ..self }),
            },
            DrillEvent::ScratchMade => Ok(RecoveryDrill { step: DrillStep::Backup, ..self }),
            DrillEvent::Copied(elapsed_ms) => match self.step {
                DrillStep::Backup => Ok(
                    RecoveryDrill {
                        step: DrillStep::Restore,
                        backup_elapsed_ms: elapsed_ms,
                        ..self
                    },
                ),
                DrillStep::Restore => Ok(
                    RecoveryDrill {
                        step: DrillStep::OpenRestored,
                        restore_elapsed_ms: elapsed_ms,
                        ..self
                    },
                ),
                _ => Ok(
                    RecoveryDrill {
                        step: DrillStep::OpenPitr,
                        pitr_elapsed_ms: Some(elapsed_ms),
                        ..self
                    },
                ),
            },
        }
    }
}

fn failure_text(step: DrillStep) -> (r: &'static str)
    ensures
        r@ == failure_of(step),
{
    match step {
        DrillStep::OpenSource => "failed to open source storage for recovery drill: ",
        DrillStep::ReadLog => "failed to enumerate retained WAL for recovery drill: ",
        DrillStep::VerifySource => "failed to verify source integrity for recovery drill: ",
        DrillStep::MakeScratch => "failed to create recovery drill tempdir: ",
        DrillStep::Backup => "recovery drill backup failed: ",
        DrillStep::Restore => "recovery drill restore failed: ",
        DrillStep::OpenRestored => "failed to open restored storage for recovery drill: ",
        DrillStep::VerifyRestored => "failed to verify restored integrity for recovery drill: ",
        DrillStep::RestoreToLsn => "recovery drill PITR restore failed: ",
        DrillStep::OpenPitr => "failed to open PITR storage for recovery drill: ",
        DrillStep::VerifyPitr => "failed to verify PITR integrity for recovery drill: ",
        DrillStep::Finished => "",
    }
}

/// Two counts, as they are shown.
pub fn counts_text(counts: RecordCounts) -> (r: String)
    ensures
        r@ == counts_shown(counts),
{
    let nodes: String = text::decimal_text(counts.nodes as u128);
    let edges: String = text::decimal_text(counts.edges as u128);
    let mut out: String = join3("(", nodes.as_str(), ",");
    out.append(edges.as_str());
    out.append(")");
    out
}

fn divergence_text(what: &str, name: &str, source: RecordCounts, copy: RecordCounts) -> (r: String)
    ensures
        r@ == divergence(what@, name@, source, copy),
{
    let of_source: String = counts_text(source);
    let of_copy: String = counts_text(copy);
    let mut out: String = join3("recovery drill ", what, " counts diverged: source=");
    out.append(of_source.as_str());
    out.append(" ");
    out.append(name);
    out.append("=");
    out.append(of_copy.as_str());
    out
}

/// Whether a drill has found what its step says it has found.
pub open spec fn drill_is_sound(drill: RecoveryDrill) -> bool {
    &&& (drill.step == DrillStep::RestoreToLsn || drill.step == DrillStep::OpenPitr || drill.step
        == DrillStep::VerifyPitr || drill.step == DrillStep::Finished) ==> drill.restored
        == drill.source
    &&& (drill.step == DrillStep::RestoreToLsn || drill.step == DrillStep::OpenPitr || drill.step
        == DrillStep::VerifyPitr) ==> drill.latest_restorable_lsn > 0
    &&& drill.step == DrillStep::OpenPitr ==> drill.pitr_elapsed_ms is Some
    &&& drill.step == DrillStep::VerifyPitr ==> drill.pitr_elapsed_ms is Some && drill.pitr
        == drill.source
    &&& drill.step == DrillStep::Finished && drill.latest_restorable_lsn > 0
        ==> drill.pitr_elapsed_ms is Some && drill.pitr == drill.source
}

/// A drill that finishes has restored as many nodes and edges as the source holds: from the backup,
/// and to the last place in the log if there is one.
pub proof fn law_finished_drills_have_restored_everything(
    drill: RecoveryDrill,
    event: DrillEvent,
)
    ensures
        drill_is_sound(RecoveryDrill::begun()),
        drill_is_sound(drill) && can_happen(drill.step, event) ==> (drill.after(event) matches Ok(
            next,
        ) ==> drill_is_sound(next)),
        drill_is_sound(drill) && drill.step == DrillStep::Finished ==> drill.restored
            == drill.source && (drill.latest_restorable_lsn > 0 ==> drill.pitr == drill.source),
{
}

} // verus!
