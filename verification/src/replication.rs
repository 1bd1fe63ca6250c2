//! What a leader passes on and a follower takes over.
use vstd::prelude::*;
use vstd::string::*;

use crate::common::{join3, ErrorModel, Result, Undr9Error};
use crate::ordered::{lemma_filter_step, models, replicate_items, OrderedMap, Replicate};
use crate::records::{BatchModel, WriteBatch};
use crate::sorting::{
    find_first, first_of, law_sorting_one_more, lemma_first_of, sort_by_id, sorted_by_id,
    strictly_by_id, Named,
};
use crate::text;

verus! {

/// What a node does for the others.
#[derive(Debug, Clone, Copy, PartialEq, Eq, Structural)]
pub enum ReplicationMode {
    Disabled,
    Leader,
    Follower,
}

/// How far a replica has come.
#[derive(Debug, PartialEq, Eq)]
pub struct ReplicaProgress {
    pub replica_node_id: String,
    pub last_acked_source_lsn: u64,
    pub last_applied_source_lsn: u64,
}

/// The model of how far a replica has come.
pub struct ProgressModel {
    pub replica_node_id: Seq<char>,
    pub last_acked_source_lsn: u64,
    pub last_applied_source_lsn: u64,
}

impl View for ReplicaProgress {
    type V = ProgressModel;

    open spec fn view(&self) -> ProgressModel {
        ProgressModel {
            replica_node_id: self.replica_node_id@,
            last_acked_source_lsn: self.last_acked_source_lsn,
            last_applied_source_lsn: self.last_applied_source_lsn,
        }
    }
}

impl Replicate for ReplicaProgress {
    fn replicate(&self) -> (r: Self) {
        ReplicaProgress {
            replica_node_id: self.replica_node_id.clone(),
            last_acked_source_lsn: self.last_acked_source_lsn,
            last_applied_source_lsn: self.last_applied_source_lsn,
        }
    }
}

impl Named for ReplicaProgress {
    open spec fn id_of(model: ProgressModel) -> Seq<char> {
        model.replica_node_id
    }

    fn id(&self) -> (r: &str) {
        self.replica_node_id.as_str()
    }
}

/// A batch that a leader has committed.
#[derive(Debug, PartialEq, Eq)]
pub struct ReplicationRecord {
    pub source_node_id: String,
    pub source_term: u64,
    pub source_lsn: u64,
    pub batch: WriteBatch,
}

/// The model of a batch that a leader has committed.
pub struct RecordModel {
    pub source_node_id: Seq<char>,
    pub source_term: u64,
    pub source_lsn: u64,
    pub batch: BatchModel,
}

impl View for ReplicationRecord {
    type V = RecordModel;

    open spec fn view(&self) -> RecordModel {
        RecordModel {
            source_node_id: self.source_node_id@,
            source_term: self.source_term,
            source_lsn: self.source_lsn,
            batch: self.batch@,
        }
    }
}

impl Replicate for ReplicationRecord {
    fn replicate(&self) -> (r: Self) {
        ReplicationRecord {
            source_node_id: self.source_node_id.clone(),
            source_term: self.source_term,
            source_lsn: self.source_lsn,
            batch: self.batch.replicate(),
        }
    }
}

/// Where replication stands.
#[derive(Debug, PartialEq, Eq)]
pub struct ReplicationStatus {
    pub mode: ReplicationMode,
    pub local_node_id: String,
    pub leader_node_id: Option<String>,
    pub current_term: u64,
    pub last_applied_lsn: u64,
    pub last_committed_source_lsn: u64,
    pub last_pulled_source_lsn: u64,
    pub last_applied_source_lsn: u64,
    pub replicas: Vec<ReplicaProgress>,
}

/// The model of where replication stands.
pub struct StatusModel {
    pub mode: ReplicationMode,
    pub local_node_id: Seq<char>,
    pub leader_node_id: Option<Seq<char>>,
    pub current_term: u64,
    pub last_applied_lsn: u64,
    pub last_committed_source_lsn: u64,
    pub last_pulled_source_lsn: u64,
    pub last_applied_source_lsn: u64,
    pub replicas: Seq<ProgressModel>,
}

impl View for ReplicationStatus {
    type V = StatusModel;

    open spec fn view(&self) -> StatusModel {
        StatusModel {
            mode: self.mode,
            local_node_id: self.local_node_id@,
            leader_node_id: text::optional_string(self.leader_node_id),
            current_term: self.current_term,
            last_applied_lsn: self.last_applied_lsn,
            last_committed_source_lsn: self.last_committed_source_lsn,
            last_pulled_source_lsn: self.last_pulled_source_lsn,
            last_applied_source_lsn: self.last_applied_source_lsn,
            replicas: models(self.replicas@),
        }
    }
}

impl Replicate for ReplicationStatus {
    fn replicate(&self) -> (r: Self) {
        ReplicationStatus {
            mode: self.mode,
            local_node_id: self.local_node_id.clone(),
            leader_node_id: text::copy_optional(&self.leader_node_id),
            current_term: self.current_term,
            last_applied_lsn: self.last_applied_lsn,
            last_committed_source_lsn: self.last_committed_source_lsn,
            last_pulled_source_lsn: self.last_pulled_source_lsn,
            last_applied_source_lsn: self.last_applied_source_lsn,
            replicas: replicate_items(&self.replicas),
        }
    }
}

/// Where replication stands on a node of its own.
pub open spec fn lone_status(id: Seq<char>) -> StatusModel {
    StatusModel {
        mode: ReplicationMode::Disabled,
        local_node_id: id,
        leader_node_id: None,
        current_term: 0,
        last_applied_lsn: 0,
        last_committed_source_lsn: 0,
        last_pulled_source_lsn: 0,
        last_applied_source_lsn: 0,
        replicas: Seq::empty(),
    }
}

/// Where the first replica of an id stands, or behind the end.
pub open spec fn replica_at(replicas: Seq<ProgressModel>, id: Seq<char>) -> int {
    first_of::<ReplicaProgress>(replicas, id)
}

/// By how much a replica is behind what has been committed.
pub open spec fn lag(committed: u64, replica: ProgressModel) -> u64 {
    if committed >= replica.last_acked_source_lsn {
        (committed - replica.last_acked_source_lsn) as u64
    } else {
        0
    }
}

/// By how much every replica is behind what has been committed; of replicas of the same id the last
/// one counts.
pub open spec fn lags(committed: u64, replicas: Seq<ProgressModel>) -> Map<Seq<char>, u64>
    decreases replicas.len(),
{
    if replicas.len() == 0 {
        Map::empty()
    } else {
        lags(committed, replicas.drop_last()).insert(
            replicas.last().replica_node_id,
            lag(committed, replicas.last()),
        )
    }
}

/// Whether replicas stand in ascending order of their ids, no two of which are the same.
pub open spec fn by_id(replicas: Seq<ProgressModel>) -> bool {
    strictly_by_id::<ReplicaProgress>(replicas)
}

/// Replicas with one more that has acknowledged nothing, sorted by their ids, unless there is one
/// of the id.
pub open spec fn with_replica(replicas: Seq<ProgressModel>, id: Seq<char>) -> Seq<ProgressModel> {
    if replica_at(replicas, id) < replicas.len() {
        replicas
    } else {
        sorted_by_id::<ReplicaProgress>(
            replicas.push(
                ProgressModel {
                    replica_node_id: id,
                    last_acked_source_lsn: 0,
                    last_applied_source_lsn: 0,
                },
            ),
        )
    }
}

/// Replicas that stand in ascending order of their ids stay so when one more is added, or how far
/// one has come is noted.
pub proof fn law_replicas_stay_in_order(
    replicas: Seq<ProgressModel>,
    id: Seq<char>,
    progress: ProgressModel,
)
    requires
        by_id(replicas),
        progress.replica_node_id == id,
    ensures
        by_id(with_replica(replicas, id)),
        replica_at(replicas, id) < replicas.len() ==> by_id(
            replicas.update(replica_at(replicas, id), progress),
        ),
{
    lemma_first_of::<ReplicaProgress>(replicas, id);
    let at = replica_at(replicas, id);
    if at < replicas.len() {
        let after = replicas.update(at, progress);
        assert forall|i: int, j: int| 0 <= i < j < after.len() implies text::text_less(
            ReplicaProgress::id_of(#[trigger] after[i]),
            ReplicaProgress::id_of(#[trigger] after[j]),
        ) by {
            assert(after[i].replica_node_id == replicas[i].replica_node_id);
            assert(after[j].replica_node_id == replicas[j].replica_node_id);
        }
    } else {
        law_sorting_one_more::<ReplicaProgress>(
            replicas,
            ProgressModel {
                replica_node_id: id,
                last_acked_source_lsn: 0,
                last_applied_source_lsn: 0,
            },
        );
    }
}

/// Where no two replicas have the same id, every replica is in the list of lags with what it is
/// behind by itself.
pub proof fn law_lags(committed: u64, replicas: Seq<ProgressModel>, id: Seq<char>)
    ensures
        lags(committed, replicas).contains_key(id) <==> replica_at(replicas, id) < replicas.len(),
        by_id(replicas) && replica_at(replicas, id) < replicas.len() ==> lags(
            committed,
            replicas,
        )[id] == lag(committed, replicas[replica_at(replicas, id)]),
    decreases replicas.len(),
{
    lemma_first_of::<ReplicaProgress>(replicas, id);
    if replicas.len() > 0 {
        let short = replicas.drop_last();
        let last = replicas[replicas.len() - 1];
        law_lags(committed, short, id);
        lemma_first_of::<ReplicaProgress>(short, id);
        let at = replica_at(replicas, id);
        let at_short = replica_at(short, id);
        if at_short < short.len() {
            assert(short[at_short] == replicas[at_short]);
            if at > at_short {
                assert(ReplicaProgress::id_of(replicas[at_short]) != id);
            }
            if at < at_short {
                assert(ReplicaProgress::id_of(short[at]) != id);
                assert(short[at] == replicas[at]);
            }
        } else if at < short.len() {
            assert(ReplicaProgress::id_of(short[at]) != id);
            assert(short[at] == replicas[at]);
        }
        if last.replica_node_id == id && at == replicas.len() {
            assert(ReplicaProgress::id_of(replicas[replicas.len() - 1]) != id);
        }
        if by_id(replicas) {
            assert forall|i: int, j: int| 0 <= i < j < short.len() implies text::text_less(
                ReplicaProgress::id_of(#[trigger] short[i]),
                ReplicaProgress::id_of(#[trigger] short[j]),
            ) by {
                assert(short[i] == replicas[i]);
                assert(short[j] == replicas[j]);
            }
            if at < replicas.len() - 1 {
                assert(text::text_less(
                    ReplicaProgress::id_of(replicas[at]),
                    ReplicaProgress::id_of(replicas[replicas.len() - 1]),
                ));
                text::lemma_text_less_irreflexive(id);
            }
        }
    }
}

impl ReplicationStatus {
    /// Where replication stands on a node of its own.
    pub fn single_node(local_node_id: &str) -> (r: Self)
        ensures
            r@ == lone_status(local_node_id@),
    {
        let replicas: Vec<ReplicaProgress> = Vec::new();
        proof {
            assert(models(replicas@) =~= Seq::empty());
        }
        ReplicationStatus {
            mode: ReplicationMode::Disabled,
            local_node_id: local_node_id.to_owned(),
            leader_node_id: None,
            current_term: 0,
            last_applied_lsn: 0,
            last_committed_source_lsn: 0,
            last_pulled_source_lsn: 0,
            last_applied_source_lsn: 0,
            replicas,
        }
    }

    /// Where replication stands on the node `node-1`, on its own.
    pub fn single_node_default() -> (r: Self)
        ensures
            r@ == lone_status("node-1"@),
    {
        ReplicationStatus::single_node("node-1")
    }

    /// By how much a replica is behind what has been committed.
    pub fn replica_lag(&self, replica_node_id: &str) -> (r: Option<u64>)
        ensures
            ({
                let at = replica_at(self@.replicas, replica_node_id@);
                if at < self@.replicas.len() {
                    r == Some(lag(self@.last_committed_source_lsn, self@.replicas[at]))
                } else {
                    r is None
                }
            }),
    {
        let at: usize = find_first(&self.replicas, replica_node_id);
        if at < self.replicas.len() {
            assert(self@.replicas[at as int] == self.replicas@[at as int]@);
            Some(
                self.last_committed_source_lsn.saturating_sub(
                    self.replicas[at].last_acked_source_lsn,
                ),
            )
        } else {
            None
        }
    }
}

/// What is said where only a leader may act.
pub open spec fn leader_wanted() -> ErrorModel {
    ErrorModel::Conflict("replication operation requires leader mode"@)
}

/// What is said where only a follower may act.
pub open spec fn follower_wanted() -> ErrorModel {
    ErrorModel::Conflict("replication operation requires follower mode"@)
}

/// Accepts a leader.
pub fn ensure_leader(status: &ReplicationStatus) -> (r: Result<()>)
    ensures
        r is Ok <==> status.mode == ReplicationMode::Leader,
        r matches Err(e) ==> e@ == leader_wanted(),
{
    if status.mode != ReplicationMode::Leader {
        return Err(Undr9Error::Conflict("replication operation requires leader mode".to_owned()));
    }
    Ok(())
}

/// Accepts a follower.
pub fn ensure_follower(status: &ReplicationStatus) -> (r: Result<()>)
    ensures
        r is Ok <==> status.mode == ReplicationMode::Follower,
        r matches Err(e) ==> e@ == follower_wanted(),
{
    if status.mode != ReplicationMode::Follower {
        return Err(Undr9Error::Conflict("replication operation requires follower mode".to_owned()));
    }
    Ok(())
}

// ---------------------------------------------------------------------------------------------
// Taking records over
// ---------------------------------------------------------------------------------------------

/// What is said of a record of a past term.
pub open spec fn term_regression(follower_term: u64, leader_term: u64) -> ErrorModel {
    ErrorModel::Conflict(
        "replication term regression: follower term "@ + text::decimal(follower_term as nat)
            + " leader term "@ + text::decimal(leader_term as nat),
    )
}

/// What is said of a record of a past term.
fn past_term(follower_term: u64, leader_term: u64) -> (r: Undr9Error)
    ensures
        r@ == term_regression(follower_term, leader_term),
{
    let follower: String = text::decimal_text(follower_term as u128);
    let leader: String = text::decimal_text(leader_term as u128);
    let mut message: String = join3(
        "replication term regression: follower term ",
        follower.as_str(),
        " leader term ",
    );
    message.append(leader.as_str());
    Undr9Error::Conflict(message)
}

/// How a follower that takes records over has fared.
pub struct FollowModel {
    pub current_term: u64,
    pub last_pulled_source_lsn: u64,
    pub last_applied_source_lsn: u64,
    /// The last record that was taken over by these records, if one was.
    pub last: Option<u64>,
    pub error: Option<ErrorModel>,
}

/// How a follower fares with records, in turn: it refuses a record of a past term and all that
/// come after it, skips what it has taken over before, and takes the others over.
pub open spec fn followed(start: FollowModel, records: Seq<RecordModel>) -> FollowModel
    decreases records.len(),
{
    if records.len() == 0 {
        start
    } else {
        let before = followed(start, records.drop_last());
        let record = records.last();
        if before.error is Some {
            before
        } else if record.source_term < before.current_term {
            FollowModel {
                error: Some(term_regression(before.current_term, record.source_term)),
                ..before
            }
        } else if record.source_lsn <= before.last_applied_source_lsn {
            before
        } else {
            FollowModel {
                current_term: record.source_term,
                last_pulled_source_lsn: record.source_lsn,
                last_applied_source_lsn: record.source_lsn,
                last: Some(record.source_lsn),
                error: None,
            }
        }
    }
}

/// A follower that is about to take records over.
pub open spec fn follow_start(status: StatusModel) -> FollowModel {
    FollowModel {
        current_term: status.current_term,
        last_pulled_source_lsn: status.last_pulled_source_lsn,
        last_applied_source_lsn: status.last_applied_source_lsn,
        last: None,
        error: None,
    }
}

/// Where replication stands after a follower has taken records over.
pub open spec fn after_following(status: StatusModel, records: Seq<RecordModel>) -> StatusModel {
    let end = followed(follow_start(status), records);
    StatusModel {
        current_term: end.current_term,
        last_pulled_source_lsn: end.last_pulled_source_lsn,
        last_applied_source_lsn: end.last_applied_source_lsn,
        ..status
    }
}

/// The records that a follower takes over.
pub open spec fn accepted(start: FollowModel, records: Seq<RecordModel>) -> Seq<RecordModel>
    decreases records.len(),
{
    if records.len() == 0 {
        Seq::empty()
    } else {
        let before = followed(start, records.drop_last());
        let kept = accepted(start, records.drop_last());
        let record = records.last();
        if before.error is None && record.source_term >= before.current_term && record.source_lsn
            > before.last_applied_source_lsn {
            kept.push(record)
        } else {
            kept
        }
    }
}

/// The records that a follower has to take over, unless one of them is of a past term.
pub fn validate_replication_records(
    status: &ReplicationStatus,
    records: &[ReplicationRecord],
) -> (r: Result<Vec<ReplicationRecord>>)
    ensures
        r is Ok <==> followed(follow_start(status@), models(records@)).error is None,
        r matches Ok(list) ==> models(list@) == accepted(follow_start(status@), models(records@)),
        r matches Err(e) ==> followed(follow_start(status@), models(records@)).error == Some(e@),
{
    let ghost all = models(records@);
    let ghost start = follow_start(status@);
    let mut current_term: u64 = status.current_term;
    let mut last_applied_source_lsn: u64 = status.last_applied_source_lsn;
    let mut out: Vec<ReplicationRecord> = Vec::new();
    let mut i: usize = 0;
    proof {
        assert(all.take(0).len() == 0);
        assert(models(out@) =~= Seq::empty());
    }
    while i < records.len()
        invariant
            i <= records.len(),
            all == models(records@),
            start == follow_start(status@),
            followed(start, all.take(i as int)).error is None,
            followed(start, all.take(i as int)).current_term == current_term,
            followed(start, all.take(i as int)).last_applied_source_lsn == last_applied_source_lsn,
            models(out@) == accepted(start, all.take(i as int)),
        decreases records.len() - i,
    {
        proof {
            assert(all.take(i + 1).drop_last() =~= all.take(i as int));
            assert(all.take(i + 1).last() == records@[i as int]@);
        }
        let record: &ReplicationRecord = &records[i];
        if record.source_term < current_term {
            proof {
                lemma_refused_stays(start, all, i + 1);
            }
            return Err(past_term(current_term, record.source_term));
        }
        if record.source_lsn > last_applied_source_lsn {
            current_term = record.source_term;
            last_applied_source_lsn = record.source_lsn;
            let ghost held = out@;
            out.push(record.replicate());
            proof {
                assert(models(out@) =~= models(held).push(record@));
            }
        }
        i = i + 1;
    }
    proof {
        assert(all.take(i as int) =~= all);
    }
    Ok(out)
}

/// What a follower accepts it takes over without refusal, and ends where it would have ended with
/// all the records.
pub proof fn law_accepted_records_are_taken_over(start: FollowModel, records: Seq<RecordModel>)
    requires
        start.error is None,
    ensures
        followed(start, accepted(start, records)) == (FollowModel {
            error: None,
            ..followed(start, records)
        }),
    decreases records.len(),
{
    if records.len() > 0 {
        let short = records.drop_last();
        law_accepted_records_are_taken_over(start, short);
        let kept = accepted(start, short);
        let record = records.last();
        assert(kept.push(record).drop_last() =~= kept);
    }
}

/// A follower accepts the whole of a log that goes on where it stands: its terms never go back, and
/// its places only go forward.
pub proof fn law_a_log_that_goes_on_is_accepted_whole(
    start: FollowModel,
    records: Seq<RecordModel>,
)
    requires
        start.error is None,
        forall|i: int|
            0 <= i < records.len() ==> (#[trigger] records[i]).source_term >= start.current_term
                && records[i].source_lsn > start.last_applied_source_lsn,
        forall|i: int, j: int|
            0 <= i < j < records.len() ==> (#[trigger] records[i]).source_term <= (
            #[trigger] records[j]).source_term && records[i].source_lsn < records[j].source_lsn,
    ensures
        accepted(start, records) == records,
        followed(start, records).error is None,
        records.len() > 0 ==> followed(start, records).last_applied_source_lsn
            == records.last().source_lsn && followed(start, records).current_term
            == records.last().source_term,
        records.len() == 0 ==> followed(start, records) == start,
    decreases records.len(),
{
    if records.len() == 0 {
        assert(accepted(start, records) =~= records);
    } else {
        let short = records.drop_last();
        assert forall|i: int| 0 <= i < short.len() implies (#[trigger] short[i]).source_term
            >= start.current_term && short[i].source_lsn > start.last_applied_source_lsn by {
            assert(short[i] == records[i]);
        }
        assert forall|i: int, j: int| 0 <= i < j < short.len() implies (
        #[trigger] short[i]).source_term <= (#[trigger] short[j]).source_term
            && short[i].source_lsn < short[j].source_lsn by {
            assert(short[i] == records[i]);
            assert(short[j] == records[j]);
        }
        law_a_log_that_goes_on_is_accepted_whole(start, short);
        let last = records[records.len() - 1];
        if short.len() > 0 {
            let before = records[short.len() - 1];
            assert(short.last() == before);
            assert(before.source_lsn < last.source_lsn);
        }
        assert(accepted(start, records) =~= records);
    }
}

/// Once a record has been refused, nothing more is taken over.
proof fn lemma_refused_stays(start: FollowModel, records: Seq<RecordModel>, i: int)
    requires
        0 <= i <= records.len(),
        followed(start, records.take(i)).error is Some,
    ensures
        followed(start, records) == followed(start, records.take(i)),
    decreases records.len(),
{
    if i == records.len() {
        assert(records.take(i) =~= records);
    } else {
        assert(records.drop_last().take(i) =~= records.take(i));
        lemma_refused_stays(start, records.drop_last(), i);
    }
}

// ---------------------------------------------------------------------------------------------
// The manager
// ---------------------------------------------------------------------------------------------

/// Keeps where replication stands and what a leader has committed.
#[derive(Debug, PartialEq, Eq)]
pub struct ReplicationManager {
    status: ReplicationStatus,
    history: Vec<ReplicationRecord>,
}

/// The model of a manager.
pub struct ManagerModel {
    pub status: StatusModel,
    pub history: Seq<RecordModel>,
}

impl View for ReplicationManager {
    type V = ManagerModel;

    closed spec fn view(&self) -> ManagerModel {
        ManagerModel { status: self.status@, history: models(self.history@) }
    }
}

impl ReplicationManager {
    /// The manager of a status and a history that were stored.
    pub fn from_stored(status: ReplicationStatus, history: Vec<ReplicationRecord>) -> (r: Self)
        ensures
            r@ == (ManagerModel { status: status@, history: models(history@) }),
    {
        ReplicationManager { status, history }
    }

    /// What the leader has committed.
    pub fn history(&self) -> (r: &Vec<ReplicationRecord>)
        ensures
            models(r@) == self@.history,
    {
        &self.history
    }

    /// The manager of a node of its own.
    pub fn single_node(local_node_id: &str) -> (r: Self)
        ensures
            r@ == (ManagerModel { status: lone_status(local_node_id@), history: Seq::empty() }),
    {
        let history: Vec<ReplicationRecord> = Vec::new();
        proof {
            assert(models(history@) =~= Seq::empty());
        }
        ReplicationManager { status: ReplicationStatus::single_node(local_node_id), history }
    }

    /// The manager of the node `node-1`, on its own.
    pub fn single_node_default() -> (r: Self)
        ensures
            r@ == (ManagerModel { status: lone_status("node-1"@), history: Seq::empty() }),
    {
        ReplicationManager::single_node("node-1")
    }

    /// Where replication stands.
    pub fn status(&self) -> (r: &ReplicationStatus)
        ensures
            r@ == self@.status,
    {
        &self.status
    }

    /// The records behind a place in the log.
    pub fn history_since(&self, after_source_lsn: u64) -> (r: Vec<ReplicationRecord>)
        ensures
            models(r@) == self@.history.filter(
                |record: RecordModel| record.source_lsn > after_source_lsn,
            ),
    {
        let ghost all = self@.history;
        let ghost test = |record: RecordModel| record.source_lsn > after_source_lsn;
        let history: &Vec<ReplicationRecord> = &self.history;
        let mut out: Vec<ReplicationRecord> = Vec::new();
        let mut i: usize = 0;
        proof {
            reveal(Seq::filter);
            assert(all.take(0).filter(test).len() == 0);
            assert(models(out@) =~= all.take(0).filter(test));
        }
        while i < history.len()
            invariant
                i <= history.len(),
                all == models(history@),
                test == (|record: RecordModel| record.source_lsn > after_source_lsn),
                models(out@) == all.take(i as int).filter(test),
            decreases history.len() - i,
        {
            proof {
                lemma_filter_step(all, test, i as int);
                assert(all[i as int] == history@[i as int]@);
            }
            let ghost held = out@;
            if history[i].source_lsn > after_source_lsn {
                out.push(history[i].replicate());
                proof {
                    assert(models(out@) =~= models(held).push(history@[i as int]@));
                }
            }
            i = i + 1;
        }
        proof {
            assert(all.take(i as int) =~= all);
        }
        out
    }

    /// Makes this node the leader of a term.
    pub fn configure_as_leader(&mut self, local_node_id: &str, current_term: u64)
        ensures
            final(self)@ == (ManagerModel {
                status: StatusModel {
                    mode: ReplicationMode::Leader,
                    local_node_id: local_node_id@,
                    leader_node_id: Some(local_node_id@),
                    current_term,
                    ..old(self)@.status
                },
                ..old(self)@
            }),
    {
        self.status.mode = ReplicationMode::Leader;
        self.status.local_node_id = local_node_id.to_owned();
        self.status.leader_node_id = Some(local_node_id.to_owned());
        self.status.current_term = current_term;
    }

    /// Makes this node a follower in a term.
    pub fn configure_as_follower(
        &mut self,
        local_node_id: &str,
        leader_node_id: &str,
        current_term: u64,
    )
        ensures
            final(self)@ == (ManagerModel {
                status: StatusModel {
                    mode: ReplicationMode::Follower,
                    local_node_id: local_node_id@,
                    leader_node_id: Some(leader_node_id@),
                    current_term,
                    ..old(self)@.status
                },
                ..old(self)@
            }),
    {
        self.status.mode = ReplicationMode::Follower;
        self.status.local_node_id = local_node_id.to_owned();
        self.status.leader_node_id = Some(leader_node_id.to_owned());
        self.status.current_term = current_term;
    }

    /// Puts this node on its own: its replicas and what it has committed are forgotten.
    pub fn disable(&mut self, local_node_id: &str)
        ensures
            final(self)@ == (ManagerModel {
                status: StatusModel {
                    mode: ReplicationMode::Disabled,
                    local_node_id: local_node_id@,
                    leader_node_id: None,
                    replicas: Seq::empty(),
                    ..old(self)@.status
                },
                history: Seq::empty(),
            }),
    {
        self.status.mode = ReplicationMode::Disabled;
        self.status.local_node_id = local_node_id.to_owned();
        self.status.leader_node_id = None;
        let replicas: Vec<ReplicaProgress> = Vec::new();
        let history: Vec<ReplicationRecord> = Vec::new();
        proof {
            assert(models(replicas@) =~= Seq::empty());
            assert(models(history@) =~= Seq::empty());
        }
        self.status.replicas = replicas;
        self.history = history;
    }

    /// Takes note of what has been applied here.
    pub fn observe_local_apply(&mut self, local_lsn: u64)
        ensures
            final(self)@ == (ManagerModel {
                status: StatusModel { last_applied_lsn: local_lsn, ..old(self)@.status },
                ..old(self)@
            }),
    {
        self.status.last_applied_lsn = local_lsn;
    }

    /// Adds a replica, unless there is one of its id.
    pub fn register_replica(&mut self, replica_node_id: &str) -> (r: Result<()>)
        ensures
            r is Ok <==> old(self)@.status.mode == ReplicationMode::Leader,
            r is Ok ==> final(self)@ == (ManagerModel {
                status: StatusModel {
                    replicas: with_replica(old(self)@.status.replicas, replica_node_id@),
                    ..old(self)@.status
                },
                ..old(self)@
            }),
            r matches Err(e) ==> final(self)@ == old(self)@ && e@ == leader_wanted(),
    {
        match ensure_leader(&self.status) {
            Ok(_) => {},
            Err(error) => {
                return Err(error);
            },
        }
        let ghost before = self@.status.replicas;
        let at: usize = find_first(&self.status.replicas, replica_node_id);
        if at == self.status.replicas.len() {
            let progress: ReplicaProgress = ReplicaProgress {
                replica_node_id: replica_node_id.to_owned(),
                last_acked_source_lsn: 0,
                last_applied_source_lsn: 0,
            };
            let ghost model = progress@;
            self.status.replicas.push(progress);
            proof {
                assert(models(self.status.replicas@) =~= before.push(model));
            }
            sort_by_id(&mut self.status.replicas);
        }
        Ok(())
    }

    /// Takes note of a batch that this leader has committed.
    pub fn record_leader_commit(&mut self, source_lsn: u64, batch: WriteBatch) -> (r: Result<()>)
        ensures
            r is Ok <==> old(self)@.status.mode == ReplicationMode::Leader,
            r is Ok ==> final(self)@ == (ManagerModel {
                status: StatusModel {
                    last_committed_source_lsn: source_lsn,
                    last_applied_lsn: source_lsn,
                    last_applied_source_lsn: source_lsn,
                    ..old(self)@.status
                },
                history: old(self)@.history.push(
                    RecordModel {
                        source_node_id: old(self)@.status.local_node_id,
                        source_term: old(self)@.status.current_term,
                        source_lsn,
                        batch: batch@,
                    },
                ),
            }),
            r matches Err(e) ==> final(self)@ == old(self)@ && e@ == leader_wanted(),
    {
        match ensure_leader(&self.status) {
            Ok(_) => {},
            Err(error) => {
                return Err(error);
            },
        }
        let ghost before = self@.history;
        self.status.last_committed_source_lsn = source_lsn;
        self.status.last_applied_lsn = source_lsn;
        self.status.last_applied_source_lsn = source_lsn;
        let record: ReplicationRecord = ReplicationRecord {
            source_node_id: self.status.local_node_id.clone(),
            source_term: self.status.current_term,
            source_lsn,
            batch,
        };
        self.history.push(record);
        proof {
            assert(models(self.history@) =~= before.push(record@));
        }
        Ok(())
    }

    /// Takes note of how far a replica has come.
    pub fn acknowledge_replica(&mut self, replica_node_id: &str, source_lsn: u64) -> (r: Result<()>)
        ensures
            ({
                let at = replica_at(old(self)@.status.replicas, replica_node_id@);
                let leads = old(self)@.status.mode == ReplicationMode::Leader;
                let known = at < old(self)@.status.replicas.len();
                &&& r is Ok <==> leads && known
                &&& r is Ok ==> final(self)@ == (ManagerModel {
                    status: StatusModel {
                        replicas: old(self)@.status.replicas.update(
                            at,
                            ProgressModel {
                                replica_node_id: replica_node_id@,
                                last_acked_source_lsn: source_lsn,
                                last_applied_source_lsn: source_lsn,
                            },
                        ),
                        ..old(self)@.status
                    },
                    ..old(self)@
                })
                &&& r matches Err(e) ==> final(self)@ == old(self)@ && e@ == if !leads {
                    leader_wanted()
                } else {
                    ErrorModel::NotFound("replica '"@ + replica_node_id@ + "' is not registered"@)
                }
            }),
    {
        match ensure_leader(&self.status) {
            Ok(_) => {},
            Err(error) => {
                return Err(error);
            },
        }
        let at: usize = find_first(&self.status.replicas, replica_node_id);
        if at == self.status.replicas.len() {
            return Err(
                Undr9Error::NotFound(join3("replica '", replica_node_id, "' is not registered")),
            );
        }
        let ghost before = self@.status.replicas;
        let progress: ReplicaProgress = ReplicaProgress {
            replica_node_id: replica_node_id.to_owned(),
            last_acked_source_lsn: source_lsn,
            last_applied_source_lsn: source_lsn,
        };
        let ghost model = progress@;
        self.status.replicas[at] = progress;
        proof {
            assert(self@.status.replicas =~= before.update(at as int, model));
        }
        Ok(())
    }

    /// Takes over the records of a leader: see [`followed`]. What was taken over before a record
    /// was refused stays so.
    pub fn apply_follower_records(&mut self, records: &[ReplicationRecord]) -> (r: Result<
        Option<u64>,
    >)
        ensures
            ({
                let follows = old(self)@.status.mode == ReplicationMode::Follower;
                let end = followed(follow_start(old(self)@.status), models(records@));
                &&& r is Ok <==> follows && end.error is None
                &&& r matches Ok(last) ==> last == end.last
                &&& r matches Err(e) ==> Some(e@) == (if follows {
                    end.error
                } else {
                    Some(follower_wanted())
                })
                &&& final(self)@ == (ManagerModel {
                    status: if follows {
                        after_following(old(self)@.status, models(records@))
                    } else {
                        old(self)@.status
                    },
                    ..old(self)@
                })
            }),
    {
        match ensure_follower(&self.status) {
            Ok(_) => {},
            Err(error) => {
                return Err(error);
            },
        }
        let ghost all = models(records@);
        let ghost start = follow_start(self@.status);
        let ghost before = self@;
        let ghost status0 = self.status@;
        let mut last: Option<u64> = None;
        let mut i: usize = 0;
        proof {
            assert(all.take(0).len() == 0);
        }
        while i < records.len()
            invariant
                i <= records.len(),
                all == models(records@),
                start == follow_start(status0),
                status0 == before.status,
                before == old(self)@,
                status0.mode == ReplicationMode::Follower,
                self@.history == before.history,
                self.status@ == after_following(status0, all.take(i as int)),
                followed(start, all.take(i as int)).error is None,
                followed(start, all.take(i as int)).last == last,
            decreases records.len() - i,
        {
            proof {
                assert(all.take(i + 1).drop_last() =~= all.take(i as int));
                assert(all.take(i + 1).last() == records@[i as int]@);
            }
            let record: &ReplicationRecord = &records[i];
            if record.source_term < self.status.current_term {
                let error: Undr9Error = past_term(self.status.current_term, record.source_term);
                proof {
                    lemma_refused_stays(start, all, i + 1);
                }
                return Err(error);
            }
            if record.source_lsn > self.status.last_applied_source_lsn {
                self.status.current_term = record.source_term;
                self.status.last_pulled_source_lsn = record.source_lsn;
                self.status.last_applied_source_lsn = record.source_lsn;
                last = Some(record.source_lsn);
            }
            i = i + 1;
        }
        proof {
            assert(all.take(i as int) =~= all);
        }
        Ok(last)
    }

    /// Makes this node the leader of a term: what it has applied counts as committed.
    pub fn promote_to_leader(&mut self, new_term: u64)
        ensures
            final(self)@ == (ManagerModel {
                status: StatusModel {
                    mode: ReplicationMode::Leader,
                    leader_node_id: Some(old(self)@.status.local_node_id),
                    current_term: new_term,
                    last_committed_source_lsn: old(self)@.status.last_applied_source_lsn,
                    ..old(self)@.status
                },
                ..old(self)@
            }),
    {
        let local_node_id: String = self.status.local_node_id.clone();
        self.status.mode = ReplicationMode::Leader;
        self.status.leader_node_id = Some(local_node_id);
        self.status.current_term = new_term;
        self.status.last_committed_source_lsn = self.status.last_applied_source_lsn;
    }

    /// Makes this node follow a leader in a term.
    pub fn failover_to_follower(&mut self, leader_node_id: &str, new_term: u64)
        ensures
            final(self)@ == (ManagerModel {
                status: StatusModel {
                    mode: ReplicationMode::Follower,
                    leader_node_id: Some(leader_node_id@),
                    current_term: new_term,
                    ..old(self)@.status
                },
                ..old(self)@
            }),
    {
        self.status.mode = ReplicationMode::Follower;
        self.status.leader_node_id = Some(leader_node_id.to_owned());
        self.status.current_term = new_term;
    }

    /// By how much every replica is behind what has been committed.
    pub fn replica_lag_map(&self) -> (r: OrderedMap<String, u64>)
        ensures
            r@ == lags(self@.status.last_committed_source_lsn, self@.status.replicas),
    {
        let ghost all = self@.status.replicas;
        let ghost committed = self@.status.last_committed_source_lsn;
        let replicas: &Vec<ReplicaProgress> = &self.status.replicas;
        let mut out: OrderedMap<String, u64> = OrderedMap::new();
        let mut i: usize = 0;
        proof {
            assert(out@ =~= lags(committed, all.take(0)));
        }
        while i < replicas.len()
            invariant
                i <= replicas.len(),
                all == models(replicas@),
                committed == self.status.last_committed_source_lsn,
                out@ == lags(committed, all.take(i as int)),
            decreases replicas.len() - i,
        {
            proof {
                assert(all.take(i + 1).drop_last() =~= all.take(i as int));
                assert(all.take(i + 1).last() == replicas@[i as int]@);
            }
            out.insert(
                replicas[i].replica_node_id.clone(),
                self.status.last_committed_source_lsn.saturating_sub(
                    replicas[i].last_acked_source_lsn,
                ),
            );
            i = i + 1;
        }
        proof {
            assert(all.take(i as int) =~= all);
        }
        out
    }
}

/// Whatever a follower takes over, its term and its place in the log never go back, and its place
/// is that of the last record it took over.
pub proof fn law_following_goes_forward(status: StatusModel, records: Seq<RecordModel>)
    ensures
        after_following(status, records).current_term >= status.current_term,
        after_following(status, records).last_applied_source_lsn >= status.last_applied_source_lsn,
        followed(follow_start(status), records).last matches Some(lsn) ==> after_following(
            status,
            records,
        ).last_applied_source_lsn == lsn && lsn > status.last_applied_source_lsn,
        followed(follow_start(status), records).last is None ==> after_following(status, records)
            == status,
    decreases records.len(),
{
    if records.len() > 0 {
        law_following_goes_forward(status, records.drop_last());
    }
}

/// A follower that is given the same records again takes nothing over again, provided that none of
/// them was refused and none is of a term before the one that it has reached.
pub proof fn law_following_again(status: StatusModel, records: Seq<RecordModel>)
    requires
        followed(follow_start(status), records).error is None,
        forall|i: int|
            0 <= i < records.len() ==> (#[trigger] records[i]).source_term >= after_following(
                status,
                records,
            ).current_term,
    ensures
        after_following(after_following(status, records), records) == after_following(
            status,
            records,
        ),
        followed(follow_start(after_following(status, records)), records).last is None,
        followed(follow_start(after_following(status, records)), records).error is None,
{
    let reached = after_following(status, records);
    lemma_all_behind(status, records);
    lemma_nothing_new(follow_start(reached), records);
}

/// Every record that was not refused is at or before the place that the follower has reached.
proof fn lemma_all_behind(status: StatusModel, records: Seq<RecordModel>)
    requires
        followed(follow_start(status), records).error is None,
    ensures
        forall|i: int|
            0 <= i < records.len() ==> (#[trigger] records[i]).source_lsn <= after_following(
                status,
                records,
            ).last_applied_source_lsn,
    decreases records.len(),
{
    if records.len() > 0 {
        let short = records.drop_last();
        lemma_all_behind(status, short);
        assert forall|i: int| 0 <= i < records.len() implies (#[trigger] records[i]).source_lsn
            <= after_following(status, records).last_applied_source_lsn by {
            if i < short.len() {
                assert(records[i] == short[i]);
            }
        }
    }
}

proof fn lemma_nothing_new(start: FollowModel, records: Seq<RecordModel>)
    requires
        start.error is None,
        start.last is None,
        forall|i: int|
            0 <= i < records.len() ==> (#[trigger] records[i]).source_lsn
                <= start.last_applied_source_lsn && records[i].source_term >= start.current_term,
    ensures
        followed(start, records) == start,
    decreases records.len(),
{
    if records.len() > 0 {
        let short = records.drop_last();
        assert forall|i: int| 0 <= i < short.len() implies (#[trigger] short[i]).source_lsn
            <= start.last_applied_source_lsn && short[i].source_term >= start.current_term by {
            assert(short[i] == records[i]);
        }
        lemma_nothing_new(start, short);
        assert(records.last() == records[records.len() - 1]);
    }
}

} // verus!
