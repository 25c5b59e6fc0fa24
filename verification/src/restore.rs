//! Restoring a backup into a fresh cluster.
use vstd::prelude::*;
use vstd::string::*;
use vstd::utf8::{decode_utf8, valid_utf8};

use crate::backup::{
    BackupProvenance, BackupV2, BackupView, CheckpointFacts, BACKUP_MAX_FILE,
    BACKUP_V2_FOOTER_BYTES, BACKUP_V2_HEADER_BYTES, LEGACY_BACKUP_VERSION,
};
use crate::boot::{boot_step, recovered, BootStepView, FoundCheckpoint};
use crate::config::{config_of, parse_config};
use crate::config_text::{fresh_restore_config, restored_config};
use crate::fault::{because, fault, fault_of, handed_on, outcome_is, Fault, FaultKind, FaultView};
use crate::hex::{zero_id, ClusterId};
use crate::identity::{identity_of, DiskIdentity, IdentityView, IDENTITY_ACTIVE};
use crate::ids::{LogIndex, NodeId, Term, Time};
use crate::legacy::{FilesView, LegacyArchive};
use crate::membership::{MembershipState, MembershipView, ATOMIC_BATCH_FEATURE};
use crate::node_set::NodeSet;
use crate::raft_membership::LeadershipTransferState;
use crate::raft_types::SEMANTIC_VERSION_V3;
use crate::recovery::{
    record_views, ClusterPolicy, DurableRecord, Genesis, GenesisView, LogView, Origin,
    PolicyLimits, PolicyView, PublishedCheckpoint, RecordView, RecoveredLog, SnapshotMark,
};
use crate::text::{copy_bytes, utf8_text};
use crate::wire::{read_u16, u16_at, MAX_CODEC_BYTES};
use crate::words::texts;

verus! {

/// The reader that a store of the second format calls for.
pub const STORAGE_V2_MIN_READER: u16 = 2;

/// A key with its value in a logical checkpoint.
#[derive(Debug, PartialEq, Eq)]
pub struct LogicalEntry {
    pub key: Vec<u8>,
    pub sequence: u64,
    pub value: Vec<u8>,
    pub deadline: Option<Time>,
}

#[verifier::ext_equal]
pub struct LogicalEntryView {
    pub key: Seq<u8>,
    pub sequence: u64,
    pub value: Seq<u8>,
    pub deadline: Option<Time>,
}

impl View for LogicalEntry {
    type V = LogicalEntryView;

    open spec fn view(&self) -> LogicalEntryView {
        LogicalEntryView {
            key: self.key@,
            sequence: self.sequence,
            value: self.value@,
            deadline: self.deadline,
        }
    }
}

impl Clone for LogicalEntry {
    fn clone(&self) -> (copy: Self)
        ensures
            copy@ == self@,
    {
        LogicalEntry {
            key: copy_bytes(self.key.as_slice()),
            sequence: self.sequence,
            value: copy_bytes(self.value.as_slice()),
            deadline: self.deadline,
        }
    }
}

pub open spec fn logical_views(entries: Seq<LogicalEntry>) -> Seq<LogicalEntryView> {
    entries.map_values(|entry: LogicalEntry| entry@)
}

/// The state of a cluster at one applied index. The table of client sessions is
/// carried through as the bytes that it is written as.
#[derive(Debug, PartialEq, Eq)]
pub struct LogicalSnapshot {
    pub cluster_id: ClusterId,
    pub policy: ClusterPolicy,
    pub membership: MembershipState,
    pub entries: Vec<LogicalEntry>,
    pub store_sequence: u64,
    pub applied_index: LogIndex,
    pub applied_term: Term,
    pub last_leader_time: Time,
    pub sessions: Vec<u8>,
    pub leadership_transfer: Option<LeadershipTransferState>,
}

#[verifier::ext_equal]
pub struct SnapshotView {
    pub cluster_id: Seq<u8>,
    pub policy: PolicyView,
    pub membership: MembershipView,
    pub entries: Seq<LogicalEntryView>,
    pub store_sequence: u64,
    pub applied_index: LogIndex,
    pub applied_term: Term,
    pub last_leader_time: Time,
    pub sessions: Seq<u8>,
    pub leadership_transfer: Option<LeadershipTransferState>,
}

impl View for LogicalSnapshot {
    type V = SnapshotView;

    open spec fn view(&self) -> SnapshotView {
        SnapshotView {
            cluster_id: self.cluster_id@,
            policy: self.policy@,
            membership: self.membership@,
            entries: logical_views(self.entries@),
            store_sequence: self.store_sequence,
            applied_index: self.applied_index,
            applied_term: self.applied_term,
            last_leader_time: self.last_leader_time,
            sessions: self.sessions@,
            leadership_transfer: self.leadership_transfer,
        }
    }
}

impl LogicalSnapshot {
    /// What a snapshot says of itself.
    pub fn facts(&self) -> (facts: CheckpointFacts)
        ensures
            facts == snapshot_facts(self@),
    {
        CheckpointFacts {
            applied_index: self.applied_index,
            applied_term: self.applied_term,
            last_leader_time: self.last_leader_time,
            policy_hash: self.policy.hash,
            active_features: self.membership.active_features,
        }
    }
}

pub open spec fn snapshot_facts(snapshot: SnapshotView) -> CheckpointFacts {
    CheckpointFacts {
        applied_index: snapshot.applied_index,
        applied_term: snapshot.applied_term,
        last_leader_time: snapshot.last_leader_time,
        policy_hash: snapshot.policy.hash,
        active_features: snapshot.membership.active_features,
    }
}

/// The bundle of a marked checkpoint.
pub open spec fn exported(
    identity: IdentityView,
    mark: SnapshotMark,
    checkpoint: Seq<u8>,
    snapshot: SnapshotView,
) -> BackupView {
    BackupView {
        source_cluster_id: identity.cluster_id,
        source_index: mark.index,
        source_term: mark.term,
        source_last_leader_time: snapshot.last_leader_time,
        source_policy_hash: snapshot.policy.hash,
        source_min_semantic: identity.min_semantic_reader,
        source_active_features: snapshot.membership.active_features,
        checkpoint,
        provenance: BackupProvenance::LogicalCluster,
    }
}

/// Composes the bundle of a marked checkpoint.
pub fn backup_data_dir(
    identity: &DiskIdentity,
    mark: &SnapshotMark,
    checkpoint: Vec<u8>,
    snapshot: &LogicalSnapshot,
) -> (backup: BackupV2)
    ensures
        backup@ == exported(identity@, *mark, checkpoint@, snapshot@),
        backup.provenance == BackupProvenance::LogicalCluster,
{
    BackupV2 {
        source_cluster_id: identity.cluster_id,
        source_index: mark.index,
        source_term: mark.term,
        source_last_leader_time: snapshot.last_leader_time,
        source_policy_hash: snapshot.policy.hash,
        source_min_semantic: identity.min_semantic_reader,
        source_active_features: snapshot.membership.active_features,
        checkpoint,
        provenance: BackupProvenance::LogicalCluster,
    }
}

/// Why a restore is refused before its input is looked at, if it is.
pub open spec fn restore_request_refusal(cluster: Seq<u8>, node: u64, target_exists: bool) -> Option<
    FaultView,
> {
    if zero_id(cluster) || node == 0 {
        Some(because(FaultKind::InvalidInput, "restore identity"))
    } else if target_exists {
        Some(because(FaultKind::AlreadyExists, "restore target must not exist"))
    } else {
        None
    }
}

/// Decides whether a restore may look at its input.
pub fn check_restore_request(cluster: &ClusterId, node: u64, target_exists: bool) -> (result: Result<
    (),
    Fault,
>)
    ensures
        outcome_is(result, restore_request_refusal(cluster@, node, target_exists)),
{
    if cluster.is_zero() || node == 0 {
        return Err(fault(FaultKind::InvalidInput, "restore identity"));
    }
    if target_exists {
        return Err(fault(FaultKind::AlreadyExists, "restore target must not exist"));
    }
    Ok(())
}

/// Why the file of a backup is refused, if it is.
pub open spec fn restore_input_refusal(is_file: bool, bytes: u64) -> Option<FaultView> {
    if !is_file {
        Some(because(FaultKind::InvalidInput, "backup input must be a regular file"))
    } else if bytes > BACKUP_MAX_FILE + BACKUP_V2_HEADER_BYTES + BACKUP_V2_FOOTER_BYTES {
        Some(because(FaultKind::InvalidData, "backup input exceeds limit"))
    } else {
        None
    }
}

/// Decides whether the file of a backup may be read.
pub fn check_restore_input(is_file: bool, bytes: u64) -> (result: Result<(), Fault>)
    ensures
        outcome_is(result, restore_input_refusal(is_file, bytes)),
{
    if !is_file {
        return Err(fault(FaultKind::InvalidInput, "backup input must be a regular file"));
    }
    if bytes > (BACKUP_MAX_FILE + BACKUP_V2_HEADER_BYTES + BACKUP_V2_FOOTER_BYTES) as u64 {
        return Err(fault(FaultKind::InvalidData, "backup input exceeds limit"));
    }
    Ok(())
}

/// Which kind of backup bytes are.
#[derive(Clone, Copy, Debug, PartialEq, Eq, Structural)]
pub enum BackupFormat {
    Legacy,
    Bundle,
}

/// Which kind of backup bytes are, where the operator takes it.
pub open spec fn format_of(bytes: Seq<u8>, accept_legacy: bool) -> Result<BackupFormat, FaultView> {
    match u16_at(bytes, 4) {
        None => Err(because(FaultKind::UnexpectedEof, "truncated backup")),
        Some(version) => if version != LEGACY_BACKUP_VERSION {
            Ok(BackupFormat::Bundle)
        } else if accept_legacy {
            Ok(BackupFormat::Legacy)
        } else {
            Err(
                because(
                    FaultKind::InvalidInput,
                    "legacy node backup requires --accept-legacy-node-backup",
                ),
            )
        },
    }
}

/// Decides how a backup is read. The archive of a node's files is read only
/// where the operator says so.
pub fn backup_format(bytes: &[u8], accept_legacy: bool) -> (result: Result<BackupFormat, Fault>)
    ensures
        match result {
            Ok(format) => format_of(bytes@, accept_legacy) == Ok::<BackupFormat, FaultView>(format),
            Err(error) => format_of(bytes@, accept_legacy) == Err::<BackupFormat, FaultView>(
                error@,
            ),
        },
{
    match read_u16(bytes, 4) {
        None => Err(fault(FaultKind::UnexpectedEof, "truncated backup")),
        Some(version) => if version != LEGACY_BACKUP_VERSION {
            Ok(BackupFormat::Bundle)
        } else if accept_legacy {
            Ok(BackupFormat::Legacy)
        } else {
            Err(
                fault(
                    FaultKind::InvalidInput,
                    "legacy node backup requires --accept-legacy-node-backup",
                ),
            )
        },
    }
}

/// What a host can hold. `valid` says that its limits fit together.
#[derive(Clone, Copy, Debug, PartialEq, Eq, Structural)]
pub struct HostLimits {
    pub max_snapshot_bytes: u64,
    pub valid: bool,
}

/// Whether one of a policy's messages is larger than any codec takes.
pub open spec fn oversized(limits: PolicyLimits) -> bool {
    ||| limits.max_key_bytes > MAX_CODEC_BYTES
    ||| limits.max_value_bytes > MAX_CODEC_BYTES
    ||| limits.max_command_bytes > MAX_CODEC_BYTES
    ||| limits.max_reply_bytes > MAX_CODEC_BYTES
    ||| limits.max_batch_bytes > MAX_CODEC_BYTES
    ||| limits.max_batch_reply_bytes > MAX_CODEC_BYTES
}

/// Whether this host can honor what a backup comes with.
pub open spec fn restorable(
    backup: BackupView,
    policy: PolicyView,
    active_features: u64,
    host: HostLimits,
) -> bool {
    &&& backup.source_active_features & !ATOMIC_BATCH_FEATURE == 0
    &&& backup.source_active_features != 0 ==> backup.source_min_semantic >= SEMANTIC_VERSION_V3
    &&& backup.source_policy_hash == policy.hash
    &&& backup.source_active_features == active_features
    &&& policy.limits.max_live_logical_bytes <= host.max_snapshot_bytes
    &&& !oversized(policy.limits)
    &&& policy.limits.valid
    &&& host.valid
}

/// Decides whether this host can honor what a backup comes with.
pub fn validate_restore_capabilities(
    backup: &BackupV2,
    policy: &ClusterPolicy,
    active_features: u64,
    host: &HostLimits,
) -> (result: Result<(), Fault>)
    ensures
        outcome_is(
            result,
            if restorable(backup@, policy@, active_features, *host) {
                None
            } else {
                Some(
                    because(
                        FaultKind::InvalidInput,
                        "restore host cannot honor source policy/features",
                    ),
                )
            },
        ),
{
    let limit: u64 = MAX_CODEC_BYTES as u64;
    let limits = &policy.limits;
    let unsupported_feature = backup.source_active_features & !ATOMIC_BATCH_FEATURE != 0;
    let semantic_too_old = backup.source_active_features != 0 && backup.source_min_semantic
        < SEMANTIC_VERSION_V3;
    let allocation_too_large = limits.max_key_bytes > limit || limits.max_value_bytes > limit
        || limits.max_command_bytes > limit || limits.max_reply_bytes > limit
        || limits.max_batch_bytes > limit || limits.max_batch_reply_bytes > limit;
    if unsupported_feature || semantic_too_old || backup.source_policy_hash != policy.hash
        || backup.source_active_features != active_features || limits.max_live_logical_bytes
        > host.max_snapshot_bytes || allocation_too_large || !limits.valid || !host.valid {
        return Err(
            fault(FaultKind::InvalidInput, "restore host cannot honor source policy/features"),
        );
    }
    Ok(())
}

/// Whether something with a deadline still lives at a time.
pub open spec fn lives(deadline: Option<Time>, now: Time) -> bool {
    match deadline {
        None => true,
        Some(deadline) => deadline.0 > now.0,
    }
}

/// The entries among the first `n` that still live at a time.
pub open spec fn live(entries: Seq<LogicalEntryView>, n: int, now: Time) -> Seq<LogicalEntryView>
    decreases n,
{
    if n <= 0 {
        seq![]
    } else {
        let entry = entries[n - 1];
        if lives(entry.deadline, now) {
            live(entries, n - 1, now).push(entry)
        } else {
            live(entries, n - 1, now)
        }
    }
}

/// The time at which a restore happens: now, but never before the leader's
/// last word.
pub open spec fn restored_at(now: Time, snapshot: SnapshotView) -> Time {
    if now.0 >= snapshot.last_leader_time.0 {
        now
    } else {
        snapshot.last_leader_time
    }
}

/// A membership of one node.
pub open spec fn alone(node: u64, active_features: u64) -> MembershipView {
    MembershipView {
        voters: set![NodeId(node)],
        learners: Set::empty(),
        joint: None,
        addresses: Map::empty(),
        active_features,
    }
}

/// The snapshot that a fresh cluster of one node starts from, with the sessions
/// that were kept.
pub open spec fn restored(
    snapshot: SnapshotView,
    cluster: Seq<u8>,
    node: u64,
    now: Time,
    sessions: Seq<u8>,
) -> SnapshotView {
    let time = restored_at(now, snapshot);
    SnapshotView {
        cluster_id: cluster,
        policy: snapshot.policy,
        membership: alone(node, snapshot.membership.active_features),
        entries: live(snapshot.entries, snapshot.entries.len() as int, time),
        store_sequence: snapshot.store_sequence,
        applied_index: LogIndex(1),
        applied_term: Term(1),
        last_leader_time: time,
        sessions,
        leadership_transfer: snapshot.leadership_transfer,
    }
}

/// What the session table of a restored cluster is made from: the table of the
/// source, the policy that it is kept under, and the time of the restore.
#[derive(Debug)]
pub struct SessionRequest {
    pub sessions: Vec<u8>,
    pub policy: ClusterPolicy,
    pub time: Time,
}

#[verifier::ext_equal]
pub struct SessionRequestView {
    pub sessions: Seq<u8>,
    pub policy: PolicyView,
    pub time: Time,
}

impl View for SessionRequest {
    type V = SessionRequestView;

    open spec fn view(&self) -> SessionRequestView {
        SessionRequestView {
            sessions: self.sessions@,
            policy: self.policy@,
            time: self.time,
        }
    }
}

/// The identity of a restored node.
pub open spec fn restored_identity(
    backup: BackupView,
    policy_hash: u64,
    cluster: Seq<u8>,
    node: u64,
) -> IdentityView {
    IdentityView {
        cluster_id: cluster,
        node_id: node,
        lifecycle: IDENTITY_ACTIVE,
        policy_hash,
        min_storage_reader: STORAGE_V2_MIN_READER,
        min_semantic_reader: backup.source_min_semantic,
        migration_epoch: 1,
    }
}

/// What a restore writes.
#[derive(Debug)]
pub struct RestorePlan {
    pub snapshot: LogicalSnapshot,
    pub identity: DiskIdentity,
    pub config: String,
}

#[verifier::ext_equal]
pub struct RestoreView {
    pub snapshot: SnapshotView,
    pub identity: IdentityView,
    pub config: Seq<char>,
}

impl View for RestorePlan {
    type V = RestoreView;

    open spec fn view(&self) -> RestoreView {
        RestoreView {
            snapshot: self.snapshot@,
            identity: self.identity@,
            config: self.config@,
        }
    }
}

/// What a restore asks for first, or why it is refused at once.
pub open spec fn session_request_of(
    backup: BackupView,
    snapshot: SnapshotView,
    cluster: Seq<u8>,
    now: Time,
    host: HostLimits,
) -> Result<SessionRequestView, FaultView> {
    if cluster == backup.source_cluster_id {
        Err(because(FaultKind::InvalidInput, "restore must use a fresh cluster id"))
    } else if !restorable(backup, snapshot.policy, snapshot.membership.active_features, host) {
        Err(
            because(FaultKind::InvalidInput, "restore host cannot honor source policy/features"),
        )
    } else {
        Ok(
            SessionRequestView {
                sessions: snapshot.sessions,
                policy: snapshot.policy,
                time: restored_at(now, snapshot),
            },
        )
    }
}

/// What a restore writes, or why it is refused. `kept` is the session table that
/// was made from what the restore asked for, or the reason why none could be.
pub open spec fn restore_plan_of(
    backup: BackupView,
    snapshot: SnapshotView,
    cluster: Seq<u8>,
    node: u64,
    data_dir: Seq<char>,
    now: Time,
    host: HostLimits,
    kept: Result<Vec<u8>, String>,
) -> Result<RestoreView, FaultView> {
    match session_request_of(backup, snapshot, cluster, now, host) {
        Err(fault) => Err(fault),
        Ok(_) => match kept {
            Err(reason) => Err(handed_on(reason@)),
            Ok(sessions) => match restored_config(data_dir, cluster, node) {
                Err(fault) => Err(fault),
                Ok(config) => Ok(
                    RestoreView {
                        snapshot: restored(snapshot, cluster, node, now, sessions@),
                        identity: restored_identity(backup, snapshot.policy.hash, cluster, node),
                        config,
                    },
                ),
            },
        },
    }
}

fn retain_live(entries: &Vec<LogicalEntry>, now: Time) -> (kept: Vec<LogicalEntry>)
    ensures
        logical_views(kept@) == live(logical_views(entries@), entries@.len() as int, now),
{
    let ghost all = logical_views(entries@);
    let mut kept: Vec<LogicalEntry> = Vec::new();
    let mut i: usize = 0;
    assert(logical_views(kept@) =~= seq![]);
    while i < entries.len()
        invariant
            i <= entries@.len(),
            all == logical_views(entries@),
            logical_views(kept@) == live(all, i as int, now),
        decreases entries@.len() - i,
    {
        assert(all[i as int] == entries@[i as int]@);
        let ghost before = logical_views(kept@);
        let keep = match entries[i].deadline {
            None => true,
            Some(deadline) => deadline.as_nanos() > now.as_nanos(),
        };
        if keep {
            kept.push(entries[i].clone());
            assert(logical_views(kept@) =~= before.push(all[i as int]));
        }
        i += 1;
    }
    kept
}

fn sole_member(node: u64, active_features: u64) -> (state: MembershipState)
    requires
        node != 0,
    ensures
        state@ == alone(node, active_features),
{
    let mut voters = NodeSet::new();
    voters.insert(NodeId::new(node));
    assert(voters@ =~= set![NodeId(node)]);
    assert(voters@.contains(NodeId(node)));
    match MembershipState::new(voters) {
        Ok(state) => {
            let mut state = state;
            state.active_features = active_features;
            state
        },
        Err(_) => {
            assert(false);
            MembershipState {
                voters: NodeSet::new(),
                learners: NodeSet::new(),
                joint: None,
                addresses: crate::node_map::NodeMap::new(),
                active_features,
            }
        },
    }
}

fn restore_time(snapshot: &LogicalSnapshot, now: Time) -> (time: Time)
    ensures
        time == restored_at(now, snapshot@),
{
    if now.as_nanos() >= snapshot.last_leader_time.as_nanos() {
        now
    } else {
        snapshot.last_leader_time
    }
}

/// Decides whether a restore may go on, and what the session table of the
/// restored cluster is to be made from. What such a table holds is not stated
/// here.
pub fn restore_sessions(
    backup: &BackupV2,
    snapshot: &LogicalSnapshot,
    cluster: &ClusterId,
    now: Time,
    host: &HostLimits,
) -> (result: Result<SessionRequest, Fault>)
    ensures
        match result {
            Ok(request) => session_request_of(backup@, snapshot@, cluster@, now, *host) == Ok::<
                SessionRequestView,
                FaultView,
            >(request@),
            Err(error) => session_request_of(backup@, snapshot@, cluster@, now, *host) == Err::<
                SessionRequestView,
                FaultView,
            >(error@),
        },
{
    if cluster.same(&backup.source_cluster_id) {
        return Err(fault(FaultKind::InvalidInput, "restore must use a fresh cluster id"));
    }
    match validate_restore_capabilities(
        backup,
        &snapshot.policy,
        snapshot.membership.active_features,
        host,
    ) {
        Ok(_) => {},
        Err(error) => return Err(error),
    }
    Ok(
        SessionRequest {
            sessions: copy_bytes(snapshot.sessions.as_slice()),
            policy: snapshot.policy.clone(),
            time: restore_time(snapshot, now),
        },
    )
}

/// Decides what a restore writes: the same state under a fresh identity, as a
/// cluster of one node that has applied nothing else. `kept` is the session table
/// that was made from what [`restore_sessions`] asks for.
pub fn restore_backup(
    backup: &BackupV2,
    snapshot: &LogicalSnapshot,
    cluster: &ClusterId,
    node: u64,
    data_dir: &str,
    now: Time,
    host: &HostLimits,
    kept: Result<Vec<u8>, String>,
) -> (result: Result<RestorePlan, Fault>)
    requires
        node != 0,
    ensures
        match result {
            Ok(plan) => restore_plan_of(
                backup@,
                snapshot@,
                cluster@,
                node,
                data_dir@,
                now,
                *host,
                kept,
            ) == Ok::<RestoreView, FaultView>(plan@),
            Err(error) => restore_plan_of(
                backup@,
                snapshot@,
                cluster@,
                node,
                data_dir@,
                now,
                *host,
                kept,
            ) == Err::<RestoreView, FaultView>(error@),
        },
{
    let request = match restore_sessions(backup, snapshot, cluster, now, host) {
        Ok(request) => request,
        Err(error) => return Err(error),
    };
    let sessions = match kept {
        Ok(sessions) => sessions,
        Err(reason) => return Err(fault_of(FaultKind::Other, reason)),
    };
    let config = match fresh_restore_config(data_dir, cluster, node) {
        Ok(config) => config,
        Err(error) => return Err(error),
    };
    let time = request.time;
    let fresh = LogicalSnapshot {
        cluster_id: *cluster,
        policy: snapshot.policy.clone(),
        membership: sole_member(node, snapshot.membership.active_features),
        entries: retain_live(&snapshot.entries, time),
        store_sequence: snapshot.store_sequence,
        applied_index: LogIndex::new(1),
        applied_term: Term::new(1),
        last_leader_time: time,
        sessions,
        leadership_transfer: snapshot.leadership_transfer,
    };
    let mut identity = DiskIdentity::fresh(*cluster, node, snapshot.policy.hash);
    identity.min_storage_reader = STORAGE_V2_MIN_READER;
    identity.min_semantic_reader = backup.source_min_semantic;
    identity.migration_epoch = 1;
    Ok(RestorePlan { snapshot: fresh, identity, config })
}

/// A restore never clones a cluster: what it writes runs under another cluster
/// identity than the source, its clock never runs back behind the source's,
/// and nothing that expired comes back.
pub proof fn law_restores_are_fresh(
    backup: BackupView,
    snapshot: SnapshotView,
    cluster: Seq<u8>,
    node: u64,
    data_dir: Seq<char>,
    now: Time,
    host: HostLimits,
    kept: Result<Vec<u8>, String>,
)
    ensures
        restore_plan_of(
            backup,
            snapshot,
            cluster,
            node,
            data_dir,
            now,
            host,
            kept,
        ) matches Ok(plan) ==> {
            &&& plan.identity.cluster_id != backup.source_cluster_id
            &&& plan.identity.cluster_id == plan.snapshot.cluster_id
            &&& plan.identity.node_id == node
            &&& plan.snapshot.membership == alone(node, snapshot.membership.active_features)
            &&& plan.snapshot.last_leader_time.0 >= snapshot.last_leader_time.0
            &&& forall|i: int|
                0 <= i < plan.snapshot.entries.len() ==> ((#[trigger] plan.snapshot.entries[i])
                    .deadline matches Some(deadline) ==> deadline.0
                    > plan.snapshot.last_leader_time.0)
        },
{
    let time = restored_at(now, snapshot);
    lemma_live(snapshot.entries, snapshot.entries.len() as int, time);
}

/// What a restored cluster knows of its clients' sessions was made from the
/// source's table, under the policy and at the time that the restored state is
/// written with; and where no table could be made, nothing is written.
pub proof fn law_restores_filter_sessions(
    backup: BackupView,
    snapshot: SnapshotView,
    cluster: Seq<u8>,
    node: u64,
    data_dir: Seq<char>,
    now: Time,
    host: HostLimits,
    kept: Result<Vec<u8>, String>,
)
    ensures
        restore_plan_of(
            backup,
            snapshot,
            cluster,
            node,
            data_dir,
            now,
            host,
            kept,
        ) matches Ok(plan) ==> {
            &&& session_request_of(backup, snapshot, cluster, now, host) == Ok::<
                SessionRequestView,
                FaultView,
            >(
                SessionRequestView {
                    sessions: snapshot.sessions,
                    policy: plan.snapshot.policy,
                    time: plan.snapshot.last_leader_time,
                },
            )
            &&& kept matches Ok(sessions) && plan.snapshot.sessions == sessions@
        },
{
}

/// A restore loses nothing that still lives: the entries that it writes are those
/// of the source without a deadline, or with one after the time of the restore,
/// every one of them as it was and in the order in which they stood, and no others.
/// The time of the restore is now, or the leader's last word where that is later,
/// and what else a cluster runs on stays as it was.
pub proof fn law_restores_keep_what_lives(
    backup: BackupView,
    snapshot: SnapshotView,
    cluster: Seq<u8>,
    node: u64,
    data_dir: Seq<char>,
    now: Time,
    host: HostLimits,
    kept: Result<Vec<u8>, String>,
)
    ensures
        restore_plan_of(
            backup,
            snapshot,
            cluster,
            node,
            data_dir,
            now,
            host,
            kept,
        ) matches Ok(plan) ==> {
            let time = plan.snapshot.last_leader_time;
            &&& time.0 >= now.0 && time.0 >= snapshot.last_leader_time.0
            &&& time == now || time == snapshot.last_leader_time
            &&& exists|at: Seq<int>| #[trigger]
                kept_at(snapshot.entries, plan.snapshot.entries, at, time)
            &&& plan.snapshot.store_sequence == snapshot.store_sequence
            &&& plan.snapshot.policy == snapshot.policy
            &&& plan.snapshot.membership.active_features == snapshot.membership.active_features
            &&& plan.snapshot.membership.voters == set![NodeId(node)]
            &&& plan.snapshot.applied_index.0 == 1 && plan.snapshot.applied_term.0 == 1
            &&& plan.snapshot.cluster_id == cluster && plan.identity.cluster_id == cluster
            &&& plan.identity.policy_hash == snapshot.policy.hash
            &&& plan.identity.min_semantic_reader == backup.source_min_semantic
        },
{
    let time = restored_at(now, snapshot);
    lemma_live_at(snapshot.entries, snapshot.entries.len() as int, time);
    assert(snapshot.entries.take(snapshot.entries.len() as int) =~= snapshot.entries);
    let written = live(snapshot.entries, snapshot.entries.len() as int, time);
    let at = choose|at: Seq<int>| #[trigger] kept_at(snapshot.entries, written, at, time);
    if let Ok(plan) = restore_plan_of(backup, snapshot, cluster, node, data_dir, now, host, kept) {
        assert(kept_at(snapshot.entries, plan.snapshot.entries, at, plan.snapshot.last_leader_time));
    }
}

/// Whether `after` are the entries of `before` at the positions `at`, in order:
/// exactly those that have no deadline, or one after a time.
pub open spec fn kept_at(
    before: Seq<LogicalEntryView>,
    after: Seq<LogicalEntryView>,
    at: Seq<int>,
    time: Time,
) -> bool {
    &&& at.len() == after.len()
    &&& forall|j: int|
        0 <= j < at.len() ==> 0 <= #[trigger] at[j] < before.len() && after[j] == before[at[j]]
    &&& forall|j: int, k: int| 0 <= j < k < at.len() ==> #[trigger] at[j] < #[trigger] at[k]
    &&& forall|i: int|
        0 <= i < before.len() ==> (at.contains(i) <==> match (#[trigger] before[i]).deadline {
            None => true,
            Some(deadline) => time.0 < deadline.0,
        })
}

proof fn lemma_live_at(entries: Seq<LogicalEntryView>, n: int, now: Time)
    requires
        0 <= n <= entries.len(),
    ensures
        exists|at: Seq<int>| #[trigger] kept_at(entries.take(n), live(entries, n, now), at, now),
    decreases n,
{
    let front = entries.take(n);
    if n == 0 {
        assert(kept_at(front, live(entries, 0, now), Seq::empty(), now));
    } else {
        lemma_live_at(entries, n - 1, now);
        let short = entries.take(n - 1);
        let before = live(entries, n - 1, now);
        let at = choose|at: Seq<int>| #[trigger] kept_at(short, before, at, now);
        let entry = entries[n - 1];
        assert forall|i: int| 0 <= i < n - 1 implies #[trigger] front[i] == short[i] by {}
        assert(!at.contains(n - 1)) by {
            if at.contains(n - 1) {
                let j = choose|j: int| 0 <= j < at.len() && at[j] == n - 1;
                assert(at[j] < short.len());
            }
        }
        if lives(entry.deadline, now) {
            let longer = at.push(n - 1);
            assert forall|i: int| 0 <= i < n implies (longer.contains(i) <==> match (
            #[trigger] front[i]).deadline {
                None => true,
                Some(deadline) => now.0 < deadline.0,
            }) by {
                if i < n - 1 {
                    assert(front[i] == short[i]);
                    if at.contains(i) {
                        let j = choose|j: int| 0 <= j < at.len() && at[j] == i;
                        assert(longer[j] == i);
                    }
                    if longer.contains(i) {
                        let j = choose|j: int| 0 <= j < longer.len() && longer[j] == i;
                        assert(at[j] == i);
                    }
                } else {
                    assert(longer[at.len() as int] == n - 1);
                }
            }
            assert forall|j: int| 0 <= j < longer.len() implies 0 <= #[trigger] longer[j]
                < front.len() && before.push(entry)[j] == front[longer[j]] by {
                if j < at.len() {
                    assert(longer[j] == at[j]);
                    assert(before[j] == short[at[j]]);
                }
            }
            assert forall|j: int, k: int| 0 <= j < k < longer.len() implies #[trigger] longer[j]
                < #[trigger] longer[k] by {
                if k < at.len() {
                    assert(at[j] < at[k]);
                } else {
                    assert(at[j] < short.len());
                }
            }
            assert(kept_at(front, live(entries, n, now), longer, now));
        } else {
            assert forall|i: int| 0 <= i < n implies (at.contains(i) <==> match (
            #[trigger] front[i]).deadline {
                None => true,
                Some(deadline) => now.0 < deadline.0,
            }) by {
                if i < n - 1 {
                    assert(front[i] == short[i]);
                }
            }
            assert forall|j: int| 0 <= j < at.len() implies 0 <= #[trigger] at[j] < front.len()
                && before[j] == front[at[j]] by {
                assert(before[j] == short[at[j]]);
            }
            assert(kept_at(front, live(entries, n, now), at, now));
        }
    }
    if n == entries.len() {
        assert(front =~= entries);
    }
}

proof fn lemma_live(entries: Seq<LogicalEntryView>, n: int, now: Time)
    requires
        n <= entries.len(),
    ensures
        forall|i: int|
            0 <= i < live(entries, n, now).len() ==> ((#[trigger] live(entries, n, now)[i]).deadline
                matches Some(deadline) ==> deadline.0 > now.0),
    decreases n,
{
    if n > 0 {
        lemma_live(entries, n - 1, now);
        let before = live(entries, n - 1, now);
        let after = live(entries, n, now);
        assert forall|i: int| 0 <= i < after.len() implies ((#[trigger] after[i]).deadline
            matches Some(deadline) ==> deadline.0 > now.0) by {
            if i < before.len() {
                assert(after[i] == before[i]);
            }
        }
    }
}

/// An empty state at the first applied index, with the table of no session.
pub open spec fn empty_snapshot(
    cluster: Seq<u8>,
    policy: PolicyView,
    membership: MembershipView,
    no_sessions: Seq<u8>,
) -> SnapshotView {
    SnapshotView {
        cluster_id: cluster,
        policy,
        membership,
        entries: seq![],
        store_sequence: 0,
        applied_index: LogIndex(1),
        applied_term: Term(1),
        last_leader_time: Time(0),
        sessions: no_sessions,
        leadership_transfer: None,
    }
}

/// What the archive of a node's files comes to.
#[derive(Debug)]
pub struct LegacyImport {
    pub min_semantic: u16,
    pub snapshot: LogicalSnapshot,
}

#[verifier::ext_equal]
pub struct ImportView {
    pub min_semantic: u16,
    pub snapshot: SnapshotView,
}

impl View for LegacyImport {
    type V = ImportView;

    open spec fn view(&self) -> ImportView {
        ImportView { min_semantic: self.min_semantic, snapshot: self.snapshot@ }
    }
}

/// Whether a log never went past its first record.
pub open spec fn genesis_only(log: RecoveredLog, wal_bytes: nat, identity: IdentityView) -> bool {
    &&& !log.torn_tail_truncated
    &&& log.bytes_consumed == wal_bytes
    &&& log.state.entries@.len() == 0
    &&& log.state.snapshot is None
    &&& log.state.genesis.cluster_id@ == identity.cluster_id
    &&& log.state.genesis.policy.hash == identity.policy_hash
}

/// What the archive of a node's files comes to, or why it is refused. Only a
/// source that never acknowledged anything can be imported, and as nothing.
/// `log` is what the archived log replays to, or the reason why it cannot be
/// read, which is handed on; `known` are the addresses that resolve; and
/// `no_sessions` is how a table of no session is written.
pub open spec fn import_of(
    archive: FilesView,
    known: Seq<Seq<char>>,
    policy: PolicyView,
    no_sessions: Seq<u8>,
    log: Result<RecoveredLog, String>,
) -> Result<ImportView, FaultView> {
    match identity_of(archive.identity->0) {
        Err(fault) => Err(fault),
        Ok(identity) => if !valid_utf8(archive.config->0) {
            Err(because(FaultKind::InvalidData, "legacy config UTF-8"))
        } else {
            match config_of(decode_utf8(archive.config->0), known) {
                Err(fault) => Err(fault),
                Ok(config) => if config.cluster_id != identity.cluster_id || config.id
                    != identity.node_id {
                    Err(because(FaultKind::InvalidData, "legacy config identity mismatch"))
                } else if (archive.wal->0).len() == 0 {
                    Ok(
                        ImportView {
                            min_semantic: identity.min_semantic_reader,
                            snapshot: empty_snapshot(
                                identity.cluster_id,
                                policy,
                                alone(identity.node_id, 0),
                                no_sessions,
                            ),
                        },
                    )
                } else {
                    match log {
                        Err(reason) => Err(handed_on(reason@)),
                        Ok(log) => if genesis_only(log, (archive.wal->0).len(), identity) {
                            Ok(
                                ImportView {
                                    min_semantic: identity.min_semantic_reader,
                                    snapshot: empty_snapshot(
                                        identity.cluster_id,
                                        log.state.genesis.policy@,
                                        log.state.genesis.membership@,
                                        no_sessions,
                                    ),
                                },
                            )
                        } else {
                            Err(
                                because(
                                    FaultKind::InvalidData,
                                    "legacy backup lacks a complete logical checkpoint",
                                ),
                            )
                        },
                    }
                },
            }
        },
    }
}

fn compose_empty(
    cluster: ClusterId,
    policy: ClusterPolicy,
    membership: MembershipState,
    no_sessions: &[u8],
) -> (snapshot: LogicalSnapshot)
    ensures
        snapshot@ == empty_snapshot(cluster@, policy@, membership@, no_sessions@),
{
    let snapshot = LogicalSnapshot {
        cluster_id: cluster,
        policy,
        membership,
        entries: Vec::new(),
        store_sequence: 0,
        applied_index: LogIndex::new(1),
        applied_term: Term::new(1),
        last_leader_time: Time::from_nanos(0),
        sessions: copy_bytes(no_sessions),
        leadership_transfer: None,
    };
    assert(logical_views(snapshot.entries@) =~= seq![]);
    snapshot
}

/// Imports the archive of a node's files.
pub fn import_legacy_backup(
    archive: &LegacyArchive,
    known: &[String],
    policy: &ClusterPolicy,
    no_sessions: &[u8],
    log: Result<RecoveredLog, String>,
) -> (result: Result<LegacyImport, Fault>)
    ensures
        match result {
            Ok(import) => import_of(archive@, texts(known@), policy@, no_sessions@, log) == Ok::<
                ImportView,
                FaultView,
            >(import@),
            Err(error) => import_of(archive@, texts(known@), policy@, no_sessions@, log) == Err::<
                ImportView,
                FaultView,
            >(error@),
        },
{
    let identity = match DiskIdentity::decode(archive.identity.as_slice()) {
        Ok(identity) => identity,
        Err(error) => return Err(error),
    };
    let text = match utf8_text(archive.config.as_slice()) {
        Some(text) => text,
        None => return Err(fault(FaultKind::InvalidData, "legacy config UTF-8")),
    };
    let config = match parse_config(text.as_str(), known) {
        Ok(config) => config,
        Err(error) => return Err(error),
    };
    if !config.cluster_id.same(&identity.cluster_id) || config.id != identity.node_id {
        return Err(fault(FaultKind::InvalidData, "legacy config identity mismatch"));
    }
    if archive.wal.len() == 0 {
        let membership = sole_member(identity.node_id, 0);
        return Ok(
            LegacyImport {
                min_semantic: identity.min_semantic_reader,
                snapshot: compose_empty(
                    identity.cluster_id,
                    policy.clone(),
                    membership,
                    no_sessions,
                ),
            },
        );
    }
    let log = match log {
        Ok(log) => log,
        Err(reason) => return Err(fault_of(FaultKind::Other, reason)),
    };
    if log.torn_tail_truncated || log.bytes_consumed != archive.wal.len() as u64
        || log.state.entries.len() != 0 || log.state.snapshot.is_some()
        || !log.state.genesis.cluster_id.same(&identity.cluster_id)
        || log.state.genesis.policy.hash != identity.policy_hash {
        return Err(
            fault(
                FaultKind::InvalidData,
                "legacy backup lacks a complete logical checkpoint",
            ),
        );
    }
    let genesis = log.state.genesis.clone();
    Ok(
        LegacyImport {
            min_semantic: identity.min_semantic_reader,
            snapshot: compose_empty(
                identity.cluster_id,
                genesis.policy,
                genesis.membership,
                no_sessions,
            ),
        },
    )
}

/// The bundle of an imported archive, whose snapshot is written as
/// `checkpoint`.
pub fn imported_bundle(import: &LegacyImport, checkpoint: Vec<u8>) -> (backup: BackupV2)
    ensures
        backup@ == (BackupView {
            source_cluster_id: import.snapshot@.cluster_id,
            source_index: LogIndex(1),
            source_term: Term(1),
            source_last_leader_time: Time(0),
            source_policy_hash: import.snapshot@.policy.hash,
            source_min_semantic: import.min_semantic,
            source_active_features: 0,
            checkpoint: checkpoint@,
            provenance: BackupProvenance::LegacyNode,
        }),
{
    BackupV2 {
        source_cluster_id: import.snapshot.cluster_id,
        source_index: LogIndex::new(1),
        source_term: Term::new(1),
        source_last_leader_time: Time::from_nanos(0),
        source_policy_hash: import.snapshot.policy.hash,
        source_min_semantic: import.min_semantic,
        source_active_features: 0,
        checkpoint,
        provenance: BackupProvenance::LegacyNode,
    }
}

/// An imported archive brings no acknowledged state: there is no entry in it,
/// no session and no transfer.
pub proof fn law_imports_invent_nothing(
    archive: FilesView,
    known: Seq<Seq<char>>,
    policy: PolicyView,
    no_sessions: Seq<u8>,
    log: Result<RecoveredLog, String>,
)
    ensures
        import_of(archive, known, policy, no_sessions, log) matches Ok(import) ==> {
            &&& import.snapshot.entries.len() == 0
            &&& import.snapshot.store_sequence == 0
            &&& import.snapshot.sessions == no_sessions
            &&& import.snapshot.leadership_transfer is None
        },
{
}

/// The mark of a restored checkpoint: a restored log begins at its first index
/// and term.
pub open spec fn restored_mark_of(crc32c: u32) -> SnapshotMark {
    SnapshotMark { index: LogIndex(1), term: Term(1), generation: 1, crc32c }
}

/// Marks a restored checkpoint.
pub fn restored_mark(crc32c: u32) -> (mark: SnapshotMark)
    ensures
        mark == restored_mark_of(crc32c),
{
    SnapshotMark { index: LogIndex(1), term: Term(1), generation: 1, crc32c }
}

/// The first record of a restored log.
pub open spec fn restored_genesis(snapshot: SnapshotView) -> GenesisView {
    GenesisView {
        origin: Origin::Restore,
        cluster_id: snapshot.cluster_id,
        policy: snapshot.policy,
        membership: snapshot.membership,
    }
}

/// Composes the records of a restored log: how it begins, and the mark of its
/// checkpoint.
pub fn restored_records(snapshot: &LogicalSnapshot, crc32c: u32) -> (records: Vec<DurableRecord>)
    ensures
        record_views(records@) == seq![
            RecordView::Genesis(restored_genesis(snapshot@)),
            RecordView::InstalledSnapshotMark(restored_mark_of(crc32c)),
        ],
{
    let genesis = Genesis {
        origin: Origin::Restore,
        cluster_id: snapshot.cluster_id,
        policy: snapshot.policy.clone(),
        membership: snapshot.membership.clone(),
    };
    let mut records: Vec<DurableRecord> = Vec::new();
    records.push(DurableRecord::Genesis(genesis));
    records.push(DurableRecord::InstalledSnapshotMark(restored_mark(crc32c)));
    assert(record_views(records@) =~= seq![
        RecordView::Genesis(restored_genesis(snapshot@)),
        RecordView::InstalledSnapshotMark(restored_mark_of(crc32c)),
    ]);
    records
}

/// A restored node boots from what was restored: its log is admitted, and its
/// checkpoint is the marked one. The configuration names it as the only member,
/// the policy is that of the host, and no feature was active.
pub proof fn law_restored_nodes_boot(
    snapshot: SnapshotView,
    cluster: Seq<u8>,
    node: u64,
    now: Time,
    sessions: Seq<u8>,
    log: LogView,
    configured: MembershipView,
    max_snapshot_bytes: u64,
    bytes: u64,
    checkpoint: PublishedCheckpoint,
    membership: MembershipState,
)
    requires
        snapshot.membership.active_features == 0,
        ({
            let written = restored(snapshot, cluster, node, now, sessions);
            let mark = restored_mark_of(checkpoint.crc32c);
            &&& log.genesis == restored_genesis(written)
            &&& log.snapshot == Some(mark)
            &&& checkpoint.applied_index == written.applied_index
            &&& checkpoint.applied_term == written.applied_term
            &&& checkpoint.policy@ == written.policy
            &&& membership@ == written.membership
        }),
        configured.voters == set![NodeId(node)],
        configured.learners == Set::<NodeId>::empty(),
        configured.joint is None,
        configured.active_features == 0,
        0 < bytes <= max_snapshot_bytes,
    ensures
        ({
            let base = (LogIndex(1), Term(1));
            let found = FoundCheckpoint::Listed {
                bytes,
                checkpoint,
                membership,
                manifest: log.snapshot,
            };
            boot_step(
                log,
                base,
                node,
                cluster,
                snapshot.policy.encoded,
                configured,
                max_snapshot_bytes,
                found,
            ) == (BootStepView::Start {
                node: recovered(log, base, alone(node, 0)),
                compact: true,
            })
        }),
{
}

} // verus!
