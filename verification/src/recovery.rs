//! What a node recovers from its data directory, and the checks that decide
//! whether it may go on with it.
use vstd::prelude::*;
use vstd::string::*;

use crate::backup::BACKUP_MAX_FILE;
use crate::fault::{because, fault, outcome_is, Fault, FaultKind, FaultView};
use crate::hex::ClusterId;
use crate::identity::{DiskIdentity, IdentityView};
use crate::ids::{LogIndex, NodeId, Term};
use crate::membership::{MembershipState, MembershipView, PeerAddress};
use crate::node_map::NodeMap;
use crate::node_set::ascending;
use crate::prose::{append_number, number_text};
use crate::raft_types::{entry_views, Entry, EntryView, HardState};
use crate::text::{copy_bytes, number_in, read_number, same_bytes};

verus! {

/// The policy of a cluster: its canonical bytes, their hash, and the limits
/// that a host has to honor.
#[derive(Debug, PartialEq, Eq)]
pub struct ClusterPolicy {
    pub encoded: Vec<u8>,
    pub hash: u64,
    pub limits: PolicyLimits,
}

/// The limits of a policy. `valid` says that they fit together.
#[derive(Clone, Copy, Debug, PartialEq, Eq, Structural)]
pub struct PolicyLimits {
    pub max_key_bytes: u64,
    pub max_value_bytes: u64,
    pub max_command_bytes: u64,
    pub max_reply_bytes: u64,
    pub max_batch_bytes: u64,
    pub max_batch_reply_bytes: u64,
    pub max_live_logical_bytes: u64,
    pub valid: bool,
}

#[verifier::ext_equal]
pub struct PolicyView {
    pub encoded: Seq<u8>,
    pub hash: u64,
    pub limits: PolicyLimits,
}

impl View for ClusterPolicy {
    type V = PolicyView;

    open spec fn view(&self) -> PolicyView {
        PolicyView { encoded: self.encoded@, hash: self.hash, limits: self.limits }
    }
}

impl Clone for ClusterPolicy {
    fn clone(&self) -> (copy: Self)
        ensures
            copy@ == self@,
    {
        ClusterPolicy {
            encoded: copy_bytes(self.encoded.as_slice()),
            hash: self.hash,
            limits: self.limits,
        }
    }
}

/// How a log began.
#[derive(Clone, Copy, Debug, PartialEq, Eq, Structural)]
pub enum Origin {
    Bootstrap,
    Join,
    Restore,
}

/// The first record of a log.
#[derive(Debug, PartialEq, Eq)]
pub struct Genesis {
    pub origin: Origin,
    pub cluster_id: ClusterId,
    pub policy: ClusterPolicy,
    pub membership: MembershipState,
}

#[verifier::ext_equal]
pub struct GenesisView {
    pub origin: Origin,
    pub cluster_id: Seq<u8>,
    pub policy: PolicyView,
    pub membership: MembershipView,
}

impl View for Genesis {
    type V = GenesisView;

    open spec fn view(&self) -> GenesisView {
        GenesisView {
            origin: self.origin,
            cluster_id: self.cluster_id@,
            policy: self.policy@,
            membership: self.membership@,
        }
    }
}

impl Clone for Genesis {
    fn clone(&self) -> (copy: Self)
        ensures
            copy@ == self@,
    {
        Genesis {
            origin: self.origin,
            cluster_id: self.cluster_id,
            policy: self.policy.clone(),
            membership: self.membership.clone(),
        }
    }
}

/// The record that a checkpoint was made durable.
#[derive(Clone, Copy, Debug, PartialEq, Eq, Structural)]
pub struct SnapshotMark {
    pub index: LogIndex,
    pub term: Term,
    pub generation: u64,
    pub crc32c: u32,
}

/// What a log says once it is replayed.
#[derive(Debug, PartialEq, Eq)]
pub struct LogState {
    pub genesis: Genesis,
    pub hard_state: HardState,
    pub entries: Vec<Entry>,
    pub snapshot: Option<SnapshotMark>,
}

#[verifier::ext_equal]
pub struct LogView {
    pub genesis: GenesisView,
    pub hard_state: HardState,
    pub entries: Seq<EntryView>,
    pub snapshot: Option<SnapshotMark>,
}

impl View for LogState {
    type V = LogView;

    open spec fn view(&self) -> LogView {
        LogView {
            genesis: self.genesis@,
            hard_state: self.hard_state,
            entries: entry_views(self.entries@),
            snapshot: self.snapshot,
        }
    }
}

/// A replayed log, and how much of its file it took.
#[derive(Debug, PartialEq, Eq)]
pub struct RecoveredLog {
    pub state: LogState,
    pub torn_tail_truncated: bool,
    pub bytes_consumed: u64,
}

/// Whether a log is replayed to the last byte of its file.
pub open spec fn whole(log: RecoveredLog, file_bytes: nat) -> bool {
    !log.torn_tail_truncated && log.bytes_consumed == file_bytes
}

/// After how many bytes of log a checkpoint is taken. `asked` is what the
/// operator asks for.
pub open spec fn snapshot_threshold(
    asked: Option<Seq<char>>,
    default: u64,
    max_raft_log_bytes: u64,
) -> Result<u64, FaultView> {
    match asked {
        None => Ok(default),
        Some(value) => match number_in(value) {
            None => Err(
                because(
                    FaultKind::InvalidInput,
                    "CCDB_SNAPSHOT_AFTER_BYTES must be an integer",
                ),
            ),
            Some(threshold) => if threshold == 0 || threshold >= max_raft_log_bytes {
                Err(
                    because(
                        FaultKind::InvalidInput,
                        "CCDB_SNAPSHOT_AFTER_BYTES is outside the host limits",
                    ),
                )
            } else {
                Ok(threshold)
            },
        },
    }
}

/// Reads after how many bytes of log a checkpoint is taken.
pub fn snapshot_after_bytes(asked: Option<&str>, default: u64, max_raft_log_bytes: u64) -> (result:
    Result<u64, Fault>)
    ensures
        match result {
            Ok(threshold) => snapshot_threshold(
                match asked {
                    Some(value) => Some(value@),
                    None => None,
                },
                default,
                max_raft_log_bytes,
            ) == Ok::<u64, FaultView>(threshold),
            Err(error) => snapshot_threshold(
                match asked {
                    Some(value) => Some(value@),
                    None => None,
                },
                default,
                max_raft_log_bytes,
            ) == Err::<u64, FaultView>(error@),
        },
{
    match asked {
        None => Ok(default),
        Some(value) => match read_number(value) {
            None => Err(
                fault(FaultKind::InvalidInput, "CCDB_SNAPSHOT_AFTER_BYTES must be an integer"),
            ),
            Some(threshold) => if threshold == 0 || threshold >= max_raft_log_bytes {
                Err(
                    fault(
                        FaultKind::InvalidInput,
                        "CCDB_SNAPSHOT_AFTER_BYTES is outside the host limits",
                    ),
                )
            } else {
                Ok(threshold)
            },
        },
    }
}

/// Whether the membership of a log is the configured one. A log without
/// addresses leaves them to the configuration; all else is exact.
pub open spec fn matches_bootstrap(durable: MembershipView, configured: MembershipView) -> bool {
    &&& durable.voters == configured.voters
    &&& durable.learners == configured.learners
    &&& durable.joint == configured.joint
    &&& durable.active_features == configured.active_features
    &&& durable.addresses == Map::<NodeId, PeerAddress>::empty() || durable.addresses
        == configured.addresses
}

/// Whether two address books are the same.
pub fn same_addresses(a: &NodeMap<PeerAddress>, b: &NodeMap<PeerAddress>) -> (r: bool)
    ensures
        r == (a@ == b@),
{
    let count: usize = a.len();
    if count != b.len() {
        return false;
    }
    let ghost order = ascending(a@.dom());
    let mut i: usize = 0;
    while i < count
        invariant
            i <= count == order.len() == a@.dom().len() == b@.dom().len(),
            order == ascending(a@.dom()),
            forall|k: int|
                0 <= k < i ==> b@.dom().contains(#[trigger] order[k]) && b@[order[k]]
                    == a@[order[k]],
        decreases count - i,
    {
        let id = a.key_at(i);
        let address = a.value_at(i);
        match b.get(id) {
            None => return false,
            Some(other) => {
                if !address.same(&other) {
                    return false;
                }
            },
        }
        i += 1;
    }
    let total: usize = b.len();
    proof {
        assert(a@.dom().finite() && b@.dom().finite());
        assert forall|id: NodeId| a@.dom().contains(id) implies b@.dom().contains(id) && b@[id]
            == a@[id] by {
            assert(order.to_set().contains(id));
            let k = choose|k: int| 0 <= k < order.len() && order[k] == id;
            assert(b@.dom().contains(order[k]));
        }
        assert(a@.dom().subset_of(b@.dom()));
        vstd::set_lib::lemma_subset_equality(a@.dom(), b@.dom());
        assert(a@ =~= b@);
    }
    true
}

/// Decides whether the membership of a log is the configured one.
pub fn bootstrap_membership_matches(durable: &MembershipState, configured: &MembershipState) -> (r:
    bool)
    ensures
        r == matches_bootstrap(durable@, configured@),
{
    let joint = match (&durable.joint, &configured.joint) {
        (None, None) => true,
        (Some(a), Some(b)) => {
            let r = a.old_voters.same(&b.old_voters) && a.new_voters.same(&b.new_voters)
                && a.enter_index.get() == b.enter_index.get();
            assert(r == (a@ == b@));
            r
        },
        _ => false,
    };
    durable.voters.same(&configured.voters) && durable.learners.same(&configured.learners) && joint
        && durable.active_features == configured.active_features && (durable.addresses.is_empty()
        || same_addresses(&durable.addresses, &configured.addresses))
}

/// Whether a node may go on from the first record of its log: the cluster and
/// the policy are its own, and the membership is the configured one, or one
/// that the node joins from outside.
pub open spec fn genesis_admitted(
    genesis: GenesisView,
    node: u64,
    cluster: Seq<u8>,
    policy: Seq<u8>,
    configured: MembershipView,
) -> bool {
    &&& genesis.cluster_id == cluster
    &&& genesis.policy.encoded == policy
    &&& if genesis.origin == Origin::Join {
        !genesis.membership.has(NodeId(node))
    } else {
        matches_bootstrap(genesis.membership, configured)
    }
}

/// Decides whether a node may go on from the first record of its log.
pub fn admit_genesis(
    genesis: &Genesis,
    node: u64,
    cluster: &ClusterId,
    policy: &[u8],
    configured: &MembershipState,
) -> (result: Result<(), Fault>)
    ensures
        outcome_is(
            result,
            if genesis_admitted(genesis@, node, cluster@, policy@, configured@) {
                None
            } else {
                Some(
                    because(
                        FaultKind::InvalidData,
                        "WAL genesis does not match CCID/configured membership",
                    ),
                )
            },
        ),
{
    let joins = match genesis.origin {
        Origin::Join => true,
        _ => false,
    };
    let known = genesis.cluster_id.same(cluster) && same_bytes(
        genesis.policy.encoded.as_slice(),
        policy,
    );
    let fits = if joins {
        !genesis.membership.has(NodeId::new(node))
    } else {
        bootstrap_membership_matches(&genesis.membership, configured)
    };
    if known && fits {
        Ok(())
    } else {
        Err(
            fault(
                FaultKind::InvalidData,
                "WAL genesis does not match CCID/configured membership",
            ),
        )
    }
}

/// What a published checkpoint says of itself, once it is read.
#[derive(Debug, PartialEq, Eq)]
pub struct PublishedCheckpoint {
    pub cluster_id: ClusterId,
    pub applied_index: LogIndex,
    pub applied_term: Term,
    pub policy: ClusterPolicy,
    pub crc32c: u32,
}

/// Why a mark is refused before its checkpoint is looked at, if it is.
pub open spec fn mark_refusal(mark: SnapshotMark) -> Option<FaultView> {
    if mark.generation != mark.index.0 {
        Some(because(FaultKind::InvalidData, "snapshot mark generation disagrees with index"))
    } else {
        None
    }
}

/// Decides whether a mark can be followed to its checkpoint.
pub fn check_mark(mark: &SnapshotMark) -> (result: Result<(), Fault>)
    ensures
        outcome_is(result, mark_refusal(*mark)),
{
    if mark.generation != mark.index.get() {
        return Err(
            fault(FaultKind::InvalidData, "snapshot mark generation disagrees with index"),
        );
    }
    Ok(())
}

/// Decides whether the file of a published checkpoint has a size that a host
/// can hold.
pub fn check_published_size(bytes: u64, max_snapshot_bytes: u64) -> (result: Result<(), Fault>)
    ensures
        outcome_is(
            result,
            if bytes == 0 || bytes > max_snapshot_bytes {
                Some(because(FaultKind::InvalidData, "published snapshot exceeds host limit"))
            } else {
                None
            },
        ),
{
    if bytes == 0 || bytes > max_snapshot_bytes {
        return Err(fault(FaultKind::InvalidData, "published snapshot exceeds host limit"));
    }
    Ok(())
}

/// Whether a checkpoint is the one that a mark speaks of.
pub open spec fn marked(mark: SnapshotMark, checkpoint: PublishedCheckpoint) -> bool {
    &&& checkpoint.crc32c == mark.crc32c
    &&& checkpoint.applied_index == mark.index
    &&& checkpoint.applied_term == mark.term
}

/// Decides whether a published checkpoint is the marked one under the policy
/// of the node.
pub fn check_published(mark: &SnapshotMark, checkpoint: &PublishedCheckpoint, policy: &[u8]) -> (result:
    Result<(), Fault>)
    ensures
        outcome_is(
            result,
            if marked(*mark, *checkpoint) && checkpoint.policy@.encoded == policy@ {
                None
            } else {
                Some(
                    because(
                        FaultKind::InvalidData,
                        "published snapshot disagrees with durable mark",
                    ),
                )
            },
        ),
{
    if checkpoint.crc32c != mark.crc32c || checkpoint.applied_index.get() != mark.index.get()
        || checkpoint.applied_term.get() != mark.term.get() || !same_bytes(
        checkpoint.policy.encoded.as_slice(),
        policy,
    ) {
        return Err(
            fault(FaultKind::InvalidData, "published snapshot disagrees with durable mark"),
        );
    }
    Ok(())
}

/// Decides whether the manifest of the store speaks of the marked checkpoint.
pub fn validate_checkpoint_authority(
    manifest: Option<SnapshotMark>,
    mark: &SnapshotMark,
    checksum: u32,
) -> (result: Result<(), Fault>)
    ensures
        outcome_is(
            result,
            if manifest == Some(*mark) && checksum == mark.crc32c {
                None
            } else {
                Some(
                    because(FaultKind::Other, "manifest checkpoint disagrees with durable mark"),
                )
            },
        ),
{
    let agrees = match manifest {
        Some(found) => found.index.get() == mark.index.get() && found.term.get() == mark.term.get()
            && found.generation == mark.generation && found.crc32c == mark.crc32c,
        None => false,
    };
    if agrees && checksum == mark.crc32c {
        Ok(())
    } else {
        Err(fault(FaultKind::Other, "manifest checkpoint disagrees with durable mark"))
    }
}

/// A record of a log.
#[derive(Debug, PartialEq, Eq)]
pub enum DurableRecord {
    Genesis(Genesis),
    Hard(HardState),
    InstalledSnapshotMark(SnapshotMark),
    Append(Entry),
}

pub enum RecordView {
    Genesis(GenesisView),
    Hard(HardState),
    InstalledSnapshotMark(SnapshotMark),
    Append(EntryView),
}

impl View for DurableRecord {
    type V = RecordView;

    open spec fn view(&self) -> RecordView {
        match *self {
            DurableRecord::Genesis(genesis) => RecordView::Genesis(genesis@),
            DurableRecord::Hard(state) => RecordView::Hard(state),
            DurableRecord::InstalledSnapshotMark(mark) => RecordView::InstalledSnapshotMark(mark),
            DurableRecord::Append(entry) => RecordView::Append(entry@),
        }
    }
}

pub open spec fn record_views(records: Seq<DurableRecord>) -> Seq<RecordView> {
    records.map_values(|record: DurableRecord| record@)
}

/// The records that a log is cut down to once its mark is verified: how it
/// began, how the node voted if it ever did, the mark, and what follows it.
pub open spec fn compacted(log: LogView, mark: SnapshotMark) -> Seq<RecordView> {
    let voted = if log.hard_state.term.0 != 0 || log.hard_state.voted_for is Some {
        seq![RecordView::Hard(log.hard_state)]
    } else {
        seq![]
    };
    seq![RecordView::Genesis(log.genesis)] + voted + seq![RecordView::InstalledSnapshotMark(mark)]
        + log.entries.map_values(|entry: EntryView| RecordView::Append(entry))
}

/// Composes the records that a marked log is cut down to.
pub fn compact_verified_wal(log: &LogState) -> (result: Result<Vec<DurableRecord>, Fault>)
    ensures
        match result {
            Ok(records) => log.snapshot is Some && record_views(records@) == compacted(
                log@,
                log.snapshot->0,
            ),
            Err(error) => log.snapshot is None && error@ == because(
                FaultKind::InvalidInput,
                "cannot compact an unmarked WAL",
            ),
        },
{
    let mark = match log.snapshot {
        Some(mark) => mark,
        None => return Err(fault(FaultKind::InvalidInput, "cannot compact an unmarked WAL")),
    };
    let mut records: Vec<DurableRecord> = Vec::new();
    records.push(DurableRecord::Genesis(log.genesis.clone()));
    if log.hard_state.term.get() != 0 || log.hard_state.voted_for.is_some() {
        records.push(DurableRecord::Hard(log.hard_state));
    }
    records.push(DurableRecord::InstalledSnapshotMark(mark));
    let ghost head = record_views(records@);
    let ghost tail = log@.entries.map_values(|entry: EntryView| RecordView::Append(entry));
    assert(head + tail =~= compacted(log@, mark));
    let mut i: usize = 0;
    assert(head + tail.take(0) =~= head);
    while i < log.entries.len()
        invariant
            i <= log.entries@.len(),
            tail == log@.entries.map_values(|entry: EntryView| RecordView::Append(entry)),
            record_views(records@) == head + tail.take(i as int),
        decreases log.entries@.len() - i,
    {
        let ghost before = record_views(records@);
        assert(log@.entries[i as int] == log.entries@[i as int]@);
        let record = DurableRecord::Append(log.entries[i].clone());
        assert(record@ == tail[i as int]);
        records.push(record);
        assert(record_views(records@) =~= before.push(tail[i as int]));
        assert(record_views(records@) =~= head + tail.take(i + 1));
        i += 1;
    }
    assert(tail.take(i as int) =~= tail);
    Ok(records)
}

/// A compaction loses nothing that recovery needs: the genesis, the vote, the
/// mark and every entry behind it are among the records, in that order.
pub proof fn law_compaction_keeps_the_state(log: LogView, mark: SnapshotMark)
    ensures
        ({
            let records = compacted(log, mark);
            let voted = log.hard_state.term.0 != 0 || log.hard_state.voted_for is Some;
            let lead: int = if voted {
                3
            } else {
                2
            };
            &&& records.len() == lead + log.entries.len()
            &&& records[0] == RecordView::Genesis(log.genesis)
            &&& voted ==> records[1] == RecordView::Hard(log.hard_state)
            &&& records[lead - 1] == RecordView::InstalledSnapshotMark(mark)
            &&& forall|i: int|
                0 <= i < log.entries.len() ==> #[trigger] records[lead + i] == RecordView::Append(
                    log.entries[i],
                )
        }),
{
}

/// The checkpoint that a backup is taken from, or why there is none.
pub open spec fn backup_mark(log: RecoveredLog, file_bytes: nat) -> Result<SnapshotMark, FaultView> {
    if !whole(log, file_bytes) {
        Err(because(FaultKind::InvalidData, "backup refuses a torn WAL"))
    } else {
        match log.state.snapshot {
            None => Err(
                because(
                    FaultKind::InvalidData,
                    "backup requires a durably marked logical checkpoint",
                ),
            ),
            Some(mark) => match mark_refusal(mark) {
                Some(fault) => Err(fault),
                None => Ok(mark),
            },
        }
    }
}

/// Finds the checkpoint that a backup is taken from.
pub fn mark_for_backup(log: &RecoveredLog, file_bytes: u64) -> (result: Result<SnapshotMark, Fault>)
    ensures
        match result {
            Ok(mark) => backup_mark(*log, file_bytes as nat) == Ok::<SnapshotMark, FaultView>(mark),
            Err(error) => backup_mark(*log, file_bytes as nat) == Err::<SnapshotMark, FaultView>(
                error@,
            ),
        },
{
    if log.torn_tail_truncated || log.bytes_consumed != file_bytes {
        return Err(fault(FaultKind::InvalidData, "backup refuses a torn WAL"));
    }
    match log.state.snapshot {
        None => Err(
            fault(
                FaultKind::InvalidData,
                "backup requires a durably marked logical checkpoint",
            ),
        ),
        Some(mark) => match check_mark(&mark) {
            Ok(_) => Ok(mark),
            Err(error) => Err(error),
        },
    }
}

/// Decides whether a checkpoint's file can go into a backup.
pub fn check_backup_checkpoint_file(is_file: bool, bytes: u64) -> (result: Result<(), Fault>)
    ensures
        outcome_is(
            result,
            if !is_file || bytes == 0 || bytes > BACKUP_MAX_FILE {
                Some(
                    because(
                        FaultKind::InvalidData,
                        "backup checkpoint must be a bounded regular file",
                    ),
                )
            } else {
                None
            },
        ),
{
    if !is_file || bytes == 0 || bytes > BACKUP_MAX_FILE as u64 {
        return Err(
            fault(FaultKind::InvalidData, "backup checkpoint must be a bounded regular file"),
        );
    }
    Ok(())
}

/// Why a marked checkpoint cannot be backed up, if it cannot.
pub open spec fn backup_refusal(
    mark: SnapshotMark,
    checkpoint: PublishedCheckpoint,
    manifest: Option<SnapshotMark>,
    identity: IdentityView,
    cluster: Seq<u8>,
) -> Option<FaultView> {
    if manifest != Some(mark) || checkpoint.crc32c != mark.crc32c {
        Some(because(FaultKind::Other, "manifest checkpoint disagrees with durable mark"))
    } else if !marked(mark, checkpoint) || checkpoint.policy.hash != identity.policy_hash
        || checkpoint.cluster_id@ != cluster {
        Some(because(FaultKind::InvalidData, "marked checkpoint disagrees with CCID/WAL"))
    } else {
        None
    }
}

/// Decides whether a marked checkpoint can be backed up: the manifest, the
/// log, the identity and the configuration all have to agree with it.
pub fn marked_checkpoint(
    mark: &SnapshotMark,
    checkpoint: &PublishedCheckpoint,
    manifest: Option<SnapshotMark>,
    identity: &DiskIdentity,
    cluster: &ClusterId,
) -> (result: Result<(), Fault>)
    ensures
        outcome_is(
            result,
            backup_refusal(*mark, *checkpoint, manifest, identity@, cluster@),
        ),
{
    match validate_checkpoint_authority(manifest, mark, checkpoint.crc32c) {
        Ok(_) => {},
        Err(error) => return Err(error),
    }
    if checkpoint.crc32c != mark.crc32c || checkpoint.applied_index.get() != mark.index.get()
        || checkpoint.applied_term.get() != mark.term.get() || checkpoint.policy.hash
        != identity.policy_hash || !checkpoint.cluster_id.same(cluster) {
        return Err(fault(FaultKind::InvalidData, "marked checkpoint disagrees with CCID/WAL"));
    }
    Ok(())
}

/// Why a log does not stand up to a check against the configuration, if it
/// does not. The features of a joined cluster are those that it joined.
pub open spec fn log_refusal(
    log: RecoveredLog,
    configured: Option<(Seq<u8>, MembershipView)>,
    policy: Seq<u8>,
) -> Option<FaultView> {
    if log.torn_tail_truncated {
        Some(
            because(
                FaultKind::InvalidData,
                "selfcheck refuses a WAL with an untruncated torn tail",
            ),
        )
    } else {
        match configured {
            None => None,
            Some((cluster, membership)) => {
                let genesis = log.state.genesis@;
                let expected = if genesis.origin == Origin::Join {
                    MembershipView {
                        active_features: genesis.membership.active_features,
                        ..membership
                    }
                } else {
                    membership
                };
                if genesis.cluster_id == cluster && genesis.policy.encoded == policy
                    && matches_bootstrap(genesis.membership, expected) {
                    None
                } else {
                    Some(
                        because(
                            FaultKind::InvalidData,
                            "selfcheck WAL genesis disagrees with config/identity",
                        ),
                    )
                }
            },
        }
    }
}

/// A configuration, as far as a log is checked against it.
pub struct Configured {
    pub cluster_id: ClusterId,
    pub membership: MembershipState,
}

pub open spec fn configured_view(configured: Option<Configured>) -> Option<
    (Seq<u8>, MembershipView),
> {
    match configured {
        Some(configured) => Some((configured.cluster_id@, configured.membership@)),
        None => None,
    }
}

/// Checks a log against the configuration.
pub fn check_log(log: &RecoveredLog, configured: &Option<Configured>, policy: &[u8]) -> (result:
    Result<(), Fault>)
    ensures
        outcome_is(result, log_refusal(*log, configured_view(*configured), policy@)),
{
    if log.torn_tail_truncated {
        return Err(
            fault(
                FaultKind::InvalidData,
                "selfcheck refuses a WAL with an untruncated torn tail",
            ),
        );
    }
    let configured = match configured {
        Some(configured) => configured,
        None => return Ok(()),
    };
    let genesis = &log.state.genesis;
    let mut expected = configured.membership.clone();
    match genesis.origin {
        Origin::Join => {
            expected.active_features = genesis.membership.active_features;
        },
        _ => {},
    }
    if genesis.cluster_id.same(&configured.cluster_id) && same_bytes(
        genesis.policy.encoded.as_slice(),
        policy,
    ) && bootstrap_membership_matches(&genesis.membership, &expected) {
        Ok(())
    } else {
        Err(
            fault(
                FaultKind::InvalidData,
                "selfcheck WAL genesis disagrees with config/identity",
            ),
        )
    }
}

/// How many records a log is said to have: its entries and their genesis. An
/// empty file has none.
pub open spec fn record_count(log: Option<RecoveredLog>) -> nat {
    match log {
        None => 0,
        Some(log) => if log.state.entries@.len() < usize::MAX {
            log.state.entries@.len() + 1
        } else {
            usize::MAX as nat
        },
    }
}

/// Counts the records of a log.
pub fn log_records(log: Option<&RecoveredLog>) -> (records: usize)
    ensures
        records == record_count(
            match log {
                None => None,
                Some(log) => Some(*log),
            },
        ),
{
    match log {
        None => 0,
        Some(log) => {
            let entries: usize = log.state.entries.len();
            if entries < usize::MAX {
                entries + 1
            } else {
                usize::MAX
            }
        },
    }
}

/// Why a marked checkpoint does not stand up to a deep check, if it does not.
pub open spec fn deep_refusal(
    mark: SnapshotMark,
    checkpoint: PublishedCheckpoint,
    manifest: Option<SnapshotMark>,
) -> Option<FaultView> {
    match marked_refusal(mark, checkpoint) {
        Some(fault) => Some(fault),
        None => if manifest != Some(mark) {
            Some(because(FaultKind::Other, "manifest checkpoint disagrees with durable mark"))
        } else {
            None
        },
    }
}

/// What a deep check finds wrong with a marked checkpoint before its manifest is
/// looked at.
pub open spec fn marked_refusal(
    mark: SnapshotMark,
    checkpoint: PublishedCheckpoint,
) -> Option<FaultView> {
    if mark.generation != mark.index.0 || !marked(mark, checkpoint) {
        Some(because(FaultKind::InvalidData, "marked checkpoint disagrees with WAL"))
    } else {
        None
    }
}

/// Checks a marked checkpoint against its mark.
pub fn check_marked(mark: &SnapshotMark, checkpoint: &PublishedCheckpoint) -> (result: Result<
    (),
    Fault,
>)
    ensures
        outcome_is(result, marked_refusal(*mark, *checkpoint)),
{
    if mark.generation != mark.index.get() || checkpoint.applied_index.get() != mark.index.get()
        || checkpoint.applied_term.get() != mark.term.get() || checkpoint.crc32c != mark.crc32c {
        return Err(fault(FaultKind::InvalidData, "marked checkpoint disagrees with WAL"));
    }
    Ok(())
}

/// Checks a marked checkpoint against its mark and its manifest.
pub fn check_deep(
    mark: &SnapshotMark,
    checkpoint: &PublishedCheckpoint,
    manifest: Option<SnapshotMark>,
) -> (result: Result<(), Fault>)
    ensures
        outcome_is(result, deep_refusal(*mark, *checkpoint, manifest)),
{
    if let Err(error) = check_marked(mark, checkpoint) {
        return Err(error);
    }
    validate_checkpoint_authority(manifest, mark, checkpoint.crc32c)
}

/// Decides whether the file of a marked checkpoint has a size that a host can
/// hold.
pub fn check_marked_size(bytes: u64, max_snapshot_bytes: u64) -> (result: Result<(), Fault>)
    ensures
        outcome_is(
            result,
            if bytes == 0 || bytes > max_snapshot_bytes {
                Some(because(FaultKind::InvalidData, "marked checkpoint exceeds host limit"))
            } else {
                None
            },
        ),
{
    if bytes == 0 || bytes > max_snapshot_bytes {
        return Err(fault(FaultKind::InvalidData, "marked checkpoint exceeds host limit"));
    }
    Ok(())
}

/// Decides whether what stands in the staging directory lets a deep check go
/// on.
pub fn check_staging(deep: bool, staging_holds_files: bool) -> (result: Result<(), Fault>)
    ensures
        outcome_is(
            result,
            if deep && staging_holds_files {
                Some(
                    because(
                        FaultKind::InvalidData,
                        "snapshot staging contains an incomplete restore",
                    ),
                )
            } else {
                None
            },
        ),
{
    if deep && staging_holds_files {
        return Err(
            fault(FaultKind::InvalidData, "snapshot staging contains an incomplete restore"),
        );
    }
    Ok(())
}

/// What a check of a data directory reports.
pub open spec fn check_report(
    deep: bool,
    data_dir: Seq<char>,
    records: nat,
    has_mark: bool,
    staging: bool,
) -> Seq<char> {
    "selfcheck"@ + (if deep {
        " --deep"@
    } else {
        ""@
    }) + " data_dir="@ + data_dir + " wal_records="@ + number_text(records) + " snapshot="@ + (
    if !has_mark {
        "none"@
    } else if deep {
        "verified"@
    } else {
        "marked"@
    }) + " snapshot_staging="@ + (if staging {
        "present"@
    } else {
        "absent"@
    })
}

/// Reports a check of a data directory that found no fault.
pub fn selfcheck(deep: bool, data_dir: &str, records: usize, has_mark: bool, staging: bool) -> (report:
    String)
    ensures
        report@ == check_report(deep, data_dir@, records as nat, has_mark, staging),
{
    let mut report = "selfcheck".to_owned();
    report.append(
        if deep {
            " --deep"
        } else {
            ""
        },
    );
    report.append(" data_dir=");
    report.append(data_dir);
    report.append(" wal_records=");
    append_number(&mut report, records as u64);
    report.append(" snapshot=");
    report.append(
        if !has_mark {
            "none"
        } else if deep {
            "verified"
        } else {
            "marked"
        },
    );
    report.append(" snapshot_staging=");
    report.append(
        if staging {
            "present"
        } else {
            "absent"
        },
    );
    report
}

} // verus!
