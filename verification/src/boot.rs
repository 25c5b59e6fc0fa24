//! How a node starts from what is in its data directory.
use vstd::prelude::*;

use crate::fault::{because, fault, outcome_is, Fault, FaultKind, FaultView};
use crate::hex::ClusterId;
use crate::ids::{LogIndex, Term};
use crate::membership::{MembershipState, MembershipView};
use crate::raft_types::{
    copy_entries, entry_views, same_entries, Entry, EntryView, HardState,
};
use crate::recovery::{
    admit_genesis, check_mark, check_published, check_published_size, genesis_admitted,
    mark_refusal, marked, same_addresses, validate_checkpoint_authority, ClusterPolicy, Genesis,
    GenesisView, LogState, LogView, Origin, PolicyView, PublishedCheckpoint, RecoveredLog,
    SnapshotMark,
};
use crate::text::same_bytes;

verus! {

/// The first record of the log of a node that starts with its cluster.
pub fn bootstrap_genesis(
    cluster: &ClusterId,
    policy: &ClusterPolicy,
    membership: &MembershipState,
) -> (genesis: Genesis)
    ensures
        genesis@ == (GenesisView {
            origin: Origin::Bootstrap,
            cluster_id: cluster@,
            policy: policy@,
            membership: membership@,
        }),
{
    Genesis {
        origin: Origin::Bootstrap,
        cluster_id: *cluster,
        policy: policy.clone(),
        membership: membership.clone(),
    }
}

/// Where a log is cut off, if it is: what a crash left behind its last whole
/// record goes.
pub fn torn_tail(torn_tail_truncated: bool, bytes_consumed: u64) -> (len: Option<u64>)
    ensures
        len == if torn_tail_truncated {
            Some(bytes_consumed)
        } else {
            None
        },
{
    if torn_tail_truncated {
        Some(bytes_consumed)
    } else {
        None
    }
}

/// What the host knows so far of the checkpoint that a log is marked with.
#[derive(Debug, PartialEq, Eq)]
pub enum FoundCheckpoint {
    Unseen,
    Measured { bytes: u64 },
    Read { bytes: u64, checkpoint: PublishedCheckpoint, membership: MembershipState },
    Listed {
        bytes: u64,
        checkpoint: PublishedCheckpoint,
        membership: MembershipState,
        manifest: Option<SnapshotMark>,
    },
}

/// What a node starts with.
#[derive(Debug, PartialEq, Eq)]
pub struct RecoveredNode {
    pub hard_state: HardState,
    pub log_base: (LogIndex, Term),
    pub entries: Vec<Entry>,
    pub membership: MembershipState,
    pub policy: ClusterPolicy,
    pub durable_applied: (LogIndex, Term),
}

#[verifier::ext_equal]
pub struct RecoveredView {
    pub hard_state: HardState,
    pub log_base: (LogIndex, Term),
    pub entries: Seq<EntryView>,
    pub membership: MembershipView,
    pub policy: PolicyView,
    pub durable_applied: (LogIndex, Term),
}

impl View for RecoveredNode {
    type V = RecoveredView;

    open spec fn view(&self) -> RecoveredView {
        RecoveredView {
            hard_state: self.hard_state,
            log_base: self.log_base,
            entries: entry_views(self.entries@),
            membership: self.membership@,
            policy: self.policy@,
            durable_applied: self.durable_applied,
        }
    }
}

/// What the host does next to start a node.
#[derive(Debug, PartialEq, Eq)]
pub enum BootStep {
    /// Measures the checkpoint of a generation.
    Measure { generation: u64 },
    /// Reads that checkpoint.
    Read { generation: u64 },
    /// Reads its manifest.
    ReadManifest { generation: u64 },
    /// Starts the node. A log whose checkpoint is verified is cut down first.
    Start { node: RecoveredNode, compact: bool },
    Fail(Fault),
}

pub enum BootStepView {
    Measure { generation: u64 },
    Read { generation: u64 },
    ReadManifest { generation: u64 },
    Start { node: RecoveredView, compact: bool },
    Fail(FaultView),
}

impl View for BootStep {
    type V = BootStepView;

    open spec fn view(&self) -> BootStepView {
        match *self {
            BootStep::Measure { generation } => BootStepView::Measure { generation },
            BootStep::Read { generation } => BootStepView::Read { generation },
            BootStep::ReadManifest { generation } => BootStepView::ReadManifest { generation },
            BootStep::Start { node, compact } => BootStepView::Start { node: node@, compact },
            BootStep::Fail(fault) => BootStepView::Fail(fault@),
        }
    }
}

/// The node that a log and a membership make. `base` is where the entries of
/// the log begin.
pub open spec fn recovered(
    log: LogView,
    base: (LogIndex, Term),
    membership: MembershipView,
) -> RecoveredView {
    RecoveredView {
        hard_state: log.hard_state,
        log_base: base,
        entries: log.entries,
        membership,
        policy: log.genesis.policy,
        durable_applied: base,
    }
}

/// Whether a checkpoint that was read is the marked one, under the policy of
/// the node and with the word of the manifest.
pub open spec fn verified_checkpoint(
    mark: SnapshotMark,
    checkpoint: PublishedCheckpoint,
    manifest: Option<SnapshotMark>,
    policy: Seq<u8>,
) -> bool {
    &&& marked(mark, checkpoint)
    &&& checkpoint.policy@.encoded == policy
    &&& manifest == Some(mark)
}

/// What the host does next, by what it knows so far.
pub open spec fn boot_step(
    log: LogView,
    base: (LogIndex, Term),
    node: u64,
    cluster: Seq<u8>,
    policy: Seq<u8>,
    configured: MembershipView,
    max_snapshot_bytes: u64,
    found: FoundCheckpoint,
) -> BootStepView {
    if !genesis_admitted(log.genesis, node, cluster, policy, configured) {
        BootStepView::Fail(
            because(
                FaultKind::InvalidData,
                "WAL genesis does not match CCID/configured membership",
            ),
        )
    } else {
        match log.snapshot {
            None => BootStepView::Start {
                node: recovered(log, base, log.genesis.membership),
                compact: false,
            },
            Some(mark) => match mark_refusal(mark) {
                Some(fault) => BootStepView::Fail(fault),
                None => match found {
                    FoundCheckpoint::Unseen => BootStepView::Measure { generation: mark.generation },
                    FoundCheckpoint::Measured { bytes } => if bytes == 0 || bytes
                        > max_snapshot_bytes {
                        BootStepView::Fail(
                            because(
                                FaultKind::InvalidData,
                                "published snapshot exceeds host limit",
                            ),
                        )
                    } else {
                        BootStepView::Read { generation: mark.generation }
                    },
                    FoundCheckpoint::Read { bytes, checkpoint, .. } => if bytes == 0 || bytes
                        > max_snapshot_bytes {
                        BootStepView::Fail(
                            because(
                                FaultKind::InvalidData,
                                "published snapshot exceeds host limit",
                            ),
                        )
                    } else if !(marked(mark, checkpoint) && checkpoint.policy@.encoded == policy) {
                        BootStepView::Fail(
                            because(
                                FaultKind::InvalidData,
                                "published snapshot disagrees with durable mark",
                            ),
                        )
                    } else {
                        BootStepView::ReadManifest { generation: mark.generation }
                    },
                    FoundCheckpoint::Listed { bytes, checkpoint, membership, manifest } => if bytes
                        == 0 || bytes > max_snapshot_bytes {
                        BootStepView::Fail(
                            because(
                                FaultKind::InvalidData,
                                "published snapshot exceeds host limit",
                            ),
                        )
                    } else if !(marked(mark, checkpoint) && checkpoint.policy@.encoded == policy) {
                        BootStepView::Fail(
                            because(
                                FaultKind::InvalidData,
                                "published snapshot disagrees with durable mark",
                            ),
                        )
                    } else if manifest != Some(mark) {
                        BootStepView::Fail(
                            because(
                                FaultKind::Other,
                                "manifest checkpoint disagrees with durable mark",
                            ),
                        )
                    } else {
                        BootStepView::Start {
                            node: recovered(log, base, membership@),
                            compact: true,
                        }
                    },
                },
            },
        }
    }
}

fn recover_node(
    log: &LogState,
    base: (LogIndex, Term),
    membership: &MembershipState,
) -> (node: RecoveredNode)
    ensures
        node@ == recovered(log@, base, membership@),
{
    let node = RecoveredNode {
        hard_state: log.hard_state,
        log_base: base,
        entries: copy_entries(log.entries.as_slice()),
        membership: membership.clone(),
        policy: log.genesis.policy.clone(),
        durable_applied: base,
    };
    assert(node@ =~= recovered(log@, base, membership@));
    node
}

/// Decides what the host does next to start a node.
pub fn boot(
    log: &LogState,
    base: (LogIndex, Term),
    node: u64,
    cluster: &ClusterId,
    policy: &[u8],
    configured: &MembershipState,
    max_snapshot_bytes: u64,
    found: &FoundCheckpoint,
) -> (step: BootStep)
    ensures
        step@ == boot_step(
            log@,
            base,
            node,
            cluster@,
            policy@,
            configured@,
            max_snapshot_bytes,
            *found,
        ),
{
    if let Err(error) = admit_genesis(&log.genesis, node, cluster, policy, configured) {
        return BootStep::Fail(error);
    }
    let mark = match log.snapshot {
        None => {
            let node = recover_node(log, base, &log.genesis.membership);
            return BootStep::Start { node, compact: false };
        },
        Some(mark) => mark,
    };
    if let Err(error) = check_mark(&mark) {
        return BootStep::Fail(error);
    }
    match found {
        FoundCheckpoint::Unseen => BootStep::Measure { generation: mark.generation },
        FoundCheckpoint::Measured { bytes } => match check_published_size(
            *bytes,
            max_snapshot_bytes,
        ) {
            Err(error) => BootStep::Fail(error),
            Ok(_) => BootStep::Read { generation: mark.generation },
        },
        FoundCheckpoint::Read { bytes, checkpoint, membership: _ } => {
            if let Err(error) = check_published_size(*bytes, max_snapshot_bytes) {
                return BootStep::Fail(error);
            }
            match check_published(&mark, checkpoint, policy) {
                Err(error) => BootStep::Fail(error),
                Ok(_) => BootStep::ReadManifest { generation: mark.generation },
            }
        },
        FoundCheckpoint::Listed { bytes, checkpoint, membership, manifest } => {
            if let Err(error) = check_published_size(*bytes, max_snapshot_bytes) {
                return BootStep::Fail(error);
            }
            if let Err(error) = check_published(&mark, checkpoint, policy) {
                return BootStep::Fail(error);
            }
            if let Err(error) = validate_checkpoint_authority(*manifest, &mark, checkpoint.crc32c) {
                return BootStep::Fail(error);
            }
            BootStep::Start { node: recover_node(log, base, membership), compact: true }
        },
    }
}

/// A node that starts keeps what its log says: its term and vote, and every
/// entry. It starts from the membership of a checkpoint only where that
/// checkpoint is the marked one and both the policy and the manifest agree;
/// without a mark it starts from the genesis.
pub proof fn law_boots_keep_the_durable_state(
    log: LogView,
    base: (LogIndex, Term),
    node: u64,
    cluster: Seq<u8>,
    policy: Seq<u8>,
    configured: MembershipView,
    max_snapshot_bytes: u64,
    found: FoundCheckpoint,
)
    ensures
        boot_step(log, base, node, cluster, policy, configured, max_snapshot_bytes, found) matches
            BootStepView::Start { node: started, compact } ==> {
            &&& started.hard_state == log.hard_state
            &&& started.entries == log.entries
            &&& started.policy.encoded == policy
            &&& log.genesis.cluster_id == cluster
            &&& compact <==> log.snapshot is Some
            &&& log.snapshot is None ==> started.membership == log.genesis.membership
            &&& log.snapshot matches Some(mark) ==> {
                &&& mark.generation == mark.index.0
                &&& found matches FoundCheckpoint::Listed { checkpoint, membership, manifest, .. }
                &&& verified_checkpoint(mark, checkpoint, manifest, policy)
                &&& started.membership == membership@
            }
        },
{
}

/// A boot ends: each step that asks for more is answered by one that asks for
/// less, and once the manifest is read nothing more is asked for. A manifest is
/// read only where the checkpoint is the marked one.
pub proof fn law_boots_end(
    log: LogView,
    base: (LogIndex, Term),
    node: u64,
    cluster: Seq<u8>,
    policy: Seq<u8>,
    configured: MembershipView,
    max_snapshot_bytes: u64,
    found: FoundCheckpoint,
)
    ensures
        ({
            let step = boot_step(
                log,
                base,
                node,
                cluster,
                policy,
                configured,
                max_snapshot_bytes,
                found,
            );
            &&& step is Measure ==> found is Unseen
            &&& step is Read ==> found is Measured
            &&& step is ReadManifest ==> {
                &&& found matches FoundCheckpoint::Read { checkpoint, .. }
                &&& log.snapshot matches Some(mark)
                &&& marked(mark, checkpoint)
                &&& checkpoint.policy@.encoded == policy
            }
            &&& found is Listed ==> step is Start || step is Fail
        }),
{
}

/// Whether two memberships are the same.
pub fn same_membership(a: &MembershipState, b: &MembershipState) -> (r: bool)
    ensures
        r == (a@ == b@),
{
    let joint = match (&a.joint, &b.joint) {
        (None, None) => true,
        (Some(x), Some(y)) => {
            let r = x.old_voters.same(&y.old_voters) && x.new_voters.same(&y.new_voters)
                && x.enter_index.get() == y.enter_index.get();
            assert(r == (x@ == y@));
            r
        },
        _ => false,
    };
    a.voters.same(&b.voters) && a.learners.same(&b.learners) && joint && a.active_features
        == b.active_features && same_addresses(&a.addresses, &b.addresses)
}

fn same_mark(a: Option<SnapshotMark>, b: Option<SnapshotMark>) -> (r: bool)
    ensures
        r == (a == b),
{
    match (a, b) {
        (None, None) => true,
        (Some(a), Some(b)) => a.index.get() == b.index.get() && a.term.get() == b.term.get()
            && a.generation == b.generation && a.crc32c == b.crc32c,
        _ => false,
    }
}

fn same_hard_state(a: HardState, b: HardState) -> (r: bool)
    ensures
        r == (a == b),
{
    let votes = match (a.voted_for, b.voted_for) {
        (None, None) => true,
        (Some(a), Some(b)) => a.get() == b.get(),
        _ => false,
    };
    votes && a.term.get() == b.term.get()
}

/// Whether two replayed logs say the same.
pub fn same_log(a: &LogState, b: &LogState) -> (r: bool)
    ensures
        r == (a@ == b@),
{
    let origins = match (a.genesis.origin, b.genesis.origin) {
        (Origin::Bootstrap, Origin::Bootstrap) => true,
        (Origin::Join, Origin::Join) => true,
        (Origin::Restore, Origin::Restore) => true,
        _ => false,
    };
    let policies = same_bytes(
        a.genesis.policy.encoded.as_slice(),
        b.genesis.policy.encoded.as_slice(),
    ) && a.genesis.policy.hash == b.genesis.policy.hash && a.genesis.policy.limits
        == b.genesis.policy.limits;
    assert(policies == (a.genesis.policy@ == b.genesis.policy@));
    let genesis = origins && policies && a.genesis.cluster_id.same(&b.genesis.cluster_id)
        && same_membership(&a.genesis.membership, &b.genesis.membership);
    assert(genesis == (a.genesis@ == b.genesis@));
    genesis && same_hard_state(a.hard_state, b.hard_state) && same_mark(a.snapshot, b.snapshot)
        && same_entries(a.entries.as_slice(), b.entries.as_slice())
}

/// Decides whether a log that was cut down may take the place of the log it
/// came from: replayed, it says the same to its last byte.
pub fn check_compaction(log: &LogState, replayed: &RecoveredLog) -> (result: Result<(), Fault>)
    ensures
        outcome_is(
            result,
            if !replayed.torn_tail_truncated && replayed.state@ == log@ {
                None
            } else {
                Some(
                    because(
                        FaultKind::InvalidData,
                        "compacted WAL does not recover the verified state",
                    ),
                )
            },
        ),
{
    if !replayed.torn_tail_truncated && same_log(&replayed.state, log) {
        Ok(())
    } else {
        Err(
            fault(
                FaultKind::InvalidData,
                "compacted WAL does not recover the verified state",
            ),
        )
    }
}

} // verus!
