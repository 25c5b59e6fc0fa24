//! How a node comes back: what a host finds on its disk is what its node goes on
//! from.
use vstd::prelude::*;

use crate::boot::{boot_step, BootStepView, FoundCheckpoint};
use crate::fault::FaultView;
use crate::ids::{LogIndex, NodeId, Term};
use crate::membership::MembershipView;
use crate::recovery::{
    snapshot_threshold, LogView, Origin, PublishedCheckpoint, SnapshotMark,
};
use crate::text::number_in;

verus! {

/// Whether a log began with a node's own cluster, policy and configured members.
/// Where the log has no addresses, the configuration gives them.
pub open spec fn own_log(
    log: LogView,
    node: u64,
    cluster: Seq<u8>,
    policy: Seq<u8>,
    configured: MembershipView,
) -> bool {
    let first = log.genesis.membership;
    &&& log.genesis.cluster_id == cluster
    &&& log.genesis.policy.encoded == policy
    &&& log.genesis.origin == Origin::Join ==> !first.voters.contains(NodeId(node))
        && !first.learners.contains(NodeId(node))
    &&& log.genesis.origin != Origin::Join ==> {
        &&& first.voters == configured.voters
        &&& first.learners == configured.learners
        &&& first.joint == configured.joint
        &&& first.active_features == configured.active_features
        &&& first.addresses.dom() =~= Set::empty() || first.addresses == configured.addresses
    }
}

/// Whether a published checkpoint is the one that a log is marked with.
pub open spec fn is_marked_one(
    mark: SnapshotMark,
    checkpoint: PublishedCheckpoint,
    policy: Seq<u8>,
) -> bool {
    &&& checkpoint.applied_index == mark.index
    &&& checkpoint.applied_term == mark.term
    &&& checkpoint.crc32c == mark.crc32c
    &&& checkpoint.policy@.encoded == policy
}

/// A node whose log is its own and has no mark starts at once, from the members
/// that the log began with, with its vote and its entries. With a log that is not
/// its own it does not start.
pub proof fn law_unmarked_logs_start(
    log: LogView,
    base: (LogIndex, Term),
    node: u64,
    cluster: Seq<u8>,
    policy: Seq<u8>,
    configured: MembershipView,
    max_snapshot_bytes: u64,
    found: FoundCheckpoint,
)
    requires
        log.snapshot is None,
    ensures
        ({
            let step = boot_step(
                log,
                base,
                node,
                cluster,
                policy,
                configured,
                max_snapshot_bytes,
                found,
            );
            &&& own_log(log, node, cluster, policy, configured) ==> (step matches
                BootStepView::Start { node: started, compact } && !compact && started.membership
                == log.genesis.membership && started.hard_state == log.hard_state
                && started.entries == log.entries && started.log_base == base
                && started.durable_applied == base && started.policy == log.genesis.policy)
            &&& !own_log(log, node, cluster, policy, configured) ==> step is Fail
        }),
{
    assert(log.genesis.membership.addresses.dom() =~= Set::empty() ==> log.genesis.membership.addresses
        =~= Map::empty());
}

/// A node whose log is its own and marked starts once its host has measured, read
/// and listed the marked checkpoint, in that order: each thing it asks for is of the
/// generation that is marked, and with what it asked for it goes on. It starts from
/// the members of that checkpoint, with its vote and the entries behind it.
pub proof fn law_marked_logs_start(
    log: LogView,
    base: (LogIndex, Term),
    node: u64,
    cluster: Seq<u8>,
    policy: Seq<u8>,
    configured: MembershipView,
    max_snapshot_bytes: u64,
    found: FoundCheckpoint,
    mark: SnapshotMark,
)
    requires
        own_log(log, node, cluster, policy, configured),
        log.snapshot == Some(mark),
        mark.generation == mark.index.0,
    ensures
        ({
            let step = boot_step(
                log,
                base,
                node,
                cluster,
                policy,
                configured,
                max_snapshot_bytes,
                found,
            );
            match found {
                FoundCheckpoint::Unseen => step == BootStepView::Measure {
                    generation: mark.generation,
                },
                FoundCheckpoint::Measured { bytes } => if 1 <= bytes <= max_snapshot_bytes {
                    step == BootStepView::Read { generation: mark.generation }
                } else {
                    step is Fail
                },
                FoundCheckpoint::Read { bytes, checkpoint, .. } => if 1 <= bytes
                    <= max_snapshot_bytes && is_marked_one(mark, checkpoint, policy) {
                    step == BootStepView::ReadManifest { generation: mark.generation }
                } else {
                    step is Fail
                },
                FoundCheckpoint::Listed { bytes, checkpoint, membership, manifest } => if 1 <= bytes
                    <= max_snapshot_bytes && is_marked_one(mark, checkpoint, policy) && manifest
                    == Some(mark) {
                    step matches BootStepView::Start { node: started, compact } && compact
                        && started.membership == membership@ && started.hard_state
                        == log.hard_state && started.entries == log.entries && started.log_base
                        == base && started.durable_applied == base && started.policy
                        == log.genesis.policy
                } else {
                    step is Fail
                },
            }
        }),
{
    assert(log.genesis.membership.addresses.dom() =~= Set::empty() ==> log.genesis.membership.addresses
        =~= Map::empty());
}

/// A checkpoint is taken after as many bytes of log as the operator asks for, where that
/// is some and the log can grow that far; without a word, after as many as usual.
pub proof fn law_checkpoints_come_when_asked_for(
    text: Seq<char>,
    usual: u64,
    max_raft_log_bytes: u64,
    bytes: u64,
)
    ensures
        snapshot_threshold(None, usual, max_raft_log_bytes) == Ok::<u64, FaultView>(usual),
        snapshot_threshold(Some(text), usual, max_raft_log_bytes) == Ok::<u64, FaultView>(bytes)
            <==> number_in(text) == Some(bytes) && 0 < bytes < max_raft_log_bytes,
{
}

} // verus!
