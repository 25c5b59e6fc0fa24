//! What a check of a data directory, a backup and an import make of what stands
//! on the disk.
use vstd::prelude::*;
use vstd::utf8::*;

use crate::boot_laws::is_marked_one;
use crate::config::config_of;
use crate::fault::FaultView;
use crate::identity::{identity_bytes, identity_valid, law_identity_reads_back, IdentityView};
use crate::ids::{NodeId, Time};
use crate::legacy::FilesView;
use crate::membership::MembershipView;
use crate::recovery::{
    backup_mark, backup_refusal, Origin, PolicyView, PublishedCheckpoint, RecoveredLog,
    SnapshotMark,
};
use crate::restore::import_of;
use crate::selfcheck::{check_next, CheckStepView, FoundMark, Staging};

verus! {

/// Whether a log began with the configured cluster, members and policy. The features
/// of a joined cluster are those that it joined.
pub open spec fn began_as_configured(
    log: RecoveredLog,
    cluster: Seq<u8>,
    members: MembershipView,
    policy: Seq<u8>,
) -> bool {
    let genesis = log.state.genesis@;
    let first = genesis.membership;
    &&& genesis.cluster_id == cluster
    &&& genesis.policy.encoded == policy
    &&& first.voters == members.voters
    &&& first.learners == members.learners
    &&& first.joint == members.joint
    &&& genesis.origin == Origin::Join || first.active_features == members.active_features
    &&& first.addresses.dom() =~= Set::empty() || first.addresses == members.addresses
}

/// Whether a checkpoint and its manifest are the marked ones, whatever the policy.
pub open spec fn found_as_marked(
    mark: SnapshotMark,
    checkpoint: PublishedCheckpoint,
    manifest: Option<SnapshotMark>,
) -> bool {
    &&& mark.generation == mark.index.0
    &&& is_marked_one(mark, checkpoint, checkpoint.policy@.encoded)
    &&& manifest == Some(mark)
}

/// A check finds no fault with a sound directory, and a fault with any other. The log
/// has to be whole and to have begun as configured. A deep check asks for nothing to
/// be staged, and for the checkpoint of the marked generation: its size, what it says
/// and its manifest, in that order.
pub proof fn law_checks_tell_sound_directories(
    deep: bool,
    data_dir: Seq<char>,
    log: RecoveredLog,
    configured: Option<(Seq<u8>, MembershipView)>,
    policy: Seq<u8>,
    staging: Staging,
    max_snapshot_bytes: u64,
    found: FoundMark,
)
    ensures
        ({
            let step = check_next(
                deep,
                data_dir,
                Some(log),
                configured,
                policy,
                staging,
                max_snapshot_bytes,
                found,
            );
            let sound = !log.torn_tail_truncated && (configured matches Some(known)
                ==> began_as_configured(log, known.0, known.1, policy)) && !(deep
                && staging.holds_files);
            &&& !sound ==> step is Fail
            &&& sound && (!deep || log.state.snapshot is None) ==> step is Report
            &&& sound && deep ==> (log.state.snapshot matches Some(mark) ==> match found {
                FoundMark::Unseen => step == CheckStepView::Measure { generation: mark.generation },
                FoundMark::Measured { bytes } => if 1 <= bytes <= max_snapshot_bytes {
                    step == CheckStepView::Read { generation: mark.generation }
                } else {
                    step is Fail
                },
                FoundMark::Read { bytes, checkpoint } => if 1 <= bytes <= max_snapshot_bytes
                    && found_as_marked(mark, checkpoint, Some(mark)) {
                    step == CheckStepView::ReadManifest { generation: mark.generation }
                } else {
                    step is Fail
                },
                FoundMark::Listed { bytes, checkpoint, manifest } => if 1 <= bytes
                    <= max_snapshot_bytes && found_as_marked(mark, checkpoint, manifest) {
                    step is Report
                } else {
                    step is Fail
                },
            })
        }),
{
    let first = log.state.genesis@.membership;
    assert(first.addresses.dom() =~= Set::empty() ==> first.addresses =~= Map::empty());
}

/// A directory without a log is sound, unless a deep check finds something staged.
pub proof fn law_checks_pass_empty_directories(
    deep: bool,
    data_dir: Seq<char>,
    configured: Option<(Seq<u8>, MembershipView)>,
    policy: Seq<u8>,
    staging: Staging,
    max_snapshot_bytes: u64,
    found: FoundMark,
)
    ensures
        ({
            let step = check_next(
                deep,
                data_dir,
                None,
                configured,
                policy,
                staging,
                max_snapshot_bytes,
                found,
            );
            if deep && staging.holds_files {
                step is Fail
            } else {
                step is Report
            }
        }),
{
}

/// A backup is taken from the marked checkpoint of a log that is whole, and of no
/// other; and only where the manifest, the identity and the configured cluster agree
/// with that checkpoint.
pub proof fn law_backups_are_taken_from_marked_checkpoints(
    log: RecoveredLog,
    file_bytes: nat,
    mark: SnapshotMark,
    checkpoint: PublishedCheckpoint,
    manifest: Option<SnapshotMark>,
    identity: IdentityView,
    cluster: Seq<u8>,
)
    ensures
        backup_mark(log, file_bytes) == Ok::<SnapshotMark, FaultView>(mark) <==> {
            &&& !log.torn_tail_truncated
            &&& log.bytes_consumed == file_bytes
            &&& log.state.snapshot == Some(mark)
            &&& mark.generation == mark.index.0
        },
        backup_refusal(mark, checkpoint, manifest, identity, cluster) is None <==> {
            &&& manifest == Some(mark)
            &&& checkpoint.applied_index == mark.index
            &&& checkpoint.applied_term == mark.term
            &&& checkpoint.crc32c == mark.crc32c
            &&& checkpoint.policy.hash == identity.policy_hash
            &&& checkpoint.cluster_id@ == cluster
        },
{
}

/// The archive of a node that never acknowledged anything is imported, and as
/// nothing: with the members and the policy that its log began with, or alone where it
/// has no log. The archive of a node whose log went on is refused.
pub proof fn law_untouched_archives_are_imported(
    identity: IdentityView,
    config: Seq<u8>,
    wal: Seq<u8>,
    known: Seq<Seq<char>>,
    policy: PolicyView,
    no_sessions: Seq<u8>,
    log: RecoveredLog,
)
    requires
        identity.cluster_id.len() == 16,
        identity_valid(identity),
        valid_utf8(config),
        config_of(decode_utf8(config), known) matches Ok(read) && read.cluster_id
            == identity.cluster_id && read.id == identity.node_id,
    ensures
        ({
            let archive = FilesView {
                identity: Some(identity_bytes(identity)),
                config: Some(config),
                wal: Some(wal),
            };
            let import = import_of(archive, known, policy, no_sessions, Ok(log));
            let began = log.state.genesis@;
            let untouched = !log.torn_tail_truncated && log.bytes_consumed == wal.len()
                && log.state.entries@.len() == 0 && log.state.snapshot is None && began.cluster_id
                == identity.cluster_id && began.policy.hash == identity.policy_hash;
            &&& wal.len() == 0 || untouched <==> import is Ok
            &&& import matches Ok(found) ==> {
                &&& found.min_semantic == identity.min_semantic_reader
                &&& found.snapshot.cluster_id == identity.cluster_id
                &&& found.snapshot.entries.len() == 0
                &&& found.snapshot.applied_index.0 == 1 && found.snapshot.applied_term.0 == 1
                &&& found.snapshot.last_leader_time == Time(0)
                &&& wal.len() > 0 ==> found.snapshot.membership == began.membership
                    && found.snapshot.policy == began.policy
                &&& wal.len() == 0 ==> found.snapshot.membership.voters =~= set![
                    NodeId(identity.node_id),
                ] && found.snapshot.membership.learners =~= Set::empty()
                    && found.snapshot.membership.active_features == 0 && found.snapshot.policy
                    == policy
            }
        }),
{
    law_identity_reads_back(identity);
}

} // verus!
