//! From a backup to a running cluster.
use vstd::prelude::*;

use crate::backup::{backup_bytes, backup_of, law_backup_reads_back};
use crate::fault::FaultView;
use crate::hex::zero_id;
use crate::identity::{identity_bytes, identity_refusal, IdentityView, Reader};
use crate::ids::Time;
use crate::lifecycle_laws::law_directories_open_to_their_owner;
use crate::recovery::{PolicyLimits, SnapshotMark};
use crate::restore::{
    exported, format_of, restore_input_refusal, restore_plan_of, snapshot_facts, BackupFormat,
    HostLimits, SnapshotView,
};

verus! {

/// Whether no message that a policy allows is larger than the codec takes.
pub open spec fn sized_for_the_codec(limits: PolicyLimits) -> bool {
    &&& limits.max_key_bytes <= 67_108_864
    &&& limits.max_value_bytes <= 67_108_864
    &&& limits.max_command_bytes <= 67_108_864
    &&& limits.max_reply_bytes <= 67_108_864
    &&& limits.max_batch_bytes <= 67_108_864
    &&& limits.max_batch_reply_bytes <= 67_108_864
}

/// What a node backs up can be restored: the bundle of its marked checkpoint is
/// read back with that checkpoint in it, a host that can hold its state restores it
/// under another cluster's identity, and the directory that is written opens to the
/// restored node. Batches may have been active, where the source knew them.
pub proof fn law_backups_restore(
    identity: IdentityView,
    mark: SnapshotMark,
    checkpoint: Seq<u8>,
    snapshot: SnapshotView,
    cluster: Seq<u8>,
    node: u64,
    data_dir: Seq<char>,
    now: Time,
    host: HostLimits,
    kept: Vec<u8>,
    accept_legacy: bool,
    reader: Reader,
)
    requires
        identity.cluster_id.len() == 16,
        !zero_id(identity.cluster_id),
        1 <= identity.min_semantic_reader <= 3,
        mark.index == snapshot.applied_index && mark.index.0 != 0,
        mark.term == snapshot.applied_term && mark.term.0 != 0,
        0 < checkpoint.len() <= 1_073_741_824,
        snapshot.membership.active_features == 0 || (snapshot.membership.active_features == 2
            && identity.min_semantic_reader == 3),
        snapshot.policy.limits.valid,
        sized_for_the_codec(snapshot.policy.limits),
        snapshot.policy.limits.max_live_logical_bytes <= host.max_snapshot_bytes,
        host.valid,
        cluster.len() == 16,
        !zero_id(cluster),
        cluster != identity.cluster_id,
        1 <= node <= 58_235,
        reader.node_id == node,
        reader.cluster_id@ == cluster,
        reader.policy_hash == snapshot.policy.hash,
        reader.max_storage_reader >= 2,
        reader.max_semantic_reader >= 3,
    ensures
        ({
            let bytes = backup_bytes(exported(identity, mark, checkpoint, snapshot));
            &&& restore_input_refusal(true, bytes.len() as u64) is None
            &&& format_of(bytes, accept_legacy) == Ok::<BackupFormat, FaultView>(
                BackupFormat::Bundle,
            )
            &&& backup_of(bytes, Ok(snapshot_facts(snapshot))) matches Ok(backup)
                && backup.checkpoint == checkpoint && backup.source_cluster_id
                == identity.cluster_id && (restore_plan_of(
                backup,
                snapshot,
                cluster,
                node,
                data_dir,
                now,
                host,
                Ok(kept),
            ) matches Ok(plan) && identity_refusal(
                false,
                true,
                identity_bytes(plan.identity),
                reader,
            ) is None)
        }),
{
    let backup = exported(identity, mark, checkpoint, snapshot);
    law_backup_reads_back(backup);
    assert(0u64 & !2u64 == 0 && 2u64 & !2u64 == 0) by (bit_vector);
    if let Ok(plan) = restore_plan_of(backup, snapshot, cluster, node, data_dir, now, host, Ok(kept)) {
        law_directories_open_to_their_owner(false, true, plan.identity, reader);
    }
}

} // verus!
