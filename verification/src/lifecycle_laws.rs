//! Whom a data directory belongs to, and how its node comes and goes.
use vstd::prelude::*;

use crate::fault::{FaultKind, FaultView};
use crate::identity::{
    floors_raised, identity_bytes, identity_refusal, identity_valid, law_identity_reads_back,
    lifecycle_marked, lifecycle_step, served, IdentityView, LifecycleStep,
    Reader,
};

verus! {

/// Whether a data directory is a node's own: of its number, its cluster and its
/// policy.
pub open spec fn belongs(identity: IdentityView, reader: Reader) -> bool {
    &&& identity.node_id == reader.node_id
    &&& identity.cluster_id == reader.cluster_id@
    &&& identity.policy_hash == reader.policy_hash
}

/// A data directory opens to the node that it belongs to and to no other, as long
/// as that node is not removed and reads both formats that were written. What an old
/// journal is all there is of, opens to nobody.
pub proof fn law_directories_open_to_their_owner(
    legacy_journal: bool,
    wal_present: bool,
    identity: IdentityView,
    reader: Reader,
)
    requires
        identity.cluster_id.len() == 16,
        identity_valid(identity),
    ensures
        identity_refusal(legacy_journal, wal_present, identity_bytes(identity), reader) is None <==> {
            &&& wal_present || !legacy_journal
            &&& belongs(identity, reader)
            &&& identity.lifecycle == 1 || identity.lifecycle == 2
            &&& identity.min_storage_reader <= reader.max_storage_reader
            &&& identity.min_semantic_reader <= reader.max_semantic_reader
        },
{
    law_identity_reads_back(identity);
}

/// Whether only the lifecycle and the epoch of an identity moved, the epoch by one.
pub open spec fn moved_to(before: IdentityView, after: IdentityView, lifecycle: u8) -> bool {
    &&& after.lifecycle == lifecycle
    &&& after.migration_epoch == before.migration_epoch + 1
    &&& after.cluster_id == before.cluster_id
    &&& after.node_id == before.node_id
    &&& after.policy_hash == before.policy_hash
    &&& after.min_storage_reader == before.min_storage_reader
    &&& after.min_semantic_reader == before.min_semantic_reader
}

/// A joining node is made active as soon as it is a member, and not before. An
/// active one is removed as soon as it is none, and not before. A removed one stops,
/// member or not. What is marked is written with the next epoch and otherwise as it
/// was; and what is marked as it was already is not written.
pub proof fn law_members_come_and_go(identity: IdentityView, present: bool)
    requires
        identity_valid(identity),
        identity.migration_epoch < u64::MAX,
    ensures
        identity.lifecycle == 2 ==> {
            &&& lifecycle_step(identity.lifecycle, present) == if present {
                LifecycleStep::MarkActive
            } else {
                LifecycleStep::Keep
            }
            &&& lifecycle_marked(identity, 1) matches Ok(Some(next)) && moved_to(identity, next, 1)
        },
        identity.lifecycle == 1 ==> {
            &&& lifecycle_step(identity.lifecycle, present) == if present {
                LifecycleStep::Keep
            } else {
                LifecycleStep::MarkRemoved
            }
            &&& lifecycle_marked(identity, 3) matches Ok(Some(next)) && moved_to(identity, next, 3)
        },
        identity.lifecycle == 3 ==> {
            &&& lifecycle_step(identity.lifecycle, present) == LifecycleStep::Stop
            &&& lifecycle_marked(identity, 1) matches Err(fault) && fault.kind
                == FaultKind::PermissionDenied
            &&& lifecycle_marked(identity, 2) matches Err(fault) && fault.kind
                == FaultKind::PermissionDenied
        },
        lifecycle_marked(identity, identity.lifecycle) == Ok::<Option<IdentityView>, FaultView>(None),
{
}

/// A removed node's directory stays shut: once it is marked as removed, no node
/// opens it, not even its own.
pub proof fn law_removed_directories_stay_shut(identity: IdentityView, reader: Reader)
    requires
        identity.cluster_id.len() == 16,
        identity_valid(identity),
    ensures
        lifecycle_marked(identity, 3) matches Ok(Some(next)) ==> identity_refusal(
            false,
            true,
            identity_bytes(next),
            reader,
        ) is Some,
{
    if let Ok(Some(next)) = lifecycle_marked(identity, 3) {
        law_directories_open_to_their_owner(false, true, next, reader);
    }
}

/// A floor that is raised keeps older readers out and lets the others in: a floor
/// that this build knows is taken up, the higher of it and the one before stands,
/// and what else the identity says stays.
pub proof fn law_floors_keep_older_readers_out(
    identity: IdentityView,
    storage: Option<u16>,
    semantic: Option<u16>,
)
    requires
        identity.migration_epoch < u64::MAX,
    ensures
        ({
            let raised = floors_raised(identity, storage, semantic);
            let known = (storage matches Some(minimum) ==> 1 <= minimum <= 2) && (
            semantic matches Some(minimum) ==> 1 <= minimum <= 3);
            let written = match raised {
                Ok(Some(next)) => next,
                _ => identity,
            };
            &&& raised is Ok <==> known
            &&& raised matches Err(fault) ==> fault.kind == FaultKind::InvalidInput
            &&& raised matches Ok(Some(next)) ==> next.min_storage_reader
                > identity.min_storage_reader || next.min_semantic_reader
                > identity.min_semantic_reader
            &&& known ==> {
                &&& written.min_storage_reader >= identity.min_storage_reader
                &&& written.min_semantic_reader >= identity.min_semantic_reader
                &&& written.min_storage_reader == identity.min_storage_reader || storage == Some(
                    written.min_storage_reader,
                )
                &&& written.min_semantic_reader == identity.min_semantic_reader || semantic == Some(
                    written.min_semantic_reader,
                )
                &&& storage matches Some(minimum) ==> minimum <= written.min_storage_reader
                &&& semantic matches Some(minimum) ==> minimum <= written.min_semantic_reader
            }
            &&& written.lifecycle == identity.lifecycle
            &&& written.cluster_id == identity.cluster_id
            &&& written.node_id == identity.node_id
            &&& written.policy_hash == identity.policy_hash
        }),
{
}

/// Clients are served by active members and by nobody else: a node that is made active
/// serves as soon as it is a member, one that is removed never serves again, and one that
/// stops, or whose identity cannot be read, does not serve.
pub proof fn law_active_members_serve(identity: IdentityView, stopping: bool, present: bool)
    ensures
        served(stopping, Some(identity.lifecycle), present) <==> !stopping && identity.lifecycle
            == 1 && present,
        lifecycle_marked(identity, 1) matches Ok(Some(next)) ==> served(
            false,
            Some(next.lifecycle),
            true,
        ),
        lifecycle_marked(identity, 3) matches Ok(Some(next)) ==> !served(
            stopping,
            Some(next.lifecycle),
            present,
        ),
        served(stopping, Some(identity.lifecycle), present) ==> lifecycle_step(
            identity.lifecycle,
            present,
        ) == LifecycleStep::Keep,
        !served(stopping, None, present),
{
}

} // verus!
