//! How a host keeps time, records, writes and counts.
use vstd::prelude::*;

use crate::codec::{encode_error, message_bytes};
use crate::codec_laws::law_message_reads_back;
use crate::fault::FaultView;
use crate::host::{
    boot_epoch_of, next_accept, record_step_of, write_of, Accepted, HostClock, RecordAppend,
    RecordLedger, WritePlan,
};
use crate::ids::{NodeId, Time};
use crate::metrics::{
    begun_effect, block_bytes, ended_effect, EffectOutcome, HostEffectView, MetricsView,
};
use crate::paths::FileId;
use crate::raft_types::{KindView, MessageView};
use crate::serving::{next_transition, Delivery};

verus! {

/// A clock shows the wall clock at boot and the time since, or what was recovered
/// where that is later. A wall clock that a number holds is taken as it is.
pub proof fn law_clocks_count_from_the_wall(clock: HostClock, elapsed: u64, wall: u128)
    ensures
        clock.boot_epoch.0 + elapsed <= u64::MAX ==> clock.shows(elapsed).0 == if clock.floor.0
            > clock.boot_epoch.0 + elapsed {
            clock.floor.0 as int
        } else {
            clock.boot_epoch.0 + elapsed
        },
        clock.boot_epoch.0 + elapsed > u64::MAX ==> clock.shows(elapsed).0 == u64::MAX,
        wall <= u64::MAX ==> boot_epoch_of(Some(wall)) == Ok::<Time, FaultView>(Time(wall as u64)),
        wall > u64::MAX ==> boot_epoch_of(Some(wall)) is Err,
        boot_epoch_of(None) is Err,
{
}

/// A recording takes a transition exactly where it and the last footer fit and its
/// time does not run back, and ends where they do not fit.
pub proof fn law_recordings_take_what_fits(
    ledger: RecordLedger,
    now: Time,
    frame_bytes: u64,
    footer_bytes: u64,
)
    requires
        ledger.max_bytes < u64::MAX,
    ensures
        ({
            let back = ledger.last_now matches Some(previous) && now.0 < previous.0;
            let fits = ledger.bytes_written + frame_bytes + footer_bytes <= ledger.max_bytes;
            let taken = ledger.admitted(now, frame_bytes, footer_bytes);
            &&& back <==> taken is Err
            &&& !back && fits <==> taken == Ok::<RecordAppend, FaultView>(RecordAppend::Written)
            &&& !back && !fits <==> taken == Ok::<RecordAppend, FaultView>(RecordAppend::Capped)
        }),
{
}

/// A recording that goes on leaves the host alone. One that ends, or fails, ends the
/// host where it was required, and otherwise only itself.
pub proof fn law_only_required_recordings_end_the_host(
    outcome: Result<RecordAppend, Seq<char>>,
    required: bool,
)
    ensures
        ({
            let step = record_step_of(outcome, required);
            let goes_on = outcome == Ok::<RecordAppend, Seq<char>>(RecordAppend::Written);
            &&& step is Continue <==> goes_on
            &&& step is Fail <==> !goes_on && required
            &&& step is Disable <==> !goes_on && !required
        }),
{
}

/// A log is written at its end and nowhere else; other files are written where they are
/// told to be, from scratch where that is their first byte. What no number of the codec
/// holds is not written.
pub proof fn law_logs_are_written_at_their_end(file: FileId, at: u64, len: nat, actual: u64)
    ensures
        ({
            let written = write_of(file, at, len, actual);
            let log = file == (FileId::Wal { segment: 0 }) || file == (FileId::StoreWal {
                segment: 0,
            });
            &&& len > u32::MAX ==> written is Err
            &&& len <= u32::MAX && log ==> (if at == actual {
                written == Ok::<WritePlan, FaultView>(WritePlan::Append { len: len as u32 })
            } else {
                written is Err
            })
            &&& len <= u32::MAX && !log ==> written == Ok::<WritePlan, FaultView>(
                WritePlan::Stage { len: len as u32, truncate: at == 0 },
            )
        }),
{
}

/// Work on the disk that succeeds is reported under its own number, as what it was: a
/// write as written, a read with its bytes, and all else as durable.
pub proof fn law_finished_work_is_reported(metrics: MetricsView, effect: HostEffectView)
    ensures
        ({
            let outcome = ended_effect(metrics, effect, true).1;
            match effect {
                HostEffectView::DiskWrite { id, .. } => outcome == EffectOutcome::Written { id },
                HostEffectView::DiskFsync { id, .. } => outcome == EffectOutcome::Fsynced { id },
                HostEffectView::DiskRead { id, .. } => outcome == EffectOutcome::Bytes { id },
                HostEffectView::DiskRename { id, .. } => outcome == EffectOutcome::Fsynced { id },
                HostEffectView::DiskSyncDir { id } => outcome == EffectOutcome::Fsynced { id },
                HostEffectView::Unsupported(_) => outcome is Unknown,
                _ => outcome is Nothing,
            }
        }),
{
}

/// What a host does is counted once, and by as many bytes as it is about, as far as the
/// counters go; and nothing else is counted for it.
pub proof fn law_work_is_counted(metrics: MetricsView, effect: HostEffectView)
    requires
        metrics.counters.file_writes < u64::MAX,
        metrics.counters.file_reads < u64::MAX,
        metrics.counters.renames < u64::MAX,
        metrics.counters.directory_syncs < u64::MAX,
        metrics.counters.peer_frames < u64::MAX,
        effect matches HostEffectView::DiskWrite { bytes, .. } ==> bytes.len() <= u64::MAX
            && metrics.counters.file_bytes_written + bytes.len() <= u64::MAX,
        effect matches HostEffectView::DiskRead { len, .. } ==> metrics.counters.file_bytes_read
            + len <= u64::MAX,
    ensures
        ({
            let before = metrics.counters;
            let after = begun_effect(metrics, effect).counters;
            &&& after.file_writes == before.file_writes + (if effect is DiskWrite {
                1int
            } else {
                0
            })
            &&& after.file_bytes_written == before.file_bytes_written + (match effect {
                HostEffectView::DiskWrite { bytes, .. } => bytes.len() as int,
                _ => 0,
            })
            &&& after.file_reads == before.file_reads + (if effect is DiskRead {
                1int
            } else {
                0
            })
            &&& after.file_bytes_read == before.file_bytes_read + (match effect {
                HostEffectView::DiskRead { len, .. } => len as int,
                _ => 0,
            })
            &&& after.renames == before.renames + (if effect is DiskRename {
                1int
            } else {
                0
            })
            &&& after.directory_syncs == before.directory_syncs + (if effect is DiskSyncDir {
                1int
            } else {
                0
            })
            &&& after.peer_frames == before.peer_frames + (if effect is Send {
                1int
            } else {
                0
            })
            &&& after.storage_fault == before.storage_fault
            &&& after.commands == before.commands
        }),
{
}

/// Snapshots are counted by what crosses: one is sent with the last chunk of a transfer
/// that was not counted for its receiver, one is given up with the first refusal of a
/// transfer, and no other frame counts as either. One is received with a transfer that
/// was not counted for its sender.
pub proof fn law_snapshots_are_counted_once(
    metrics: MetricsView,
    to: NodeId,
    message: MessageView,
    transfer: u64,
)
    requires
        encode_error(message) is None,
        metrics.counters.snapshots_sent < u64::MAX,
        metrics.counters.snapshots_aborted < u64::MAX,
        metrics.counters.snapshots_received < u64::MAX,
    ensures
        ({
            let before = metrics.counters;
            let after = metrics.frame_sent(to, message_bytes(message)).counters;
            let received = metrics.received(to, transfer).counters;
            &&& after.snapshots_sent == before.snapshots_sent + (match message.kind {
                KindView::SnapshotChunk { transfer_id, done, .. } => if done
                    && !metrics.sent_transfers.contains_pair(to, transfer_id) {
                    1int
                } else {
                    0
                },
                _ => 0,
            })
            &&& after.snapshots_aborted == before.snapshots_aborted + (match message.kind {
                KindView::SnapshotAck { transfer_id, accepted, .. } => if !accepted
                    && !metrics.aborted_transfers.contains_pair(to, transfer_id) {
                    1int
                } else {
                    0
                },
                _ => 0,
            })
            &&& after.snapshots_received == before.snapshots_received
            &&& received.snapshots_received == before.snapshots_received + (
            if metrics.received_transfers.contains_pair(to, transfer) {
                0int
            } else {
                1
            })
            &&& received.snapshots_sent == before.snapshots_sent && received.snapshots_aborted
                == before.snapshots_aborted
        }),
{
    law_message_reads_back(message);
}

/// A host performs what its engine took, keeps back what the engine cannot take while it
/// waits for the disk, and ends where the engine failed. One that stops does none of it.
pub proof fn law_inputs_wait_for_the_disk(stopping: bool, delivery: Delivery)
    ensures
        ({
            let step = next_transition(stopping, delivery);
            &&& stopping <==> step is Drop
            &&& step is Perform <==> !stopping && delivery is Taken
            &&& step is Enqueue <==> !stopping && delivery is PersistencePending
            &&& step is Fail <==> !stopping && delivery is Failed
        }),
{
}

/// A host serves every connection that comes while it runs, waits where nobody comes, and
/// ends once its time is up and nobody is there, or once it cannot accept any more.
pub proof fn law_connections_are_served(stopping: bool, accepted: Accepted, time_is_up: bool)
    ensures
        ({
            let step = next_accept(stopping, accepted, time_is_up);
            &&& stopping <==> step is Stop
            &&& step is Serve <==> !stopping && accepted is Connection
            &&& step is Wait <==> !stopping && accepted is Nobody && !time_is_up
            &&& step is Complete <==> !stopping && accepted is Nobody && time_is_up
            &&& step is Fail <==> !stopping && accepted is Failure
        }),
{
}

/// What a transition reads of the store is counted to the last byte, as far as the count
/// goes.
pub proof fn law_blocks_are_counted(lens: Seq<u32>, more: u32)
    ensures
        block_bytes(Seq::empty()) == 0,
        block_bytes(lens) + more <= u64::MAX ==> block_bytes(lens.push(more)) == block_bytes(lens)
            + more,
{
    assert(lens.push(more).drop_last() =~= lens);
}

} // verus!
