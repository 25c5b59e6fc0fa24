//! What a host counts of its work, and how the work itself is counted.
use vstd::prelude::*;
use vstd::string::*;

use crate::codec::{decode, message_of};
use crate::ids::NodeId;
use crate::node_map::NodeMap;
use crate::paths::FileId;
use crate::raft_types::{KindView, MessageKind};

verus! {

/// What a host last learned of a peer.
#[derive(Clone, Copy, Debug, PartialEq, Eq, Structural)]
pub struct PeerMetric {
    pub semantic_version: u16,
    pub features: u64,
    pub last_contact_millis: u64,
}

/// The counters of a host.
#[derive(Clone, Copy, Debug, PartialEq, Eq, Structural)]
pub struct Counters {
    pub commands: u64,
    pub reads: u64,
    pub writes: u64,
    pub fsync_writes: u64,
    pub peer_frames: u64,
    pub block_reads: u64,
    pub block_bytes_read: u64,
    pub file_reads: u64,
    pub file_bytes_read: u64,
    pub file_writes: u64,
    pub file_bytes_written: u64,
    pub renames: u64,
    pub directory_syncs: u64,
    pub queue_rejections: u64,
    pub snapshots_created: u64,
    pub snapshots_sent: u64,
    pub snapshots_received: u64,
    pub snapshots_aborted: u64,
    pub storage_fault: bool,
}

pub open spec fn no_counts() -> Counters {
    Counters {
        commands: 0,
        reads: 0,
        writes: 0,
        fsync_writes: 0,
        peer_frames: 0,
        block_reads: 0,
        block_bytes_read: 0,
        file_reads: 0,
        file_bytes_read: 0,
        file_writes: 0,
        file_bytes_written: 0,
        renames: 0,
        directory_syncs: 0,
        queue_rejections: 0,
        snapshots_created: 0,
        snapshots_sent: 0,
        snapshots_received: 0,
        snapshots_aborted: 0,
        storage_fault: false,
    }
}

/// What a host counts, with the last transfer of each peer that was counted.
#[derive(Debug, PartialEq, Eq)]
pub struct HostMetrics {
    pub counters: Counters,
    pub peers: NodeMap<PeerMetric>,
    pub sent_transfers: NodeMap<u64>,
    pub received_transfers: NodeMap<u64>,
    pub aborted_transfers: NodeMap<u64>,
}

#[verifier::ext_equal]
pub struct MetricsView {
    pub counters: Counters,
    pub peers: Map<NodeId, PeerMetric>,
    pub sent_transfers: Map<NodeId, u64>,
    pub received_transfers: Map<NodeId, u64>,
    pub aborted_transfers: Map<NodeId, u64>,
}

impl View for HostMetrics {
    type V = MetricsView;

    open spec fn view(&self) -> MetricsView {
        MetricsView {
            counters: self.counters,
            peers: self.peers@,
            sent_transfers: self.sent_transfers@,
            received_transfers: self.received_transfers@,
            aborted_transfers: self.aborted_transfers@,
        }
    }
}

/// A counter after `n` more. One that runs over starts anew.
pub open spec fn counted(count: u64, n: u64) -> u64 {
    if count + n <= u64::MAX {
        (count + n) as u64
    } else {
        (count + n - 0x1_0000_0000_0000_0000) as u64
    }
}

fn count_on(count: u64, n: u64) -> (after: u64)
    ensures
        after == counted(count, n),
{
    if n <= u64::MAX - count {
        count + n
    } else {
        n - (u64::MAX - count) - 1
    }
}

/// The transfers of a kind after one of a peer, and whether it is a new one.
pub open spec fn transfer_is_new(transfers: Map<NodeId, u64>, peer: NodeId, transfer: u64) -> bool {
    !(transfers.dom().contains(peer) && transfers[peer] == transfer)
}

/// Takes note of a transfer and says whether it is a new one.
fn note_transfer(transfers: &mut NodeMap<u64>, peer: NodeId, transfer: u64) -> (new: bool)
    ensures
        new == transfer_is_new(old(transfers)@, peer, transfer),
        final(transfers)@ == old(transfers)@.insert(peer, transfer),
{
    let new = match transfers.get(peer) {
        Some(last) => last != transfer,
        None => true,
    };
    transfers.insert(peer, transfer);
    new
}

impl MetricsView {
    /// What a host has counted before it does anything.
    pub open spec fn fresh() -> MetricsView {
        MetricsView {
            counters: no_counts(),
            peers: Map::empty(),
            sent_transfers: Map::empty(),
            received_transfers: Map::empty(),
            aborted_transfers: Map::empty(),
        }
    }

    /// After a snapshot was sent to a peer to its end.
    pub open spec fn sent(self, peer: NodeId, transfer: u64) -> MetricsView {
        MetricsView {
            counters: if transfer_is_new(self.sent_transfers, peer, transfer) {
                Counters {
                    snapshots_sent: counted(self.counters.snapshots_sent, 1),
                    ..self.counters
                }
            } else {
                self.counters
            },
            sent_transfers: self.sent_transfers.insert(peer, transfer),
            ..self
        }
    }

    /// After a snapshot of a peer was refused.
    pub open spec fn aborted(self, peer: NodeId, transfer: u64) -> MetricsView {
        MetricsView {
            counters: if transfer_is_new(self.aborted_transfers, peer, transfer) {
                Counters {
                    snapshots_aborted: counted(self.counters.snapshots_aborted, 1),
                    ..self.counters
                }
            } else {
                self.counters
            },
            aborted_transfers: self.aborted_transfers.insert(peer, transfer),
            ..self
        }
    }

    /// After a snapshot was received from a peer to its end.
    pub open spec fn received(self, peer: NodeId, transfer: u64) -> MetricsView {
        MetricsView {
            counters: if transfer_is_new(self.received_transfers, peer, transfer) {
                Counters {
                    snapshots_received: counted(self.counters.snapshots_received, 1),
                    ..self.counters
                }
            } else {
                self.counters
            },
            received_transfers: self.received_transfers.insert(peer, transfer),
            ..self
        }
    }

    /// After a frame went to a peer.
    pub open spec fn frame_sent(self, to: NodeId, payload: Seq<u8>) -> MetricsView {
        let next = MetricsView {
            counters: Counters {
                peer_frames: counted(self.counters.peer_frames, 1),
                ..self.counters
            },
            ..self
        };
        match message_of(payload) {
            Err(_) => next,
            Ok(message) => match message.kind {
                KindView::SnapshotChunk { transfer_id, done, .. } => if done {
                    next.sent(to, transfer_id)
                } else {
                    next
                },
                KindView::SnapshotAck { transfer_id, accepted, .. } => if !accepted {
                    next.aborted(to, transfer_id)
                } else {
                    next
                },
                _ => next,
            },
        }
    }
}

/// The transfer that a frame of a peer brings to its end.
pub open spec fn completed_transfer(payload: Seq<u8>) -> Option<u64> {
    match message_of(payload) {
        Err(_) => None,
        Ok(message) => match message.kind {
            KindView::SnapshotChunk { transfer_id, done, .. } => if done {
                Some(transfer_id)
            } else {
                None
            },
            _ => None,
        },
    }
}

/// Finds the transfer that a frame of a peer brings to its end.
pub fn completed_snapshot(payload: &[u8]) -> (transfer: Option<u64>)
    ensures
        transfer == completed_transfer(payload@),
{
    match decode(payload) {
        Err(_) => None,
        Ok(message) => match message.kind {
            MessageKind::SnapshotChunk { transfer_id, done, .. } => if done {
                Some(transfer_id)
            } else {
                None
            },
            _ => None,
        },
    }
}

/// Work that the engine hands to the host. What touches the disk has a number,
/// under which the engine hears of its end.
#[derive(Clone, Debug, PartialEq, Eq)]
pub enum HostEffect {
    Send { to: NodeId, proto_version: u16, payload: Vec<u8> },
    DiskWrite { file: FileId, at: u64, bytes: Vec<u8>, id: u64 },
    DiskFsync { file: FileId, id: u64 },
    DiskRead { file: FileId, at: u64, len: u32, id: u64 },
    DiskRename { from: FileId, to: FileId, id: u64 },
    DiskSyncDir { id: u64 },
    ClientReply { client: u64, request: u64, reply: Vec<u8> },
    /// Timers and traces, which the host leaves alone.
    Quiet,
    /// Work that the host does not know, as it is shown.
    Unsupported(String),
}

#[verifier::ext_equal]
pub enum HostEffectView {
    Send { to: NodeId, proto_version: u16, payload: Seq<u8> },
    DiskWrite { file: FileId, at: u64, bytes: Seq<u8>, id: u64 },
    DiskFsync { file: FileId, id: u64 },
    DiskRead { file: FileId, at: u64, len: u32, id: u64 },
    DiskRename { from: FileId, to: FileId, id: u64 },
    DiskSyncDir { id: u64 },
    ClientReply { client: u64, request: u64, reply: Seq<u8> },
    Quiet,
    Unsupported(Seq<char>),
}

impl View for HostEffect {
    type V = HostEffectView;

    open spec fn view(&self) -> HostEffectView {
        match *self {
            HostEffect::Send { to, proto_version, payload } => HostEffectView::Send {
                to,
                proto_version,
                payload: payload@,
            },
            HostEffect::DiskWrite { file, at, bytes, id } => HostEffectView::DiskWrite {
                file,
                at,
                bytes: bytes@,
                id,
            },
            HostEffect::DiskFsync { file, id } => HostEffectView::DiskFsync { file, id },
            HostEffect::DiskRead { file, at, len, id } => HostEffectView::DiskRead {
                file,
                at,
                len,
                id,
            },
            HostEffect::DiskRename { from, to, id } => HostEffectView::DiskRename { from, to, id },
            HostEffect::DiskSyncDir { id } => HostEffectView::DiskSyncDir { id },
            HostEffect::ClientReply { client, request, reply } => HostEffectView::ClientReply {
                client,
                request,
                reply: reply@,
            },
            HostEffect::Quiet => HostEffectView::Quiet,
            HostEffect::Unsupported(shown) => HostEffectView::Unsupported(shown@),
        }
    }
}

/// What a host counts before it does some work.
pub open spec fn begun_effect(metrics: MetricsView, effect: HostEffectView) -> MetricsView {
    let c = metrics.counters;
    match effect {
        HostEffectView::Send { to, payload, .. } => metrics.frame_sent(to, payload),
        HostEffectView::DiskWrite { bytes, .. } => MetricsView {
            counters: Counters {
                file_writes: counted(c.file_writes, 1),
                file_bytes_written: counted(c.file_bytes_written, bytes.len() as u64),
                ..c
            },
            ..metrics
        },
        HostEffectView::DiskRead { len, .. } => MetricsView {
            counters: Counters {
                file_reads: counted(c.file_reads, 1),
                file_bytes_read: counted(c.file_bytes_read, len as u64),
                ..c
            },
            ..metrics
        },
        HostEffectView::DiskRename { .. } => MetricsView {
            counters: Counters { renames: counted(c.renames, 1), ..c },
            ..metrics
        },
        HostEffectView::DiskSyncDir { .. } => MetricsView {
            counters: Counters { directory_syncs: counted(c.directory_syncs, 1), ..c },
            ..metrics
        },
        _ => metrics,
    }
}

/// What follows from work that is done.
#[derive(Clone, Copy, Debug, PartialEq, Eq)]
pub enum EffectOutcome {
    /// The engine hears that bytes were written.
    Written { id: u64 },
    /// The engine hears that bytes are durable.
    Fsynced { id: u64 },
    /// The engine gets the bytes that were read.
    Bytes { id: u64 },
    /// Nobody hears of it.
    Nothing,
    /// The frame is lost, as frames may be.
    FrameLost,
    /// The host does not know such work.
    Unknown,
    /// The disk failed: the host ends, for this reason.
    FatalDisk(&'static str),
}

/// What follows from work that is done, and what a host counts of it.
pub open spec fn ended_effect(metrics: MetricsView, effect: HostEffectView, succeeded: bool) -> (
    MetricsView,
    EffectOutcome,
) {
    let c = metrics.counters;
    let broken = MetricsView { counters: Counters { storage_fault: true, ..c }, ..metrics };
    match effect {
        HostEffectView::Send { .. } => (
            metrics,
            if succeeded {
                EffectOutcome::Nothing
            } else {
                EffectOutcome::FrameLost
            },
        ),
        HostEffectView::DiskWrite { id, .. } => if succeeded {
            (
                MetricsView {
                    counters: Counters { fsync_writes: counted(c.fsync_writes, 1), ..c },
                    ..metrics
                },
                EffectOutcome::Written { id },
            )
        } else {
            (broken, EffectOutcome::FatalDisk("WAL write failed"))
        },
        HostEffectView::DiskFsync { id, .. } => if succeeded {
            (metrics, EffectOutcome::Fsynced { id })
        } else {
            (broken, EffectOutcome::FatalDisk("WAL fsync failed"))
        },
        HostEffectView::DiskRead { id, .. } => if succeeded {
            (metrics, EffectOutcome::Bytes { id })
        } else {
            (broken, EffectOutcome::FatalDisk("disk read failed"))
        },
        HostEffectView::DiskRename { to, id, .. } => if succeeded {
            (
                if to is Snapshot {
                    MetricsView {
                        counters: Counters {
                            snapshots_created: counted(c.snapshots_created, 1),
                            ..c
                        },
                        ..metrics
                    }
                } else {
                    metrics
                },
                EffectOutcome::Fsynced { id },
            )
        } else {
            (broken, EffectOutcome::FatalDisk("disk rename failed"))
        },
        HostEffectView::DiskSyncDir { id } => if succeeded {
            (metrics, EffectOutcome::Fsynced { id })
        } else {
            (broken, EffectOutcome::FatalDisk("durability directory sync failed"))
        },
        HostEffectView::ClientReply { .. } => (metrics, EffectOutcome::Nothing),
        HostEffectView::Quiet => (metrics, EffectOutcome::Nothing),
        HostEffectView::Unsupported(_) => (metrics, EffectOutcome::Unknown),
    }
}

impl HostMetrics {
    pub fn new() -> (metrics: Self)
        ensures
            metrics@ == MetricsView::fresh(),
    {
        HostMetrics {
            counters: Counters {
                commands: 0,
                reads: 0,
                writes: 0,
                fsync_writes: 0,
                peer_frames: 0,
                block_reads: 0,
                block_bytes_read: 0,
                file_reads: 0,
                file_bytes_read: 0,
                file_writes: 0,
                file_bytes_written: 0,
                renames: 0,
                directory_syncs: 0,
                queue_rejections: 0,
                snapshots_created: 0,
                snapshots_sent: 0,
                snapshots_received: 0,
                snapshots_aborted: 0,
                storage_fault: false,
            },
            peers: NodeMap::new(),
            sent_transfers: NodeMap::new(),
            received_transfers: NodeMap::new(),
            aborted_transfers: NodeMap::new(),
        }
    }

    /// Counts a command of a client.
    pub fn count_command(&mut self, reads: bool)
        ensures
            final(self)@ == (MetricsView {
                counters: Counters {
                    commands: counted(old(self)@.counters.commands, 1),
                    reads: if reads {
                        counted(old(self)@.counters.reads, 1)
                    } else {
                        old(self)@.counters.reads
                    },
                    writes: if reads {
                        old(self)@.counters.writes
                    } else {
                        counted(old(self)@.counters.writes, 1)
                    },
                    ..old(self)@.counters
                },
                ..old(self)@
            }),
    {
        self.counters.commands = count_on(self.counters.commands, 1);
        if reads {
            self.counters.reads = count_on(self.counters.reads, 1);
        } else {
            self.counters.writes = count_on(self.counters.writes, 1);
        }
    }

    /// Counts an input that found its queue full.
    pub fn count_rejection(&mut self)
        ensures
            final(self)@ == (MetricsView {
                counters: Counters {
                    queue_rejections: counted(old(self)@.counters.queue_rejections, 1),
                    ..old(self)@.counters
                },
                ..old(self)@
            }),
    {
        self.counters.queue_rejections = count_on(self.counters.queue_rejections, 1);
    }

    /// Counts the blocks that a transition read.
    pub fn observe_blocks(&mut self, lens: &[u32])
        ensures
            final(self)@ == (MetricsView {
                counters: Counters {
                    block_reads: counted(old(self)@.counters.block_reads, lens@.len() as u64),
                    block_bytes_read: counted(
                        old(self)@.counters.block_bytes_read,
                        block_bytes(lens@),
                    ),
                    ..old(self)@.counters
                },
                ..old(self)@
            }),
    {
        let mut total: u64 = 0;
        let mut i: usize = 0;
        assert(lens@.take(0) =~= seq![]);
        while i < lens.len()
            invariant
                i <= lens@.len(),
                total == block_bytes(lens@.take(i as int)),
            decreases lens@.len() - i,
        {
            let ghost next = lens@.take(i + 1);
            assert(next.drop_last() =~= lens@.take(i as int));
            assert(next.last() == lens@[i as int]);
            let len: u64 = lens[i] as u64;
            total = if len <= u64::MAX - total {
                total + len
            } else {
                u64::MAX
            };
            i += 1;
        }
        assert(lens@.take(i as int) =~= lens@);
        self.counters.block_reads = count_on(self.counters.block_reads, lens.len() as u64);
        self.counters.block_bytes_read = count_on(self.counters.block_bytes_read, total);
    }

    /// Takes note of what a peer agreed to.
    pub fn observe_peer(&mut self, peer: NodeId, semantic_version: u16, features: u64, now_millis: u64)
        ensures
            final(self)@ == (MetricsView {
                peers: old(self)@.peers.insert(
                    peer,
                    PeerMetric { semantic_version, features, last_contact_millis: now_millis },
                ),
                ..old(self)@
            }),
    {
        self.peers.insert(
            peer,
            PeerMetric { semantic_version, features, last_contact_millis: now_millis },
        );
    }

    /// Takes note that a peer was heard of.
    pub fn touch_peer(&mut self, peer: NodeId, now_millis: u64)
        ensures
            final(self)@ == (MetricsView {
                peers: old(self)@.peers.insert(
                    peer,
                    if old(self)@.peers.dom().contains(peer) {
                        PeerMetric {
                            last_contact_millis: now_millis,
                            ..old(self)@.peers[peer]
                        }
                    } else {
                        PeerMetric {
                            semantic_version: 0,
                            features: 0,
                            last_contact_millis: now_millis,
                        }
                    },
                ),
                ..old(self)@
            }),
    {
        let metric = match self.peers.get(peer) {
            Some(metric) => PeerMetric {
                semantic_version: metric.semantic_version,
                features: metric.features,
                last_contact_millis: now_millis,
            },
            None => PeerMetric {
                semantic_version: 0,
                features: 0,
                last_contact_millis: now_millis,
            },
        };
        self.peers.insert(peer, metric);
    }

    /// Counts a frame of a peer, before it is delivered.
    pub fn count_frame(&mut self)
        ensures
            final(self)@ == (MetricsView {
                counters: Counters {
                    peer_frames: counted(old(self)@.counters.peer_frames, 1),
                    ..old(self)@.counters
                },
                ..old(self)@
            }),
    {
        self.counters.peer_frames = count_on(self.counters.peer_frames, 1);
    }

    /// Counts a snapshot that was received to its end, once for each transfer.
    pub fn count_received(&mut self, peer: NodeId, transfer: u64)
        ensures
            final(self)@ == old(self)@.received(peer, transfer),
    {
        if note_transfer(&mut self.received_transfers, peer, transfer) {
            self.counters.snapshots_received = count_on(self.counters.snapshots_received, 1);
        }
    }

    /// Counts work before it is done.
    pub fn execute_effects(&mut self, effect: &HostEffect)
        ensures
            final(self)@ == begun_effect(old(self)@, effect@),
    {
        match effect {
            HostEffect::Send { to, payload, .. } => {
                self.counters.peer_frames = count_on(self.counters.peer_frames, 1);
                if let Ok(message) = decode(payload.as_slice()) {
                    match message.kind {
                        MessageKind::SnapshotChunk { transfer_id, done, .. } => {
                            if done {
                                if note_transfer(&mut self.sent_transfers, *to, transfer_id) {
                                    self.counters.snapshots_sent = count_on(
                                        self.counters.snapshots_sent,
                                        1,
                                    );
                                }
                            }
                        },
                        MessageKind::SnapshotAck { transfer_id, accepted, .. } => {
                            if !accepted {
                                if note_transfer(&mut self.aborted_transfers, *to, transfer_id) {
                                    self.counters.snapshots_aborted = count_on(
                                        self.counters.snapshots_aborted,
                                        1,
                                    );
                                }
                            }
                        },
                        _ => {},
                    }
                }
            },
            HostEffect::DiskWrite { bytes, .. } => {
                self.counters.file_writes = count_on(self.counters.file_writes, 1);
                self.counters.file_bytes_written = count_on(
                    self.counters.file_bytes_written,
                    bytes.len() as u64,
                );
            },
            HostEffect::DiskRead { len, .. } => {
                self.counters.file_reads = count_on(self.counters.file_reads, 1);
                self.counters.file_bytes_read = count_on(
                    self.counters.file_bytes_read,
                    *len as u64,
                );
            },
            HostEffect::DiskRename { .. } => {
                self.counters.renames = count_on(self.counters.renames, 1);
            },
            HostEffect::DiskSyncDir { .. } => {
                self.counters.directory_syncs = count_on(self.counters.directory_syncs, 1);
            },
            _ => {},
        }
    }

    /// Counts work that is done, and says what follows from it.
    pub fn effect_done(&mut self, effect: &HostEffect, succeeded: bool) -> (outcome: EffectOutcome)
        ensures
            (final(self)@, outcome) == ended_effect(old(self)@, effect@, succeeded),
    {
        match effect {
            HostEffect::Send { .. } => if succeeded {
                EffectOutcome::Nothing
            } else {
                EffectOutcome::FrameLost
            },
            HostEffect::DiskWrite { id, .. } => if succeeded {
                self.counters.fsync_writes = count_on(self.counters.fsync_writes, 1);
                EffectOutcome::Written { id: *id }
            } else {
                self.counters.storage_fault = true;
                EffectOutcome::FatalDisk("WAL write failed")
            },
            HostEffect::DiskFsync { id, .. } => if succeeded {
                EffectOutcome::Fsynced { id: *id }
            } else {
                self.counters.storage_fault = true;
                EffectOutcome::FatalDisk("WAL fsync failed")
            },
            HostEffect::DiskRead { id, .. } => if succeeded {
                EffectOutcome::Bytes { id: *id }
            } else {
                self.counters.storage_fault = true;
                EffectOutcome::FatalDisk("disk read failed")
            },
            HostEffect::DiskRename { to, id, .. } => if succeeded {
                if let FileId::Snapshot { .. } = to {
                    self.counters.snapshots_created = count_on(
                        self.counters.snapshots_created,
                        1,
                    );
                }
                EffectOutcome::Fsynced { id: *id }
            } else {
                self.counters.storage_fault = true;
                EffectOutcome::FatalDisk("disk rename failed")
            },
            HostEffect::DiskSyncDir { id } => if succeeded {
                EffectOutcome::Fsynced { id: *id }
            } else {
                self.counters.storage_fault = true;
                EffectOutcome::FatalDisk("durability directory sync failed")
            },
            HostEffect::ClientReply { .. } => EffectOutcome::Nothing,
            HostEffect::Quiet => EffectOutcome::Nothing,
            HostEffect::Unsupported(_) => EffectOutcome::Unknown,
        }
    }
}

/// The bytes of some blocks, as far as they go.
pub open spec fn block_bytes(lens: Seq<u32>) -> u64
    decreases lens.len(),
{
    if lens.len() == 0 {
        0
    } else {
        let before = block_bytes(lens.drop_last());
        if before + lens.last() <= u64::MAX {
            (before + lens.last()) as u64
        } else {
            u64::MAX
        }
    }
}

/// Whether work touches the disk.
pub open spec fn touches_disk(effect: HostEffectView) -> bool {
    effect is DiskWrite || effect is DiskFsync || effect is DiskRead || effect is DiskRename
        || effect is DiskSyncDir
}

/// A host never goes on past a failing disk: every failure of it is fatal and
/// shows, while a lost frame is neither.
pub proof fn law_disk_failures_are_fatal(metrics: MetricsView, effect: HostEffectView)
    ensures
        touches_disk(effect) ==> ended_effect(metrics, effect, false).1 is FatalDisk
            && ended_effect(metrics, effect, false).0.counters.storage_fault,
        effect is Send ==> ended_effect(metrics, effect, false) == (
            metrics,
            EffectOutcome::FrameLost,
        ),
        ended_effect(metrics, effect, true).0.counters.storage_fault
            == metrics.counters.storage_fault,
{
}

/// A transfer that is repeated counts once.
pub proof fn law_transfers_count_once(metrics: MetricsView, peer: NodeId, transfer: u64)
    ensures
        metrics.received(peer, transfer).received(peer, transfer) == metrics.received(
            peer,
            transfer,
        ),
        metrics.sent(peer, transfer).sent(peer, transfer) == metrics.sent(peer, transfer),
        metrics.aborted(peer, transfer).aborted(peer, transfer) == metrics.aborted(peer, transfer),
{
    assert(metrics.received(peer, transfer).received(peer, transfer) =~= metrics.received(
        peer,
        transfer,
    ));
    assert(metrics.sent(peer, transfer).sent(peer, transfer) =~= metrics.sent(peer, transfer));
    assert(metrics.aborted(peer, transfer).aborted(peer, transfer) =~= metrics.aborted(
        peer,
        transfer,
    ));
}

} // verus!
