//! The vocabulary of the Raft core: log entries, messages and effects.
use vstd::prelude::*;

use crate::ids::{Duration, LogIndex, NodeId, Term, Time, TimerId};
use crate::text::{copy_bytes, same_bytes};

verus! {

/// The vocabulary that ordinary traffic uses. A connection may negotiate a
/// later one, but the entry layout of this one stays as it is.
pub const PROTOCOL_VERSION: u16 = 2;

/// Adds connection-gated follower read messages.
pub const SEMANTIC_VERSION_V3: u16 = 3;

pub const MIN_PROTOCOL_VERSION: u16 = PROTOCOL_VERSION;

pub open spec fn known_version(version: u16) -> bool {
    version == PROTOCOL_VERSION || version == SEMANTIC_VERSION_V3
}

#[must_use]
pub fn supports_protocol_version(version: u16) -> (r: bool)
    ensures
        r == known_version(version),
{
    version == PROTOCOL_VERSION || version == SEMANTIC_VERSION_V3
}

/// Nanoseconds.
pub const DEFAULT_ELECTION_MIN: u64 = 150_000_000;

/// Nanoseconds.
pub const DEFAULT_ELECTION_MAX: u64 = 300_000_000;

/// Nanoseconds.
pub const DEFAULT_HEARTBEAT: u64 = 50_000_000;

pub const PIPELINE_WINDOW: usize = 8;

pub const MAX_ENTRIES_PER_APPEND: usize = 64;

pub const SNAPSHOT_TRIGGER_BYTES: u64 = 8 * 1024 * 1024;

pub const SNAPSHOT_CHUNK_BYTES: usize = 256 * 1024;

/// Nanoseconds.
pub const DEFAULT_LEADER_TRANSFER_TIMEOUT: u64 = 15_000_000_000;

#[derive(Clone, Copy, Debug, Eq, PartialEq, Structural)]
pub struct RaftConfig {
    pub election_min: Duration,
    pub election_max: Duration,
    pub heartbeat: Duration,
    pub max_entries_per_append: usize,
    pub pipeline_window: usize,
    pub leader_transfer_timeout: Duration,
}

impl Default for RaftConfig {
    fn default() -> (config: Self)
        ensures
            config == (RaftConfig {
                election_min: Duration(DEFAULT_ELECTION_MIN),
                election_max: Duration(DEFAULT_ELECTION_MAX),
                heartbeat: Duration(DEFAULT_HEARTBEAT),
                max_entries_per_append: MAX_ENTRIES_PER_APPEND,
                pipeline_window: PIPELINE_WINDOW,
                leader_transfer_timeout: Duration(DEFAULT_LEADER_TRANSFER_TIMEOUT),
            }),
    {
        RaftConfig {
            election_min: Duration(DEFAULT_ELECTION_MIN),
            election_max: Duration(DEFAULT_ELECTION_MAX),
            heartbeat: Duration(DEFAULT_HEARTBEAT),
            max_entries_per_append: MAX_ENTRIES_PER_APPEND,
            pipeline_window: PIPELINE_WINDOW,
            leader_transfer_timeout: Duration(DEFAULT_LEADER_TRANSFER_TIMEOUT),
        }
    }
}

#[derive(Clone, Copy, Debug, Eq, Ord, PartialEq, PartialOrd, Structural)]
pub enum Role {
    Follower,
    Candidate,
    Leader,
    Learner,
}

#[derive(Clone, Copy, Debug, Eq, Ord, PartialEq, PartialOrd, Structural)]
pub enum EntryKind {
    App,
    Noop,
    Config,
    AppV3,
    ConfigV3,
}

/// The byte that stands for a kind of entry.
pub open spec fn kind_code(kind: EntryKind) -> u8 {
    match kind {
        EntryKind::App => 1,
        EntryKind::Noop => 2,
        EntryKind::Config => 3,
        EntryKind::AppV3 => 4,
        EntryKind::ConfigV3 => 5,
    }
}

/// Whether an entry of this kind carries a configuration change.
pub open spec fn config_kind(kind: EntryKind) -> bool {
    kind is Config || kind is ConfigV3
}

impl EntryKind {
    #[must_use]
    pub fn is_app(self) -> (r: bool)
        ensures
            r == (self is App || self is AppV3),
    {
        match self {
            EntryKind::App => true,
            EntryKind::AppV3 => true,
            _ => false,
        }
    }

    #[must_use]
    pub fn is_config(self) -> (r: bool)
        ensures
            r == config_kind(self),
    {
        match self {
            EntryKind::Config => true,
            EntryKind::ConfigV3 => true,
            _ => false,
        }
    }

    pub fn code(self) -> (code: u8)
        ensures
            code == kind_code(self),
    {
        match self {
            EntryKind::App => 1,
            EntryKind::Noop => 2,
            EntryKind::Config => 3,
            EntryKind::AppV3 => 4,
            EntryKind::ConfigV3 => 5,
        }
    }
}

#[derive(Debug, Eq, PartialEq)]
pub struct Entry {
    pub term: Term,
    pub index: LogIndex,
    pub kind: EntryKind,
    pub payload: Vec<u8>,
}

/// A log entry as mathematics.
#[verifier::ext_equal]
pub struct EntryView {
    pub term: Term,
    pub index: LogIndex,
    pub kind: EntryKind,
    pub payload: Seq<u8>,
}

impl View for Entry {
    type V = EntryView;

    open spec fn view(&self) -> EntryView {
        EntryView {
            term: self.term,
            index: self.index,
            kind: self.kind,
            payload: self.payload@,
        }
    }
}

impl Clone for Entry {
    fn clone(&self) -> (copy: Self)
        ensures
            copy@ == self@,
    {
        Entry {
            term: self.term,
            index: self.index,
            kind: self.kind,
            payload: copy_bytes(self.payload.as_slice()),
        }
    }
}

/// Log entries, each as mathematics.
pub open spec fn entry_views(entries: Seq<Entry>) -> Seq<EntryView> {
    entries.map_values(|entry: Entry| entry@)
}

/// A copy of log entries.
pub fn copy_entries(entries: &[Entry]) -> (copy: Vec<Entry>)
    ensures
        entry_views(copy@) == entry_views(entries@),
{
    let mut copy: Vec<Entry> = Vec::new();
    let mut i: usize = 0;
    while i < entries.len()
        invariant
            i <= entries@.len(),
            copy@.len() == i,
            forall|k: int| 0 <= k < i ==> #[trigger] copy@[k]@ == entries@[k]@,
        decreases entries@.len() - i,
    {
        copy.push(entries[i].clone());
        i += 1;
    }
    assert(entry_views(copy@) =~= entry_views(entries@));
    copy
}

/// Whether two log entries are equal.
pub fn same_entry(a: &Entry, b: &Entry) -> (r: bool)
    ensures
        r == (a@ == b@),
{
    let r = a.term == b.term && a.index == b.index && a.kind == b.kind && same_bytes(
        a.payload.as_slice(),
        b.payload.as_slice(),
    );
    proof {
        if r {
            assert(a@ =~= b@);
        }
    }
    r
}

/// Whether the first `n` of two runs of log entries are equal.
pub fn same_prefix(a: &[Entry], b: &[Entry], n: usize) -> (r: bool)
    requires
        n <= a@.len(),
        n <= b@.len(),
    ensures
        r == (entry_views(a@).take(n as int) == entry_views(b@).take(n as int)),
{
    let ghost left = entry_views(a@).take(n as int);
    let ghost right = entry_views(b@).take(n as int);
    let mut i: usize = 0;
    while i < n
        invariant
            i <= n,
            n <= a@.len(),
            n <= b@.len(),
            left == entry_views(a@).take(n as int),
            right == entry_views(b@).take(n as int),
            forall|k: int| 0 <= k < i ==> #[trigger] left[k] == right[k],
        decreases n - i,
    {
        assert(left[i as int] == a@[i as int]@);
        assert(right[i as int] == b@[i as int]@);
        if !same_entry(&a[i], &b[i]) {
            return false;
        }
        i += 1;
    }
    assert(left =~= right);
    true
}

/// Whether two runs of log entries are equal.
pub fn same_entries(a: &[Entry], b: &[Entry]) -> (r: bool)
    ensures
        r == (entry_views(a@) == entry_views(b@)),
{
    proof {
        assert(entry_views(a@).len() == a@.len() && entry_views(b@).len() == b@.len());
    }
    if a.len() != b.len() {
        return false;
    }
    let r = same_prefix(a, b, a.len());
    assert(entry_views(a@).take(a@.len() as int) =~= entry_views(a@));
    assert(entry_views(b@).take(b@.len() as int) =~= entry_views(b@));
    r
}

#[derive(Clone, Copy, Debug, Eq, PartialEq, Structural)]
pub struct HardState {
    pub term: Term,
    pub voted_for: Option<NodeId>,
}

#[derive(Debug, Eq, PartialEq)]
pub struct AppendRequest {
    pub prev_index: LogIndex,
    pub prev_term: Term,
    pub entries: Vec<Entry>,
    pub leader_commit: LogIndex,
    /// The leadership-confirmation round this append belongs to. Followers
    /// echo it, so that a leader can tell a fresh answer from one that was
    /// already on its way when a read was fixed.
    pub read_round: u64,
}

#[verifier::ext_equal]
pub struct AppendView {
    pub prev_index: LogIndex,
    pub prev_term: Term,
    pub entries: Seq<EntryView>,
    pub leader_commit: LogIndex,
    pub read_round: u64,
}

impl View for AppendRequest {
    type V = AppendView;

    open spec fn view(&self) -> AppendView {
        AppendView {
            prev_index: self.prev_index,
            prev_term: self.prev_term,
            entries: entry_views(self.entries@),
            leader_commit: self.leader_commit,
            read_round: self.read_round,
        }
    }
}

#[derive(Clone, Copy, Debug, Eq, PartialEq, Structural)]
pub struct AppendResponse {
    pub success: bool,
    pub match_index: LogIndex,
    pub conflict_term: Option<Term>,
    pub conflict_index: LogIndex,
    pub read_round: u64,
}

#[derive(Clone, Copy, Debug, Eq, PartialEq, Structural)]
pub enum SnapshotRejectReason {
    RestartFromZero,
    Gap,
    Conflict,
    TooLarge,
    StaleTerm,
    Corrupt,
}

/// The byte that stands for a rejection.
pub open spec fn reason_code(reason: SnapshotRejectReason) -> u8 {
    match reason {
        SnapshotRejectReason::RestartFromZero => 1,
        SnapshotRejectReason::Gap => 2,
        SnapshotRejectReason::Conflict => 3,
        SnapshotRejectReason::TooLarge => 4,
        SnapshotRejectReason::StaleTerm => 5,
        SnapshotRejectReason::Corrupt => 6,
    }
}

/// The rejection that a byte stands for.
pub open spec fn reason_of(tag: u8) -> Option<SnapshotRejectReason> {
    if tag == 1 {
        Some(SnapshotRejectReason::RestartFromZero)
    } else if tag == 2 {
        Some(SnapshotRejectReason::Gap)
    } else if tag == 3 {
        Some(SnapshotRejectReason::Conflict)
    } else if tag == 4 {
        Some(SnapshotRejectReason::TooLarge)
    } else if tag == 5 {
        Some(SnapshotRejectReason::StaleTerm)
    } else if tag == 6 {
        Some(SnapshotRejectReason::Corrupt)
    } else {
        None
    }
}

impl SnapshotRejectReason {
    pub fn decode(tag: u8) -> (reason: Option<Self>)
        ensures
            reason == reason_of(tag),
    {
        match tag {
            1 => Some(SnapshotRejectReason::RestartFromZero),
            2 => Some(SnapshotRejectReason::Gap),
            3 => Some(SnapshotRejectReason::Conflict),
            4 => Some(SnapshotRejectReason::TooLarge),
            5 => Some(SnapshotRejectReason::StaleTerm),
            6 => Some(SnapshotRejectReason::Corrupt),
            _ => None,
        }
    }

    pub fn code(self) -> (code: u8)
        ensures
            code == reason_code(self),
            reason_of(code) == Some(self),
    {
        match self {
            SnapshotRejectReason::RestartFromZero => 1,
            SnapshotRejectReason::Gap => 2,
            SnapshotRejectReason::Conflict => 3,
            SnapshotRejectReason::TooLarge => 4,
            SnapshotRejectReason::StaleTerm => 5,
            SnapshotRejectReason::Corrupt => 6,
        }
    }
}

#[derive(Debug, Eq, PartialEq)]
pub enum MessageKind {
    PreVoteReq { last_index: LogIndex, last_term: Term },
    PreVoteResp { granted: bool },
    VoteReq { last_index: LogIndex, last_term: Term },
    VoteResp { granted: bool },
    AppendReq(AppendRequest),
    AppendResp(AppendResponse),
    SnapshotChunk {
        transfer_id: u64,
        last_included_index: LogIndex,
        last_included_term: Term,
        total_len: u64,
        snapshot_crc32c: u32,
        offset: u64,
        data: Vec<u8>,
        done: bool,
    },
    SnapshotAck {
        transfer_id: u64,
        next_offset: u64,
        accepted: bool,
        reason: Option<SnapshotRejectReason>,
    },
    TimeoutNow { intent_index: LogIndex },
    /// Asks for a leader-confirmed read on the receiver. The hash correlates a
    /// command; it authenticates nothing and no client data crosses here.
    FollowerReadRequest { request_id: u64, command_hash: u64 },
    /// The answer once the leader's read round is confirmed.
    FollowerReadGrant {
        request_id: u64,
        command_hash: u64,
        read_index: LogIndex,
        read_time: Time,
    },
}

/// The contents of a message as mathematics.
#[verifier::ext_equal]
pub enum KindView {
    PreVoteReq { last_index: LogIndex, last_term: Term },
    PreVoteResp { granted: bool },
    VoteReq { last_index: LogIndex, last_term: Term },
    VoteResp { granted: bool },
    AppendReq(AppendView),
    AppendResp(AppendResponse),
    SnapshotChunk {
        transfer_id: u64,
        last_included_index: LogIndex,
        last_included_term: Term,
        total_len: u64,
        snapshot_crc32c: u32,
        offset: u64,
        data: Seq<u8>,
        done: bool,
    },
    SnapshotAck {
        transfer_id: u64,
        next_offset: u64,
        accepted: bool,
        reason: Option<SnapshotRejectReason>,
    },
    TimeoutNow { intent_index: LogIndex },
    FollowerReadRequest { request_id: u64, command_hash: u64 },
    FollowerReadGrant {
        request_id: u64,
        command_hash: u64,
        read_index: LogIndex,
        read_time: Time,
    },
}

impl View for MessageKind {
    type V = KindView;

    open spec fn view(&self) -> KindView {
        match *self {
            MessageKind::PreVoteReq { last_index, last_term } => KindView::PreVoteReq {
                last_index,
                last_term,
            },
            MessageKind::PreVoteResp { granted } => KindView::PreVoteResp { granted },
            MessageKind::VoteReq { last_index, last_term } => KindView::VoteReq {
                last_index,
                last_term,
            },
            MessageKind::VoteResp { granted } => KindView::VoteResp { granted },
            MessageKind::AppendReq(request) => KindView::AppendReq(request@),
            MessageKind::AppendResp(response) => KindView::AppendResp(response),
            MessageKind::SnapshotChunk {
                transfer_id,
                last_included_index,
                last_included_term,
                total_len,
                snapshot_crc32c,
                offset,
                data,
                done,
            } => KindView::SnapshotChunk {
                transfer_id,
                last_included_index,
                last_included_term,
                total_len,
                snapshot_crc32c,
                offset,
                data: data@,
                done,
            },
            MessageKind::SnapshotAck {
                transfer_id,
                next_offset,
                accepted,
                reason,
            } => KindView::SnapshotAck { transfer_id, next_offset, accepted, reason },
            MessageKind::TimeoutNow { intent_index } => KindView::TimeoutNow { intent_index },
            MessageKind::FollowerReadRequest {
                request_id,
                command_hash,
            } => KindView::FollowerReadRequest { request_id, command_hash },
            MessageKind::FollowerReadGrant {
                request_id,
                command_hash,
                read_index,
                read_time,
            } => KindView::FollowerReadGrant { request_id, command_hash, read_index, read_time },
        }
    }
}

impl Clone for AppendRequest {
    fn clone(&self) -> (copy: Self)
        ensures
            copy@ == self@,
    {
        AppendRequest {
            prev_index: self.prev_index,
            prev_term: self.prev_term,
            entries: copy_entries(self.entries.as_slice()),
            leader_commit: self.leader_commit,
            read_round: self.read_round,
        }
    }
}

impl Clone for MessageKind {
    fn clone(&self) -> (copy: Self)
        ensures
            copy@ == self@,
    {
        match self {
            MessageKind::PreVoteReq { last_index, last_term } => MessageKind::PreVoteReq {
                last_index: *last_index,
                last_term: *last_term,
            },
            MessageKind::PreVoteResp { granted } => MessageKind::PreVoteResp { granted: *granted },
            MessageKind::VoteReq { last_index, last_term } => MessageKind::VoteReq {
                last_index: *last_index,
                last_term: *last_term,
            },
            MessageKind::VoteResp { granted } => MessageKind::VoteResp { granted: *granted },
            MessageKind::AppendReq(request) => MessageKind::AppendReq(request.clone()),
            MessageKind::AppendResp(response) => MessageKind::AppendResp(*response),
            MessageKind::SnapshotChunk {
                transfer_id,
                last_included_index,
                last_included_term,
                total_len,
                snapshot_crc32c,
                offset,
                data,
                done,
            } => MessageKind::SnapshotChunk {
                transfer_id: *transfer_id,
                last_included_index: *last_included_index,
                last_included_term: *last_included_term,
                total_len: *total_len,
                snapshot_crc32c: *snapshot_crc32c,
                offset: *offset,
                data: copy_bytes(data.as_slice()),
                done: *done,
            },
            MessageKind::SnapshotAck {
                transfer_id,
                next_offset,
                accepted,
                reason,
            } => MessageKind::SnapshotAck {
                transfer_id: *transfer_id,
                next_offset: *next_offset,
                accepted: *accepted,
                reason: *reason,
            },
            MessageKind::TimeoutNow { intent_index } => MessageKind::TimeoutNow {
                intent_index: *intent_index,
            },
            MessageKind::FollowerReadRequest {
                request_id,
                command_hash,
            } => MessageKind::FollowerReadRequest {
                request_id: *request_id,
                command_hash: *command_hash,
            },
            MessageKind::FollowerReadGrant {
                request_id,
                command_hash,
                read_index,
                read_time,
            } => MessageKind::FollowerReadGrant {
                request_id: *request_id,
                command_hash: *command_hash,
                read_index: *read_index,
                read_time: *read_time,
            },
        }
    }
}

#[derive(Debug, Eq, PartialEq)]
pub struct Message {
    pub proto_version: u16,
    pub from: NodeId,
    pub to: NodeId,
    pub term: Term,
    pub kind: MessageKind,
}

/// A message as mathematics.
#[verifier::ext_equal]
pub struct MessageView {
    pub proto_version: u16,
    pub from: NodeId,
    pub to: NodeId,
    pub term: Term,
    pub kind: KindView,
}

impl View for Message {
    type V = MessageView;

    open spec fn view(&self) -> MessageView {
        MessageView {
            proto_version: self.proto_version,
            from: self.from,
            to: self.to,
            term: self.term,
            kind: self.kind@,
        }
    }
}

impl Clone for Message {
    fn clone(&self) -> (copy: Self)
        ensures
            copy@ == self@,
    {
        Message {
            proto_version: self.proto_version,
            from: self.from,
            to: self.to,
            term: self.term,
            kind: self.kind.clone(),
        }
    }
}

/// Whether two messages say the same.
fn same_kind(a: &MessageKind, b: &MessageKind) -> (r: bool)
    ensures
        r == (a@ == b@),
{
    match (a, b) {
        (
            MessageKind::PreVoteReq { last_index: p, last_term: q },
            MessageKind::PreVoteReq { last_index: u, last_term: v },
        ) => *p == *u && *q == *v,
        (MessageKind::PreVoteResp { granted: p }, MessageKind::PreVoteResp { granted: u }) => *p
            == *u,
        (
            MessageKind::VoteReq { last_index: p, last_term: q },
            MessageKind::VoteReq { last_index: u, last_term: v },
        ) => *p == *u && *q == *v,
        (MessageKind::VoteResp { granted: p }, MessageKind::VoteResp { granted: u }) => *p == *u,
        (MessageKind::AppendReq(p), MessageKind::AppendReq(u)) => {
            let r = p.prev_index == u.prev_index && p.prev_term == u.prev_term && p.leader_commit
                == u.leader_commit && p.read_round == u.read_round && same_entries(
                p.entries.as_slice(),
                u.entries.as_slice(),
            );
            proof {
                if r {
                    assert(p@ =~= u@);
                }
            }
            r
        },
        (MessageKind::AppendResp(p), MessageKind::AppendResp(u)) => *p == *u,
        (
            MessageKind::SnapshotChunk {
                transfer_id: a1,
                last_included_index: a2,
                last_included_term: a3,
                total_len: a4,
                snapshot_crc32c: a5,
                offset: a6,
                data: a7,
                done: a8,
            },
            MessageKind::SnapshotChunk {
                transfer_id: b1,
                last_included_index: b2,
                last_included_term: b3,
                total_len: b4,
                snapshot_crc32c: b5,
                offset: b6,
                data: b7,
                done: b8,
            },
        ) => *a1 == *b1 && *a2 == *b2 && *a3 == *b3 && *a4 == *b4 && *a5 == *b5 && *a6 == *b6
            && same_bytes(a7.as_slice(), b7.as_slice()) && *a8 == *b8,
        (
            MessageKind::SnapshotAck { transfer_id: a1, next_offset: a2, accepted: a3, reason: a4 },
            MessageKind::SnapshotAck { transfer_id: b1, next_offset: b2, accepted: b3, reason: b4 },
        ) => *a1 == *b1 && *a2 == *b2 && *a3 == *b3 && match (a4, b4) {
            (Some(p), Some(u)) => *p == *u,
            (None, None) => true,
            _ => false,
        },
        (
            MessageKind::TimeoutNow { intent_index: p },
            MessageKind::TimeoutNow { intent_index: u },
        ) => *p == *u,
        (
            MessageKind::FollowerReadRequest { request_id: p, command_hash: q },
            MessageKind::FollowerReadRequest { request_id: u, command_hash: v },
        ) => *p == *u && *q == *v,
        (
            MessageKind::FollowerReadGrant {
                request_id: a1,
                command_hash: a2,
                read_index: a3,
                read_time: a4,
            },
            MessageKind::FollowerReadGrant {
                request_id: b1,
                command_hash: b2,
                read_index: b3,
                read_time: b4,
            },
        ) => *a1 == *b1 && *a2 == *b2 && *a3 == *b3 && *a4 == *b4,
        _ => false,
    }
}

/// Whether two messages are equal.
pub fn same_message(a: &Message, b: &Message) -> (r: bool)
    ensures
        r == (a@ == b@),
{
    a.proto_version == b.proto_version && a.from == b.from && a.to == b.to && a.term == b.term
        && same_kind(&a.kind, &b.kind)
}

#[derive(Clone, Copy, Debug, Eq, PartialEq, Structural)]
pub enum TimerKind {
    Election,
    Heartbeat,
}

#[derive(Debug, Eq, PartialEq)]
pub enum RaftEffect {
    Send(Message),
    /// Snapshot bytes cross the durable host boundary before the log base
    /// moves; only immutable metadata was checked.
    ReceiveSnapshotChunk(Message),
    /// Snapshot acknowledgements are host-owned transfer state.
    ReceiveSnapshotAck(Message),
    PersistHard(HardState),
    PersistEntries(Vec<Entry>),
    TruncateSuffix(LogIndex),
    Apply(Vec<Entry>),
    ArmTimer { id: TimerId, at: Time, kind: TimerKind },
    ReadBarrier { index: LogIndex },
    ReadBarrierReady { index: LogIndex },
    FollowerReadRequest { from: NodeId, request_id: u64, command_hash: u64, at: Time },
    FollowerReadGrant {
        from: NodeId,
        term: Term,
        request_id: u64,
        command_hash: u64,
        read_index: LogIndex,
        read_time: Time,
    },
    Trace { name: &'static str, index: LogIndex },
}

/// An effect as mathematics.
#[verifier::ext_equal]
pub enum EffectView {
    Send(MessageView),
    ReceiveSnapshotChunk(MessageView),
    ReceiveSnapshotAck(MessageView),
    PersistHard(HardState),
    PersistEntries(Seq<EntryView>),
    TruncateSuffix(LogIndex),
    Apply(Seq<EntryView>),
    ArmTimer { id: TimerId, at: Time, kind: TimerKind },
    ReadBarrier { index: LogIndex },
    ReadBarrierReady { index: LogIndex },
    FollowerReadRequest { from: NodeId, request_id: u64, command_hash: u64, at: Time },
    FollowerReadGrant {
        from: NodeId,
        term: Term,
        request_id: u64,
        command_hash: u64,
        read_index: LogIndex,
        read_time: Time,
    },
    Trace { name: &'static str, index: LogIndex },
}

impl View for RaftEffect {
    type V = EffectView;

    open spec fn view(&self) -> EffectView {
        match *self {
            RaftEffect::Send(message) => EffectView::Send(message@),
            RaftEffect::ReceiveSnapshotChunk(message) => EffectView::ReceiveSnapshotChunk(message@),
            RaftEffect::ReceiveSnapshotAck(message) => EffectView::ReceiveSnapshotAck(message@),
            RaftEffect::PersistHard(state) => EffectView::PersistHard(state),
            RaftEffect::PersistEntries(entries) => EffectView::PersistEntries(entry_views(entries@)),
            RaftEffect::TruncateSuffix(index) => EffectView::TruncateSuffix(index),
            RaftEffect::Apply(entries) => EffectView::Apply(entry_views(entries@)),
            RaftEffect::ArmTimer { id, at, kind } => EffectView::ArmTimer { id, at, kind },
            RaftEffect::ReadBarrier { index } => EffectView::ReadBarrier { index },
            RaftEffect::ReadBarrierReady { index } => EffectView::ReadBarrierReady { index },
            RaftEffect::FollowerReadRequest {
                from,
                request_id,
                command_hash,
                at,
            } => EffectView::FollowerReadRequest { from, request_id, command_hash, at },
            RaftEffect::FollowerReadGrant {
                from,
                term,
                request_id,
                command_hash,
                read_index,
                read_time,
            } => EffectView::FollowerReadGrant {
                from,
                term,
                request_id,
                command_hash,
                read_index,
                read_time,
            },
            RaftEffect::Trace { name, index } => EffectView::Trace { name, index },
        }
    }
}

impl Clone for RaftEffect {
    fn clone(&self) -> (copy: Self)
        ensures
            copy@ == self@,
    {
        match self {
            RaftEffect::Send(message) => RaftEffect::Send(message.clone()),
            RaftEffect::ReceiveSnapshotChunk(message) => RaftEffect::ReceiveSnapshotChunk(
                message.clone(),
            ),
            RaftEffect::ReceiveSnapshotAck(message) => RaftEffect::ReceiveSnapshotAck(
                message.clone(),
            ),
            RaftEffect::PersistHard(state) => RaftEffect::PersistHard(*state),
            RaftEffect::PersistEntries(entries) => RaftEffect::PersistEntries(
                copy_entries(entries.as_slice()),
            ),
            RaftEffect::TruncateSuffix(index) => RaftEffect::TruncateSuffix(*index),
            RaftEffect::Apply(entries) => RaftEffect::Apply(copy_entries(entries.as_slice())),
            RaftEffect::ArmTimer { id, at, kind } => RaftEffect::ArmTimer {
                id: *id,
                at: *at,
                kind: *kind,
            },
            RaftEffect::ReadBarrier { index } => RaftEffect::ReadBarrier { index: *index },
            RaftEffect::ReadBarrierReady { index } => RaftEffect::ReadBarrierReady {
                index: *index,
            },
            RaftEffect::FollowerReadRequest {
                from,
                request_id,
                command_hash,
                at,
            } => RaftEffect::FollowerReadRequest {
                from: *from,
                request_id: *request_id,
                command_hash: *command_hash,
                at: *at,
            },
            RaftEffect::FollowerReadGrant {
                from,
                term,
                request_id,
                command_hash,
                read_index,
                read_time,
            } => RaftEffect::FollowerReadGrant {
                from: *from,
                term: *term,
                request_id: *request_id,
                command_hash: *command_hash,
                read_index: *read_index,
                read_time: *read_time,
            },
            RaftEffect::Trace { name, index } => RaftEffect::Trace { name: *name, index: *index },
        }
    }
}

/// Effects, each as mathematics.
pub open spec fn effect_views(effects: Seq<RaftEffect>) -> Seq<EffectView> {
    effects.map_values(|effect: RaftEffect| effect@)
}

#[derive(Clone, Copy, Debug, Eq, PartialEq, Structural)]
pub enum RaftError {
    NotLeader,
    ReadBarrierNotReady,
    Busy,
    InvalidMessage,
    CommittedConflict,
    TransferInProgress,
}

impl RaftError {
    /// The message shown to an operator.
    pub fn message(&self) -> (text: &'static str)
        ensures
            text == match *self {
                RaftError::NotLeader => "not leader",
                RaftError::ReadBarrierNotReady => "leader no-op is not committed",
                RaftError::Busy => "pipeline window is full",
                RaftError::InvalidMessage => "invalid raft message",
                RaftError::CommittedConflict => "message would truncate committed log",
                RaftError::TransferInProgress => "leadership transfer is in progress",
            },
    {
        match self {
            RaftError::NotLeader => "not leader",
            RaftError::ReadBarrierNotReady => "leader no-op is not committed",
            RaftError::Busy => "pipeline window is full",
            RaftError::InvalidMessage => "invalid raft message",
            RaftError::CommittedConflict => "message would truncate committed log",
            RaftError::TransferInProgress => "leadership transfer is in progress",
        }
    }
}

} // verus!
