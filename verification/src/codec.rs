//! Canonical CCRP encoding of Raft messages. The format version is independent
//! of the semantic version that every message carries.
use vstd::prelude::*;

use crate::crc::{crc32c, crc_of};
use crate::ids::{LogIndex, NodeId, Term, Time};
use crate::prose::{append_number, number_text};
use crate::raft_types::{
    entry_views, kind_code, known_version, reason_code, reason_of, supports_protocol_version,
    AppendRequest, AppendResponse, AppendView, Entry, EntryKind, EntryView, KindView, Message,
    MessageKind, MessageView, SnapshotRejectReason, SEMANTIC_VERSION_V3, SNAPSHOT_CHUNK_BYTES,
};
use crate::text::{copy_bytes, write_bytes};
use crate::wire::{
    le16, le32, le64, read_u16, read_u32, read_u64, read_u8, u16_at, u32_at, u64_at, u8_at,
    write_u16, write_u32, write_u64, DecodeError, MAX_CODEC_BYTES,
};

verus! {

/// `CCRP` as a little-endian number.
pub const CCRP_MAGIC: u32 = 0x5052_4343;

pub const CCRP_FORMAT_VERSION: u16 = 1;

/// How many entries one append may carry.
pub const MAX_ENTRIES: usize = 64;

/// The bytes of an entry without a payload.
pub const MIN_ENTRY_BYTES: usize = 21;

#[derive(Clone, Copy, Debug, Eq, PartialEq)]
pub enum CodecError {
    Decode(DecodeError),
    UnsupportedSemantic(u16),
    Invalid(&'static str),
    TooLarge(&'static str),
}

impl CodecError {
    pub open spec fn shown(self) -> Seq<char> {
        match self {
            CodecError::Decode(error) => "decode: "@ + error.shown()@,
            CodecError::UnsupportedSemantic(version) => "unsupported semantic version "@
                + number_text(version as nat),
            CodecError::Invalid(reason) => "invalid CCRP: "@ + reason@,
            CodecError::TooLarge(what) => "oversized CCRP "@ + what@,
        }
    }

    /// The message shown to an operator.
    pub fn message(&self) -> (text: String)
        ensures
            text@ == self.shown(),
    {
        match self {
            CodecError::Decode(error) => {
                let mut text = "decode: ".to_owned();
                text.append(error.message());
                text
            },
            CodecError::UnsupportedSemantic(version) => {
                let mut text = "unsupported semantic version ".to_owned();
                append_number(&mut text, *version as u64);
                text
            },
            CodecError::Invalid(reason) => {
                let mut text = "invalid CCRP: ".to_owned();
                text.append(reason);
                text
            },
            CodecError::TooLarge(what) => {
                let mut text = "oversized CCRP ".to_owned();
                text.append(what);
                text
            },
        }
    }
}

/// A byte string behind its length.
pub open spec fn blob_bytes(data: Seq<u8>) -> Seq<u8> {
    le32(data.len() as u32) + data
}

pub open spec fn flag_bytes(flag: bool) -> Seq<u8> {
    seq![if flag { 1u8 } else { 0u8 }]
}

pub open spec fn entry_bytes(entry: EntryView) -> Seq<u8> {
    le64(entry.term.0) + le64(entry.index.0) + seq![kind_code(entry.kind)] + blob_bytes(
        entry.payload,
    )
}

/// Entries one behind the other.
pub open spec fn entries_bytes(entries: Seq<EntryView>) -> Seq<u8>
    decreases entries.len(),
{
    if entries.len() == 0 {
        Seq::empty()
    } else {
        entry_bytes(entries[0]) + entries_bytes(entries.drop_first())
    }
}

pub open spec fn append_bytes(request: AppendView) -> Seq<u8> {
    le64(request.prev_index.0) + le64(request.prev_term.0) + le64(request.leader_commit.0) + le64(
        request.read_round,
    ) + le32(request.entries.len() as u32) + entries_bytes(request.entries)
}

pub open spec fn response_bytes(response: AppendResponse) -> Seq<u8> {
    flag_bytes(response.success) + le64(response.match_index.0) + flag_bytes(
        response.conflict_term is Some,
    ) + le64(
        match response.conflict_term {
            Some(term) => term.0,
            None => 0,
        },
    ) + le64(response.conflict_index.0) + le64(response.read_round)
}

/// The type byte of a message and its fields.
pub open spec fn kind_bytes(kind: KindView) -> Seq<u8> {
    match kind {
        KindView::PreVoteReq { last_index, last_term } => seq![1u8] + le64(last_index.0) + le64(
            last_term.0,
        ),
        KindView::PreVoteResp { granted } => seq![2u8] + flag_bytes(granted),
        KindView::VoteReq { last_index, last_term } => seq![3u8] + le64(last_index.0) + le64(
            last_term.0,
        ),
        KindView::VoteResp { granted } => seq![4u8] + flag_bytes(granted),
        KindView::AppendReq(request) => seq![5u8] + append_bytes(request),
        KindView::AppendResp(response) => seq![6u8] + response_bytes(response),
        KindView::SnapshotChunk {
            transfer_id,
            last_included_index,
            last_included_term,
            total_len,
            snapshot_crc32c,
            offset,
            data,
            done,
        } => seq![7u8] + le64(transfer_id) + le64(last_included_index.0) + le64(
            last_included_term.0,
        ) + le64(total_len) + le32(snapshot_crc32c) + le64(offset) + flag_bytes(done) + le32(
            crc_of(data),
        ) + blob_bytes(data),
        KindView::SnapshotAck {
            transfer_id,
            next_offset,
            accepted,
            reason,
        } => seq![8u8] + le64(transfer_id) + le64(next_offset) + flag_bytes(accepted) + seq![
            match reason {
                Some(reason) => reason_code(reason),
                None => 0u8,
            },
        ],
        KindView::TimeoutNow { intent_index } => seq![9u8] + le64(intent_index.0),
        KindView::FollowerReadRequest { request_id, command_hash } => seq![10u8] + le64(
            request_id,
        ) + le64(command_hash),
        KindView::FollowerReadGrant {
            request_id,
            command_hash,
            read_index,
            read_time,
        } => seq![11u8] + le64(request_id) + le64(command_hash) + le64(read_index.0) + le64(
            read_time.0,
        ),
    }
}

/// The canonical bytes of a message.
pub open spec fn message_bytes(message: MessageView) -> Seq<u8> {
    le32(CCRP_MAGIC) + le16(CCRP_FORMAT_VERSION) + le16(message.proto_version) + le64(
        message.from.0,
    ) + le64(message.to.0) + le64(message.term.0) + kind_bytes(message.kind)
}

/// Whether an entry can be written: it has an index and a bounded payload.
pub open spec fn entry_fits(entry: EntryView) -> bool {
    entry.index.0 != 0 && entry.payload.len() <= MAX_CODEC_BYTES
}

/// Whether a rejection of this kind names an offset to resume from.
pub open spec fn resumable(reason: Option<SnapshotRejectReason>) -> bool {
    reason == Some(SnapshotRejectReason::RestartFromZero) || reason == Some(
        SnapshotRejectReason::Gap,
    )
}

/// Why the contents of a message are refused, if they are.
pub open spec fn kind_error(version: u16, kind: KindView) -> Option<CodecError> {
    match kind {
        KindView::AppendReq(request) => if request.entries.len() > MAX_ENTRIES {
            Some(CodecError::TooLarge("entry count"))
        } else if exists|i: int|
            0 <= i < request.entries.len() && !entry_fits(#[trigger] request.entries[i]) {
            Some(CodecError::TooLarge("entry"))
        } else {
            None
        },
        KindView::AppendResp(response) => if response.success && response.conflict_term is Some {
            Some(CodecError::Invalid("successful append conflict"))
        } else if response.success && response.conflict_index.0 != 0 {
            Some(CodecError::Invalid("successful append conflict index"))
        } else {
            None
        },
        KindView::SnapshotChunk {
            transfer_id,
            total_len,
            offset,
            data,
            done,
            ..
        } => if transfer_id == 0 || total_len == 0 || data.len() == 0 || data.len()
            > SNAPSHOT_CHUNK_BYTES {
            Some(CodecError::TooLarge("snapshot chunk"))
        } else if offset + data.len() > u64::MAX {
            Some(CodecError::Invalid("snapshot size overflow"))
        } else if offset + data.len() > total_len || done != (offset + data.len() == total_len) {
            Some(CodecError::Invalid("snapshot chunk final offset"))
        } else {
            None
        },
        KindView::SnapshotAck {
            transfer_id,
            next_offset,
            accepted,
            reason,
        } => if transfer_id == 0 || accepted == reason is Some {
            Some(CodecError::Invalid("snapshot ack canonicality"))
        } else if !accepted && !resumable(reason) && next_offset != 0 {
            Some(CodecError::Invalid("snapshot rejection offset"))
        } else {
            None
        },
        KindView::TimeoutNow { intent_index } => if intent_index.0 == 0 {
            Some(CodecError::Invalid("zero transfer intent"))
        } else {
            None
        },
        KindView::FollowerReadRequest { request_id, .. } => if version != SEMANTIC_VERSION_V3
            || request_id == 0 {
            Some(CodecError::Invalid("follower read request semantic or id"))
        } else {
            None
        },
        KindView::FollowerReadGrant { request_id, .. } => if version != SEMANTIC_VERSION_V3
            || request_id == 0 {
            Some(CodecError::Invalid("follower read grant semantic or id"))
        } else {
            None
        },
        _ => None,
    }
}

/// Why a message is refused, if it is.
pub open spec fn encode_error(message: MessageView) -> Option<CodecError> {
    if !known_version(message.proto_version) || message.from.0 == 0 || message.to.0 == 0
        || message.from == message.to {
        Some(CodecError::Invalid("message identity or semantic version"))
    } else {
        kind_error(message.proto_version, message.kind)
    }
}

/// The error of bytes that end too early.
pub open spec fn ends() -> CodecError {
    CodecError::Decode(DecodeError::UnexpectedEnd)
}

pub open spec fn flag_at(input: Seq<u8>, at: int) -> Result<bool, CodecError> {
    match u8_at(input, at) {
        None => Err(ends()),
        Some(0) => Ok(false),
        Some(1) => Ok(true),
        Some(_) => Err(CodecError::Invalid("noncanonical boolean")),
    }
}

/// The byte string behind its length, and where it ends.
pub open spec fn blob_at(input: Seq<u8>, at: int) -> Result<(Seq<u8>, int), CodecError> {
    match u32_at(input, at) {
        None => Err(ends()),
        Some(length) => if length > MAX_CODEC_BYTES {
            Err(CodecError::Decode(DecodeError::LengthLimit))
        } else if at + 4 + length > input.len() {
            Err(ends())
        } else {
            Ok((input.subrange(at + 4, at + 4 + length), at + 4 + length))
        },
    }
}

/// The kind of entry that a byte of an append stands for.
pub open spec fn entry_kind_of(tag: u8) -> Option<EntryKind> {
    if tag == 1 {
        Some(EntryKind::App)
    } else if tag == 2 {
        Some(EntryKind::Noop)
    } else if tag == 3 {
        Some(EntryKind::Config)
    } else if tag == 4 {
        Some(EntryKind::AppV3)
    } else if tag == 5 {
        Some(EntryKind::ConfigV3)
    } else {
        None
    }
}

pub open spec fn entry_at(input: Seq<u8>, at: int) -> Result<(EntryView, int), CodecError> {
    match (u64_at(input, at), u64_at(input, at + 8)) {
        (Some(term), Some(index)) => if index == 0 {
            Err(CodecError::Invalid("zero entry index"))
        } else {
            match u8_at(input, at + 16) {
                None => Err(ends()),
                Some(tag) => match entry_kind_of(tag) {
                    None => Err(
                        CodecError::Decode(
                            DecodeError::InvalidTag { offset: (at + 16) as usize, tag },
                        ),
                    ),
                    Some(kind) => match blob_at(input, at + 17) {
                        Err(error) => Err(error),
                        Ok(payload) => Ok(
                            (
                                EntryView {
                                    term: Term(term),
                                    index: LogIndex(index),
                                    kind,
                                    payload: payload.0,
                                },
                                payload.1,
                            ),
                        ),
                    },
                },
            }
        },
        _ => Err(ends()),
    }
}

/// Entries that follow each other, behind some that were read before.
pub open spec fn entries_after(
    done: Seq<EntryView>,
    rest: Result<(Seq<EntryView>, int), CodecError>,
) -> Result<(Seq<EntryView>, int), CodecError> {
    match rest {
        Ok(entries) => Ok((done + entries.0, entries.1)),
        Err(error) => Err(error),
    }
}

/// `count` entries that follow each other.
pub open spec fn entries_at(input: Seq<u8>, at: int, count: nat) -> Result<
    (Seq<EntryView>, int),
    CodecError,
>
    decreases count,
{
    if count == 0 {
        Ok((Seq::empty(), at))
    } else {
        match entry_at(input, at) {
            Err(error) => Err(error),
            Ok(first) => entries_after(
                seq![first.0],
                entries_at(input, first.1, (count - 1) as nat),
            ),
        }
    }
}

pub open spec fn append_at(input: Seq<u8>, at: int) -> Result<(KindView, int), CodecError> {
    match (
        u64_at(input, at),
        u64_at(input, at + 8),
        u64_at(input, at + 16),
        u64_at(input, at + 24),
        u32_at(input, at + 32),
    ) {
        (
            Some(prev_index),
            Some(prev_term),
            Some(leader_commit),
            Some(read_round),
            Some(count),
        ) => if count > MAX_ENTRIES || count > (input.len() - at - 36) / MIN_ENTRY_BYTES as int {
            Err(CodecError::TooLarge("entry count"))
        } else {
            match entries_at(input, at + 36, count as nat) {
                Err(error) => Err(error),
                Ok(entries) => Ok(
                    (
                        KindView::AppendReq(
                            AppendView {
                                prev_index: LogIndex(prev_index),
                                prev_term: Term(prev_term),
                                entries: entries.0,
                                leader_commit: LogIndex(leader_commit),
                                read_round,
                            },
                        ),
                        entries.1,
                    ),
                ),
            }
        },
        _ => Err(ends()),
    }
}

pub open spec fn response_at(input: Seq<u8>, at: int) -> Result<(KindView, int), CodecError> {
    match (flag_at(input, at), u64_at(input, at + 1)) {
        (Err(error), _) => Err(error),
        (_, None) => Err(ends()),
        (Ok(success), Some(match_index)) => match (
            flag_at(input, at + 9),
            u64_at(input, at + 10),
            u64_at(input, at + 18),
            u64_at(input, at + 26),
        ) {
            (Err(error), _, _, _) => Err(error),
            (Ok(has_term), Some(term), Some(conflict_index), Some(read_round)) => if success && (
            has_term || term != 0 || conflict_index != 0) {
                Err(CodecError::Invalid("successful append conflict"))
            } else if !has_term && term != 0 {
                Err(CodecError::Invalid("noncanonical absent conflict term"))
            } else {
                Ok(
                    (
                        KindView::AppendResp(
                            AppendResponse {
                                success,
                                match_index: LogIndex(match_index),
                                conflict_term: if has_term {
                                    Some(Term(term))
                                } else {
                                    None
                                },
                                conflict_index: LogIndex(conflict_index),
                                read_round,
                            },
                        ),
                        at + 34,
                    ),
                )
            },
            _ => Err(ends()),
        },
    }
}

pub open spec fn chunk_at(input: Seq<u8>, at: int) -> Result<(KindView, int), CodecError> {
    match (
        u64_at(input, at),
        u64_at(input, at + 8),
        u64_at(input, at + 16),
        u64_at(input, at + 24),
        u32_at(input, at + 32),
        u64_at(input, at + 36),
    ) {
        (Some(id), Some(index), Some(term), Some(total), Some(crc), Some(offset)) => match flag_at(
            input,
            at + 44,
        ) {
            Err(error) => Err(error),
            Ok(done) => match u32_at(input, at + 45) {
                None => Err(ends()),
                Some(chunk_crc) => match blob_at(input, at + 49) {
                    Err(error) => Err(error),
                    Ok(data) => if offset + data.0.len() > u64::MAX {
                        Err(CodecError::Invalid("snapshot offset overflow"))
                    } else if id == 0 || total == 0 || data.0.len() == 0 || data.0.len()
                        > SNAPSHOT_CHUNK_BYTES || offset + data.0.len() > total || done != (offset
                        + data.0.len() == total) || chunk_crc != crc_of(data.0) {
                        Err(CodecError::Invalid("snapshot chunk canonicality"))
                    } else {
                        Ok(
                            (
                                KindView::SnapshotChunk {
                                    transfer_id: id,
                                    last_included_index: LogIndex(index),
                                    last_included_term: Term(term),
                                    total_len: total,
                                    snapshot_crc32c: crc,
                                    offset,
                                    data: data.0,
                                    done,
                                },
                                data.1,
                            ),
                        )
                    },
                },
            },
        },
        _ => Err(ends()),
    }
}

pub open spec fn ack_at(input: Seq<u8>, at: int) -> Result<(KindView, int), CodecError> {
    match (u64_at(input, at), u64_at(input, at + 8)) {
        (Some(id), Some(next_offset)) => match flag_at(input, at + 16) {
            Err(error) => Err(error),
            Ok(accepted) => match u8_at(input, at + 17) {
                None => Err(ends()),
                Some(tag) => if tag != 0 && reason_of(tag) is None {
                    Err(CodecError::Invalid("unknown snapshot rejection reason"))
                } else {
                    let reason = reason_of(tag);
                    if id == 0 || accepted == reason is Some || (!accepted && !resumable(reason)
                        && next_offset != 0) {
                        Err(CodecError::Invalid("snapshot ack canonicality"))
                    } else {
                        Ok(
                            (
                                KindView::SnapshotAck {
                                    transfer_id: id,
                                    next_offset,
                                    accepted,
                                    reason,
                                },
                                at + 18,
                            ),
                        )
                    }
                },
            },
        },
        _ => Err(ends()),
    }
}

/// The contents of a message whose type byte stands at `at`, and their end.
pub open spec fn kind_at(input: Seq<u8>, at: int, version: u16) -> Result<
    (KindView, int),
    CodecError,
> {
    match u8_at(input, at) {
        None => Err(ends()),
        Some(tag) => {
            let body = at + 1;
            if tag == 1 || tag == 3 {
                match (u64_at(input, body), u64_at(input, body + 8)) {
                    (Some(index), Some(term)) => Ok(
                        (
                            if tag == 1 {
                                KindView::PreVoteReq {
                                    last_index: LogIndex(index),
                                    last_term: Term(term),
                                }
                            } else {
                                KindView::VoteReq {
                                    last_index: LogIndex(index),
                                    last_term: Term(term),
                                }
                            },
                            body + 16,
                        ),
                    ),
                    _ => Err(ends()),
                }
            } else if tag == 2 || tag == 4 {
                match flag_at(input, body) {
                    Ok(granted) => Ok(
                        (
                            if tag == 2 {
                                KindView::PreVoteResp { granted }
                            } else {
                                KindView::VoteResp { granted }
                            },
                            body + 1,
                        ),
                    ),
                    Err(error) => Err(error),
                }
            } else if tag == 5 {
                append_at(input, body)
            } else if tag == 6 {
                response_at(input, body)
            } else if tag == 7 {
                chunk_at(input, body)
            } else if tag == 8 {
                ack_at(input, body)
            } else if tag == 9 {
                match u64_at(input, body) {
                    None => Err(ends()),
                    Some(0) => Err(CodecError::Invalid("zero transfer intent")),
                    Some(index) => Ok(
                        (KindView::TimeoutNow { intent_index: LogIndex(index) }, body + 8),
                    ),
                }
            } else if tag == 10 {
                if version != SEMANTIC_VERSION_V3 {
                    Err(CodecError::Invalid("follower read request requires v3"))
                } else {
                    match (u64_at(input, body), u64_at(input, body + 8)) {
                        (None, _) => Err(ends()),
                        (Some(0), _) => Err(CodecError::Invalid("zero follower read request id")),
                        (Some(request_id), Some(command_hash)) => Ok(
                            (
                                KindView::FollowerReadRequest { request_id, command_hash },
                                body + 16,
                            ),
                        ),
                        (Some(_), None) => Err(ends()),
                    }
                }
            } else if tag == 11 {
                if version != SEMANTIC_VERSION_V3 {
                    Err(CodecError::Invalid("follower read grant requires v3"))
                } else {
                    match (u64_at(input, body), u64_at(input, body + 8), u64_at(input, body + 16), u64_at(input, body + 24)) {
                        (None, _, _, _) => Err(ends()),
                        (Some(0), _, _, _) => Err(
                            CodecError::Invalid("zero follower read grant id"),
                        ),
                        (Some(request_id), Some(command_hash), Some(index), Some(time)) => Ok(
                            (
                                KindView::FollowerReadGrant {
                                    request_id,
                                    command_hash,
                                    read_index: LogIndex(index),
                                    read_time: Time(time),
                                },
                                body + 32,
                            ),
                        ),
                        _ => Err(ends()),
                    }
                }
            } else {
                Err(CodecError::Decode(DecodeError::InvalidTag { offset: at as usize, tag }))
            }
        },
    }
}

/// The member id at a position.
pub open spec fn member_at(input: Seq<u8>, at: int) -> Result<NodeId, CodecError> {
    match u64_at(input, at) {
        None => Err(ends()),
        Some(0) => Err(CodecError::Invalid("zero node id")),
        Some(id) => Ok(NodeId(id)),
    }
}

/// The message that canonical bytes write.
pub open spec fn message_of(input: Seq<u8>) -> Result<MessageView, CodecError> {
    if input.len() < 6 {
        Err(ends())
    } else if u32_at(input, 0) != Some(CCRP_MAGIC) {
        Err(CodecError::Decode(DecodeError::BadMagic))
    } else if u16_at(input, 4) != Some(CCRP_FORMAT_VERSION) {
        Err(CodecError::Decode(DecodeError::UnsupportedVersion))
    } else {
        match u16_at(input, 6) {
            None => Err(ends()),
            Some(version) => if !known_version(version) {
                Err(CodecError::UnsupportedSemantic(version))
            } else {
                match (member_at(input, 8), member_at(input, 16)) {
                    (Err(error), _) => Err(error),
                    (_, Err(error)) => Err(error),
                    (Ok(from), Ok(to)) => if from == to {
                        Err(CodecError::Invalid("self-addressed message"))
                    } else {
                        match (u64_at(input, 24), kind_at(input, 32, version)) {
                            (None, _) => Err(ends()),
                            (_, Err(error)) => Err(error),
                            (Some(term), Ok(kind)) => if kind.1 != input.len() {
                                Err(CodecError::Decode(DecodeError::TrailingBytes))
                            } else {
                                Ok(
                                    MessageView {
                                        proto_version: version,
                                        from,
                                        to,
                                        term: Term(term),
                                        kind: kind.0,
                                    },
                                )
                            },
                        }
                    },
                }
            },
        }
    }
}

fn known<T>(value: Option<T>) -> (result: Result<T, CodecError>)
    ensures
        match value {
            Some(value) => result == Ok::<T, CodecError>(value),
            None => result == Err::<T, CodecError>(ends()),
        },
{
    match value {
        Some(value) => Ok(value),
        None => Err(CodecError::Decode(DecodeError::UnexpectedEnd)),
    }
}

fn read_flag(bytes: &[u8], at: usize) -> (result: Result<bool, CodecError>)
    ensures
        result == flag_at(bytes@, at as int),
        result is Ok ==> at < bytes@.len(),
{
    match read_u8(bytes, at) {
        None => Err(CodecError::Decode(DecodeError::UnexpectedEnd)),
        Some(0) => Ok(false),
        Some(1) => Ok(true),
        Some(_) => Err(CodecError::Invalid("noncanonical boolean")),
    }
}

fn read_member(bytes: &[u8], at: usize) -> (result: Result<NodeId, CodecError>)
    ensures
        result == member_at(bytes@, at as int),
{
    let id: u64 = known(read_u64(bytes, at))?;
    if id == 0 {
        return Err(CodecError::Invalid("zero node id"));
    }
    Ok(NodeId(id))
}

fn read_blob(bytes: &[u8], at: usize) -> (result: Result<(Vec<u8>, usize), CodecError>)
    ensures
        match result {
            Ok(blob) => blob_at(bytes@, at as int) == Ok::<(Seq<u8>, int), CodecError>(
                (blob.0@, blob.1 as int),
            ) && blob.1 <= bytes@.len() && blob.0@.len() <= MAX_CODEC_BYTES,
            Err(error) => blob_at(bytes@, at as int) == Err::<(Seq<u8>, int), CodecError>(error),
        },
{
    let size: usize = bytes.len();
    let length: u32 = known(read_u32(bytes, at))?;
    if length as u64 > MAX_CODEC_BYTES as u64 {
        return Err(CodecError::Decode(DecodeError::LengthLimit));
    }
    let start: usize = at + 4;
    let count: usize = length as usize;
    if count > size - start {
        return Err(CodecError::Decode(DecodeError::UnexpectedEnd));
    }
    let data = vstd::slice::slice_subrange(bytes, start, start + count);
    Ok((copy_bytes(data), start + count))
}

fn decode_entry(bytes: &[u8], at: usize) -> (result: Result<(Entry, usize), CodecError>)
    ensures
        match result {
            Ok(entry) => entry_at(bytes@, at as int) == Ok::<(EntryView, int), CodecError>(
                (entry.0@, entry.1 as int),
            ) && entry.1 <= bytes@.len(),
            Err(error) => entry_at(bytes@, at as int) == Err::<(EntryView, int), CodecError>(error),
        },
{
    let size: usize = bytes.len();
    let term: u64 = known(read_u64(bytes, at))?;
    let index: u64 = known(read_u64(bytes, at + 8))?;
    if index == 0 {
        return Err(CodecError::Invalid("zero entry index"));
    }
    let tag: u8 = known(read_u8(bytes, at + 16))?;
    let kind = match tag {
        1 => EntryKind::App,
        2 => EntryKind::Noop,
        3 => EntryKind::Config,
        4 => EntryKind::AppV3,
        5 => EntryKind::ConfigV3,
        _ => return Err(CodecError::Decode(DecodeError::InvalidTag { offset: at + 16, tag })),
    };
    let payload = read_blob(bytes, at + 17)?;
    Ok((Entry { term: Term(term), index: LogIndex(index), kind, payload: payload.0 }, payload.1))
}

/// Whether an outcome of reading contents is the specified one.
spec fn kind_result(
    result: Result<(MessageKind, usize), CodecError>,
    expected: Result<(KindView, int), CodecError>,
) -> bool {
    match result {
        Ok(kind) => expected == Ok::<(KindView, int), CodecError>((kind.0@, kind.1 as int)),
        Err(error) => expected == Err::<(KindView, int), CodecError>(error),
    }
}

proof fn lemma_entries_after_nothing(rest: Result<(Seq<EntryView>, int), CodecError>)
    ensures
        entries_after(Seq::empty(), rest) == rest,
{
    if let Ok(entries) = rest {
        assert(Seq::<EntryView>::empty() + entries.0 =~= entries.0);
    }
}

proof fn lemma_entries_after_one(
    done: Seq<EntryView>,
    entry: EntryView,
    rest: Result<(Seq<EntryView>, int), CodecError>,
)
    ensures
        entries_after(done, entries_after(seq![entry], rest)) == entries_after(
            done.push(entry),
            rest,
        ),
{
    if let Ok(entries) = rest {
        assert(done + (seq![entry] + entries.0) =~= done.push(entry) + entries.0);
    }
}

fn decode_entries(bytes: &[u8], at: usize, count: usize) -> (result: Result<
    (Vec<Entry>, usize),
    CodecError,
>)
    requires
        at <= bytes@.len(),
    ensures
        match result {
            Ok(entries) => entries_at(bytes@, at as int, count as nat) == Ok::<
                (Seq<EntryView>, int),
                CodecError,
            >((entry_views(entries.0@), entries.1 as int)) && entries.1 <= bytes@.len(),
            Err(error) => entries_at(bytes@, at as int, count as nat) == Err::<
                (Seq<EntryView>, int),
                CodecError,
            >(error),
        },
{
    let mut entries: Vec<Entry> = Vec::new();
    let mut cursor: usize = at;
    let mut left: usize = count;
    let ghost whole = entries_at(bytes@, at as int, count as nat);
    proof {
        assert(entry_views(entries@) =~= Seq::<EntryView>::empty());
        lemma_entries_after_nothing(whole);
    }
    while left > 0
        invariant
            cursor <= bytes@.len(),
            whole == entries_after(
                entry_views(entries@),
                entries_at(bytes@, cursor as int, left as nat),
            ),
            whole == entries_at(bytes@, at as int, count as nat),
        decreases left,
    {
        let entry = match decode_entry(bytes, cursor) {
            Ok(entry) => entry,
            Err(error) => {
                return Err(error);
            },
        };
        let ghost before = entry_views(entries@);
        let ghost rest = entries_at(bytes@, entry.1 as int, (left - 1) as nat);
        entries.push(entry.0);
        proof {
            assert(entry_views(entries@) =~= before.push(entry.0@));
            lemma_entries_after_one(before, entry.0@, rest);
        }
        cursor = entry.1;
        left -= 1;
    }
    proof {
        assert(entry_views(entries@) + Seq::<EntryView>::empty() =~= entry_views(entries@));
    }
    Ok((entries, cursor))
}

fn decode_append(bytes: &[u8], at: usize) -> (result: Result<(MessageKind, usize), CodecError>)
    requires
        at <= bytes@.len(),
    ensures
        kind_result(result, append_at(bytes@, at as int)),
        result matches Ok(kind) ==> kind.1 <= bytes@.len(),
{
    let size: usize = bytes.len();
    let prev_index: u64 = known(read_u64(bytes, at))?;
    let prev_term: u64 = known(read_u64(bytes, at + 8))?;
    let leader_commit: u64 = known(read_u64(bytes, at + 16))?;
    let read_round: u64 = known(read_u64(bytes, at + 24))?;
    let count: u32 = known(read_u32(bytes, at + 32))?;
    if count as u64 > MAX_ENTRIES as u64 || count as u64 > ((size - at - 36) / MIN_ENTRY_BYTES) as u64 {
        return Err(CodecError::TooLarge("entry count"));
    }
    let entries = decode_entries(bytes, at + 36, count as usize)?;
    Ok(
        (
            MessageKind::AppendReq(
                AppendRequest {
                    prev_index: LogIndex(prev_index),
                    prev_term: Term(prev_term),
                    entries: entries.0,
                    leader_commit: LogIndex(leader_commit),
                    read_round,
                },
            ),
            entries.1,
        ),
    )
}

fn decode_response(bytes: &[u8], at: usize) -> (result: Result<(MessageKind, usize), CodecError>)
    requires
        at <= bytes@.len(),
    ensures
        kind_result(result, response_at(bytes@, at as int)),
        result matches Ok(kind) ==> kind.1 <= bytes@.len(),
{
    let size: usize = bytes.len();
    let success = read_flag(bytes, at)?;
    let match_index: u64 = known(read_u64(bytes, at + 1))?;
    let has_term = read_flag(bytes, at + 9)?;
    let term: u64 = known(read_u64(bytes, at + 10))?;
    let conflict_index: u64 = known(read_u64(bytes, at + 18))?;
    let read_round: u64 = known(read_u64(bytes, at + 26))?;
    if success && (has_term || term != 0 || conflict_index != 0) {
        return Err(CodecError::Invalid("successful append conflict"));
    }
    if !has_term && term != 0 {
        return Err(CodecError::Invalid("noncanonical absent conflict term"));
    }
    Ok(
        (
            MessageKind::AppendResp(
                AppendResponse {
                    success,
                    match_index: LogIndex(match_index),
                    conflict_term: if has_term {
                        Some(Term(term))
                    } else {
                        None
                    },
                    conflict_index: LogIndex(conflict_index),
                    read_round,
                },
            ),
            at + 34,
        ),
    )
}

fn decode_chunk(bytes: &[u8], at: usize) -> (result: Result<(MessageKind, usize), CodecError>)
    requires
        at <= bytes@.len(),
    ensures
        kind_result(result, chunk_at(bytes@, at as int)),
        result matches Ok(kind) ==> kind.1 <= bytes@.len(),
{
    let size: usize = bytes.len();
    let transfer_id: u64 = known(read_u64(bytes, at))?;
    let index: u64 = known(read_u64(bytes, at + 8))?;
    let term: u64 = known(read_u64(bytes, at + 16))?;
    let total: u64 = known(read_u64(bytes, at + 24))?;
    let snapshot_crc: u32 = known(read_u32(bytes, at + 32))?;
    let offset: u64 = known(read_u64(bytes, at + 36))?;
    let done = read_flag(bytes, at + 44)?;
    let chunk_crc: u32 = known(read_u32(bytes, at + 45))?;
    let data = read_blob(bytes, at + 49)?;
    let length: u64 = data.0.len() as u64;
    if offset > u64::MAX - length {
        return Err(CodecError::Invalid("snapshot offset overflow"));
    }
    let end: u64 = offset + length;
    if transfer_id == 0 || total == 0 || data.0.len() == 0 || data.0.len() > SNAPSHOT_CHUNK_BYTES
        || end > total || done != (end == total) || chunk_crc != crc32c(data.0.as_slice()) {
        return Err(CodecError::Invalid("snapshot chunk canonicality"));
    }
    Ok(
        (
            MessageKind::SnapshotChunk {
                transfer_id,
                last_included_index: LogIndex(index),
                last_included_term: Term(term),
                total_len: total,
                snapshot_crc32c: snapshot_crc,
                offset,
                data: data.0,
                done,
            },
            data.1,
        ),
    )
}

fn may_resume(reason: Option<SnapshotRejectReason>) -> (r: bool)
    ensures
        r == resumable(reason),
{
    match reason {
        Some(SnapshotRejectReason::RestartFromZero) => true,
        Some(SnapshotRejectReason::Gap) => true,
        _ => false,
    }
}

fn decode_ack(bytes: &[u8], at: usize) -> (result: Result<(MessageKind, usize), CodecError>)
    requires
        at <= bytes@.len(),
    ensures
        kind_result(result, ack_at(bytes@, at as int)),
        result matches Ok(kind) ==> kind.1 <= bytes@.len(),
{
    let size: usize = bytes.len();
    let transfer_id: u64 = known(read_u64(bytes, at))?;
    let next_offset: u64 = known(read_u64(bytes, at + 8))?;
    let accepted = read_flag(bytes, at + 16)?;
    let tag: u8 = known(read_u8(bytes, at + 17))?;
    let reason = SnapshotRejectReason::decode(tag);
    if tag != 0 && reason.is_none() {
        return Err(CodecError::Invalid("unknown snapshot rejection reason"));
    }
    if transfer_id == 0 || accepted == reason.is_some() || (!accepted && !may_resume(reason)
        && next_offset != 0) {
        return Err(CodecError::Invalid("snapshot ack canonicality"));
    }
    Ok((MessageKind::SnapshotAck { transfer_id, next_offset, accepted, reason }, at + 18))
}

fn decode_kind(bytes: &[u8], at: usize, version: u16) -> (result: Result<
    (MessageKind, usize),
    CodecError,
>)
    ensures
        kind_result(result, kind_at(bytes@, at as int, version)),
        result matches Ok(kind) ==> kind.1 <= bytes@.len(),
{
    let size: usize = bytes.len();
    let tag: u8 = known(read_u8(bytes, at))?;
    let body: usize = at + 1;
    match tag {
        1 => {
            let index: u64 = known(read_u64(bytes, body))?;
            let term: u64 = known(read_u64(bytes, body + 8))?;
            Ok(
                (
                    MessageKind::PreVoteReq { last_index: LogIndex(index), last_term: Term(term) },
                    body + 16,
                ),
            )
        },
        2 => {
            let granted = read_flag(bytes, body)?;
            Ok((MessageKind::PreVoteResp { granted }, body + 1))
        },
        3 => {
            let index: u64 = known(read_u64(bytes, body))?;
            let term: u64 = known(read_u64(bytes, body + 8))?;
            Ok(
                (
                    MessageKind::VoteReq { last_index: LogIndex(index), last_term: Term(term) },
                    body + 16,
                ),
            )
        },
        4 => {
            let granted = read_flag(bytes, body)?;
            Ok((MessageKind::VoteResp { granted }, body + 1))
        },
        5 => decode_append(bytes, body),
        6 => decode_response(bytes, body),
        7 => decode_chunk(bytes, body),
        8 => decode_ack(bytes, body),
        9 => {
            let index: u64 = known(read_u64(bytes, body))?;
            if index == 0 {
                return Err(CodecError::Invalid("zero transfer intent"));
            }
            Ok((MessageKind::TimeoutNow { intent_index: LogIndex(index) }, body + 8))
        },
        10 => {
            if version != SEMANTIC_VERSION_V3 {
                return Err(CodecError::Invalid("follower read request requires v3"));
            }
            let request_id: u64 = known(read_u64(bytes, body))?;
            if request_id == 0 {
                return Err(CodecError::Invalid("zero follower read request id"));
            }
            let command_hash: u64 = known(read_u64(bytes, body + 8))?;
            Ok((MessageKind::FollowerReadRequest { request_id, command_hash }, body + 16))
        },
        11 => {
            if version != SEMANTIC_VERSION_V3 {
                return Err(CodecError::Invalid("follower read grant requires v3"));
            }
            let request_id: u64 = known(read_u64(bytes, body))?;
            if request_id == 0 {
                return Err(CodecError::Invalid("zero follower read grant id"));
            }
            let command_hash: u64 = known(read_u64(bytes, body + 8))?;
            let index: u64 = known(read_u64(bytes, body + 16))?;
            let time: u64 = known(read_u64(bytes, body + 24))?;
            Ok(
                (
                    MessageKind::FollowerReadGrant {
                        request_id,
                        command_hash,
                        read_index: LogIndex(index),
                        read_time: Time(time),
                    },
                    body + 32,
                ),
            )
        },
        _ => Err(CodecError::Decode(DecodeError::InvalidTag { offset: at, tag })),
    }
}

/// The message that bytes write, where they are canonical.
pub fn decode(bytes: &[u8]) -> (result: Result<Message, CodecError>)
    ensures
        match result {
            Ok(message) => message_of(bytes@) == Ok::<MessageView, CodecError>(message@),
            Err(error) => message_of(bytes@) == Err::<MessageView, CodecError>(error),
        },
{
    if bytes.len() < 6 {
        return Err(CodecError::Decode(DecodeError::UnexpectedEnd));
    }
    let magic: u32 = known(read_u32(bytes, 0))?;
    if magic != CCRP_MAGIC {
        return Err(CodecError::Decode(DecodeError::BadMagic));
    }
    let format: u16 = known(read_u16(bytes, 4))?;
    if format != CCRP_FORMAT_VERSION {
        return Err(CodecError::Decode(DecodeError::UnsupportedVersion));
    }
    let proto_version: u16 = known(read_u16(bytes, 6))?;
    if !supports_protocol_version(proto_version) {
        return Err(CodecError::UnsupportedSemantic(proto_version));
    }
    let from = read_member(bytes, 8)?;
    let to = read_member(bytes, 16)?;
    if from == to {
        return Err(CodecError::Invalid("self-addressed message"));
    }
    let term: u64 = known(read_u64(bytes, 24))?;
    let kind = decode_kind(bytes, 32, proto_version)?;
    if kind.1 != bytes.len() {
        return Err(CodecError::Decode(DecodeError::TrailingBytes));
    }
    Ok(Message { proto_version, from, to, term: Term(term), kind: kind.0 })
}

fn write_flag(flag: bool, output: &mut Vec<u8>)
    ensures
        final(output)@ == old(output)@ + flag_bytes(flag),
{
    let ghost before = output@;
    output.push(
        if flag {
            1
        } else {
            0
        },
    );
    assert(output@ =~= before + flag_bytes(flag));
}

fn write_blob(data: &[u8], output: &mut Vec<u8>)
    requires
        data@.len() <= MAX_CODEC_BYTES,
    ensures
        final(output)@ == old(output)@ + blob_bytes(data@),
{
    let ghost before = output@;
    write_u32(data.len() as u32, output);
    write_bytes(data, output);
    assert(output@ =~= before + blob_bytes(data@));
}

fn encode_entry(entry: &Entry, output: &mut Vec<u8>) -> (result: Result<(), CodecError>)
    ensures
        match result {
            Ok(_) => entry_fits(entry@) && final(output)@ == old(output)@ + entry_bytes(entry@),
            Err(error) => !entry_fits(entry@) && error == CodecError::TooLarge("entry"),
        },
{
    if entry.index.0 == 0 || entry.payload.len() > MAX_CODEC_BYTES {
        return Err(CodecError::TooLarge("entry"));
    }
    let ghost before = output@;
    write_u64(entry.term.0, output);
    write_u64(entry.index.0, output);
    output.push(entry.kind.code());
    write_blob(entry.payload.as_slice(), output);
    assert(output@ =~= before + entry_bytes(entry@));
    Ok(())
}

fn encode_append(request: &AppendRequest, output: &mut Vec<u8>) -> (result: Result<(), CodecError>)
    ensures
        match result {
            Ok(_) => kind_error(2, KindView::AppendReq(request@)) is None && final(output)@ == old(
                output,
            )@ + append_bytes(request@),
            Err(error) => kind_error(2, KindView::AppendReq(request@)) == Some(error),
        },
{
    let ghost before = output@;
    let ghost all = entry_views(request.entries@);
    if request.entries.len() > MAX_ENTRIES {
        return Err(CodecError::TooLarge("entry count"));
    }
    write_u64(request.prev_index.0, output);
    write_u64(request.prev_term.0, output);
    write_u64(request.leader_commit.0, output);
    write_u64(request.read_round, output);
    write_u32(request.entries.len() as u32, output);
    let ghost head = output@;
    let mut i: usize = 0;
    assert(all.skip(0) =~= all);
    while i < request.entries.len()
        invariant
            i <= request.entries@.len() <= MAX_ENTRIES,
            all == entry_views(request.entries@),
            output@ + entries_bytes(all.skip(i as int)) == head + entries_bytes(all),
            forall|k: int| 0 <= k < i ==> entry_fits(#[trigger] all[k]),
        decreases request.entries@.len() - i,
    {
        let ghost sofar = output@;
        proof {
            let rest = all.skip(i as int);
            assert(rest[0] == request.entries@[i as int]@);
            assert(rest.drop_first() =~= all.skip(i as int + 1));
            assert(sofar + (entry_bytes(rest[0]) + entries_bytes(rest.drop_first())) =~= sofar
                + entry_bytes(rest[0]) + entries_bytes(rest.drop_first()));
            assert(all[i as int] == request.entries@[i as int]@);
        }
        match encode_entry(&request.entries[i], output) {
            Ok(_) => {},
            Err(error) => {
                assert(!entry_fits(request@.entries[i as int]));
                return Err(error);
            },
        }
        i += 1;
    }
    proof {
        assert(all.skip(i as int) =~= Seq::<EntryView>::empty());
        assert(output@ =~= output@ + entries_bytes(all.skip(i as int)));
        assert(output@ =~= before + append_bytes(request@));
    }
    Ok(())
}

/// The canonical bytes of a message, where it can be written.
pub fn encode(message: &Message) -> (result: Result<Vec<u8>, CodecError>)
    ensures
        match encode_error(message@) {
            None => result matches Ok(bytes) && bytes@ == message_bytes(message@),
            Some(error) => result == Err::<Vec<u8>, CodecError>(error),
        },
{
    if !supports_protocol_version(message.proto_version) || message.from.0 == 0 || message.to.0 == 0
        || message.from == message.to {
        return Err(CodecError::Invalid("message identity or semantic version"));
    }
    let mut output: Vec<u8> = Vec::new();
    write_u32(CCRP_MAGIC, &mut output);
    write_u16(CCRP_FORMAT_VERSION, &mut output);
    write_u16(message.proto_version, &mut output);
    write_u64(message.from.0, &mut output);
    write_u64(message.to.0, &mut output);
    write_u64(message.term.0, &mut output);
    let ghost head = output@;
    match encode_kind(&message.kind, message.proto_version, &mut output) {
        Ok(_) => {
            assert(output@ =~= message_bytes(message@));
            Ok(output)
        },
        Err(error) => Err(error),
    }
}

fn encode_kind(kind: &MessageKind, version: u16, output: &mut Vec<u8>) -> (result: Result<
    (),
    CodecError,
>)
    ensures
        match result {
            Ok(_) => kind_error(version, kind@) is None && final(output)@ == old(output)@
                + kind_bytes(kind@),
            Err(error) => kind_error(version, kind@) == Some(error),
        },
{
    let ghost before = output@;
    match kind {
        MessageKind::PreVoteReq { last_index, last_term } => {
            output.push(1);
            write_u64(last_index.0, output);
            write_u64(last_term.0, output);
        },
        MessageKind::PreVoteResp { granted } => {
            output.push(2);
            write_flag(*granted, output);
        },
        MessageKind::VoteReq { last_index, last_term } => {
            output.push(3);
            write_u64(last_index.0, output);
            write_u64(last_term.0, output);
        },
        MessageKind::VoteResp { granted } => {
            output.push(4);
            write_flag(*granted, output);
        },
        MessageKind::AppendReq(request) => {
            output.push(5);
            match encode_append(request, output) {
                Ok(_) => {},
                Err(error) => return Err(error),
            }
        },
        MessageKind::AppendResp(response) => {
            if response.success && response.conflict_term.is_some() {
                return Err(CodecError::Invalid("successful append conflict"));
            }
            if response.success && response.conflict_index.0 != 0 {
                return Err(CodecError::Invalid("successful append conflict index"));
            }
            output.push(6);
            write_flag(response.success, output);
            write_u64(response.match_index.0, output);
            write_flag(response.conflict_term.is_some(), output);
            write_u64(
                match response.conflict_term {
                    Some(term) => term.0,
                    None => 0,
                },
                output,
            );
            write_u64(response.conflict_index.0, output);
            write_u64(response.read_round, output);
        },
        MessageKind::SnapshotChunk {
            transfer_id,
            last_included_index,
            last_included_term,
            total_len,
            snapshot_crc32c,
            offset,
            data,
            done,
        } => {
            if *transfer_id == 0 || *total_len == 0 || data.len() == 0 || data.len()
                > SNAPSHOT_CHUNK_BYTES {
                return Err(CodecError::TooLarge("snapshot chunk"));
            }
            let length: u64 = data.len() as u64;
            if *offset > u64::MAX - length {
                return Err(CodecError::Invalid("snapshot size overflow"));
            }
            let end: u64 = *offset + length;
            if end > *total_len || *done != (end == *total_len) {
                return Err(CodecError::Invalid("snapshot chunk final offset"));
            }
            output.push(7);
            write_u64(*transfer_id, output);
            write_u64(last_included_index.0, output);
            write_u64(last_included_term.0, output);
            write_u64(*total_len, output);
            write_u32(*snapshot_crc32c, output);
            write_u64(*offset, output);
            write_flag(*done, output);
            write_u32(crc32c(data.as_slice()), output);
            write_blob(data.as_slice(), output);
        },
        MessageKind::SnapshotAck { transfer_id, next_offset, accepted, reason } => {
            if *transfer_id == 0 || *accepted == reason.is_some() {
                return Err(CodecError::Invalid("snapshot ack canonicality"));
            }
            if !*accepted && !may_resume(*reason) && *next_offset != 0 {
                return Err(CodecError::Invalid("snapshot rejection offset"));
            }
            output.push(8);
            write_u64(*transfer_id, output);
            write_u64(*next_offset, output);
            write_flag(*accepted, output);
            output.push(
                match reason {
                    Some(reason) => reason.code(),
                    None => 0,
                },
            );
        },
        MessageKind::TimeoutNow { intent_index } => {
            if intent_index.0 == 0 {
                return Err(CodecError::Invalid("zero transfer intent"));
            }
            output.push(9);
            write_u64(intent_index.0, output);
        },
        MessageKind::FollowerReadRequest { request_id, command_hash } => {
            if version != SEMANTIC_VERSION_V3 || *request_id == 0 {
                return Err(CodecError::Invalid("follower read request semantic or id"));
            }
            output.push(10);
            write_u64(*request_id, output);
            write_u64(*command_hash, output);
        },
        MessageKind::FollowerReadGrant { request_id, command_hash, read_index, read_time } => {
            if version != SEMANTIC_VERSION_V3 || *request_id == 0 {
                return Err(CodecError::Invalid("follower read grant semantic or id"));
            }
            output.push(11);
            write_u64(*request_id, output);
            write_u64(*command_hash, output);
            write_u64(read_index.0, output);
            write_u64(read_time.0, output);
        },
    }
    assert(output@ =~= before + kind_bytes(kind@));
    Ok(())
}

} // verus!
