//! What holds of CCRP as a whole: a message is read back from its bytes, and a
//! message has only one form.
use vstd::prelude::*;

use crate::codec::{
    ack_at, append_at, append_bytes, blob_at, blob_bytes, chunk_at, encode_error, entries_at,
    entries_bytes, entry_at, entry_bytes, entry_fits, flag_at, flag_bytes, kind_at, kind_bytes,
    kind_error, message_bytes, message_of, response_at, response_bytes, CodecError,
    CCRP_FORMAT_VERSION, CCRP_MAGIC, MAX_ENTRIES, MIN_ENTRY_BYTES,
};
use crate::crc::crc_of;
use crate::raft_types::{
    kind_code, reason_code, reason_of, AppendResponse, AppendView, EntryView, KindView, MessageView,
};
use crate::wire::{
    le16, le32, le64, lemma_le_len, lemma_stands_byte, lemma_stands_split, lemma_u16_at,
    lemma_u32_at, lemma_u64_at, stands_at, u16_at, u32_at, u64_at, u8_at, MAX_CODEC_BYTES,
};

verus! {

proof fn lemma_flag(input: Seq<u8>, at: int, flag: bool)
    ensures
        stands_at(input, at, flag_bytes(flag)) <==> flag_at(input, at) == Ok::<bool, CodecError>(
            flag,
        ),
{
    lemma_stands_byte(
        input,
        at,
        if flag {
            1
        } else {
            0
        },
    );
}

proof fn lemma_blob(input: Seq<u8>, at: int, data: Seq<u8>)
    requires
        data.len() <= MAX_CODEC_BYTES,
    ensures
        blob_bytes(data).len() == 4 + data.len(),
        stands_at(input, at, blob_bytes(data)) <==> blob_at(input, at) == Ok::<
            (Seq<u8>, int),
            CodecError,
        >((data, at + 4 + data.len())),
{
    lemma_stands_split(input, at, le32(data.len() as u32), data);
    lemma_u32_at(input, at);
    lemma_le_len(data.len(), 4);
}

proof fn lemma_blob_read(input: Seq<u8>, at: int)
    ensures
        blob_at(input, at) matches Ok(blob) ==> blob.0.len() <= MAX_CODEC_BYTES && blob.1 == at + 4
            + blob.0.len(),
{
}

proof fn lemma_entry(input: Seq<u8>, at: int, entry: EntryView)
    requires
        entry_fits(entry),
    ensures
        entry_bytes(entry).len() == MIN_ENTRY_BYTES + entry.payload.len(),
        stands_at(input, at, entry_bytes(entry)) <==> entry_at(input, at) == Ok::<
            (EntryView, int),
            CodecError,
        >((entry, at + entry_bytes(entry).len())),
{
    let a = le64(entry.term.0);
    let b = le64(entry.index.0);
    let c = seq![kind_code(entry.kind)];
    lemma_le_len(entry.term.0 as nat, 8);
    lemma_le_len(entry.index.0 as nat, 8);
    lemma_stands_split(input, at, a + b + c, blob_bytes(entry.payload));
    lemma_stands_split(input, at, a + b, c);
    lemma_stands_split(input, at, a, b);
    lemma_u64_at(input, at);
    lemma_u64_at(input, at + 8);
    lemma_stands_byte(input, at + 16, kind_code(entry.kind));
    lemma_blob(input, at + 17, entry.payload);
}

proof fn lemma_entry_read(input: Seq<u8>, at: int)
    ensures
        entry_at(input, at) matches Ok(entry) ==> entry_fits(entry.0) && entry.1 == at + entry_bytes(entry.0).len(),
{
    if let Ok(entry) = entry_at(input, at) {
        lemma_blob_read(input, at + 17);
        lemma_entry(input, at, entry.0);
    }
}

spec fn all_fit(entries: Seq<EntryView>) -> bool {
    forall|i: int| 0 <= i < entries.len() ==> entry_fits(#[trigger] entries[i])
}

proof fn lemma_entries(input: Seq<u8>, at: int, entries: Seq<EntryView>)
    requires
        all_fit(entries),
    ensures
        entries_bytes(entries).len() >= MIN_ENTRY_BYTES * entries.len(),
        stands_at(input, at, entries_bytes(entries)) ==> entries_at(input, at, entries.len())
            == Ok::<(Seq<EntryView>, int), CodecError>(
            (entries, at + entries_bytes(entries).len()),
        ),
    decreases entries.len(),
{
    if entries.len() == 0 {
        assert(entries =~= Seq::<EntryView>::empty());
    } else {
        let first = entries[0];
        let rest = entries.drop_first();
        assert(all_fit(rest)) by {
            assert forall|i: int| 0 <= i < rest.len() implies entry_fits(#[trigger] rest[i]) by {
                assert(rest[i] == entries[i + 1]);
            }
        }
        lemma_entry(input, at, first);
        lemma_stands_split(input, at, entry_bytes(first), entries_bytes(rest));
        lemma_entries(input, at + entry_bytes(first).len(), rest);
        assert(seq![first] + rest =~= entries);
    }
}

proof fn lemma_entries_read(input: Seq<u8>, at: int, count: nat)
    ensures
        entries_at(input, at, count) matches Ok(entries) ==> {
            &&& entries.0.len() == count
            &&& all_fit(entries.0)
            &&& entries.1 == at + entries_bytes(entries.0).len()
            &&& 0 <= at <= input.len() ==> stands_at(input, at, entries_bytes(entries.0))
        },
    decreases count,
{
    if let Ok(entries) = entries_at(input, at, count) {
        if count == 0 {
            if 0 <= at <= input.len() {
                assert(input.subrange(at, at) =~= entries_bytes(entries.0));
            }
        } else {
            let first = entry_at(input, at)->Ok_0;
            lemma_entry_read(input, at);
            lemma_entry(input, at, first.0);
            lemma_entries_read(input, first.1, (count - 1) as nat);
            let rest = entries_at(input, first.1, (count - 1) as nat)->Ok_0;
            assert(entries.0 =~= seq![first.0] + rest.0);
            assert(entries.0.drop_first() =~= rest.0);
            assert forall|i: int| 0 <= i < entries.0.len() implies entry_fits(
                #[trigger] entries.0[i],
            ) by {
                if i > 0 {
                    assert(entries.0[i] == rest.0[i - 1]);
                }
            }
            lemma_stands_split(input, at, entry_bytes(first.0), entries_bytes(rest.0));
        }
    }
}

/// The five fixed fields of an append stand where they are read.
proof fn lemma_append(input: Seq<u8>, at: int, request: AppendView)
    requires
        request.entries.len() <= MAX_ENTRIES,
        all_fit(request.entries),
    ensures
        stands_at(input, at, append_bytes(request)) ==> append_at(input, at) == Ok::<
            (KindView, int),
            CodecError,
        >((KindView::AppendReq(request), at + append_bytes(request).len())),
{
    let a = le64(request.prev_index.0);
    let b = le64(request.prev_term.0);
    let c = le64(request.leader_commit.0);
    let d = le64(request.read_round);
    let e = le32(request.entries.len() as u32);
    let f = entries_bytes(request.entries);
    lemma_le_len(request.prev_index.0 as nat, 8);
    lemma_le_len(request.prev_term.0 as nat, 8);
    lemma_le_len(request.leader_commit.0 as nat, 8);
    lemma_le_len(request.read_round as nat, 8);
    lemma_le_len(request.entries.len(), 4);
    lemma_stands_split(input, at, a + b + c + d + e, f);
    lemma_stands_split(input, at, a + b + c + d, e);
    lemma_stands_split(input, at, a + b + c, d);
    lemma_stands_split(input, at, a + b, c);
    lemma_stands_split(input, at, a, b);
    lemma_u64_at(input, at);
    lemma_u64_at(input, at + 8);
    lemma_u64_at(input, at + 16);
    lemma_u64_at(input, at + 24);
    lemma_u32_at(input, at + 32);
    lemma_entries(input, at + 36, request.entries);
}

proof fn lemma_append_read(input: Seq<u8>, at: int)
    ensures
        append_at(input, at) matches Ok(found) ==> {
            &&& kind_error(2, found.0) is None
            &&& found.0 matches KindView::AppendReq(request) && {
                &&& found.1 == at + append_bytes(request).len()
                &&& stands_at(input, at, append_bytes(request))
            }
        },
{
    if let Ok(found) = append_at(input, at) {
        let request = found.0->AppendReq_0;
        let count = u32_at(input, at + 32)->0;
        lemma_entries_read(input, at + 36, count as nat);
        let a = le64(request.prev_index.0);
        let b = le64(request.prev_term.0);
        let c = le64(request.leader_commit.0);
        let d = le64(request.read_round);
        let e = le32(request.entries.len() as u32);
        let f = entries_bytes(request.entries);
        lemma_le_len(request.prev_index.0 as nat, 8);
        lemma_le_len(request.prev_term.0 as nat, 8);
        lemma_le_len(request.leader_commit.0 as nat, 8);
        lemma_le_len(request.read_round as nat, 8);
        lemma_le_len(request.entries.len(), 4);
        lemma_u64_at(input, at);
        lemma_u64_at(input, at + 8);
        lemma_u64_at(input, at + 16);
        lemma_u64_at(input, at + 24);
        lemma_u32_at(input, at + 32);
        assert(stands_at(input, at, a));
        assert(stands_at(input, at + 32, e));
        lemma_stands_split(input, at, a, b);
        lemma_stands_split(input, at, a + b, c);
        lemma_stands_split(input, at, a + b + c, d);
        lemma_stands_split(input, at, a + b + c + d, e);
        lemma_stands_split(input, at, a + b + c + d + e, f);
    }
}

/// An append response stands exactly where it is read.
proof fn lemma_response(input: Seq<u8>, at: int, response: AppendResponse)
    requires
        kind_error(2, KindView::AppendResp(response)) is None,
    ensures
        response_bytes(response).len() == 34,
        stands_at(input, at, response_bytes(response)) <==> response_at(input, at) == Ok::<
            (KindView, int),
            CodecError,
        >((KindView::AppendResp(response), at + 34)),
{
    let term = match response.conflict_term {
        Some(term) => term.0,
        None => 0,
    };
    let has = response.conflict_term is Some;
    let a = flag_bytes(response.success);
    let b = le64(response.match_index.0);
    let c = flag_bytes(has);
    let d = le64(term);
    let e = le64(response.conflict_index.0);
    let f = le64(response.read_round);
    lemma_le_len(response.match_index.0 as nat, 8);
    lemma_le_len(term as nat, 8);
    lemma_le_len(response.conflict_index.0 as nat, 8);
    lemma_le_len(response.read_round as nat, 8);
    lemma_stands_split(input, at, a + b + c + d + e, f);
    lemma_stands_split(input, at, a + b + c + d, e);
    lemma_stands_split(input, at, a + b + c, d);
    lemma_stands_split(input, at, a + b, c);
    lemma_stands_split(input, at, a, b);
    lemma_flag(input, at, response.success);
    lemma_u64_at(input, at + 1);
    lemma_flag(input, at + 9, has);
    lemma_u64_at(input, at + 10);
    lemma_u64_at(input, at + 18);
    lemma_u64_at(input, at + 26);
    if stands_at(input, at, response_bytes(response)) {
        assert(stands_at(input, at + 18, e));
        assert(stands_at(input, at + 26, f));
    }
    if let Ok(found) = response_at(input, at) {
        if found.0 == KindView::AppendResp(response) {
            assert(stands_at(input, at + 10, d));
            assert(stands_at(input, at + 18, e));
            assert(stands_at(input, at + 26, f));
        }
    }
}

proof fn lemma_chunk(input: Seq<u8>, at: int, kind: KindView)
    requires
        kind is SnapshotChunk,
        kind_error(2, kind) is None,
    ensures
        stands_at(input, at, kind_bytes(kind)) <==> u8_at(input, at) == Some(7u8) && chunk_at(
            input,
            at + 1,
        ) == Ok::<(KindView, int), CodecError>((kind, at + kind_bytes(kind).len())),
{
    if let KindView::SnapshotChunk {
        transfer_id,
        last_included_index,
        last_included_term,
        total_len,
        snapshot_crc32c,
        offset,
        data,
        done,
    } = kind {
        let t = seq![7u8];
        let a = le64(transfer_id);
        let b = le64(last_included_index.0);
        let c = le64(last_included_term.0);
        let d = le64(total_len);
        let e = le32(snapshot_crc32c);
        let f = le64(offset);
        let g = flag_bytes(done);
        let h = le32(crc_of(data));
        let i = blob_bytes(data);
        lemma_le_len(transfer_id as nat, 8);
        lemma_le_len(last_included_index.0 as nat, 8);
        lemma_le_len(last_included_term.0 as nat, 8);
        lemma_le_len(total_len as nat, 8);
        lemma_le_len(snapshot_crc32c as nat, 4);
        lemma_le_len(offset as nat, 8);
        lemma_le_len(crc_of(data) as nat, 4);
        lemma_stands_split(input, at, t + a + b + c + d + e + f + g + h, i);
        lemma_stands_split(input, at, t + a + b + c + d + e + f + g, h);
        lemma_stands_split(input, at, t + a + b + c + d + e + f, g);
        lemma_stands_split(input, at, t + a + b + c + d + e, f);
        lemma_stands_split(input, at, t + a + b + c + d, e);
        lemma_stands_split(input, at, t + a + b + c, d);
        lemma_stands_split(input, at, t + a + b, c);
        lemma_stands_split(input, at, t + a, b);
        lemma_stands_split(input, at, t, a);
        lemma_stands_byte(input, at, 7);
        lemma_u64_at(input, at + 1);
        lemma_u64_at(input, at + 9);
        lemma_u64_at(input, at + 17);
        lemma_u64_at(input, at + 25);
        lemma_u32_at(input, at + 33);
        lemma_u64_at(input, at + 37);
        lemma_flag(input, at + 45, done);
        lemma_u32_at(input, at + 46);
        lemma_blob(input, at + 50, data);
        if stands_at(input, at, kind_bytes(kind)) {
            assert(stands_at(input, at + 1, a));
            assert(stands_at(input, at + 37, f));
        }
        if u8_at(input, at) == Some(7u8) && chunk_at(input, at + 1) == Ok::<
            (KindView, int),
            CodecError,
        >((kind, at + kind_bytes(kind).len())) {
            assert(stands_at(input, at + 1, a));
            assert(stands_at(input, at + 9, b));
            assert(stands_at(input, at + 17, c));
            assert(stands_at(input, at + 25, d));
            assert(stands_at(input, at + 33, e));
            assert(stands_at(input, at + 37, f));
            assert(stands_at(input, at + 46, h));
        }
    }
}

proof fn lemma_ack(input: Seq<u8>, at: int, kind: KindView)
    requires
        kind is SnapshotAck,
        kind_error(2, kind) is None,
    ensures
        stands_at(input, at, kind_bytes(kind)) <==> u8_at(input, at) == Some(8u8) && ack_at(
            input,
            at + 1,
        ) == Ok::<(KindView, int), CodecError>((kind, at + kind_bytes(kind).len())),
{
    if let KindView::SnapshotAck { transfer_id, next_offset, accepted, reason } = kind {
        let code = match reason {
            Some(reason) => reason_code(reason),
            None => 0u8,
        };
        assert(reason_of(code) == reason);
        let t = seq![8u8];
        let a = le64(transfer_id);
        let b = le64(next_offset);
        let c = flag_bytes(accepted);
        let d = seq![code];
        lemma_le_len(transfer_id as nat, 8);
        lemma_le_len(next_offset as nat, 8);
        lemma_stands_split(input, at, t + a + b + c, d);
        lemma_stands_split(input, at, t + a + b, c);
        lemma_stands_split(input, at, t + a, b);
        lemma_stands_split(input, at, t, a);
        lemma_stands_byte(input, at, 8);
        lemma_u64_at(input, at + 1);
        lemma_u64_at(input, at + 9);
        lemma_flag(input, at + 17, accepted);
        lemma_stands_byte(input, at + 18, code);
        if stands_at(input, at, kind_bytes(kind)) {
            assert(stands_at(input, at + 1, a));
            assert(stands_at(input, at + 9, b));
        }
        if u8_at(input, at) == Some(8u8) && ack_at(input, at + 1) == Ok::<
            (KindView, int),
            CodecError,
        >((kind, at + kind_bytes(kind).len())) {
            assert(stands_at(input, at + 1, a));
            assert(stands_at(input, at + 9, b));
        }
    }
}

/// The contents that stand at a position are the contents that are read there.
proof fn lemma_kind_stands(input: Seq<u8>, at: int, version: u16, kind: KindView)
    requires
        kind_error(version, kind) is None,
        stands_at(input, at, kind_bytes(kind)),
    ensures
        kind_at(input, at, version) == Ok::<(KindView, int), CodecError>(
            (kind, at + kind_bytes(kind).len()),
        ),
{
    match kind {
        KindView::PreVoteReq { last_index, last_term } => {
            lemma_pair(input, at, 1, last_index.0, last_term.0);
        },
        KindView::PreVoteResp { granted } => {
            lemma_stands_split(input, at, seq![2u8], flag_bytes(granted));
            lemma_stands_byte(input, at, 2);
            lemma_flag(input, at + 1, granted);
        },
        KindView::VoteReq { last_index, last_term } => {
            lemma_pair(input, at, 3, last_index.0, last_term.0);
        },
        KindView::VoteResp { granted } => {
            lemma_stands_split(input, at, seq![4u8], flag_bytes(granted));
            lemma_stands_byte(input, at, 4);
            lemma_flag(input, at + 1, granted);
        },
        KindView::AppendReq(request) => {
            lemma_stands_split(input, at, seq![5u8], append_bytes(request));
            lemma_stands_byte(input, at, 5);
            assert(all_fit(request.entries));
            lemma_append(input, at + 1, request);
        },
        KindView::AppendResp(response) => {
            lemma_stands_split(input, at, seq![6u8], response_bytes(response));
            lemma_stands_byte(input, at, 6);
            lemma_response(input, at + 1, response);
        },
        KindView::SnapshotChunk { .. } => {
            lemma_chunk(input, at, kind);
        },
        KindView::SnapshotAck { .. } => {
            lemma_ack(input, at, kind);
        },
        KindView::TimeoutNow { intent_index } => {
            lemma_stands_split(input, at, seq![9u8], le64(intent_index.0));
            lemma_stands_byte(input, at, 9);
            lemma_u64_at(input, at + 1);
            lemma_le_len(intent_index.0 as nat, 8);
        },
        KindView::FollowerReadRequest { request_id, command_hash } => {
            lemma_pair(input, at, 10, request_id, command_hash);
        },
        KindView::FollowerReadGrant { request_id, command_hash, read_index, read_time } => {
            let head = seq![11u8] + le64(request_id) + le64(command_hash);
            lemma_le_len(request_id as nat, 8);
            lemma_le_len(command_hash as nat, 8);
            lemma_le_len(read_index.0 as nat, 8);
            lemma_le_len(read_time.0 as nat, 8);
            lemma_stands_split(input, at, head + le64(read_index.0), le64(read_time.0));
            lemma_stands_split(input, at, head, le64(read_index.0));
            lemma_pair(input, at, 11, request_id, command_hash);
            lemma_u64_at(input, at + 17);
            lemma_u64_at(input, at + 25);
        },
    }
}

/// A type byte and two numbers stand exactly where they are read.
proof fn lemma_pair(input: Seq<u8>, at: int, tag: u8, first: u64, second: u64)
    ensures
        (seq![tag] + le64(first) + le64(second)).len() == 17,
        stands_at(input, at, seq![tag] + le64(first) + le64(second)) <==> u8_at(input, at) == Some(
            tag,
        ) && u64_at(input, at + 1) == Some(first) && u64_at(input, at + 9) == Some(second),
{
    lemma_stands_split(input, at, seq![tag] + le64(first), le64(second));
    lemma_stands_split(input, at, seq![tag], le64(first));
    lemma_stands_byte(input, at, tag);
    lemma_u64_at(input, at + 1);
    lemma_u64_at(input, at + 9);
    lemma_le_len(first as nat, 8);
    lemma_le_len(second as nat, 8);
}

/// The contents that are read at a position stand there and could be written.
proof fn lemma_kind_read(input: Seq<u8>, at: int, version: u16)
    ensures
        kind_at(input, at, version) matches Ok(found) ==> {
            &&& kind_error(version, found.0) is None
            &&& stands_at(input, at, kind_bytes(found.0))
            &&& found.1 == at + kind_bytes(found.0).len()
        },
{
    if let Ok(found) = kind_at(input, at, version) {
        let kind = found.0;
        match kind {
            KindView::PreVoteReq { last_index, last_term } => {
                lemma_pair(input, at, 1, last_index.0, last_term.0);
            },
            KindView::PreVoteResp { granted } => {
                lemma_stands_split(input, at, seq![2u8], flag_bytes(granted));
                lemma_stands_byte(input, at, 2);
                lemma_flag(input, at + 1, granted);
            },
            KindView::VoteReq { last_index, last_term } => {
                lemma_pair(input, at, 3, last_index.0, last_term.0);
            },
            KindView::VoteResp { granted } => {
                lemma_stands_split(input, at, seq![4u8], flag_bytes(granted));
                lemma_stands_byte(input, at, 4);
                lemma_flag(input, at + 1, granted);
            },
            KindView::AppendReq(request) => {
                lemma_append_read(input, at + 1);
                lemma_stands_split(input, at, seq![5u8], append_bytes(request));
                lemma_stands_byte(input, at, 5);
            },
            KindView::AppendResp(response) => {
                lemma_stands_split(input, at, seq![6u8], response_bytes(response));
                lemma_stands_byte(input, at, 6);
                lemma_response(input, at + 1, response);
            },
            KindView::SnapshotChunk { data, .. } => {
                lemma_blob_read(input, at + 50);
                lemma_chunk_len(kind);
                lemma_chunk(input, at, kind);
            },
            KindView::SnapshotAck { transfer_id, next_offset, accepted, reason } => {
                lemma_le_len(transfer_id as nat, 8);
                lemma_le_len(next_offset as nat, 8);
                lemma_ack(input, at, kind);
            },
            KindView::TimeoutNow { intent_index } => {
                lemma_stands_split(input, at, seq![9u8], le64(intent_index.0));
                lemma_stands_byte(input, at, 9);
                lemma_u64_at(input, at + 1);
                lemma_le_len(intent_index.0 as nat, 8);
            },
            KindView::FollowerReadRequest { request_id, command_hash } => {
                lemma_pair(input, at, 10, request_id, command_hash);
            },
            KindView::FollowerReadGrant { request_id, command_hash, read_index, read_time } => {
                let head = seq![11u8] + le64(request_id) + le64(command_hash);
                lemma_le_len(read_index.0 as nat, 8);
                lemma_le_len(read_time.0 as nat, 8);
                lemma_pair(input, at, 11, request_id, command_hash);
                lemma_stands_split(input, at, head, le64(read_index.0));
                lemma_stands_split(input, at, head + le64(read_index.0), le64(read_time.0));
                lemma_u64_at(input, at + 17);
                lemma_u64_at(input, at + 25);
            },
        }
    }
}

proof fn lemma_chunk_len(kind: KindView)
    ensures
        kind matches KindView::SnapshotChunk { data, .. } ==> kind_bytes(kind).len() == 54
            + data.len(),
{
    if let KindView::SnapshotChunk {
        transfer_id,
        last_included_index,
        last_included_term,
        total_len,
        snapshot_crc32c,
        offset,
        data,
        done,
    } = kind {
        lemma_le_len(transfer_id as nat, 8);
        lemma_le_len(last_included_index.0 as nat, 8);
        lemma_le_len(last_included_term.0 as nat, 8);
        lemma_le_len(total_len as nat, 8);
        lemma_le_len(snapshot_crc32c as nat, 4);
        lemma_le_len(offset as nat, 8);
        lemma_le_len(crc_of(data) as nat, 4);
        lemma_le_len((data.len() as u32) as nat, 4);
    }
}

/// The fixed part of a message stands exactly where its fields are read.
proof fn lemma_head(input: Seq<u8>, message: MessageView)
    ensures
        ({
            let head = le32(CCRP_MAGIC) + le16(CCRP_FORMAT_VERSION) + le16(message.proto_version)
                + le64(message.from.0) + le64(message.to.0) + le64(message.term.0);
            &&& head.len() == 32
            &&& stands_at(input, 0, head) <==> {
                &&& u32_at(input, 0) == Some(CCRP_MAGIC)
                &&& u16_at(input, 4) == Some(CCRP_FORMAT_VERSION)
                &&& u16_at(input, 6) == Some(message.proto_version)
                &&& u64_at(input, 8) == Some(message.from.0)
                &&& u64_at(input, 16) == Some(message.to.0)
                &&& u64_at(input, 24) == Some(message.term.0)
            }
        }),
{
    let a = le32(CCRP_MAGIC);
    let b = le16(CCRP_FORMAT_VERSION);
    let c = le16(message.proto_version);
    let d = le64(message.from.0);
    let e = le64(message.to.0);
    let f = le64(message.term.0);
    lemma_le_len(CCRP_MAGIC as nat, 4);
    lemma_le_len(CCRP_FORMAT_VERSION as nat, 2);
    lemma_le_len(message.proto_version as nat, 2);
    lemma_le_len(message.from.0 as nat, 8);
    lemma_le_len(message.to.0 as nat, 8);
    lemma_le_len(message.term.0 as nat, 8);
    lemma_stands_split(input, 0, a + b + c + d + e, f);
    lemma_stands_split(input, 0, a + b + c + d, e);
    lemma_stands_split(input, 0, a + b + c, d);
    lemma_stands_split(input, 0, a + b, c);
    lemma_stands_split(input, 0, a, b);
    lemma_u32_at(input, 0);
    lemma_u16_at(input, 4);
    lemma_u16_at(input, 6);
    lemma_u64_at(input, 8);
    lemma_u64_at(input, 16);
    lemma_u64_at(input, 24);
    assert(stands_at(input, 0, a) <==> u32_at(input, 0) == Some(CCRP_MAGIC));
    assert(stands_at(input, 4, b) <==> u16_at(input, 4) == Some(CCRP_FORMAT_VERSION));
    assert(stands_at(input, 6, c) <==> u16_at(input, 6) == Some(message.proto_version));
    assert(stands_at(input, 8, d) <==> u64_at(input, 8) == Some(message.from.0));
    assert(stands_at(input, 16, e) <==> u64_at(input, 16) == Some(message.to.0));
    assert(stands_at(input, 24, f) <==> u64_at(input, 24) == Some(message.term.0));
}

/// Every message that can be written is read back from its bytes.
pub proof fn law_message_reads_back(message: MessageView)
    requires
        encode_error(message) is None,
    ensures
        message_of(message_bytes(message)) == Ok::<MessageView, CodecError>(message),
{
    let input = message_bytes(message);
    let head = le32(CCRP_MAGIC) + le16(CCRP_FORMAT_VERSION) + le16(message.proto_version) + le64(
        message.from.0,
    ) + le64(message.to.0) + le64(message.term.0);
    assert(input.subrange(0, input.len() as int) =~= input);
    lemma_stands_split(input, 0, head, kind_bytes(message.kind));
    lemma_head(input, message);
    lemma_kind_stands(input, 32, message.proto_version, message.kind);
}

/// Bytes that are read as a message are its canonical bytes: no message has
/// two forms, and whatever is read could have been written.
pub proof fn law_message_bytes_are_canonical(input: Seq<u8>)
    ensures
        message_of(input) matches Ok(message) ==> {
            &&& encode_error(message) is None
            &&& message_bytes(message) == input
        },
{
    if let Ok(message) = message_of(input) {
        let head = le32(CCRP_MAGIC) + le16(CCRP_FORMAT_VERSION) + le16(message.proto_version)
            + le64(message.from.0) + le64(message.to.0) + le64(message.term.0);
        lemma_head(input, message);
        lemma_kind_read(input, 32, message.proto_version);
        lemma_stands_split(input, 0, head, kind_bytes(message.kind));
        assert(input.subrange(0, input.len() as int) =~= input);
    }
}

} // verus!
