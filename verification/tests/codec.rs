//! The peer message codec.
use ccdb::codec::{decode, encode, CodecError};
use ccdb::crc::crc32c;
use ccdb::ids::{LogIndex, NodeId, Term, Time};
use ccdb::raft_types::{
    AppendRequest, AppendResponse, Entry, EntryKind, Message, MessageKind, SnapshotRejectReason, PROTOCOL_VERSION,
    SEMANTIC_VERSION_V3,
};
use ccdb::wire::DecodeError;

fn message(kind: MessageKind) -> Message {
    Message {
        proto_version: PROTOCOL_VERSION,
        from: NodeId::new(1),
        to: NodeId::new(2),
        term: Term::new(3),
        kind,
    }
}
#[test]
fn golden_ccrp_vectors() {
    let messages = [
        message(MessageKind::PreVoteReq {
            last_index: LogIndex::new(2),
            last_term: Term::new(1),
        }),
        message(MessageKind::PreVoteResp { granted: true }),
        message(MessageKind::VoteReq {
            last_index: LogIndex::new(2),
            last_term: Term::new(1),
        }),
        message(MessageKind::VoteResp { granted: false }),
        message(MessageKind::AppendReq(AppendRequest {
            prev_index: LogIndex::new(0),
            prev_term: Term::new(0),
            entries: Vec::new(),
            leader_commit: LogIndex::new(0),
            read_round: 4,
        })),
        message(MessageKind::AppendResp(AppendResponse {
            success: true,
            match_index: LogIndex::new(2),
            conflict_term: None,
            conflict_index: LogIndex::new(0),
            read_round: 4,
        })),
        message(MessageKind::SnapshotChunk {
            transfer_id: 1,
            last_included_index: LogIndex::new(1),
            last_included_term: Term::new(1),
            total_len: 1,
            snapshot_crc32c: crc32c(&[7]),
            offset: 0,
            data: vec![7],
            done: true,
        }),
        message(MessageKind::SnapshotAck {
            transfer_id: 1,
            next_offset: 1,
            accepted: true,
            reason: None,
        }),
        message(MessageKind::TimeoutNow {
            intent_index: LogIndex::new(1),
        }),
    ];
    for value in messages {
        assert_eq!(
            decode(&encode(&value).expect("encode")).expect("decode"),
            value
        );
    }
}
#[test]
fn trap_ccrp_preserves_read_round() {
    let value = message(MessageKind::AppendReq(AppendRequest {
        prev_index: LogIndex::new(0),
        prev_term: Term::new(0),
        entries: Vec::new(),
        leader_commit: LogIndex::new(0),
        read_round: 55,
    }));
    assert_eq!(
        decode(&encode(&value).expect("encode")).expect("decode"),
        value
    );
}
#[test]
fn trap_timeout_now_codec_requires_nonzero_intent() {
    assert!(
        encode(&message(MessageKind::TimeoutNow {
            intent_index: LogIndex::new(0)
        }))
        .is_err()
    );
}

#[test]
fn trap_follower_read_tags_require_semantic_v3() {
    let request = Message {
        proto_version: SEMANTIC_VERSION_V3,
        from: NodeId::new(1),
        to: NodeId::new(2),
        term: Term::new(3),
        kind: MessageKind::FollowerReadRequest {
            request_id: 9,
            command_hash: 0xfeed,
        },
    };
    let grant = Message {
        kind: MessageKind::FollowerReadGrant {
            request_id: 9,
            command_hash: 0xfeed,
            read_index: LogIndex::new(7),
            read_time: Time::from_nanos(8),
        },
        ..request.clone()
    };
    for message in [request, grant] {
        assert_eq!(
            decode(&encode(&message).expect("v3 encode")).expect("v3 decode"),
            message
        );
    }
    let invalid = Message {
        proto_version: PROTOCOL_VERSION,
        from: NodeId::new(1),
        to: NodeId::new(2),
        term: Term::new(3),
        kind: MessageKind::FollowerReadRequest {
            request_id: 1,
            command_hash: 1,
        },
    };
    assert!(encode(&invalid).is_err());
}

#[test]
fn trap_snapshot_chunk_done_and_ack_offsets_are_canonical() {
    let snapshot = message(MessageKind::SnapshotChunk {
        transfer_id: 9,
        last_included_index: LogIndex::new(4),
        last_included_term: Term::new(2),
        total_len: 2,
        snapshot_crc32c: crc32c(&[7, 8]),
        offset: 0,
        data: vec![7],
        done: false,
    });
    assert_eq!(
        decode(&encode(&snapshot).expect("encode")).expect("decode"),
        snapshot
    );

    let overshoot = message(MessageKind::SnapshotChunk {
        transfer_id: 9,
        last_included_index: LogIndex::new(4),
        last_included_term: Term::new(2),
        total_len: 1,
        snapshot_crc32c: crc32c(&[7, 8]),
        offset: 0,
        data: vec![7, 8],
        done: false,
    });
    assert!(encode(&overshoot).is_err());

    let rejected = message(MessageKind::SnapshotAck {
        transfer_id: 9,
        next_offset: 1,
        accepted: false,
        reason: Some(SnapshotRejectReason::Gap),
    });
    assert_eq!(
        decode(&encode(&rejected).expect("encode")).expect("decode"),
        rejected
    );
    let invalid_ack = message(MessageKind::SnapshotAck {
        transfer_id: 9,
        next_offset: 1,
        accepted: true,
        reason: Some(SnapshotRejectReason::Gap),
    });
    assert!(encode(&invalid_ack).is_err());
}

#[test]
fn trap_ccrp_count_is_bounded_by_remaining_bytes() {
    let mut encoded = encode(&message(MessageKind::AppendReq(AppendRequest {
        prev_index: LogIndex::new(0),
        prev_term: Term::new(0),
        entries: Vec::new(),
        leader_commit: LogIndex::new(0),
        read_round: 0,
    })))
    .expect("append frame");
    // CCRP fixed header + semantic/from/to/term/tag + append prefix.
    encoded[65..69].copy_from_slice(&1_u32.to_le_bytes());
    assert_eq!(decode(&encoded), Err(CodecError::TooLarge("entry count")));
}

#[test]
fn trap_ccrp_rejects_noncanonical_options() {
    let mut encoded = encode(&message(MessageKind::AppendResp(AppendResponse {
        success: true,
        match_index: LogIndex::new(2),
        conflict_term: None,
        conflict_index: LogIndex::new(0),
        read_round: 0,
    })))
    .expect("append response");
    // A successful response must encode an absent conflict term as both
    // flag=0 and a zero value.
    encoded[42] = 1;
    encoded[43..51].copy_from_slice(&3_u64.to_le_bytes());
    assert_eq!(
        decode(&encoded),
        Err(CodecError::Invalid("successful append conflict"))
    );
}

#[test]
fn trap_unknown_message_tag_is_a_typed_error() {
    let mut encoded =
        encode(&message(MessageKind::VoteResp { granted: true })).expect("vote response");
    encoded[32] = 99;
    assert!(matches!(
        decode(&encoded),
        Err(CodecError::Decode(DecodeError::InvalidTag { tag: 99, .. }))
    ));
}

fn append_of(kind: EntryKind, payload: &[u8]) -> Message {
    message(MessageKind::AppendReq(AppendRequest {
        prev_index: LogIndex::new(0),
        prev_term: Term::new(0),
        entries: vec![Entry {
            term: Term::new(3),
            index: LogIndex::new(1),
            kind,
            payload: payload.to_vec(),
        }],
        leader_commit: LogIndex::new(0),
        read_round: 0,
    }))
}

#[test]
fn entries_of_every_kind_cross_the_wire() {
    for (kind, tag) in [
        (EntryKind::App, 1),
        (EntryKind::Noop, 2),
        (EntryKind::Config, 3),
        (EntryKind::AppV3, 4),
        (EntryKind::ConfigV3, 5),
    ] {
        for payload in [&b""[..], &b"payload"[..]] {
            let value = append_of(kind, payload);
            let bytes = encode(&value).expect("encode");
            assert_eq!(bytes[33 + 36 + 16], tag);
            assert_eq!(decode(&bytes).expect("decode"), value);
        }
    }
}

#[test]
fn entries_of_unknown_kinds_are_refused() {
    for tag in [0, 6, 255] {
        let mut bytes = encode(&append_of(EntryKind::App, b"")).expect("encode");
        bytes[33 + 36 + 16] = tag;
        assert_eq!(
            decode(&bytes),
            Err(CodecError::Decode(DecodeError::InvalidTag {
                offset: 33 + 36 + 16,
                tag
            }))
        );
    }
}
