//! The Raft node: elections, replication, membership, transfers and snapshots.
use ccdb::crc::crc32c;
use ccdb::ids::{ClientId, LogIndex, NodeId, Seed, Term, Time};
use ccdb::membership::{
    ConfigEnvelope, ConfigOperation, MembershipState, PeerAddress, SessionKey, SessionNamespace,
    TransferResult, ATOMIC_BATCH_FEATURE,
};
use ccdb::node_map::NodeMap;
use ccdb::node_set::NodeSet;
use ccdb::raft_node::RaftNode;
use ccdb::raft_types::{
    AppendRequest, AppendResponse, Entry, EntryKind, Message, MessageKind, RaftConfig, RaftEffect,
    RaftError, Role, SnapshotRejectReason, TimerKind, DEFAULT_ELECTION_MIN,
    DEFAULT_LEADER_TRANSFER_TIMEOUT, PROTOCOL_VERSION, SNAPSHOT_CHUNK_BYTES,
};

fn voters() -> NodeSet {
    NodeSet::from_ids(&[NodeId::new(1), NodeId::new(2), NodeId::new(3)])
}

fn node(id: u64) -> RaftNode {
    RaftNode::new(
        NodeId::new(id),
        voters(),
        Seed::new(id),
        RaftConfig::default(),
    )
}

#[test]
fn trap_single_voter_commits_local_noop_and_proposal_after_persistence() {
    let voters = NodeSet::from_ids(&[NodeId::new(1)]);
    let mut leader = RaftNode::new(NodeId::new(1), voters, Seed::new(1), RaftConfig::default());
    leader.role = Role::Leader;
    leader.leader_id = Some(NodeId::new(1));
    leader.hard_state.term = Term::new(1);

    let election = leader.become_leader();
    assert_eq!(leader.commit_index, LogIndex::new(1));
    assert!(matches!(
        election.first(),
        Some(RaftEffect::PersistEntries(_))
    ));
    assert!(matches!(
        election.get(1),
        Some(RaftEffect::Apply(entries)) if entries[0].kind == EntryKind::Noop
    ));

    let proposal = leader
        .propose(b"write".to_vec())
        .expect("single voter proposal");
    assert_eq!(leader.commit_index, LogIndex::new(2));
    assert!(matches!(
        proposal.first(),
        Some(RaftEffect::PersistEntries(_))
    ));
    assert!(matches!(
        proposal.get(1),
        Some(RaftEffect::Apply(entries)) if entries[0].kind == EntryKind::App
    ));
}

#[test]
fn pre_vote_then_vote_persists_before_grant() {
    let mut candidate = node(1);
    let effects = candidate.on_timer(Time::from_nanos(1_000_000_000), TimerKind::Election);
    assert!(effects.iter().any(|effect| matches!(
        effect,
        RaftEffect::Send(Message {
            kind: MessageKind::PreVoteReq { .. },
            ..
        })
    )));
    let mut follower = node(2);
    follower.hard_state.term = Term::new(1);
    let effects = follower.on_message(Message {
        proto_version: PROTOCOL_VERSION,
        from: NodeId::new(1),
        to: NodeId::new(2),
        term: Term::new(1),
        kind: MessageKind::VoteReq {
            last_index: LogIndex::new(0),
            last_term: Term::new(0),
        },
    });
    assert!(matches!(effects[0], RaftEffect::PersistHard(_)));
    assert!(matches!(
        effects[1],
        RaftEffect::Send(Message {
            kind: MessageKind::VoteResp { granted: true },
            ..
        })
    ));
}

#[test]
fn messages_keep_terms_and_votes_up_to_the_last_term() {
    let ask = |from: u64, term: u64, kind: MessageKind| Message {
        proto_version: PROTOCOL_VERSION,
        from: NodeId::new(from),
        to: NodeId::new(2),
        term: Term::new(term),
        kind,
    };
    let vote = || MessageKind::VoteReq {
        last_index: LogIndex::new(0),
        last_term: Term::new(0),
    };
    let last = u64::MAX - 1;
    let mut follower = node(2);
    let effects = follower.on_message(ask(1, last, vote()));
    assert_eq!(follower.hard_state.term, Term::new(last));
    assert_eq!(follower.hard_state.voted_for, Some(NodeId::new(1)));
    let written: Vec<usize> = (0..effects.len())
        .filter(|at| matches!(effects[*at], RaftEffect::PersistHard(_)))
        .collect();
    let sent = effects
        .iter()
        .position(|effect| matches!(effect, RaftEffect::Send(_)))
        .expect("an answer");
    assert!(written.iter().all(|at| *at < sent));
    assert_eq!(
        effects[*written.last().expect("a write")],
        RaftEffect::PersistHard(follower.hard_state)
    );
    follower.on_message(ask(3, last, vote()));
    assert_eq!(follower.hard_state.voted_for, Some(NodeId::new(1)));
    let before = follower.hard_state;
    follower.on_message(ask(
        3,
        last,
        MessageKind::PreVoteReq {
            last_index: LogIndex::new(0),
            last_term: Term::new(0),
        },
    ));
    assert_eq!(follower.hard_state, before);
}

#[test]
fn trap_revote_after_crash_is_blocked_by_persisted_vote() {
    let mut follower = node(2);
    follower.hard_state.term = Term::new(1);
    follower.hard_state.voted_for = Some(NodeId::new(1));
    let effects = follower.on_message(Message {
        proto_version: PROTOCOL_VERSION,
        from: NodeId::new(3),
        to: NodeId::new(2),
        term: Term::new(1),
        kind: MessageKind::VoteReq {
            last_index: LogIndex::new(0),
            last_term: Term::new(0),
        },
    });
    assert!(matches!(
        effects.last(),
        Some(RaftEffect::Send(Message {
            kind: MessageKind::VoteResp { granted: false },
            ..
        }))
    ));
}

#[test]
fn trap_candidate_same_term_append_steps_down() {
    let mut follower = node(2);
    follower.role = Role::Candidate;
    follower.hard_state.term = Term::new(3);
    let effects = follower.on_message(Message {
        proto_version: PROTOCOL_VERSION,
        from: NodeId::new(1),
        to: NodeId::new(2),
        term: Term::new(3),
        kind: MessageKind::AppendReq(AppendRequest {
            prev_index: LogIndex::new(0),
            prev_term: Term::new(0),
            entries: Vec::new(),
            leader_commit: LogIndex::new(0),
            read_round: 0,
        }),
    });
    assert_eq!(follower.role, Role::Follower);
    assert!(
        effects
            .iter()
            .any(|effect| matches!(effect, RaftEffect::Send(_)))
    );
}

#[test]
fn leader_appends_noop_and_read_waits_for_commit() {
    let mut leader = node(1);
    leader.role = Role::Candidate;
    leader.hard_state.term = Term::new(1);
    leader.votes = NodeSet::from_ids(&[NodeId::new(1), NodeId::new(2)]);
    let effects = leader.on_message(Message {
        proto_version: PROTOCOL_VERSION,
        from: NodeId::new(2),
        to: NodeId::new(1),
        term: Term::new(1),
        kind: MessageKind::VoteResp { granted: true },
    });
    assert!(effects.iter().any(|effect| matches!(effect, RaftEffect::PersistEntries(entries) if entries[0].kind == EntryKind::Noop)));
    assert!(matches!(
        leader.request_read(),
        Err(RaftError::ReadBarrierNotReady)
    ));
    leader.commit_index = leader.last_index();
    assert!(leader.request_read().is_ok());
}

#[test]
fn trap_readindex_noop() {
    let mut leader = node(1);
    leader.role = Role::Leader;
    leader.hard_state.term = Term::new(1);
    assert_eq!(leader.request_read(), Err(RaftError::ReadBarrierNotReady));

    leader.log.push(Entry {
        term: Term::new(1),
        index: LogIndex::new(1),
        kind: EntryKind::Noop,
        payload: Vec::new(),
    });
    leader.commit_index = LogIndex::new(1);
    leader.applied_index = LogIndex::new(1);
    let effects = leader.request_read().expect("read barrier");
    assert!(effects.iter().any(|effect| matches!(
        effect,
        RaftEffect::ReadBarrier { index } if *index == LogIndex::new(1)
    )));
    assert!(
        !effects
            .iter()
            .any(|effect| matches!(effect, RaftEffect::ReadBarrierReady { .. }))
    );
    // An ack that was already in flight when the read index was fixed
    // carries the previous round and proves nothing about leadership now.
    let stale = leader.on_message(Message {
        proto_version: PROTOCOL_VERSION,
        from: NodeId::new(2),
        to: NodeId::new(1),
        term: Term::new(1),
        kind: MessageKind::AppendResp(AppendResponse {
            success: true,
            match_index: LogIndex::new(1),
            conflict_term: None,
            conflict_index: LogIndex::new(0),
            read_round: 0,
        }),
    });
    assert!(
        !stale
            .iter()
            .any(|effect| matches!(effect, RaftEffect::ReadBarrierReady { .. })),
        "a pre-read ack must not confirm the read quorum"
    );

    let effects = leader.on_message(Message {
        proto_version: PROTOCOL_VERSION,
        from: NodeId::new(2),
        to: NodeId::new(1),
        term: Term::new(1),
        kind: MessageKind::AppendResp(AppendResponse {
            success: true,
            match_index: LogIndex::new(1),
            conflict_term: None,
            conflict_index: LogIndex::new(0),
            read_round: 1,
        }),
    });
    assert!(effects.iter().any(|effect| matches!(
        effect,
        RaftEffect::ReadBarrierReady { index } if *index == LogIndex::new(1)
    )));
}

#[test]
fn trap_read_barrier_survives_current_term_snapshot_compaction() {
    let mut leader = node(1);
    leader.role = Role::Leader;
    leader.hard_state.term = Term::new(4);
    leader.log.push(Entry {
        term: Term::new(4),
        index: LogIndex::new(1),
        kind: EntryKind::Noop,
        payload: Vec::new(),
    });
    leader.commit_index = LogIndex::new(1);
    leader.applied_index = LogIndex::new(1);
    leader.install_snapshot_state(LogIndex::new(1), Term::new(4));
    assert!(leader.log.is_empty(), "the current-term proof is compacted");
    assert!(leader.request_read().is_ok());
}

#[test]
fn trap_append_entries_rejects_a_gap_from_a_compacted_leader() {
    let mut follower = node(2);
    follower.hard_state.term = Term::new(1);
    let effects = follower.on_message_at(
        Message {
            proto_version: PROTOCOL_VERSION,
            from: NodeId::new(1),
            to: NodeId::new(2),
            term: Term::new(1),
            kind: MessageKind::AppendReq(AppendRequest {
                prev_index: LogIndex::new(0),
                prev_term: Term::new(0),
                entries: vec![Entry {
                    term: Term::new(1),
                    index: LogIndex::new(5),
                    kind: EntryKind::App,
                    payload: b"gap".to_vec(),
                }],
                leader_commit: LogIndex::new(5),
                read_round: 0,
            }),
        },
        Time::from_nanos(1),
    );
    assert!(follower.log.is_empty());
    assert!(
        !effects
            .iter()
            .any(|effect| matches!(effect, RaftEffect::PersistEntries(_)))
    );
    assert!(effects.iter().any(|effect| matches!(
        effect,
        RaftEffect::Send(Message {
            kind: MessageKind::AppendResp(AppendResponse { success: false, .. }),
            ..
        })
    )));
}

#[test]
fn trap_leave_joint_waits_for_committed_enter_joint() {
    let mut leader = node(1);
    leader.role = Role::Leader;
    leader.hard_state.term = Term::new(1);
    let next = NodeSet::from_ids(&[NodeId::new(1), NodeId::new(2), NodeId::new(4)]);
    let enter = leader.enter_joint(next).expect("enter joint");
    assert!(
        enter
            .iter()
            .any(|effect| matches!(effect, RaftEffect::Send(_)))
    );
    assert_eq!(leader.leave_joint(), Err(RaftError::Busy));
    leader.commit_index = leader.last_index();
    let leave = leader.leave_joint().expect("leave after enter commit");
    assert!(
        leave
            .iter()
            .any(|effect| matches!(effect, RaftEffect::Send(_)))
    );
    assert!(!leader.joint_active());
}

#[test]
fn trap_rejected_config_proposal_does_not_mutate_membership() {
    let mut follower = node(1);
    let before = follower.voters.clone();
    let result = follower.enter_joint(NodeSet::from_ids(&[NodeId::new(1)]));
    assert_eq!(result, Err(RaftError::NotLeader));
    assert_eq!(follower.voters, before);
    assert!(!follower.joint_active());
}

#[test]
fn trap_stale_append_does_not_reset_but_current_leader_conflict_does() {
    let mut follower = node(2);
    follower.hard_state.term = Term::new(1);
    let before = follower.election_deadline;
    let effects = follower.on_message_at(
        Message {
            proto_version: PROTOCOL_VERSION,
            from: NodeId::new(1),
            to: NodeId::new(2),
            term: Term::new(0),
            kind: MessageKind::AppendReq(AppendRequest {
                prev_index: LogIndex::new(1),
                prev_term: Term::new(0),
                entries: Vec::new(),
                leader_commit: LogIndex::new(0),
                read_round: 0,
            }),
        },
        Time::from_nanos(1_000_000_000),
    );
    assert!(
        effects
            .iter()
            .any(|effect| matches!(effect, RaftEffect::Send(_)))
    );
    assert_eq!(follower.election_deadline, before);

    follower.on_message_at(
        Message {
            proto_version: PROTOCOL_VERSION,
            from: NodeId::new(1),
            to: NodeId::new(2),
            term: Term::new(1),
            kind: MessageKind::AppendReq(AppendRequest {
                // The current leader is valid but this follower is behind,
                // so the append is rejected while still suppressing an
                // unnecessary election.
                prev_index: LogIndex::new(1),
                prev_term: Term::new(0),
                entries: Vec::new(),
                leader_commit: LogIndex::new(0),
                read_round: 0,
            }),
        },
        Time::from_nanos(1_000_000_000),
    );
    assert!(follower.election_deadline > Time::from_nanos(1_000_000_000));
}

#[test]
fn trap_snapshot_follower_conflict_points_to_first_missing_suffix() {
    let mut follower = node(2);
    follower.hard_state.term = Term::new(3);
    follower.install_snapshot_state(LogIndex::new(45), Term::new(1));
    let conflict = follower.on_message_at(
        Message {
            proto_version: PROTOCOL_VERSION,
            from: NodeId::new(1),
            to: NodeId::new(2),
            term: Term::new(3),
            kind: MessageKind::AppendReq(AppendRequest {
                prev_index: LogIndex::new(47),
                prev_term: Term::new(3),
                entries: Vec::new(),
                leader_commit: LogIndex::new(47),
                read_round: 0,
            }),
        },
        Time::from_nanos(1_000_000_000),
    );
    assert!(conflict.iter().any(|effect| matches!(
        effect,
        RaftEffect::Send(Message {
            kind: MessageKind::AppendResp(AppendResponse {
                success: false,
                conflict_index,
                ..
            }),
            ..
        }) if *conflict_index == LogIndex::new(46)
    )));

    follower.on_message_at(
        Message {
            proto_version: PROTOCOL_VERSION,
            from: NodeId::new(1),
            to: NodeId::new(2),
            term: Term::new(3),
            kind: MessageKind::AppendReq(AppendRequest {
                prev_index: LogIndex::new(45),
                prev_term: Term::new(1),
                entries: vec![
                    Entry {
                        term: Term::new(3),
                        index: LogIndex::new(46),
                        kind: EntryKind::Noop,
                        payload: Vec::new(),
                    },
                    Entry {
                        term: Term::new(3),
                        index: LogIndex::new(47),
                        kind: EntryKind::Noop,
                        payload: Vec::new(),
                    },
                ],
                leader_commit: LogIndex::new(47),
                read_round: 0,
            }),
        },
        Time::from_nanos(1_050_000_000),
    );
    assert_eq!(follower.last_index(), LogIndex::new(47));
    assert_eq!(follower.commit_index, LogIndex::new(47));
}

#[test]
fn trap_snapshot_ordering() {
    let mut follower = node(2);
    follower.commit_index = LogIndex::new(2);
    follower.applied_index = LogIndex::new(2);
    let effects = follower.on_message(Message {
        proto_version: PROTOCOL_VERSION,
        from: NodeId::new(1),
        to: NodeId::new(2),
        term: Term::new(1),
        kind: MessageKind::SnapshotChunk {
            transfer_id: 1,
            last_included_index: LogIndex::new(3),
            last_included_term: Term::new(1),
            total_len: 3,
            snapshot_crc32c: crc32c(&[1, 2, 3]),
            offset: 0,
            data: vec![1, 2, 3],
            done: true,
        },
    });
    assert!(
        effects
            .iter()
            .any(|effect| matches!(effect, RaftEffect::ReceiveSnapshotChunk(Message { .. })))
    );
    assert_eq!(follower.applied_index, LogIndex::new(2));
}

#[test]
fn trap_replayed_snapshot_chunk_is_idempotent() {
    let mut follower = node(2);
    let first = Message {
        proto_version: PROTOCOL_VERSION,
        from: NodeId::new(1),
        to: NodeId::new(2),
        term: Term::new(1),
        kind: MessageKind::SnapshotChunk {
            transfer_id: 3,
            last_included_index: LogIndex::new(4),
            last_included_term: Term::new(1),
            total_len: 2,
            snapshot_crc32c: crc32c(&[9, 10]),
            offset: 0,
            data: vec![9],
            done: false,
        },
    };
    let first_effects = follower.on_message(first.clone());
    let replay = follower.on_message(first);
    assert!(
        first_effects
            .iter()
            .any(|effect| matches!(effect, RaftEffect::ReceiveSnapshotChunk(_)))
    );
    assert!(matches!(
        replay.as_slice(),
        [RaftEffect::ReceiveSnapshotChunk(_)]
    ));
}

#[test]
fn trap_ack_before_fsync_is_represented_by_persist_effect_order() {
    let mut leader = node(1);
    leader.role = Role::Leader;
    leader.hard_state.term = Term::new(1);
    let effects = leader.propose(b"value".to_vec()).expect("proposal");
    assert!(matches!(
        effects.first(),
        Some(RaftEffect::PersistEntries(_))
    ));
}

#[test]
fn trap_stale_snapshot_install_is_ignored() {
    let mut follower = node(2);
    follower.applied_index = LogIndex::new(10);
    let effects = follower.on_message(Message {
        proto_version: PROTOCOL_VERSION,
        from: NodeId::new(1),
        to: NodeId::new(2),
        term: Term::new(1),
        kind: MessageKind::SnapshotChunk {
            transfer_id: 1,
            last_included_index: LogIndex::new(9),
            last_included_term: Term::new(1),
            total_len: 1,
            snapshot_crc32c: crc32c(&[1]),
            offset: 0,
            data: vec![1],
            done: true,
        },
    });
    assert!(effects.iter().any(|effect| matches!(
        effect,
        RaftEffect::Send(Message {
            kind: MessageKind::SnapshotAck {
                accepted: false,
                reason: Some(SnapshotRejectReason::StaleTerm),
                ..
            },
            ..
        })
    )));
}

#[test]
fn trap_figure8_does_not_commit_prior_term_without_current_term_entry() {
    let mut leader = node(1);
    leader.role = Role::Leader;
    leader.hard_state.term = Term::new(2);
    leader.log.push(Entry {
        term: Term::new(1),
        index: LogIndex::new(1),
        kind: EntryKind::App,
        payload: vec![1],
    });
    leader.match_index.insert(NodeId::new(2), LogIndex::new(1));
    leader.match_index.insert(NodeId::new(3), LogIndex::new(1));
    assert_eq!(leader.commit_index, LogIndex::new(0));
}

#[test]
fn invariants_hold_for_empty_node() {
    assert!(node(1).invariants().is_ok());
}

#[test]
fn trap_stale_vote_tally_cannot_elect_in_a_later_term() {
    // Found by the message-soup campaign at seed 0x66a: a node kept the
    // vote tally from an election it had already left, so one stray
    // response in a later term promoted it on consent nobody gave —
    // two leaders in one term.
    let mut n3 = node(3);
    n3.on_timer(Time::from_nanos(1_000_000), TimerKind::Election);
    let grant = |from: u64, term: u64, granted: bool, kind_is_pre: bool| Message {
        proto_version: PROTOCOL_VERSION,
        from: NodeId::new(from),
        to: NodeId::new(3),
        term: Term::new(term),
        kind: if kind_is_pre {
            MessageKind::PreVoteResp { granted }
        } else {
            MessageKind::VoteResp { granted }
        },
    };
    n3.on_message(grant(2, 1, true, true));
    n3.on_message(grant(2, 1, true, false));
    assert_eq!(n3.role, Role::Leader, "the honest term-1 win still works");
    assert_eq!(n3.hard_state.term, Term::new(1));

    // A higher term knocks it down; the term-1 tally must not survive.
    n3.on_message(Message {
        proto_version: PROTOCOL_VERSION,
        from: NodeId::new(1),
        to: NodeId::new(3),
        term: Term::new(2),
        kind: MessageKind::VoteReq {
            last_index: LogIndex::new(0),
            last_term: Term::new(0),
        },
    });
    assert_eq!(n3.role, Role::Follower);
    assert!(n3.votes.is_empty(), "tally survived a term change");

    // Re-entering the pre-vote phase must not resurrect it either, and a
    // lone denial must never be the event that promotes a candidate.
    n3.on_timer(Time::from_nanos(2_000_000), TimerKind::Election);
    assert!(n3.votes.is_empty(), "tally survived a new pre-vote round");
    n3.on_message(grant(1, 2, false, false));
    assert_ne!(
        n3.role,
        Role::Leader,
        "a denial elected a leader on a stale tally"
    );
}

#[test]
fn trap_config_on_append_changes_joint_quorum_before_commit() {
    let mut leader = node(1);
    leader.role = Role::Leader;
    leader.hard_state.term = Term::new(1);
    let new_voters = NodeSet::from_ids(&[NodeId::new(1), NodeId::new(2), NodeId::new(4)]);
    leader.enter_joint(new_voters).expect("joint entry");
    assert!(leader.joint_active());
    assert!(leader.voters.contains(NodeId::new(4)));
}

#[test]
fn trap_removed_leader_stepdown_timing_waits_for_leave_joint() {
    let mut leader = node(1);
    leader.role = Role::Leader;
    leader.hard_state.term = Term::new(1);
    for id in 1..=4 {
        leader.addresses.insert(
            NodeId::new(id),
            PeerAddress::V4 {
                ip: [127, 0, 0, 1],
                port: 10_000 + id as u16,
            },
        );
    }
    let new_voters = NodeSet::from_ids(&[NodeId::new(2), NodeId::new(3), NodeId::new(4)]);
    leader.enter_joint(new_voters).expect("joint");
    assert_eq!(leader.role, Role::Leader);
    leader.commit_index = leader.last_index();
    leader.leave_joint().expect("leave");
    assert_eq!(leader.role, Role::Follower);
    assert!(
        !leader
            .membership_state()
            .addresses
            .contains_key(NodeId::new(1)),
        "the final configuration must not publish a removed voter's address"
    );
    assert!(leader.membership_state().validate().is_ok());
}

#[test]
fn trap_leave_joint_offers_the_final_entry_to_removed_voters() {
    let mut leader = node(1);
    leader.role = Role::Leader;
    leader.hard_state.term = Term::new(1);
    let new_voters = NodeSet::from_ids(&[NodeId::new(1), NodeId::new(2), NodeId::new(4)]);
    leader.enter_joint(new_voters).expect("joint");
    leader.commit_index = leader.last_index();
    leader
        .next_index
        .insert(NodeId::new(3), LogIndex::new(leader.last_index().get() + 1));
    let effects = leader.leave_joint().expect("leave");
    assert!(
        effects.iter().any(|effect| matches!(
            effect,
            RaftEffect::Send(Message {
                to,
                kind: MessageKind::AppendReq(AppendRequest { entries, .. }),
                ..
            }) if *to == NodeId::new(3) && entries.iter().any(|entry| {
                ConfigEnvelope::decode(&entry.payload).is_ok_and(|envelope| matches!(
                    envelope.operation,
                    ConfigOperation::LeaveJoint { .. }
                ))
            })
        )),
        "removed voter did not receive the terminal LeaveJoint append"
    );
    assert!(leader.has_retiring_peers());
    let terminal = leader.last_index();
    leader.on_message(Message {
        proto_version: PROTOCOL_VERSION,
        from: NodeId::new(3),
        to: NodeId::new(1),
        term: Term::new(1),
        kind: MessageKind::AppendResp(AppendResponse {
            success: true,
            match_index: terminal,
            conflict_term: None,
            conflict_index: LogIndex::new(0),
            read_round: 0,
        }),
    });
    assert!(!leader.has_retiring_peers());
}

#[test]
fn trap_removed_node_disruption_is_rejected_by_membership_vote_rule() {
    let mut follower = node(2);
    follower.voters.remove(NodeId::new(3));
    let effects = follower.on_message(Message {
        proto_version: PROTOCOL_VERSION,
        from: NodeId::new(3),
        to: NodeId::new(2),
        term: Term::new(0),
        kind: MessageKind::VoteReq {
            last_index: LogIndex::new(0),
            last_term: Term::new(0),
        },
    });
    assert!(matches!(
        effects.last(),
        Some(RaftEffect::Send(Message {
            kind: MessageKind::VoteResp { granted: false },
            ..
        }))
    ));
}

#[test]
fn trap_config_in_snapshot_keeps_current_membership() {
    let mut leader = node(1);
    leader.role = Role::Leader;
    leader.hard_state.term = Term::new(1);
    let new_voters = NodeSet::from_ids(&[NodeId::new(1), NodeId::new(2), NodeId::new(4)]);
    leader.enter_joint(new_voters).expect("joint");
    leader.install_snapshot_state(LogIndex::new(1), Term::new(1));
    assert!(leader.joint_active());
}

#[test]
fn trap_checkpoint_uses_applied_membership_not_appended_leave() {
    let mut leader = node(1);
    leader.role = Role::Leader;
    leader.hard_state.term = Term::new(1);
    leader
        .enter_joint(
            NodeSet::from_ids(&[NodeId::new(1), NodeId::new(2), NodeId::new(4)]),
        )
        .expect("joint");
    let enter = leader.last_index();
    leader.commit_index = enter;
    leader.applied_index = enter;
    leader.leave_joint().expect("appended leave");
    assert!(!leader.joint_active(), "live suffix includes LeaveJoint");
    assert!(
        leader.membership_state_at(enter).joint.is_some(),
        "the checkpoint boundary still owns the unfinished admin workflow"
    );
}

#[test]
fn trap_snapshot_base_is_the_log_origin() {
    let mut follower = node(1);
    follower.install_snapshot_state(LogIndex::new(9), Term::new(4));
    assert_eq!(follower.last_index(), LogIndex::new(9));
    assert_eq!(follower.last_term(), Term::new(4));
    assert_eq!(follower.term_at(LogIndex::new(9)), Some(Term::new(4)));
}

#[test]
fn trap_same_index_different_term_snapshot_is_rejected() {
    let mut follower = node(1);
    follower.install_snapshot_state(LogIndex::new(4), Term::new(2));
    follower.install_snapshot_state(LogIndex::new(4), Term::new(3));
    assert_eq!(follower.term_at(LogIndex::new(4)), Some(Term::new(2)));
}

#[test]
fn trap_checkquorum_steps_down_isolated_leader() {
    let mut leader = node(1);
    leader.role = Role::Leader;
    leader.hard_state.term = Term::new(1);
    leader.tick(Time::from_nanos(1));
    let effects = leader.tick(Time::from_nanos(1 + DEFAULT_ELECTION_MIN));
    assert_eq!(leader.role, Role::Follower);
    assert!(effects.iter().any(|effect| matches!(
        effect,
        RaftEffect::Trace {
            name: "checkquorum_stepdown",
            ..
        }
    )));
}

#[test]
fn trap_unknown_vote_response_cannot_form_quorum() {
    let mut candidate = node(1);
    candidate.role = Role::Candidate;
    candidate.hard_state.term = Term::new(4);
    candidate.votes.insert(NodeId::new(1));
    let effects = candidate.on_message(Message {
        proto_version: PROTOCOL_VERSION,
        from: NodeId::new(99),
        to: NodeId::new(1),
        term: Term::new(4),
        kind: MessageKind::VoteResp { granted: true },
    });
    assert!(effects.is_empty());
    assert_eq!(candidate.role, Role::Candidate);
}

#[test]
fn trap_learner_never_counts_toward_quorum() {
    let mut leader = node(1);
    leader.role = Role::Leader;
    leader.hard_state.term = Term::new(2);
    leader.log.push(Entry {
        term: Term::new(2),
        index: LogIndex::new(1),
        kind: EntryKind::App,
        payload: b"only-a-learner-acked".to_vec(),
    });
    leader.add_learner(NodeId::new(4)).expect("learner");
    let effects = leader.on_message(Message {
        proto_version: PROTOCOL_VERSION,
        from: NodeId::new(4),
        to: NodeId::new(1),
        term: Term::new(2),
        kind: MessageKind::AppendResp(AppendResponse {
            success: true,
            match_index: LogIndex::new(1),
            conflict_term: None,
            conflict_index: LogIndex::new(0),
            read_round: 0,
        }),
    });
    assert!(
        !effects
            .iter()
            .any(|effect| matches!(effect, RaftEffect::Apply(_))),
        "a learner acknowledgement may drive further replication, never commit"
    );
    assert_eq!(leader.commit_index, LogIndex::new(0));
}

#[test]
fn trap_learner_add_and_promotion_are_replicated_config_transitions() {
    let mut leader = node(1);
    leader.role = Role::Leader;
    leader.hard_state.term = Term::new(2);
    let add = leader.add_learner(NodeId::new(4)).expect("add learner");
    assert!(matches!(
        add.first(),
        Some(RaftEffect::PersistEntries(entries)) if matches!(
            entries.as_slice(),
            [Entry { kind: EntryKind::Config, payload, .. }]
            if matches!(ConfigEnvelope::decode(payload), Ok(ConfigEnvelope {
                operation: ConfigOperation::AddLearner { id, address: None }, ..
            }) if id == NodeId::new(4))
        )
    ));
    assert!(leader.learners.contains(NodeId::new(4)));
    leader.commit_index = leader.last_index();
    let _ = leader.apply_committed();
    leader
        .match_index
        .insert(NodeId::new(4), leader.last_index());
    let promote = leader.promote_learner(NodeId::new(4)).expect("promote");
    assert!(matches!(
        promote.first(),
        Some(RaftEffect::PersistEntries(entries)) if matches!(
            entries.as_slice(),
            [Entry { kind: EntryKind::Config, payload, .. }]
            if matches!(ConfigEnvelope::decode(payload), Ok(ConfigEnvelope {
                operation: ConfigOperation::EnterJoint { .. }, ..
            }))
        )
    ));
    assert!(leader.joint_active());
    assert!(!leader.learners.contains(NodeId::new(4)));
    assert!(leader.voters.contains(NodeId::new(4)));
}

#[test]
fn trap_promotion_refuses_a_lagging_learner() {
    let mut leader = node(1);
    leader.role = Role::Leader;
    leader.hard_state.term = Term::new(2);
    leader.add_learner(NodeId::new(4)).expect("learner");
    leader.log.push(Entry {
        term: Term::new(2),
        index: LogIndex::new(leader.last_index().get() + 1),
        kind: EntryKind::App,
        payload: b"not-on-learner".to_vec(),
    });
    leader.match_index.insert(NodeId::new(4), LogIndex::new(1));
    assert_eq!(leader.promote_learner(NodeId::new(4)), Err(RaftError::Busy));
    assert!(leader.learners.contains(NodeId::new(4)));
    assert!(!leader.voters.contains(NodeId::new(4)));
}

#[test]
fn trap_second_config_change_is_rejected_while_one_is_in_flight() {
    let mut leader = node(1);
    leader.role = Role::Leader;
    leader.hard_state.term = Term::new(2);
    leader
        .enter_joint(
            NodeSet::from_ids(&[NodeId::new(1), NodeId::new(2), NodeId::new(4)]),
        )
        .expect("first transition");
    assert!(leader.joint_active());
    assert!(leader.add_learner(NodeId::new(5)).is_err());
    assert!(
        leader.joint_active(),
        "rejection mutated the first workflow"
    );
}

#[test]
fn trap_atomic_batch_feature_changes_only_when_activation_commits() {
    let mut leader = node(1);
    leader.role = Role::Leader;
    leader.hard_state.term = Term::new(1);
    let effects = leader
        .activate_feature(ATOMIC_BATCH_FEATURE, Time::from_nanos(1))
        .expect("activation append");
    assert_eq!(leader.active_features(), 0, "append is not activation");
    let entry = effects
        .iter()
        .find_map(|effect| match effect {
            RaftEffect::PersistEntries(entries) => entries.first().cloned(),
            _ => None,
        })
        .expect("activation persistence");
    leader
        .apply_committed_config(&entry)
        .expect("activation commit");
    assert_eq!(
        leader.active_features(),
        ATOMIC_BATCH_FEATURE,
        "client admission changes only at the committed transition"
    );
}

#[test]
fn trap_joint_election_requires_both_majorities() {
    let mut candidate = node(1);
    candidate.role = Role::Leader;
    candidate.hard_state.term = Term::new(1);
    candidate
        .enter_joint(
            NodeSet::from_ids(&[NodeId::new(1), NodeId::new(4), NodeId::new(5)]),
        )
        .expect("enter joint");
    candidate.role = Role::Follower;
    candidate.hard_state.term = Term::new(1);
    candidate.start_election();

    candidate.on_message(Message {
        proto_version: PROTOCOL_VERSION,
        from: NodeId::new(2),
        to: NodeId::new(1),
        term: Term::new(2),
        kind: MessageKind::VoteResp { granted: true },
    });
    assert_eq!(candidate.role, Role::Candidate, "new voters lack quorum");

    candidate.on_message(Message {
        proto_version: PROTOCOL_VERSION,
        from: NodeId::new(4),
        to: NodeId::new(1),
        term: Term::new(2),
        kind: MessageKind::VoteResp { granted: true },
    });
    assert_eq!(candidate.role, Role::Leader);
}

#[test]
fn trap_new_leader_resumes_committed_joint_admin_workflow() {
    let mut candidate = node(1);
    candidate.role = Role::Leader;
    candidate.hard_state.term = Term::new(1);
    candidate
        .last_contact
        .insert(NodeId::new(2), Time::from_nanos(120));
    candidate
        .last_contact
        .insert(NodeId::new(3), Time::from_nanos(120));
    let admin = SessionKey::new(
        SessionNamespace::AdminRequest.code(),
        ClientId::new(41),
    )
    .expect("admin session");
    let enter = candidate
        .propose_admin_config(ConfigEnvelope {
            admin_session: Some((admin, 7)),
            leader_time: Time::from_nanos(123),
            operation: ConfigOperation::EnterJoint {
                new_voters: NodeSet::from_ids(&[NodeId::new(1), NodeId::new(2)]),
            },
        })
        .expect("enter joint");
    let enter_index = enter
        .iter()
        .find_map(|effect| match effect {
            RaftEffect::PersistEntries(entries) => entries.first().map(|entry| entry.index),
            _ => None,
        })
        .expect("enter index");
    candidate.commit_index = enter_index;
    candidate.role = Role::Follower;
    candidate.hard_state.term = Term::new(1);

    let election = candidate.start_election();
    assert!(
        election
            .iter()
            .any(|effect| matches!(effect, RaftEffect::PersistHard(_)))
    );
    let effects = candidate.on_message(Message {
        proto_version: PROTOCOL_VERSION,
        from: NodeId::new(2),
        to: NodeId::new(1),
        term: Term::new(2),
        kind: MessageKind::VoteResp { granted: true },
    });

    let leave = effects
        .iter()
        .filter_map(|effect| match effect {
            RaftEffect::PersistEntries(entries) => Some(entries.as_slice()),
            _ => None,
        })
        .flatten()
        .find_map(|entry| ConfigEnvelope::decode(&entry.payload).ok())
        .filter(|envelope| {
            envelope.admin_session == Some((admin, 7))
                && envelope.leader_time == Time::from_nanos(123)
                && matches!(
                    envelope.operation,
                    ConfigOperation::LeaveJoint { enter_index: index } if index == enter_index
                )
        });
    assert!(
        leave.is_some(),
        "the new leader must append the paired leave"
    );
    assert!(!candidate.joint_active());
}

#[test]
fn trap_follower_applies_config_on_append() {
    let mut follower = node(2);
    let entry = Entry {
        term: Term::new(1),
        index: LogIndex::new(1),
        kind: EntryKind::Config,
        payload: ConfigEnvelope {
            admin_session: None,
            leader_time: Time::from_nanos(0),
            operation: ConfigOperation::AddLearner {
                id: NodeId::new(4),
                address: None,
            },
        }
        .encode(),
    };
    follower.on_message(Message {
        proto_version: PROTOCOL_VERSION,
        from: NodeId::new(1),
        to: NodeId::new(2),
        term: Term::new(1),
        kind: MessageKind::AppendReq(AppendRequest {
            prev_index: LogIndex::new(0),
            prev_term: Term::new(0),
            entries: vec![entry],
            leader_commit: LogIndex::new(0),
            read_round: 0,
        }),
    });
    assert!(follower.learners.contains(NodeId::new(4)));
    assert_eq!(follower.commit_index, LogIndex::new(0));
}

#[test]
fn trap_learners_receive_entries_but_never_vote() {
    let mut leader = node(1);
    leader.role = Role::Leader;
    leader.hard_state.term = Term::new(1);
    leader.add_learner(NodeId::new(4)).expect("learner");
    assert!(leader.broadcast_append().iter().any(|effect| matches!(
        effect,
        RaftEffect::Send(Message {
            to,
            kind: MessageKind::AppendReq(_),
            ..
        }) if *to == NodeId::new(4)
    )));

    let mut learner = RaftNode::new(
        NodeId::new(4),
        voters(),
        Seed::new(4),
        RaftConfig::default(),
    );
    assert_eq!(learner.role, Role::Learner);
    let effects = learner.on_message(Message {
        proto_version: PROTOCOL_VERSION,
        from: NodeId::new(1),
        to: NodeId::new(4),
        term: Term::new(1),
        kind: MessageKind::VoteReq {
            last_index: LogIndex::new(0),
            last_term: Term::new(0),
        },
    });
    assert!(matches!(
        effects.last(),
        Some(RaftEffect::Send(Message {
            kind: MessageKind::VoteResp { granted: false },
            ..
        }))
    ));
}

#[test]
fn trap_join_discovery_membership_never_grants_a_vote() {
    let mut joining = RaftNode::new(
        NodeId::new(9),
        voters(),
        Seed::new(9),
        RaftConfig::default(),
    );
    assert_eq!(joining.role, Role::Learner);
    let effects = joining.on_message(Message {
        proto_version: PROTOCOL_VERSION,
        from: NodeId::new(1),
        to: NodeId::new(9),
        term: Term::new(1),
        kind: MessageKind::VoteReq {
            last_index: LogIndex::new(0),
            last_term: Term::new(0),
        },
    });
    assert!(effects.iter().any(|effect| matches!(
        effect,
        RaftEffect::Send(Message {
            kind: MessageKind::VoteResp { granted: false },
            ..
        })
    )));
    assert_ne!(joining.hard_state.voted_for, Some(NodeId::new(1)));
}

#[test]
fn trap_membership_recovers_from_log_and_snapshot() {
    let snapshot_membership = MembershipState {
        voters: NodeSet::from_ids(&[NodeId::new(1), NodeId::new(2), NodeId::new(3)]),
        learners: NodeSet::from_ids(&[NodeId::new(4)]),
        joint: None,
        addresses: NodeMap::new(),
        active_features: 0,
    };
    let mut recovered = node(1);
    recovered
        .restore_membership_state(snapshot_membership)
        .expect("snapshot membership");
    recovered.log.push(Entry {
        term: Term::new(2),
        index: LogIndex::new(9),
        kind: EntryKind::Config,
        payload: ConfigEnvelope {
            admin_session: None,
            leader_time: Time::from_nanos(0),
            operation: ConfigOperation::EnterJoint {
                new_voters: NodeSet::from_ids(&[NodeId::new(1), NodeId::new(2), NodeId::new(4)]),
            },
        }
        .encode(),
    });
    let checkpoint_base = recovered.membership_state_at(LogIndex::new(8));
    assert!(checkpoint_base.learners.contains(NodeId::new(4)));
    assert!(!checkpoint_base.voters.contains(NodeId::new(4)));
    let with_suffix = recovered.membership_state_at(LogIndex::new(9));
    assert!(with_suffix.joint.is_some());
    assert!(with_suffix.voters.contains(NodeId::new(4)));
    recovered.rebuild_membership_from_log();
    assert!(recovered.joint_active());
    assert!(recovered.voters.contains(NodeId::new(4)));
    assert!(!recovered.learners.contains(NodeId::new(4)));
}

#[test]
fn trap_replicated_address_book_beats_stale_local_config() {
    let mut leader = node(1);
    let stale = PeerAddress::V4 {
        ip: [127, 0, 0, 1],
        port: 7202,
    };
    let committed = PeerAddress::V4 {
        ip: [127, 0, 0, 1],
        port: 8202,
    };
    let mut base = leader.membership_state();
    base.addresses.insert(NodeId::new(2), stale);
    leader
        .restore_membership_state(base.clone())
        .expect("bootstrap address");
    leader.role = Role::Leader;
    leader.hard_state.term = Term::new(2);
    leader
        .propose_admin_config(ConfigEnvelope {
            admin_session: Some((
                SessionKey::new(
                    SessionNamespace::AdminRequest.code(),
                    ClientId::new(7),
                )
                .expect("admin"),
                1,
            )),
            leader_time: Time::from_nanos(9),
            operation: ConfigOperation::UpdateAddress {
                id: NodeId::new(2),
                address: committed.clone(),
            },
        })
        .expect("replicated update");
    leader
        .restore_membership_state(base)
        .expect("stale local recovery base");
    leader.replay_retained_membership_suffix();
    assert_eq!(
        leader.membership_state().addresses.get(NodeId::new(2)),
        Some(committed)
    );
}

#[test]
fn trap_truncated_uncommitted_config_restores_prior_membership() {
    let mut follower = node(2);
    let add_learner = Entry {
        term: Term::new(1),
        index: LogIndex::new(1),
        kind: EntryKind::Config,
        payload: ConfigEnvelope {
            admin_session: None,
            leader_time: Time::from_nanos(0),
            operation: ConfigOperation::AddLearner {
                id: NodeId::new(4),
                address: None,
            },
        }
        .encode(),
    };
    follower.on_message(Message {
        proto_version: PROTOCOL_VERSION,
        from: NodeId::new(1),
        to: NodeId::new(2),
        term: Term::new(1),
        kind: MessageKind::AppendReq(AppendRequest {
            prev_index: LogIndex::new(0),
            prev_term: Term::new(0),
            entries: vec![add_learner],
            leader_commit: LogIndex::new(0),
            read_round: 0,
        }),
    });
    assert!(follower.learners.contains(NodeId::new(4)));

    follower.on_message(Message {
        proto_version: PROTOCOL_VERSION,
        from: NodeId::new(3),
        to: NodeId::new(2),
        term: Term::new(2),
        kind: MessageKind::AppendReq(AppendRequest {
            prev_index: LogIndex::new(0),
            prev_term: Term::new(0),
            entries: vec![Entry {
                term: Term::new(2),
                index: LogIndex::new(1),
                kind: EntryKind::App,
                payload: b"replacement".to_vec(),
            }],
            leader_commit: LogIndex::new(0),
            read_round: 0,
        }),
    });
    assert!(!follower.learners.contains(NodeId::new(4)));
}

#[test]
fn trap_append_matches_snapshot_base() {
    let mut follower = node(2);
    follower.install_snapshot_state(LogIndex::new(5), Term::new(3));
    follower.on_message(Message {
        proto_version: PROTOCOL_VERSION,
        from: NodeId::new(1),
        to: NodeId::new(2),
        term: Term::new(3),
        kind: MessageKind::AppendReq(AppendRequest {
            prev_index: LogIndex::new(5),
            prev_term: Term::new(3),
            entries: vec![Entry {
                term: Term::new(3),
                index: LogIndex::new(6),
                kind: EntryKind::App,
                payload: b"after-base".to_vec(),
            }],
            leader_commit: LogIndex::new(5),
            read_round: 0,
        }),
    });
    assert_eq!(follower.last_index(), LogIndex::new(6));
    assert_eq!(follower.term_at(LogIndex::new(5)), Some(Term::new(3)));
}

#[test]
fn trap_leadership_transfer_waits_for_committed_intent_and_caught_up_target() {
    let mut leader = node(1);
    leader.role = Role::Leader;
    leader.hard_state.term = Term::new(2);
    leader.log.push(Entry {
        term: Term::new(2),
        index: LogIndex::new(1),
        kind: EntryKind::Noop,
        payload: Vec::new(),
    });
    leader.match_index.insert(NodeId::new(2), LogIndex::new(1));
    let effects = leader
        .begin_leadership_transfer(NodeId::new(2), Time::from_nanos(10))
        .expect("intent append");
    let intent = leader.last_index();
    assert!(effects.iter().all(|effect| !matches!(
        effect,
        RaftEffect::Send(Message {
            kind: MessageKind::TimeoutNow { .. },
            ..
        })
    )));
    leader.match_index.insert(NodeId::new(2), intent);
    leader.commit_index = intent;
    let entry = leader.log.last().expect("intent entry").clone();
    let committed = leader.apply_committed_config(&entry).expect("apply intent");
    assert_eq!(
        leader.propose(b"blocked".to_vec()),
        Err(RaftError::TransferInProgress),
        "the committed intent must pause new client proposals"
    );
    assert!(committed.iter().any(|effect| matches!(
        effect,
        RaftEffect::Send(Message {
            to,
            kind: MessageKind::TimeoutNow { intent_index },
            ..
        }) if *to == NodeId::new(2) && *intent_index == intent
    )));
    let retry = leader.tick(Time::from_nanos(20));
    assert!(
        retry.iter().any(|effect| matches!(
            effect,
            RaftEffect::Send(Message {
                to,
                kind: MessageKind::TimeoutNow { intent_index },
                ..
            }) if *to == NodeId::new(2) && *intent_index == intent
        )),
        "heartbeat must retry a lost TimeoutNow"
    );
}

#[test]
fn trap_transfer_triggers_when_target_catches_up_after_intent_apply() {
    let mut leader = node(1);
    leader.role = Role::Leader;
    leader.hard_state.term = Term::new(2);
    leader.log.push(Entry {
        term: Term::new(2),
        index: LogIndex::new(1),
        kind: EntryKind::Noop,
        payload: Vec::new(),
    });
    leader.match_index.insert(NodeId::new(2), LogIndex::new(1));
    leader
        .begin_leadership_transfer(NodeId::new(2), Time::from_nanos(10))
        .expect("intent append");
    let intent = leader.last_index();
    leader.commit_index = intent;
    let entry = leader.log.last().expect("intent").clone();
    let at_apply = leader.apply_committed_config(&entry).expect("intent apply");
    assert!(at_apply.is_empty(), "target is still one entry behind");
    let effects = leader.append_response_from_peer(
        NodeId::new(2),
        AppendResponse {
            success: true,
            match_index: intent,
            conflict_term: None,
            conflict_index: LogIndex::new(0),
            read_round: 0,
        },
    );
    assert!(effects.iter().any(|effect| matches!(
        effect,
        RaftEffect::Send(Message {
            to,
            kind: MessageKind::TimeoutNow { intent_index },
            ..
        }) if *to == NodeId::new(2) && *intent_index == intent
    )));
}

#[test]
fn trap_transfer_to_current_leader_finishes_durably() {
    let mut leader = node(1);
    leader.role = Role::Leader;
    leader.hard_state.term = Term::new(2);
    let begin = leader
        .begin_leadership_transfer(NodeId::new(1), Time::from_nanos(10))
        .expect("durable begin even when the desired leader already leads");
    let entry = begin
        .iter()
        .find_map(|effect| match effect {
            RaftEffect::PersistEntries(entries) => entries.first().cloned(),
            _ => None,
        })
        .expect("begin entry");
    let finish = leader
        .apply_committed_config(&entry)
        .expect("already-satisfied transfer");
    assert!(finish.iter().any(|effect| matches!(
        effect,
        RaftEffect::PersistEntries(entries) if entries.iter().any(|entry| matches!(
            ConfigEnvelope::decode(&entry.payload),
            Ok(ConfigEnvelope {
                operation: ConfigOperation::FinishLeaderTransfer {
                    result: TransferResult::Success,
                    ..
                },
                ..
            })
        ))
    )));
}

#[test]
fn trap_timeout_now_uses_normal_term_and_vote_fsync() {
    let mut target = node(2);
    target.hard_state.term = Term::new(3);
    target.leader_id = Some(NodeId::new(1));
    let intent = Entry {
        term: Term::new(3),
        index: LogIndex::new(4),
        kind: EntryKind::Config,
        payload: ConfigEnvelope {
            admin_session: None,
            leader_time: Time::from_nanos(0),
            operation: ConfigOperation::BeginLeaderTransfer {
                target: NodeId::new(2),
            },
        }
        .encode(),
    };
    target.applied_index = intent.index;
    target
        .apply_committed_config(&intent)
        .expect("apply transfer intent");
    let effects = target.on_message(Message {
        proto_version: PROTOCOL_VERSION,
        from: NodeId::new(1),
        to: NodeId::new(2),
        term: Term::new(3),
        kind: MessageKind::TimeoutNow {
            intent_index: intent.index,
        },
    });
    assert!(
        matches!(effects.first(), Some(RaftEffect::PersistHard(hard)) if hard.term == Term::new(4) && hard.voted_for == Some(NodeId::new(2)))
    );
}

#[test]
fn trap_wrong_target_or_stale_transfer_cannot_complete() {
    let mut target = node(2);
    target.hard_state.term = Term::new(3);
    target.leader_id = Some(NodeId::new(1));
    let effects = target.on_message(Message {
        proto_version: PROTOCOL_VERSION,
        from: NodeId::new(3),
        to: NodeId::new(2),
        term: Term::new(3),
        kind: MessageKind::TimeoutNow {
            intent_index: LogIndex::new(1),
        },
    });
    assert!(matches!(
        effects.as_slice(),
        [RaftEffect::Trace {
            name: "timeout_now_rejected",
            ..
        }]
    ));
    assert_eq!(target.role, Role::Follower);
}

#[test]
fn trap_admin_transfer_reports_success_only_after_target_leads() {
    let mut original = node(1);
    original.role = Role::Leader;
    original.hard_state.term = Term::new(3);
    let intent = Entry {
        term: Term::new(3),
        index: LogIndex::new(7),
        kind: EntryKind::Config,
        payload: ConfigEnvelope {
            admin_session: None,
            leader_time: Time::from_nanos(100),
            operation: ConfigOperation::BeginLeaderTransfer {
                target: NodeId::new(2),
            },
        }
        .encode(),
    };
    original
        .apply_committed_config(&intent)
        .expect("intent is committed before crash");
    let state = original
        .leadership_transfer_state()
        .expect("snapshot retains transfer");

    let mut recovered = node(2);
    recovered.role = Role::Leader;
    recovered.hard_state.term = Term::new(4);
    recovered
        .restore_leadership_transfer(Some(state))
        .expect("restore workflow");
    assert_eq!(
        recovered.propose(b"blocked-until-finish".to_vec()),
        Err(RaftError::TransferInProgress)
    );

    let effects = recovered.become_leader();
    let finish = effects.iter().find_map(|effect| match effect {
        RaftEffect::PersistEntries(entries) => entries.iter().find(|entry| {
            matches!(
                ConfigEnvelope::decode(&entry.payload),
                Ok(ConfigEnvelope {
                    operation:
                        ConfigOperation::FinishLeaderTransfer {
                            intent_index,
                            result: TransferResult::Success,
                        },
                    ..
                }) if intent_index == state.intent_index
            )
        }),
        _ => None,
    });
    assert!(
        finish.is_some(),
        "new target leader must append success finish"
    );
}

#[test]
fn trap_leadership_transfer_timeout_appends_matching_finish() {
    let mut leader = node(1);
    leader.role = Role::Leader;
    leader.hard_state.term = Term::new(2);
    leader.match_index.insert(NodeId::new(2), LogIndex::new(0));
    let intent = Entry {
        term: Term::new(2),
        index: LogIndex::new(1),
        kind: EntryKind::Config,
        payload: ConfigEnvelope {
            admin_session: None,
            leader_time: Time::from_nanos(5),
            operation: ConfigOperation::BeginLeaderTransfer {
                target: NodeId::new(2),
            },
        }
        .encode(),
    };
    leader.log.push(intent.clone());
    leader
        .apply_committed_config(&intent)
        .expect("committed intent");
    let effects = leader.tick(Time::from_nanos(
        5 + DEFAULT_LEADER_TRANSFER_TIMEOUT,
    ));
    let finish = effects.iter().find_map(|effect| match effect {
        RaftEffect::PersistEntries(entries) => entries.first(),
        _ => None,
    });
    let Some(finish) = finish else {
        panic!("transfer timeout must append a finish entry");
    };
    let envelope = ConfigEnvelope::decode(&finish.payload).expect("finish envelope");
    assert!(matches!(
        envelope.operation,
        ConfigOperation::FinishLeaderTransfer {
            intent_index,
            result: TransferResult::Timeout,
        } if intent_index == intent.index
    ));
}

#[test]
fn hard_states_are_written_before_messages_leave() {
    let mut follower = node(2);
    let asked = |kind| Message {
        proto_version: PROTOCOL_VERSION,
        from: NodeId::new(1),
        to: NodeId::new(2),
        term: Term::new(7),
        kind,
    };
    let answered = follower.on_message(asked(MessageKind::PreVoteReq {
        last_index: LogIndex::new(0),
        last_term: Term::new(0),
    }));
    assert_eq!(follower.hard_state, node(2).hard_state);
    assert!(matches!(answered.as_slice(), [RaftEffect::Send(_)]));
    let effects = follower.on_message(asked(MessageKind::VoteReq {
        last_index: LogIndex::new(0),
        last_term: Term::new(0),
    }));
    assert_eq!(follower.hard_state.term, Term::new(7));
    assert_eq!(follower.hard_state.voted_for, Some(NodeId::new(1)));
    assert!(matches!(
        effects.as_slice(),
        [
            RaftEffect::PersistHard(first),
            RaftEffect::PersistHard(last),
            RaftEffect::Send(_)
        ] if first.term == Term::new(7)
            && first.voted_for.is_none()
            && *last == follower.hard_state
    ));
    assert_eq!(effects.clone(), effects);
}

#[test]
fn appends_are_written_before_they_are_confirmed() {
    let entry = |term, index| Entry {
        term: Term::new(term),
        index: LogIndex::new(index),
        kind: EntryKind::App,
        payload: vec![9],
    };
    let append = |term, entries| Message {
        proto_version: PROTOCOL_VERSION,
        from: NodeId::new(1),
        to: NodeId::new(2),
        term: Term::new(term),
        kind: MessageKind::AppendReq(AppendRequest {
            prev_index: LogIndex::new(0),
            prev_term: Term::new(0),
            entries,
            leader_commit: LogIndex::new(1),
            read_round: 0,
        }),
    };
    let confirms = |effect: &RaftEffect| {
        matches!(
            effect,
            RaftEffect::Send(Message {
                kind: MessageKind::AppendResp(AppendResponse { success: true, .. }),
                ..
            })
        )
    };
    let mut follower = node(2);
    let first = follower.on_message(append(1, vec![entry(1, 1), entry(1, 2)]));
    assert!(first.last().is_some_and(confirms));
    assert!(first
        .iter()
        .any(|effect| matches!(effect, RaftEffect::PersistEntries(entries) if entries.len() == 2)));
    let again = follower.on_message(append(1, vec![entry(1, 1), entry(1, 2)]));
    assert!(again.last().is_some_and(confirms));
    assert!(!again
        .iter()
        .any(|effect| matches!(effect, RaftEffect::PersistEntries(_))));
    let parted = follower.on_message(append(2, vec![entry(1, 1), entry(2, 2), entry(2, 3)]));
    assert!(parted.last().is_some_and(confirms));
    let written: Vec<&RaftEffect> = parted
        .iter()
        .filter(|effect| matches!(effect, RaftEffect::PersistEntries(_)))
        .collect();
    assert_eq!(
        written,
        vec![&RaftEffect::PersistEntries(vec![entry(2, 2), entry(2, 3)])]
    );
    assert_eq!(follower.log, vec![entry(1, 1), entry(2, 2), entry(2, 3)]);
    assert_eq!(follower.commit_index, LogIndex::new(1));
}

#[test]
fn snapshots_travel_in_chunks_under_one_id() {
    let mut leader = node(1);
    let bytes: Vec<u8> = (0..SNAPSHOT_CHUNK_BYTES + 3).map(|at| (at % 251) as u8).collect();
    for expected in 1..3 {
        let chunks =
            leader.snapshot_chunks(NodeId::new(2), LogIndex::new(4), Term::new(2), &bytes);
        assert_eq!(chunks.len(), 2);
        let mut carried = Vec::new();
        for chunk in &chunks {
            if let MessageKind::SnapshotChunk {
                transfer_id,
                offset,
                data,
                snapshot_crc32c,
                ..
            } = &chunk.kind
            {
                assert_eq!(*transfer_id, expected);
                assert_eq!(*offset, carried.len() as u64);
                assert_eq!(*snapshot_crc32c, crc32c(&bytes));
                carried.extend_from_slice(data);
            }
        }
        assert_eq!(carried, bytes);
    }
    assert!(leader
        .snapshot_chunks(NodeId::new(2), LogIndex::new(4), Term::new(2), &[])
        .is_empty());
}
