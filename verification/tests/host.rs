//! The host around the engine: time, threads, recordings, clients and peers.
use ccdb::cli::{parse_run_for, validate_record_options};
use ccdb::client::{
    queue_client_transaction, BatchLimits, ClientTransaction,
};
use ccdb::command::ClientCommand;
use ccdb::config::Config;
use ccdb::fault::FaultKind;
use ccdb::hex::ClusterId;
use ccdb::host::{HostClock, RecordAppend, RecordLedger, ThreadBudget};
use ccdb::ids::{LogIndex, NodeId, Term, Time};
use ccdb::kv::{explicit_write_kv, queue_transaction_command, simple_kv, KvCommand};
use ccdb::membership::{ATOMIC_BATCH_FEATURE, FOLLOWER_READ_FEATURE};
use ccdb::peers::{local_hello, message_features_are_allowed, NegotiatedPeer};
use ccdb::raft_types::{
    AppendRequest, Message, MessageKind, PROTOCOL_VERSION, SEMANTIC_VERSION_V3,
};
use ccdb::resp::RespValue;

fn test_limits() -> BatchLimits {
    BatchLimits {
        max_commands: 128,
        max_bytes: 1024 * 1024,
    }
}

#[test]
fn trap_boot_clock_never_moves_below_recovered_floor() {
    let clock = HostClock {
        boot_epoch: Time::from_nanos(4),
        floor: Time::from_nanos(9),
    };
    assert!(clock.now(0) >= Time::from_nanos(9));
}

#[test]
fn trap_restart_time_never_regresses_ttl() {
    let recovered = Time::from_nanos(50);
    let clock = HostClock {
        boot_epoch: Time::from_nanos(10),
        floor: recovered,
    };
    assert!(clock.now(0) >= recovered);
    assert!(clock.now(1) >= Time::from_nanos(50));
    assert_eq!(clock.now(100), Time::from_nanos(110));
}

#[test]
fn trap_host_thread_count_and_stack_reservations_are_bounded() {
    let stack_bytes = 256 * 1024;
    let mut budget = ThreadBudget::new(1, stack_bytes);
    let permit = budget.reserve().expect("first thread reservation");
    assert!(
        budget.reserve().is_none(),
        "second thread exceeds count cap"
    );
    assert_eq!(budget.live, 1);
    assert_eq!(budget.stack_bytes, stack_bytes);
    budget.release(permit);
    assert_eq!(budget.live, 0);
    assert!(
        budget.reserve().is_some(),
        "released stack reservation is reusable"
    );
}

#[test]
fn trap_expireat_overflow_is_rejected() {
    assert!(simple_kv(&ClientCommand::ExpireAt {
        key: b"key".to_vec(),
        at_seconds: u64::MAX,
    })
    .is_err());
}

#[test]
fn trap_hello_advertises_the_same_semantic_version_as_ccrp() {
    let config = Config {
        id: 1,
        cluster_id: ClusterId::from_hex("00112233445566778899aabbccddeeff").expect("cluster id"),
        data_dir: String::from("/tmp"),
        listen_client: String::from("127.0.0.1:7101"),
        listen_peer: String::from("127.0.0.1:7201"),
        listen_metrics: String::from("127.0.0.1:7301"),
        peers: Vec::new(),
    };
    let hello = local_hello(&config, &[], 1024);
    assert_eq!(hello.semantic_min, PROTOCOL_VERSION);
    assert_eq!(hello.semantic_max, SEMANTIC_VERSION_V3);
    assert_eq!(
        hello.supported_features,
        FOLLOWER_READ_FEATURE | ATOMIC_BATCH_FEATURE
    );
}

#[test]
fn trap_only_follower_read_messages_require_the_follower_read_feature() {
    let negotiated = NegotiatedPeer {
        semantic_version: SEMANTIC_VERSION_V3,
        features: 0,
        max_peer_frame: 1024,
    };
    let ordinary = Message {
        proto_version: SEMANTIC_VERSION_V3,
        from: NodeId::new(1),
        to: NodeId::new(2),
        term: Term::new(1),
        kind: MessageKind::AppendReq(AppendRequest {
            prev_index: LogIndex::new(0),
            prev_term: Term::new(0),
            entries: Vec::new(),
            leader_commit: LogIndex::new(0),
            read_round: 0,
        }),
    };
    assert!(message_features_are_allowed(&ordinary, negotiated));
    let follower_read = Message {
        kind: MessageKind::FollowerReadRequest {
            request_id: 1,
            command_hash: 2,
        },
        ..ordinary
    };
    assert!(!message_features_are_allowed(&follower_read, negotiated));
}

#[test]
fn trap_cc_request_rejects_reads_and_multikey_commands() {
    assert!(explicit_write_kv(&ClientCommand::Get(b"key".to_vec())).is_err());
    assert!(
        explicit_write_kv(&ClientCommand::Del(vec![b"a".to_vec(), b"b".to_vec(),])).is_err()
    );
}

#[test]
fn trap_multi_queue_is_closed_and_does_not_expand_multikey_writes() {
    let queued = queue_transaction_command(&ClientCommand::SetKey {
        key: b"k".to_vec(),
        value: b"v".to_vec(),
        ttl: None,
        nx: false,
        xx: false,
    })
    .expect("SET is batchable");
    assert!(matches!(queued, KvCommand::SetKey { .. }));
    assert!(
        queue_transaction_command(&ClientCommand::Del(vec![b"a".to_vec(), b"b".to_vec(),]))
            .is_err()
    );
    assert!(queue_transaction_command(&ClientCommand::Request {
        client: 9,
        sequence: 1,
        command: Box::new(ClientCommand::SetNx {
            key: b"k".to_vec(),
            value: b"v".to_vec(),
        }),
    })
    .is_err());
}

#[test]
fn trap_dirty_transaction_never_proposes() {
    let mut transaction = ClientTransaction::Clean {
        commands: Vec::new(),
        translated: Vec::new(),
        encoded_bytes: 0,
    };
    let response = queue_client_transaction(
        &mut transaction,
        ClientCommand::Unknown(b"unsupported".to_vec()),
        test_limits(),
        0,
    );
    assert!(matches!(response, RespValue::Error(_)));
    assert!(matches!(transaction, ClientTransaction::Dirty));
    let exec = match Some(transaction).take() {
        Some(ClientTransaction::Dirty) => RespValue::Error(String::from("EXECABORT")),
        Some(ClientTransaction::Clean { .. }) => panic!("dirty transaction became clean"),
        None => panic!("transaction disappeared"),
    };
    assert_eq!(exec, RespValue::Error(String::from("EXECABORT")));
}

#[test]
fn trap_exec_disconnect_discards_queue() {
    let next_connection = {
        let mut transaction = ClientTransaction::Clean {
            commands: Vec::new(),
            translated: Vec::new(),
            encoded_bytes: 0,
        };
        assert_eq!(
            queue_client_transaction(
                &mut transaction,
                ClientCommand::SetKey {
                    key: b"k".to_vec(),
                    value: b"v".to_vec(),
                    ttl: None,
                    nx: false,
                    xx: false,
                },
                test_limits(),
                16,
            ),
            RespValue::Simple(String::from("QUEUED"))
        );
        assert!(matches!(transaction, ClientTransaction::Clean { .. }));
        None::<ClientTransaction>
    };
    assert!(next_connection.is_none());
}

#[test]
fn trap_exec_cannot_claim_reconnect_dedup_without_a_batch_envelope() {
    assert!(explicit_write_kv(&ClientCommand::Exec).is_err());
    assert!(explicit_write_kv(&ClientCommand::Multi).is_err());
    assert!(explicit_write_kv(&ClientCommand::Discard).is_err());
    let batch = ClientCommand::Batch(vec![ClientCommand::SetNx {
        key: b"k".to_vec(),
        value: b"v".to_vec(),
    }]);
    assert!(matches!(
        explicit_write_kv(&batch),
        Ok(KvCommand::Batch { .. })
    ));
}

#[test]
fn trap_v2_peer_never_serves_local_state_as_linearizable() {
    let negotiated = NegotiatedPeer {
        semantic_version: PROTOCOL_VERSION,
        features: 0,
        max_peer_frame: 1024,
    };
    let request = Message {
        proto_version: SEMANTIC_VERSION_V3,
        from: NodeId::new(2),
        to: NodeId::new(1),
        term: Term::new(1),
        kind: MessageKind::FollowerReadRequest {
            request_id: 1,
            command_hash: 2,
        },
    };
    assert!(!message_features_are_allowed(&request, negotiated));
}

#[test]
fn trap_capped_recording_is_a_labeled_replayable_prefix() {
    let (header, footer) = (40_u64, 24_u64);
    let cap = header.saturating_add(footer);
    let mut ledger = RecordLedger::create(header, footer, cap).expect("ledger");
    assert_eq!(
        ledger
            .append(Time::from_nanos(1), 32, footer)
            .expect("cap footer"),
        RecordAppend::Capped
    );
    ledger.capped(footer);
    assert_eq!(ledger.last_ordinal(), 0);
}

#[test]
fn trap_terminal_recording_footer_is_synced_and_labeled() {
    let mut ledger = RecordLedger::create(40, 24, 1024).expect("ledger");
    assert_eq!(
        ledger.append(Time::from_nanos(1), 32, 24).expect("record"),
        RecordAppend::Written
    );
    ledger.wrote(Time::from_nanos(1), 32).expect("record");
    ledger.finish(24).expect("synced terminal footer");
    assert_eq!(ledger.last_ordinal(), 1);
}

#[test]
fn trap_record_writer_rejects_nonmonotonic_transition_time() {
    let mut ledger = RecordLedger::create(40, 24, 1024).expect("ledger");
    assert_eq!(
        ledger
            .append(Time::from_nanos(2), 32, 24)
            .expect("first record"),
        RecordAppend::Written
    );
    ledger.wrote(Time::from_nanos(2), 32).expect("first record");
    let error = ledger
        .append(Time::from_nanos(1), 32, 24)
        .expect_err("timestamp regression must not become a CCIJ record");
    assert_eq!(error.kind, FaultKind::InvalidData);
    assert_eq!(ledger.last_ordinal(), 1);
}

#[test]
fn trap_bounded_run_can_finish_a_complete_recording() {
    let mut ledger = RecordLedger::create(40, 24, 1024).expect("ledger");
    ledger.finish(24).expect("synced complete footer");
    assert_eq!(ledger.last_ordinal(), 0);
    assert_eq!(
        parse_run_for(&[String::from("--run-for-ms"), String::from("1")])
            .expect("valid duration"),
        Some(1)
    );
    assert!(parse_run_for(&[String::from("--run-for-ms"), String::from("0")]).is_err());
}

#[test]
fn trap_record_required_refuses_unrecorded_mode() {
    assert_eq!(
        validate_record_options(None, false, true)
            .expect_err("required recorder without path")
            .kind,
        FaultKind::InvalidInput
    );
    assert!(validate_record_options(Some("run.ccij"), false, true).is_ok());
}
