//! The node host: identity, listeners, configuration, backups and restores.
use ccdb::backup::{
    decode_backup_v2, encode_backup_v2, BackupProvenance, BackupV2, BACKUP_V2_HEADER_BYTES,
    BACKUP_VERSION,
};
use ccdb::boot::{boot, BootStep, FoundCheckpoint};
use ccdb::config::{parse_config, Config, Peer};
use ccdb::crc::crc32c;
use ccdb::fault::{Fault, FaultKind};
use ccdb::hex::ClusterId;
use ccdb::identity::{
    raise_identity_reader_floor, validate_identity_for_readers, DiskIdentity, Reader,
    IDENTITY_ACTIVE, IDENTITY_LEN, IDENTITY_REMOVED, MIN_SEMANTIC_READER, MIN_STORAGE_READER,
};
use ccdb::ids::{LogIndex, NodeId, Term, Time};
use ccdb::join::validate_join_policy;
use ccdb::legacy::{backup_legacy_node_clone, read_legacy_archive};
use ccdb::membership::{MembershipState, PeerAddress};
use ccdb::node_set::NodeSet;
use ccdb::paths::{identity_path, is_staged_transfer, latest_published_generation};
use ccdb::recovery::{
    ClusterPolicy, DurableRecord, Genesis, LogState, Origin, PolicyLimits, PublishedCheckpoint,
    RecoveredLog, SnapshotMark,
};
use ccdb::report::metrics_dashboard;
use ccdb::restore::{
    backup_data_dir, check_restore_input, check_restore_request, import_legacy_backup,
    imported_bundle, restore_backup, restore_sessions, restored_mark, restored_records,
    validate_restore_capabilities, HostLimits, LegacyImport, LogicalEntry, LogicalSnapshot,
};
use ccdb::raft_membership::LeadershipTransferState;
use ccdb::raft_types::HardState;
use ccdb::routes::{
    unsafe_listener_warning, validate_listener_safety, validate_resolved_listener, Resolved,
};

const TEST_CLUSTER_ID: &str = "00112233445566778899aabbccddeeff";

fn test_cluster_id() -> ClusterId {
    ClusterId::from_hex(TEST_CLUSTER_ID).expect("test cluster id")
}

fn test_config(directory: &str) -> Config {
    Config {
        id: 1,
        cluster_id: test_cluster_id(),
        data_dir: String::from(directory),
        listen_client: String::from("127.0.0.1:7101"),
        listen_peer: String::from("127.0.0.1:7201"),
        listen_metrics: String::from("127.0.0.1:7301"),
        peers: vec![Peer {
            id: 1,
            address: String::from("127.0.0.1:7201"),
        }],
    }
}

fn test_policy() -> ClusterPolicy {
    ClusterPolicy {
        encoded: vec![1, 2, 3, 4],
        hash: 0x5eed,
        limits: PolicyLimits {
            max_key_bytes: 1024,
            max_value_bytes: 65_536,
            max_command_bytes: 131_072,
            max_reply_bytes: 131_072,
            max_batch_bytes: 131_072,
            max_batch_reply_bytes: 131_072,
            max_live_logical_bytes: 1 << 30,
            valid: true,
        },
    }
}

fn test_limits() -> HostLimits {
    HostLimits {
        max_snapshot_bytes: 1 << 30,
        valid: true,
    }
}

fn test_reader(config: &Config, storage: u16, semantic: u16) -> Reader {
    Reader {
        node_id: config.id,
        cluster_id: config.cluster_id,
        policy_hash: test_policy().hash,
        max_storage_reader: storage,
        max_semantic_reader: semantic,
    }
}

fn fresh_identity(node: u64) -> DiskIdentity {
    DiskIdentity::fresh(test_cluster_id(), node, test_policy().hash)
}

fn validate_identity(config: &Config, identity: DiskIdentity) -> Result<(), ccdb::fault::Fault> {
    validate_identity_for_readers(
        false,
        true,
        &identity.encode(),
        &test_reader(config, MIN_STORAGE_READER, MIN_SEMANTIC_READER),
    )
}

fn sample_snapshot() -> LogicalSnapshot {
    LogicalSnapshot {
        cluster_id: test_cluster_id(),
        policy: test_policy(),
        membership: MembershipState::new(NodeSet::from_ids(&[NodeId::new(1)])).expect("membership"),
        entries: vec![LogicalEntry {
            key: b"sample".to_vec(),
            sequence: 1,
            value: b"value".to_vec(),
            deadline: Some(Time::from_nanos(u64::MAX)),
        }],
        store_sequence: 1,
        applied_index: LogIndex::new(3),
        applied_term: Term::new(2),
        last_leader_time: Time::from_nanos(9),
        sessions: b"sessions".to_vec(),
        leadership_transfer: None,
    }
}

fn sample_logical_backup() -> BackupV2 {
    BackupV2 {
        source_cluster_id: test_cluster_id(),
        source_index: LogIndex::new(3),
        source_term: Term::new(2),
        source_last_leader_time: Time::from_nanos(9),
        source_policy_hash: test_policy().hash,
        source_min_semantic: MIN_SEMANTIC_READER,
        source_active_features: 0,
        checkpoint: b"the bytes of a checkpoint".to_vec(),
        provenance: BackupProvenance::LogicalCluster,
    }
}

fn resolved(address: PeerAddress, shown: &str) -> Resolved {
    Resolved {
        address,
        shown: String::from(shown),
    }
}

fn v4(ip: [u8; 4], port: u16) -> PeerAddress {
    PeerAddress::V4 { ip, port }
}

#[test]
fn trap_join_rejects_foreign_cluster_data() {
    let config = test_config("/tmp/cc-node-identity");
    assert!(validate_identity(&config, fresh_identity(1)).is_ok());
    let mut wrong_node = config.clone();
    wrong_node.id = 2;
    assert_eq!(
        validate_identity(&wrong_node, fresh_identity(1))
            .expect_err("node mismatch")
            .kind,
        FaultKind::InvalidData
    );
    let mut wrong_cluster = config;
    wrong_cluster.cluster_id =
        ClusterId::from_hex("11112233445566778899aabbccddeeff").expect("cluster id");
    assert_eq!(
        validate_identity(&wrong_cluster, fresh_identity(1))
            .expect_err("cluster mismatch")
            .kind,
        FaultKind::InvalidData
    );
}

#[test]
fn trap_join_rejects_unhonorable_cluster_policy_before_identity_publish() {
    assert_eq!(
        validate_join_policy(&[1, 2, 3, 5], &test_policy().encoded)
            .expect_err("policy drift")
            .kind,
        FaultKind::InvalidData
    );
    assert!(validate_join_policy(&[1, 2, 3, 4], &test_policy().encoded).is_ok());
}

#[test]
fn trap_cluster_id_has_one_nonzero_canonical_text_form() {
    assert!(ClusterId::from_hex(TEST_CLUSTER_ID).is_ok());
    assert!(ClusterId::from_hex("00112233445566778899AABBCCDDEEFF").is_err());
    assert!(ClusterId::from_hex("00112233445566778899aabbccddeef").is_err());
    assert!(ClusterId::from_hex("00000000000000000000000000000000").is_err());
    assert_eq!(test_cluster_id().to_text(), TEST_CLUSTER_ID);
}

#[test]
fn trap_removed_membership_forces_terminal_ccid_before_listen() {
    let identity = fresh_identity(7);
    let bytes = identity.encode();
    assert_eq!(bytes.len(), IDENTITY_LEN);
    assert_eq!(
        DiskIdentity::decode(&bytes).expect("decode identity"),
        identity
    );
    let mut corrupt = bytes;
    corrupt[31] ^= 1;
    assert!(DiskIdentity::decode(&corrupt).is_err());

    let removed = DiskIdentity {
        lifecycle: IDENTITY_REMOVED,
        ..fresh_identity(1)
    };
    assert_eq!(
        validate_identity(&test_config("/tmp/cc-node-removed"), removed)
            .expect_err("removed is terminal")
            .kind,
        FaultKind::PermissionDenied
    );
}

#[test]
fn trap_ccid_refuses_future_reader_before_opening_state() {
    let future = DiskIdentity {
        min_storage_reader: MIN_STORAGE_READER.saturating_add(1),
        migration_epoch: 1,
        ..fresh_identity(1)
    };
    let error = validate_identity(&test_config("/tmp/cc-node-future-reader"), future)
        .expect_err("future storage reader must be refused");
    assert_eq!(error.kind, FaultKind::InvalidData);
}

#[test]
fn trap_non_loopback_bind_requires_the_flag() {
    let client = [resolved(v4([127, 0, 0, 1], 7101), "127.0.0.1:7101")];
    let peer = [resolved(v4([0, 0, 0, 0], 7201), "0.0.0.0:7201")];
    let metrics = [resolved(v4([127, 0, 0, 1], 7301), "127.0.0.1:7301")];
    assert_eq!(
        validate_listener_safety(&client, &peer, &metrics, false)
            .expect_err("unsafe listener must be refused")
            .kind,
        FaultKind::PermissionDenied
    );
    assert!(validate_listener_safety(&client, &peer, &metrics, true).is_ok());
}

#[test]
fn trap_hostname_with_any_nonloopback_answer_is_unsafe() {
    let answers = [
        resolved(v4([127, 0, 0, 1], 7101), "127.0.0.1:7101"),
        resolved(v4([192, 0, 2, 1], 7101), "192.0.2.1:7101"),
    ];
    assert_eq!(
        validate_resolved_listener("client", &answers, false)
            .expect_err("one unsafe answer makes the hostname unsafe")
            .kind,
        FaultKind::PermissionDenied
    );
    assert!(validate_resolved_listener("client", &answers, true).is_ok());
}

#[test]
fn trap_metrics_listener_obeys_bind_safety() {
    let client = [resolved(v4([127, 0, 0, 1], 7101), "127.0.0.1:7101")];
    let peer = [resolved(v4([127, 0, 0, 1], 7201), "127.0.0.1:7201")];
    let metrics = [resolved(
        PeerAddress::V6 {
            ip: [0; 16],
            port: 7301,
        },
        "[::]:7301",
    )];
    assert_eq!(
        validate_listener_safety(&client, &peer, &metrics, false)
            .expect_err("unsafe metrics listener")
            .kind,
        FaultKind::PermissionDenied
    );
    assert!(validate_listener_safety(&client, &peer, &metrics, true).is_ok());
}

#[test]
fn trap_storage_marker_defines_downgrade_boundary() {
    let config = test_config("/tmp/cc-node-storage-marker");
    let old_identity = DiskIdentity {
        min_storage_reader: 1,
        min_semantic_reader: 2,
        ..fresh_identity(1)
    };
    validate_identity_for_readers(
        false,
        true,
        &old_identity.encode(),
        &test_reader(&config, 1, 2),
    )
    .expect("old reader before marker");

    let raised = raise_identity_reader_floor(&old_identity, Some(2), None)
        .expect("publish storage fence")
        .expect("raised identity");
    let raised = DiskIdentity::decode(&raised.encode()).expect("decode raised identity");
    assert_eq!(raised.min_storage_reader, 2);
    assert_eq!(raised.migration_epoch, old_identity.migration_epoch + 1);
    assert_eq!(
        validate_identity_for_readers(
            false,
            true,
            &raised.encode(),
            &test_reader(&config, 1, 2)
        )
        .expect_err("old reader after marker")
        .kind,
        FaultKind::InvalidData
    );
}

#[test]
fn trap_old_build_refuses_new_directory_before_mutation() {
    let config = test_config("/tmp/cc-node-old-reader-refusal");
    let identity = DiskIdentity {
        min_storage_reader: 2,
        min_semantic_reader: 3,
        migration_epoch: 7,
        ..fresh_identity(1)
    };
    assert!(validate_identity_for_readers(
        false,
        true,
        &identity.encode(),
        &test_reader(&config, 1, 2)
    )
    .is_err());
}

#[test]
fn trap_rolling_upgrade_rejects_cluster_policy_drift() {
    let drifted = DiskIdentity {
        policy_hash: test_policy().hash + 1,
        ..fresh_identity(1)
    };
    assert_eq!(
        validate_identity(&test_config("/tmp/cc-node-policy-drift"), drifted)
            .expect_err("policy drift")
            .kind,
        FaultKind::InvalidData
    );
}

#[test]
fn trap_unsafe_warning_names_actual_listener() {
    assert_eq!(
        unsafe_listener_warning("peer", &v4([0, 0, 0, 0], 7201), "0.0.0.0:7201"),
        Some(String::from(
            "ccdb warning listener=peer address=0.0.0.0:7201 unauthenticated=true"
        ))
    );
    assert_eq!(
        unsafe_listener_warning("peer", &v4([127, 0, 0, 1], 7201), "127.0.0.1:7201"),
        None
    );
}

#[test]
fn trap_pre_upgrade_data_dir_is_refused_before_writes() {
    let config = test_config("/tmp/cc-node-pre-n1");
    let error = validate_identity_for_readers(
        true,
        false,
        &[],
        &test_reader(&config, MIN_STORAGE_READER, MIN_SEMANTIC_READER),
    )
    .expect_err("legacy directory must be refused");
    assert_eq!(error.kind, FaultKind::InvalidData);
}

#[test]
fn trap_strict_config_rejects_defaults_and_duplicate_identity() {
    let known = vec![
        String::from("127.0.0.1:7101"),
        String::from("127.0.0.1:7201"),
        String::from("127.0.0.1:7301"),
    ];
    assert!(parse_config("[node]\nid = 1\ndata_dir = \"/tmp/node\"\n", &known).is_err());
    let duplicate = "[node]\nid = 1\nid = 2\ncluster_id = \"00112233445566778899aabbccddeeff\"\ndata_dir = \"/tmp/node\"\nlisten_client = \"127.0.0.1:7101\"\nlisten_peer = \"127.0.0.1:7201\"\nlisten_metrics = \"127.0.0.1:7301\"\npeer_nodes = \"127.0.0.1:7201\"\n";
    assert!(parse_config(duplicate, &known).is_err());
    let single = duplicate.replace("id = 2\n", "");
    assert_eq!(
        parse_config(&single, &known).expect("one identity"),
        test_config("/tmp/node")
    );
}

#[test]
fn trap_restore_creates_fresh_cluster_identity() {
    let snapshot = sample_snapshot();
    let mark = SnapshotMark {
        index: LogIndex::new(3),
        term: Term::new(2),
        generation: 3,
        crc32c: 7,
    };
    let backup = backup_data_dir(&fresh_identity(1), &mark, b"checkpoint".to_vec(), &snapshot);
    let archive = encode_backup_v2(&backup).expect("backup");
    let decoded = decode_backup_v2(&archive, Ok(snapshot.facts())).expect("decode");
    let fresh_cluster =
        ClusterId::from_hex("11112233445566778899aabbccddeeff").expect("fresh cluster");
    let plan = restore_backup(
        &decoded,
        &snapshot,
        &fresh_cluster,
        2,
        "/tmp/restored",
        Time::from_nanos(10),
        &test_limits(),
        Ok(b"kept".to_vec()),
    )
    .expect("restore");
    assert_eq!(plan.snapshot.entries.len(), 1);
    assert_eq!(plan.identity.cluster_id, fresh_cluster);
    assert_eq!(plan.identity.node_id, 2);
    assert_ne!(plan.identity.encode(), fresh_identity(1).encode());
}

#[test]
fn restored_nodes_boot() {
    let mut snapshot = sample_snapshot();
    snapshot.membership.active_features = 0;
    let mark = SnapshotMark {
        index: LogIndex::new(3),
        term: Term::new(2),
        generation: 3,
        crc32c: 7,
    };
    let backup = backup_data_dir(&fresh_identity(1), &mark, b"checkpoint".to_vec(), &snapshot);
    let fresh = ClusterId::from_hex("11112233445566778899aabbccddeeff").expect("fresh cluster");
    let plan = restore_backup(
        &backup,
        &snapshot,
        &fresh,
        2,
        "/tmp/restored",
        Time::from_nanos(10),
        &test_limits(),
        Ok(b"kept".to_vec()),
    )
    .expect("restore");
    let mut records = restored_records(&plan.snapshot, 9).into_iter();
    let genesis = match records.next() {
        Some(DurableRecord::Genesis(genesis)) => genesis,
        other => panic!("no genesis: {other:?}"),
    };
    assert_eq!(genesis.origin, Origin::Restore);
    assert_eq!(
        records.next(),
        Some(DurableRecord::InstalledSnapshotMark(restored_mark(9)))
    );
    assert_eq!(records.next(), None);
    let log = LogState {
        genesis,
        hard_state: HardState {
            term: Term::new(1),
            voted_for: None,
        },
        entries: Vec::new(),
        snapshot: Some(restored_mark(9)),
    };
    let configured = MembershipState::new(NodeSet::from_ids(&[NodeId::new(2)])).expect("members");
    let found = FoundCheckpoint::Listed {
        bytes: 1,
        checkpoint: PublishedCheckpoint {
            cluster_id: fresh,
            applied_index: plan.snapshot.applied_index,
            applied_term: plan.snapshot.applied_term,
            policy: plan.snapshot.policy.clone(),
            crc32c: 9,
        },
        membership: plan.snapshot.membership.clone(),
        manifest: Some(restored_mark(9)),
    };
    let base = (LogIndex::new(1), Term::new(1));
    let policy = plan.snapshot.policy.encoded.clone();
    match boot(&log, base, 2, &fresh, &policy, &configured, 10, &found) {
        BootStep::Start { node, compact } => {
            assert!(compact);
            assert_eq!(node.membership, plan.snapshot.membership);
            assert_eq!(node.log_base, base);
        }
        other => panic!("the restored node starts: {other:?}"),
    }
}

#[test]
fn trap_backup_is_one_consistent_applied_index() {
    let backup = sample_logical_backup();
    let checkpoint = sample_snapshot();
    let decoded = decode_backup_v2(
        &encode_backup_v2(&backup).expect("CCBK"),
        Ok(checkpoint.facts()),
    )
    .expect("decode CCBK");
    assert_eq!(decoded.source_index, checkpoint.applied_index);
    assert_eq!(decoded.source_term, checkpoint.applied_term);
    assert_eq!(
        decoded.source_last_leader_time,
        checkpoint.last_leader_time
    );
    let mut later = sample_snapshot();
    later.applied_index = LogIndex::new(4);
    assert!(decode_backup_v2(
        &encode_backup_v2(&backup).expect("CCBK"),
        Ok(later.facts())
    )
    .is_err());
}

#[test]
fn trap_cluster_policy_hash_matches_genesis_ccid_and_snapshot() {
    let backup = sample_logical_backup();
    let snapshot = sample_snapshot();
    let identity =
        DiskIdentity::fresh(backup.source_cluster_id, 1, snapshot.facts().policy_hash);
    let genesis = Genesis {
        origin: Origin::Bootstrap,
        cluster_id: backup.source_cluster_id,
        policy: test_policy(),
        membership: sample_snapshot().membership,
    };
    assert_eq!(identity.policy_hash, genesis.policy.hash);
    assert_eq!(identity.policy_hash, snapshot.policy.hash);
    assert_eq!(backup.source_policy_hash, identity.policy_hash);
}

#[test]
fn trap_restore_validates_every_checkpoint_record_crc() {
    let mut backup = sample_logical_backup();
    let record = 83.min(backup.checkpoint.len() - 1);
    backup.checkpoint[record] ^= 1;
    let bundle = encode_backup_v2(&backup).expect("outer checksums recomputed");
    let error = decode_backup_v2(&bundle, Err("checkpoint record checksum".to_owned()))
        .expect_err("damaged checkpoint");
    assert_eq!(error.kind, FaultKind::Other);
    assert_eq!(error.message, "checkpoint record checksum");
}

#[test]
fn trap_restore_rejects_oversized_or_trailing_bundle() {
    let facts = sample_snapshot().facts();
    let mut trailing = encode_backup_v2(&sample_logical_backup()).expect("CCBK");
    trailing.push(0);
    assert!(decode_backup_v2(&trailing, Ok(facts)).is_err());

    let mut oversized = encode_backup_v2(&sample_logical_backup()).expect("CCBK");
    oversized[64..72].copy_from_slice(&u64::MAX.to_le_bytes());
    let header_crc_at = BACKUP_V2_HEADER_BYTES - 4;
    oversized[header_crc_at..BACKUP_V2_HEADER_BYTES].fill(0);
    let checksum = crc32c(&oversized[..BACKUP_V2_HEADER_BYTES]);
    oversized[header_crc_at..BACKUP_V2_HEADER_BYTES].copy_from_slice(&checksum.to_le_bytes());
    assert!(decode_backup_v2(&oversized, Ok(facts)).is_err());
}

#[test]
fn trap_restore_rejects_source_cluster_id_reuse() {
    let error = restore_backup(
        &sample_logical_backup(),
        &sample_snapshot(),
        &test_cluster_id(),
        2,
        "/tmp/target",
        Time::from_nanos(10),
        &test_limits(),
        Ok(b"kept".to_vec()),
    )
    .expect_err("source identity reuse");
    assert_eq!(error.kind, FaultKind::InvalidInput);
}

#[test]
fn trap_restore_rejects_unsupported_active_feature() {
    let mut backup = sample_logical_backup();
    backup.source_active_features = 1_u64 << 63;
    let snapshot = sample_snapshot();
    assert_eq!(
        validate_restore_capabilities(
            &backup,
            &snapshot.policy,
            snapshot.membership.active_features,
            &test_limits()
        )
        .expect_err("unknown feature")
        .kind,
        FaultKind::InvalidInput
    );
}

#[test]
fn trap_restore_rejects_host_that_cannot_honor_cluster_policy() {
    let backup = sample_logical_backup();
    let mut snapshot = sample_snapshot();
    assert!(validate_restore_capabilities(&backup, &snapshot.policy, 0, &test_limits()).is_ok());
    snapshot.policy.limits.max_live_logical_bytes =
        test_limits().max_snapshot_bytes.saturating_add(1);
    assert_eq!(
        validate_restore_capabilities(&backup, &snapshot.policy, 0, &test_limits())
            .expect_err("unhonorable policy")
            .kind,
        FaultKind::InvalidInput
    );
}

#[test]
fn trap_backup_and_restore_paths_reject_symlinks_and_overwrite() {
    let fresh = ClusterId::from_hex("33332233445566778899aabbccddeeff").expect("fresh");
    assert_eq!(
        check_restore_request(&fresh, 3, true)
            .expect_err("overwrite")
            .kind,
        FaultKind::AlreadyExists
    );
    assert!(check_restore_request(&fresh, 3, false).is_ok());
    assert_eq!(
        check_restore_input(false, 100)
            .expect_err("symlink input")
            .kind,
        FaultKind::InvalidInput
    );
    assert!(check_restore_input(true, 100).is_ok());
}

#[test]
fn trap_restore_preserves_ttl_time_floor() {
    let backup = sample_logical_backup();
    let fresh = ClusterId::from_hex("44442233445566778899aabbccddeeff").expect("fresh");
    let plan = restore_backup(
        &backup,
        &sample_snapshot(),
        &fresh,
        4,
        "/tmp/restored",
        Time::from_nanos(1),
        &test_limits(),
        Ok(b"kept".to_vec()),
    )
    .expect("restore");
    assert!(plan.snapshot.last_leader_time >= backup.source_last_leader_time);
    assert_eq!(plan.snapshot.entries.len(), 1);
    assert_eq!(
        plan.snapshot.entries[0].deadline,
        Some(Time::from_nanos(u64::MAX))
    );
}

#[test]
fn trap_restore_never_clones_node_identity() {
    let backup = sample_logical_backup();
    let fresh = ClusterId::from_hex("55552233445566778899aabbccddeeff").expect("fresh");
    let restored = DiskIdentity::fresh(fresh, 55, test_policy().hash);
    assert_ne!(restored.cluster_id, backup.source_cluster_id);
    assert_ne!(restored.node_id, 1);
    assert_eq!(restored.lifecycle, IDENTITY_ACTIVE);
}

#[test]
fn golden_ccbk_v2() {
    let expected = sample_logical_backup();
    let bytes = encode_backup_v2(&expected).expect("encode logical backup");
    let decoded = decode_backup_v2(&bytes, Ok(sample_snapshot().facts()))
        .expect("decode logical backup");
    assert_eq!(decoded.source_cluster_id, expected.source_cluster_id);
    assert_eq!(decoded.source_index, expected.source_index);
    assert_eq!(decoded.source_term, expected.source_term);
    assert_eq!(decoded.checkpoint, expected.checkpoint);
    assert!(decoded.counts_as_cluster_complete());
}

#[test]
fn trap_backup_recovery_is_not_reported_as_old_binary_downgrade() {
    let archive_bytes = encode_backup_v2(&sample_logical_backup()).expect("CCBK v2");
    assert_eq!(
        u16::from_le_bytes(archive_bytes[4..6].try_into().expect("version")),
        BACKUP_VERSION,
        "the recovery path is the current logical CCBK v2 format"
    );
    let decoded = decode_backup_v2(&archive_bytes, Ok(sample_snapshot().facts()))
        .expect("logical backup");
    assert_eq!(decoded.provenance, BackupProvenance::LogicalCluster);
    let fresh_cluster =
        ClusterId::from_hex("77772233445566778899aabbccddeeff").expect("fresh cluster");
    let plan = restore_backup(
        &decoded,
        &sample_snapshot(),
        &fresh_cluster,
        7,
        "/tmp/fresh",
        Time::from_nanos(10),
        &test_limits(),
        Ok(b"kept".to_vec()),
    )
    .expect("fresh recovery");
    assert_eq!(plan.identity.cluster_id, fresh_cluster);
    assert_ne!(plan.identity.cluster_id, decoded.source_cluster_id);
}

fn legacy_config() -> String {
    format!("[node]\nid = 1\ncluster_id = \"{TEST_CLUSTER_ID}\"\ndata_dir = \"/tmp/source\"\nlisten_client = \"127.0.0.1:7101\"\nlisten_peer = \"127.0.0.1:7201\"\nlisten_metrics = \"127.0.0.1:7301\"\npeer_nodes = \"127.0.0.1:7201\"\n")
}

fn legacy_archive() -> Vec<u8> {
    backup_legacy_node_clone(
        &fresh_identity(1).encode(),
        legacy_config().as_bytes(),
        b"the bytes of a write-ahead log",
        true,
    )
    .expect("legacy archive")
}

fn imported(log: Result<RecoveredLog, String>) -> Result<LegacyImport, Fault> {
    let archive = read_legacy_archive(&legacy_archive()).expect("archive");
    let known = vec![
        String::from("127.0.0.1:7101"),
        String::from("127.0.0.1:7201"),
        String::from("127.0.0.1:7301"),
    ];
    import_legacy_backup(&archive, &known, &test_policy(), b"none", log)
}

fn legacy_import() -> LegacyImport {
    let log = RecoveredLog {
        state: LogState {
            genesis: Genesis {
                origin: Origin::Bootstrap,
                cluster_id: test_cluster_id(),
                policy: test_policy(),
                membership: sample_snapshot().membership,
            },
            hard_state: HardState {
                term: Term::new(1),
                voted_for: None,
            },
            entries: Vec::new(),
            snapshot: None,
        },
        torn_tail_truncated: false,
        bytes_consumed: 30,
    };
    imported(Ok(log)).expect("explicit legacy import")
}

#[test]
fn trap_legacy_backup_is_explicitly_refused() {
    let error = decode_backup_v2(&legacy_archive(), Err(String::new()))
        .expect_err("legacy archive must be refused");
    assert_eq!(error.kind, FaultKind::InvalidData);
    assert_eq!(
        error.message,
        "legacy node backup requires an explicit legacy importer"
    );
}

#[test]
fn trap_legacy_backup_import_never_reuses_node_identity() {
    let import = legacy_import();
    let imported = imported_bundle(&import, b"checkpoint".to_vec());
    let fresh_cluster =
        ClusterId::from_hex("22222233445566778899aabbccddeeff").expect("fresh cluster");
    let plan = restore_backup(
        &imported,
        &import.snapshot,
        &fresh_cluster,
        77,
        "/tmp/restored",
        Time::from_nanos(10),
        &test_limits(),
        Ok(b"kept".to_vec()),
    )
    .expect("fresh restore");
    assert_eq!(plan.identity.cluster_id, fresh_cluster);
    assert_eq!(plan.identity.node_id, 77);
    assert_ne!(plan.identity.cluster_id, imported.source_cluster_id);
}

#[test]
fn imports_bring_no_session_and_hand_on_why_a_log_is_unreadable() {
    let import = legacy_import();
    assert_eq!(import.snapshot.sessions, b"none");
    assert_eq!(import.snapshot.leadership_transfer, None);
    let error = imported(Err("record 3: bad checksum".to_owned())).expect_err("unreadable");
    assert_eq!(error.kind, FaultKind::Other);
    assert_eq!(error.message, "record 3: bad checksum");
}

#[test]
fn restores_filter_sessions_at_the_time_of_the_restore() {
    let backup = sample_logical_backup();
    let mut snapshot = sample_snapshot();
    let intent = LeadershipTransferState {
        intent_index: LogIndex::new(2),
        target: NodeId::new(1),
        deadline: Time::from_nanos(5),
        finishing: false,
        admin_session: None,
    };
    snapshot.leadership_transfer = Some(intent);
    let fresh = ClusterId::from_hex("66662233445566778899aabbccddeeff").expect("fresh");
    let limits = test_limits();
    for (now, then) in [(4, 9), (12, 12)] {
        let now = Time::from_nanos(now);
        let request = restore_sessions(&backup, &snapshot, &fresh, now, &limits).expect("request");
        assert_eq!(request.sessions, b"sessions");
        assert_eq!(request.policy, snapshot.policy);
        assert_eq!(request.time, Time::from_nanos(then));
        let kept = Ok(b"fewer".to_vec());
        let plan = restore_backup(&backup, &snapshot, &fresh, 2, "/tmp/r", now, &limits, kept)
            .expect("plan");
        assert_eq!(plan.snapshot.sessions, b"fewer");
        assert_eq!(plan.snapshot.last_leader_time, request.time);
        assert_eq!(plan.snapshot.leadership_transfer, Some(intent));
    }
    let now = Time::from_nanos(10);
    let broken = Err("session table overflow".to_owned());
    let error = restore_backup(&backup, &snapshot, &fresh, 2, "/tmp/r", now, &limits, broken)
        .expect_err("no table");
    assert_eq!(error.kind, FaultKind::Other);
    assert_eq!(error.message, "session table overflow");
    let same = restore_sessions(&backup, &snapshot, &test_cluster_id(), now, &limits)
        .expect_err("reused identity");
    assert_eq!(same.message, "restore must use a fresh cluster id");
}

#[test]
fn trap_legacy_backup_is_not_counted_as_cluster_complete() {
    let imported = imported_bundle(&legacy_import(), b"checkpoint".to_vec());
    assert_eq!(imported.provenance, BackupProvenance::LegacyNode);
    assert!(!imported.counts_as_cluster_complete());
}

#[test]
fn trap_metrics_page_remains_local_and_dependency_free() {
    let dashboard = metrics_dashboard();
    assert!(dashboard.contains("fetch('/metrics')"));
    assert!(!dashboard.contains("https://"));
}

#[test]
fn trap_snapshot_recovery_selects_only_the_newest_published_generation() {
    let names = vec![
        String::from("snapshot.4.ccsn"),
        String::from("snapshot.9.ccsn"),
        String::from("staging"),
        String::from("snapshot.bad.ccsn"),
    ];
    assert_eq!(latest_published_generation(&names), Some(9));
    assert!(
        is_staged_transfer("stage.12.ccsn"),
        "partial transfers restart from zero after boot"
    );
    assert!(!is_staged_transfer("snapshot.9.ccsn"));
    assert_eq!(identity_path("/tmp/node"), "/tmp/node/identity.ccid");
}
