//! How a node starts, serves and stops.
use ccdb::boot::{
    bootstrap_genesis, boot, check_compaction, same_log, torn_tail, BootStep, FoundCheckpoint,
};
use ccdb::fault::FaultKind;
use ccdb::files::{check_checked_dir, check_join_dir, reject_symlink};
use ccdb::hex::ClusterId;
use ccdb::host::{check_record_path, RecordLedger};
use ccdb::identity::{
    enforce_membership_lifecycle, mark_identity_lifecycle, serves_clients, DiskIdentity,
    LifecycleStep, IDENTITY_ACTIVE, IDENTITY_JOINING, IDENTITY_REMOVED,
};
use ccdb::ids::{LogIndex, NodeId, Term};
use ccdb::membership::MembershipState;
use ccdb::metrics::HostMetrics;
use ccdb::node_map::NodeMap;
use ccdb::node_set::NodeSet;
use ccdb::raft_types::{Entry, EntryKind, HardState};
use ccdb::recovery::{
    compact_verified_wal, ClusterPolicy, Configured, DurableRecord, Genesis, LogState, Origin, PolicyLimits,
    PublishedCheckpoint, RecoveredLog, SnapshotMark,
};
use ccdb::selfcheck::{check_step, CheckStep, FoundMark, Staging};
use ccdb::report::{
    render_down, render_metrics, Footprint, NodeStatus, StoreStats, Usage, METRICS_BYTE_CAP,
};

fn cluster() -> ClusterId {
    ClusterId::from_hex("00112233445566778899aabbccddeeff").expect("cluster id")
}

fn members(ids: &[u64]) -> MembershipState {
    let ids: Vec<NodeId> = ids.iter().map(|id| NodeId::new(*id)).collect();
    MembershipState::new(NodeSet::from_ids(&ids)).expect("membership")
}

fn policy() -> ClusterPolicy {
    ClusterPolicy {
        encoded: vec![1, 2, 3],
        hash: 7,
        limits: PolicyLimits {
            max_key_bytes: 1,
            max_value_bytes: 1,
            max_command_bytes: 1,
            max_reply_bytes: 1,
            max_batch_bytes: 1,
            max_batch_reply_bytes: 1,
            max_live_logical_bytes: 1,
            valid: true,
        },
    }
}

#[test]
fn trap_join_serves_only_after_active_ccid_fsync() {
    let mut joining = DiskIdentity::fresh(cluster(), 1, 7);
    joining.lifecycle = IDENTITY_JOINING;
    let present = members(&[1]).has(NodeId::new(1));
    assert!(!serves_clients(false, Some(joining.lifecycle), present));
    let active = mark_identity_lifecycle(&joining, IDENTITY_ACTIVE)
        .expect("durable Active transition")
        .expect("changed");
    assert!(serves_clients(false, Some(active.lifecycle), present));
}

#[test]
fn trap_removed_node_stops_serving_clients() {
    let identity = DiskIdentity::fresh(cluster(), 1, 7);
    assert!(serves_clients(
        false,
        Some(identity.lifecycle),
        members(&[1]).has(NodeId::new(1))
    ));
    let present = members(&[2]).has(NodeId::new(1));
    assert_eq!(
        enforce_membership_lifecycle(identity.lifecycle, present),
        LifecycleStep::MarkRemoved
    );
    let removed = mark_identity_lifecycle(&identity, IDENTITY_REMOVED)
        .expect("lifecycle")
        .expect("changed");
    assert!(!serves_clients(false, Some(removed.lifecycle), present));
    assert_eq!(removed.lifecycle, IDENTITY_REMOVED);
}

fn footprint() -> Footprint {
    let usage = Usage {
        current: 1,
        peak: 2,
        limit: 3,
    };
    Footprint {
        log: usage,
        snapshot_staging: usage,
        sessions: usage,
        session_tombstones: usage,
        pending_reads: usage,
        pending_client_routes: usage,
        memtables: usage,
        sst_metadata: usage,
        driver_effects: usage,
        outbound_frames: usage,
        checkpoint_builder: usage,
        compaction_builder: usage,
        driver_inputs: usage,
        armed_timers: 0,
        pending_io: 0,
        pending_peer_inputs: 0,
        pending_timer_inputs: 0,
        pending_io_inputs: 0,
        pending_client_inputs: 0,
        pending_input_bytes: 0,
        blocked: false,
    }
}

#[test]
fn trap_metrics_snapshot_is_bounded_and_covers_every_footprint() {
    let status = NodeStatus {
        id: 1,
        leader: None,
        commit: 0,
        applied: 0,
        voters: NodeSet::from_ids(&[NodeId::new(1)]),
        learners: NodeSet::new(),
        matched: NodeMap::new(),
        capabilities: NodeMap::new(),
    };
    let store = StoreStats {
        bloom_positives: 0,
        bloom_negatives: 0,
        manifest_rewrites: 0,
        compaction_jobs_started: 0,
        compaction_jobs_completed: 0,
        compaction_jobs_aborted: 0,
        expiry_proposals: 0,
        expiry_keys: 0,
    };
    let metrics = render_metrics(&HostMetrics::new(), 5, &status, &store, &[], &footprint(), 9);
    assert!(metrics.len() <= METRICS_BYTE_CAP);
    for resource in [
        "log",
        "snapshot_staging",
        "sessions",
        "session_tombstones",
        "pending_reads",
        "pending_client_routes",
        "memtables",
        "sst_metadata",
        "driver_effects",
        "outbound_frames",
        "checkpoint_builder",
        "compaction_builder",
        "driver_inputs",
    ] {
        for kind in ["current", "peak", "limit"] {
            assert!(
                metrics.contains(&format!(
                    "ccdb_footprint_bytes{{resource=\"{resource}\",kind=\"{kind}\"}}"
                )),
                "missing {resource}/{kind}"
            );
        }
    }
    for required in [
        "ccdb_block_reads_total",
        "ccdb_store_bloom_positives_total",
        "ccdb_store_manifest_rewrites_total",
        "ccdb_store_compactions_aborted_total",
        "ccdb_snapshots_received_total",
        "ccdb_expiry_keys_total",
        "ccdb_queue_rejections_total",
        "ccdb_storage_fault",
        "ccdb_peer_last_contact_age_seconds",
    ] {
        assert!(metrics.contains(required), "missing {required}");
    }
    assert!(!render_down().is_empty());
}

fn mark() -> SnapshotMark {
    SnapshotMark {
        index: LogIndex::new(3),
        term: Term::new(2),
        generation: 3,
        crc32c: 77,
    }
}

fn checkpoint() -> PublishedCheckpoint {
    PublishedCheckpoint {
        cluster_id: cluster(),
        applied_index: LogIndex::new(3),
        applied_term: Term::new(2),
        policy: policy(),
        crc32c: 77,
    }
}

fn restored_log(snapshot: Option<SnapshotMark>) -> LogState {
    LogState {
        genesis: Genesis {
            origin: Origin::Restore,
            cluster_id: cluster(),
            policy: policy(),
            membership: members(&[1]),
        },
        hard_state: HardState {
            term: Term::new(2),
            voted_for: Some(NodeId::new(1)),
        },
        entries: vec![Entry {
            term: Term::new(2),
            index: LogIndex::new(4),
            kind: EntryKind::Noop,
            payload: Vec::new(),
        }],
        snapshot,
    }
}

fn step(log: &LogState, found: &FoundCheckpoint) -> BootStep {
    boot(
        log,
        (LogIndex::new(3), Term::new(2)),
        1,
        &cluster(),
        &[1, 2, 3],
        &members(&[1]),
        100,
        found,
    )
}

fn read(manifest: Option<SnapshotMark>, checkpoint: PublishedCheckpoint) -> FoundCheckpoint {
    FoundCheckpoint::Listed {
        bytes: 10,
        checkpoint,
        membership: members(&[1, 2]),
        manifest,
    }
}

#[test]
fn trap_boot_restores_a_restore_origin_checkpoint_named_by_its_durable_mark() {
    let log = restored_log(Some(mark()));
    assert_eq!(
        step(&log, &FoundCheckpoint::Unseen),
        BootStep::Measure { generation: 3 }
    );
    assert_eq!(
        step(&log, &FoundCheckpoint::Measured { bytes: 10 }),
        BootStep::Read { generation: 3 }
    );
    let unlisted = FoundCheckpoint::Read {
        bytes: 10,
        checkpoint: checkpoint(),
        membership: members(&[1, 2]),
    };
    assert_eq!(
        step(&log, &unlisted),
        BootStep::ReadManifest { generation: 3 }
    );
    match step(&log, &read(Some(mark()), checkpoint())) {
        BootStep::Start { node, compact } => {
            assert!(compact);
            assert_eq!(node.membership, members(&[1, 2]));
            assert_eq!(node.entries, log.entries);
            assert_eq!(node.hard_state, log.hard_state);
            assert_eq!(node.log_base, (LogIndex::new(3), Term::new(2)));
        }
        _ => panic!("a verified checkpoint starts the node"),
    }
}

#[test]
fn boots_follow_no_foreign_checkpoint() {
    let log = restored_log(Some(mark()));
    for bytes in [0, 101] {
        assert!(matches!(
            step(&log, &FoundCheckpoint::Measured { bytes }),
            BootStep::Fail(error) if error.message == "published snapshot exceeds host limit"
        ));
    }
    let foreign = || PublishedCheckpoint {
        crc32c: 78,
        ..checkpoint()
    };
    let unlisted = FoundCheckpoint::Read {
        bytes: 10,
        checkpoint: foreign(),
        membership: members(&[1, 2]),
    };
    assert!(matches!(
        step(&log, &unlisted),
        BootStep::Fail(error) if error.message == "published snapshot disagrees with durable mark"
    ));
    assert!(matches!(
        step(&log, &read(Some(mark()), foreign())),
        BootStep::Fail(error) if error.message == "published snapshot disagrees with durable mark"
    ));
    assert!(matches!(
        step(&log, &read(None, checkpoint())),
        BootStep::Fail(_)
    ));
    let mut skewed = mark();
    skewed.generation = 4;
    assert!(matches!(
        step(&restored_log(Some(skewed)), &FoundCheckpoint::Unseen),
        BootStep::Fail(error) if error.message == "snapshot mark generation disagrees with index"
    ));
    let refused = boot(
        &log,
        (LogIndex::new(0), Term::new(0)),
        1,
        &cluster(),
        &[9],
        &members(&[1]),
        100,
        &FoundCheckpoint::Unseen,
    );
    assert!(matches!(
        refused,
        BootStep::Fail(error)
            if error.message == "WAL genesis does not match CCID/configured membership"
    ));
}

#[test]
fn unmarked_logs_start_from_their_genesis() {
    let log = restored_log(None);
    match step(&log, &FoundCheckpoint::Unseen) {
        BootStep::Start { node, compact } => {
            assert!(!compact);
            assert_eq!(node.membership, members(&[1]));
        }
        _ => panic!("an unmarked log starts the node"),
    }
    assert!(compact_verified_wal(&log).is_err());
    let genesis = bootstrap_genesis(&cluster(), &policy(), &members(&[1]));
    assert_eq!(genesis.origin, Origin::Bootstrap);
    assert_eq!(torn_tail(true, 12), Some(12));
    assert_eq!(torn_tail(false, 12), None);
}

#[test]
fn compacted_logs_say_the_same() {
    let log = restored_log(Some(mark()));
    let records = compact_verified_wal(&log).expect("records");
    assert_eq!(records.len(), 4);
    assert_eq!(records[1], DurableRecord::Hard(log.hard_state));
    assert_eq!(records[2], DurableRecord::InstalledSnapshotMark(mark()));
    let mut replayed = RecoveredLog {
        state: restored_log(Some(mark())),
        torn_tail_truncated: false,
        bytes_consumed: 40,
    };
    assert!(check_compaction(&log, &replayed).is_ok());
    replayed.torn_tail_truncated = true;
    assert!(check_compaction(&log, &replayed).is_err());
    replayed.torn_tail_truncated = false;
    replayed.state.entries.clear();
    assert!(!same_log(&replayed.state, &log));
    assert_eq!(
        check_compaction(&log, &replayed).expect_err("entries were lost").message,
        "compacted WAL does not recover the verified state"
    );
}

#[test]
fn trap_record_path_permissions_and_symlinks_are_rejected() {
    assert!(check_record_path(false, true, false).is_ok());
    RecordLedger::create(4, 4, 1024).expect("secure writer");
    assert_eq!(
        check_record_path(true, true, false)
            .expect_err("existing record path")
            .kind,
        FaultKind::AlreadyExists
    );
    assert_eq!(
        check_record_path(false, true, true)
            .expect_err("symlink parent")
            .kind,
        FaultKind::InvalidInput
    );
}

#[test]
fn trap_ccid_refuses_a_symlinked_data_directory_before_opening_state() {
    let error = reject_symlink(true, "/tmp/alias", "data directory").expect_err("symlink");
    assert_eq!(error.kind, FaultKind::InvalidInput);
    assert!(error.message.contains("symbolic link"));
}

#[test]
fn directories_are_checked_before_they_are_used() {
    assert!(check_join_dir("d", false, false).is_ok());
    assert_eq!(
        check_join_dir("d", false, true).expect_err("full").kind,
        FaultKind::AlreadyExists
    );
    assert!(check_join_dir("d", true, false).is_err());
    assert!(check_checked_dir(true, true).is_ok());
    assert_eq!(
        check_checked_dir(false, true).expect_err("absent").kind,
        FaultKind::NotFound
    );
    assert!(check_checked_dir(true, false).is_err());
}

fn checked(deep: bool, snapshot: Option<SnapshotMark>, staged: bool, found: &FoundMark) -> CheckStep {
    let log = Some(RecoveredLog {
        state: restored_log(snapshot),
        torn_tail_truncated: false,
        bytes_consumed: 40,
    });
    let configured = Some(Configured {
        cluster_id: cluster(),
        membership: members(&[1]),
    });
    let staging = Staging {
        exists: true,
        holds_files: staged,
    };
    check_step(deep, "d", &log, &configured, &[1, 2, 3], staging, 100, found)
}

fn why(step: CheckStep) -> String {
    match step {
        CheckStep::Fail(fault) => fault.message,
        other => panic!("no failure: {other:?}"),
    }
}

#[test]
fn checks_verify_what_they_report() {
    let unseen = FoundMark::Unseen;
    assert_eq!(
        checked(false, Some(mark()), true, &unseen),
        CheckStep::Report(
            "selfcheck data_dir=d wal_records=2 snapshot=marked snapshot_staging=present".to_owned()
        )
    );
    assert_eq!(
        checked(true, None, false, &unseen),
        CheckStep::Report(
            "selfcheck --deep data_dir=d wal_records=2 snapshot=none snapshot_staging=present"
                .to_owned()
        )
    );
    assert_eq!(
        why(checked(true, Some(mark()), true, &unseen)),
        "snapshot staging contains an incomplete restore"
    );
    assert_eq!(
        checked(true, Some(mark()), false, &unseen),
        CheckStep::Measure { generation: 3 }
    );
    assert_eq!(
        why(checked(
            true,
            Some(mark()),
            false,
            &FoundMark::Measured { bytes: 101 }
        )),
        "marked checkpoint exceeds host limit"
    );
    assert_eq!(
        checked(true, Some(mark()), false, &FoundMark::Measured { bytes: 100 }),
        CheckStep::Read { generation: 3 }
    );
    let mut altered = checkpoint();
    altered.applied_term = Term::new(9);
    let early = FoundMark::Read {
        bytes: 100,
        checkpoint: altered,
    };
    assert_eq!(
        why(checked(true, Some(mark()), false, &early)),
        "marked checkpoint disagrees with WAL"
    );
    let seen = FoundMark::Read {
        bytes: 100,
        checkpoint: checkpoint(),
    };
    assert_eq!(
        checked(true, Some(mark()), false, &seen),
        CheckStep::ReadManifest { generation: 3 }
    );
    let read = FoundMark::Listed {
        bytes: 100,
        checkpoint: checkpoint(),
        manifest: Some(mark()),
    };
    assert_eq!(
        checked(true, Some(mark()), false, &read),
        CheckStep::Report(
            "selfcheck --deep data_dir=d wal_records=2 snapshot=verified snapshot_staging=present"
                .to_owned()
        )
    );
    let unlisted = FoundMark::Listed {
        bytes: 100,
        checkpoint: checkpoint(),
        manifest: None,
    };
    assert!(matches!(
        checked(true, Some(mark()), false, &unlisted),
        CheckStep::Fail(_)
    ));
    let mut other = checkpoint();
    other.crc32c = 78;
    let changed = FoundMark::Listed {
        bytes: 100,
        checkpoint: other,
        manifest: Some(mark()),
    };
    assert_eq!(
        why(checked(true, Some(mark()), false, &changed)),
        "marked checkpoint disagrees with WAL"
    );
}

#[test]
fn checks_refuse_a_foreign_or_torn_log() {
    let staging = Staging {
        exists: false,
        holds_files: false,
    };
    let unseen = FoundMark::Unseen;
    let mut log = RecoveredLog {
        state: restored_log(None),
        torn_tail_truncated: true,
        bytes_consumed: 40,
    };
    let torn = Some(log);
    assert_eq!(
        why(check_step(false, "d", &torn, &None, &[1, 2, 3], staging, 100, &unseen)),
        "selfcheck refuses a WAL with an untruncated torn tail"
    );
    log = torn.expect("log");
    log.torn_tail_truncated = false;
    let whole = Some(log);
    let configured = Some(Configured {
        cluster_id: cluster(),
        membership: members(&[1, 2]),
    });
    assert_eq!(
        why(check_step(
            false,
            "d",
            &whole,
            &configured,
            &[1, 2, 3],
            staging,
            100,
            &unseen
        )),
        "selfcheck WAL genesis disagrees with config/identity"
    );
    assert_eq!(
        check_step(false, "d", &None, &configured, &[], staging, 0, &unseen),
        CheckStep::Report(
            "selfcheck data_dir=d wal_records=0 snapshot=none snapshot_staging=absent".to_owned()
        )
    );
}
