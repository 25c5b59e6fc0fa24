//! What holds of the host as a whole, on concrete values.
use ccdb::backup::{decode_backup_v2, encode_backup_v2, BackupProvenance, BackupV2, CheckpointFacts};
use ccdb::boot::{boot, BootStep, FoundCheckpoint};
use ccdb::config::{
    config_addresses, find_setting, list_entries, parse_config, read_settings, Config, Peer,
};
use ccdb::config_text::{compose_config, fresh_restore_config, init_config, init_node_dir};
use ccdb::fault::{fault, FaultKind};
use ccdb::files::{
    initialize_data_dir, reject_symlink, replace_identity, write_new_backup, Place,
};
use ccdb::hex::{decode_hex, hex_bytes, ClusterId};
use ccdb::host::{
    accept_step, check_record_path, write_file, AcceptStep, Accepted, RecordLedger, WritePlan,
};
use ccdb::identity::{
    enforce_membership_lifecycle, mark_identity_lifecycle, raise_identity_reader_floor,
    serves_clients, DiskIdentity, LifecycleStep, IDENTITY_ACTIVE, IDENTITY_JOINING,
    IDENTITY_REMOVED,
};
use ccdb::ids::{LogIndex, NodeId, Seed, Term, Time};
use ccdb::join::{
    info_field, join_client_listener, join_config, join_metrics_listener, join_request,
    joining_genesis, joining_identity, member_address_texts, parse_member_ids, prepare_join_config, resume_join,
    status_field, Endpoint,
};
use ccdb::legacy::{backup_legacy_node_clone, read_legacy_archive};
use ccdb::membership::{MembershipState, PeerAddress};
use ccdb::metrics::{EffectOutcome, HostEffect, HostMetrics};
use ccdb::model::{check, ModelConfig, ModelError};
use ccdb::node_map::NodeMap;
use ccdb::node_set::NodeSet;
use ccdb::paths::{
    manifest_path, published_snapshot_path, rename_step, snapshot_stage_path, FileId, RenameStep,
};
use ccdb::raft_types::HardState;
use ccdb::recovery::{
    bootstrap_membership_matches, check_mark, check_published_size, check_staging,
    snapshot_after_bytes, ClusterPolicy, LogState, PolicyLimits, SnapshotMark,
};
use ccdb::redirect::{
    begin_search, compose_command, read_resp_value, request_info, request_info_follow,
    request_membership_follow, LeaderSearch, LeaderStep, Received, SearchStep, MAX_HOPS,
};
use ccdb::report::{
    append_usage_metrics, info, requested_page, serve_metrics, Capability, Page, Usage,
};
use ccdb::resp::{encode, RespValue};
use ccdb::rng::Xoshiro256pp;
use ccdb::routes::{
    canonical_peer_address, client_address_for, peer_address, ClientRoute, ShownMembership,
};
use ccdb::status::{ClusterStatus, ShownAddress};
use ccdb::work::{WorkQueue, WorkStep};

const CLUSTER: &str = "00112233445566778899aabbccddeeff";

fn cluster() -> ClusterId {
    ClusterId::from_hex(CLUSTER).expect("cluster id")
}

fn texts(words: &[&str]) -> Vec<String> {
    words.iter().map(|word| String::from(*word)).collect()
}

fn v4(port: u16) -> PeerAddress {
    PeerAddress::V4 {
        ip: [127, 0, 0, 1],
        port,
    }
}

fn endpoint(port: u16) -> Endpoint {
    let text = format!("127.0.0.1:{port}");
    Endpoint {
        text: text.clone(),
        address: v4(port),
        shown: text,
    }
}

fn local_known(nodes: u64) -> Vec<String> {
    let mut known = Vec::new();
    for base in [7100, 7200, 7300] {
        for node in 1..=nodes {
            known.push(format!("127.0.0.1:{}", base + node));
        }
    }
    known
}

#[test]
fn hex_reads_back() {
    assert_eq!(hex_bytes(&[0x00, 0x9f, 0xa0]), "009fa0");
    assert_eq!(decode_hex("009fa0").expect("hex"), vec![0x00, 0x9f, 0xa0]);
    assert!(decode_hex("0").is_err());
    assert!(decode_hex("zz").is_err());
    assert_eq!(cluster().to_text(), CLUSTER);
}

#[test]
fn written_configurations_read_back() {
    let text = init_config(2, 3, &cluster(), "data/node-2");
    assert_eq!(
        text,
        format!("[node]\nid = 2\ncluster_id = \"{CLUSTER}\"\ndata_dir = \"data/node-2\"\nlisten_client = \"127.0.0.1:7102\"\nlisten_peer = \"127.0.0.1:7202\"\nlisten_metrics = \"127.0.0.1:7302\"\npeer_nodes = \"1@127.0.0.1:7201,2@127.0.0.1:7202,3@127.0.0.1:7203\"\n\n[storage]\nfsync = \"always\"\n")
    );
    let config = parse_config(&text, &local_known(3)).expect("own configuration");
    assert_eq!(config.id, 2);
    assert_eq!(config.cluster_id, cluster());
    assert_eq!(config.data_dir, "data/node-2");
    assert_eq!(config.listen_metrics, "127.0.0.1:7302");
    assert_eq!(config.peers.len(), 3);
    assert_eq!(config.peers[2].id, 3);
    assert_eq!(config.peers[2].address, "127.0.0.1:7203");
    assert_eq!(client_address_for(&config, 2), "127.0.0.1:7102");
    let restored = fresh_restore_config("/restored", &cluster(), 1).expect("restored");
    assert_eq!(
        parse_config(&restored, &local_known(1)).expect("read").data_dir,
        "/restored"
    );
    assert!(init_node_dir("base", 3).ends_with('3'));
    assert!(config_addresses(&text).contains(&String::from("127.0.0.1:7203")));
}

#[test]
fn only_the_asked_addresses_matter() {
    let text = init_config(1, 1, &cluster(), "d");
    let mut known = local_known(1);
    let config = parse_config(&text, &known).expect("config");
    known.push(String::from("nowhere:1"));
    assert_eq!(parse_config(&text, &known).expect("config"), config);
    assert!(parse_config(&text, &[]).is_err());
}

#[test]
fn configured_members_are_distinct() {
    let doubled = compose_config(
        1,
        &cluster(),
        "d",
        "127.0.0.1:7101",
        "127.0.0.1:7201",
        "127.0.0.1:7301",
        "1@127.0.0.1:7201,1@127.0.0.1:7202",
    );
    assert!(parse_config(&doubled, &local_known(2)).is_err());
    assert_eq!(list_entries(" 1@a , 2@b ").len(), 2);
    let settings = read_settings("[node]\nid = 1\n").expect("settings");
    assert_eq!(find_setting(&settings, "node.id"), Some(String::from("1")));
    assert_eq!(find_setting(&settings, "node.data_dir"), None);
}

#[test]
fn removed_nodes_stay_removed() {
    let identity = DiskIdentity::fresh(cluster(), 1, 7);
    let removed = mark_identity_lifecycle(&identity, IDENTITY_REMOVED)
        .expect("removable")
        .expect("changed");
    assert_eq!(removed.lifecycle, IDENTITY_REMOVED);
    assert_eq!(removed.node_id, 1);
    for lifecycle in [IDENTITY_ACTIVE, IDENTITY_JOINING] {
        assert!(
            !matches!(
                mark_identity_lifecycle(&removed, lifecycle),
                Ok(Some(again)) if again.lifecycle != IDENTITY_REMOVED
            ),
            "a removed node came back"
        );
    }
    assert_eq!(
        enforce_membership_lifecycle(IDENTITY_REMOVED, true),
        LifecycleStep::Stop
    );
    assert_eq!(
        enforce_membership_lifecycle(IDENTITY_ACTIVE, false),
        LifecycleStep::MarkRemoved
    );
    assert_eq!(
        enforce_membership_lifecycle(IDENTITY_JOINING, true),
        LifecycleStep::MarkActive
    );
    assert!(serves_clients(false, Some(IDENTITY_ACTIVE), true));
    assert!(!serves_clients(false, Some(IDENTITY_JOINING), true));
    assert!(!serves_clients(false, Some(IDENTITY_ACTIVE), false));
    assert!(!serves_clients(true, Some(IDENTITY_ACTIVE), true));
}

#[test]
fn identities_read_back_and_floors_never_fall() {
    let identity = DiskIdentity::fresh(cluster(), 9, 0x0102_0304);
    let bytes = identity.encode();
    let read = DiskIdentity::decode(&bytes).expect("identity");
    assert_eq!(read.encode(), bytes);
    assert_eq!(read.node_id, 9);
    let mut spoiled = bytes.clone();
    spoiled[20] ^= 1;
    assert!(DiskIdentity::decode(&spoiled).is_err());
    let mut low = identity;
    low.min_storage_reader = 1;
    let raised = raise_identity_reader_floor(&low, Some(2), None)
        .expect("raise")
        .expect("changed");
    assert_eq!(raised.min_storage_reader, 2);
    assert_eq!(raised.migration_epoch, low.migration_epoch + 1);
    let lowered = raise_identity_reader_floor(&raised, Some(1), None).expect("no fault");
    assert!(lowered.is_none(), "a floor fell");
    assert!(raise_identity_reader_floor(&identity, Some(0), None).is_err());
    assert!(raise_identity_reader_floor(&identity, Some(3), None).is_err());
    assert!(raise_identity_reader_floor(&identity, None, Some(4)).is_err());
}

#[test]
fn damaged_identities_are_refused() {
    let bytes = DiskIdentity::fresh(cluster(), 9, 0x0102_0304).encode();
    assert_eq!(bytes.len(), 55);
    for at in 0..bytes.len() {
        for flip in [1_u8, 0x80, 0xff] {
            let mut damaged = bytes.clone();
            damaged[at] ^= flip;
            let error = DiskIdentity::decode(&damaged).expect_err("damage");
            assert_eq!(error.kind, FaultKind::InvalidData);
        }
    }
    for length in [0, 1, 54] {
        let error = DiskIdentity::decode(&bytes[..length]).expect_err("short");
        assert_eq!(error.kind, FaultKind::InvalidData);
    }
    let mut long = bytes;
    long.push(0);
    let error = DiskIdentity::decode(&long).expect_err("long");
    assert_eq!(error.kind, FaultKind::InvalidData);
}

#[test]
fn backups_read_back() {
    let backup = BackupV2 {
        source_cluster_id: cluster(),
        source_index: LogIndex::new(3),
        source_term: Term::new(2),
        source_last_leader_time: Time::from_nanos(9),
        source_policy_hash: 7,
        source_min_semantic: 3,
        source_active_features: 0,
        checkpoint: b"state".to_vec(),
        provenance: BackupProvenance::LogicalCluster,
    };
    let facts = CheckpointFacts {
        applied_index: LogIndex::new(3),
        applied_term: Term::new(2),
        last_leader_time: Time::from_nanos(9),
        policy_hash: 7,
        active_features: 0,
    };
    let bytes = encode_backup_v2(&backup).expect("bundle");
    let read = decode_backup_v2(&bytes, Ok(facts)).expect("read");
    assert_eq!(encode_backup_v2(&read).expect("again"), bytes);
    let mut behind = facts;
    behind.applied_index = LogIndex::new(2);
    assert!(decode_backup_v2(&bytes, Ok(behind)).is_err());
    assert!(decode_backup_v2(&bytes[..bytes.len() - 1], Ok(facts)).is_err());
}

#[test]
fn legacy_archives_read_back() {
    let identity = DiskIdentity::fresh(cluster(), 1, 7).encode();
    let bytes = backup_legacy_node_clone(&identity, b"config", b"log", true).expect("archive");
    let archive = read_legacy_archive(&bytes).expect("read");
    assert_eq!(archive.identity, identity);
    assert_eq!(archive.config, b"config");
    assert_eq!(archive.wal, b"log");
    assert!(backup_legacy_node_clone(&identity, b"config", b"log", false).is_err());
}

#[test]
fn generations_are_written_once() {
    let target = FileId::Snapshot { generation: 4 };
    assert!(matches!(
        rename_step(target, false, false),
        Ok(RenameStep::Move)
    ));
    assert!(matches!(
        rename_step(target, true, true),
        Ok(RenameStep::DropSource)
    ));
    assert!(rename_step(target, true, false).is_err());
    assert_ne!(
        published_snapshot_path("d", 4),
        published_snapshot_path("d", 5)
    );
    assert_ne!(manifest_path("d", 4), published_snapshot_path("d", 4));
    assert!(snapshot_stage_path("d", FileId::Wal { segment: 1 }).is_err());
}

#[test]
fn recordings_keep_room_and_run_forward() {
    let mut ledger = RecordLedger::create(100, 50, 200).expect("ledger");
    assert!(RecordLedger::create(100, 50, 149).is_err());
    assert!(ledger.append(Time::from_nanos(5), 40, 50).is_ok());
    ledger.wrote(Time::from_nanos(5), 40).expect("written");
    assert_eq!(ledger.bytes_written, 140);
    assert_eq!(ledger.last_ordinal(), 1);
    assert!(ledger.append(Time::from_nanos(4), 1, 50).is_err());
    assert!(check_record_path(true, true, false).is_err());
    assert!(check_record_path(false, true, true).is_err());
    assert!(check_record_path(false, true, false).is_ok());
}

#[test]
fn disk_failures_are_fatal_and_transfers_count_once() {
    let mut metrics = HostMetrics::new();
    let sync = HostEffect::DiskFsync {
        file: FileId::Meta,
        id: 5,
    };
    assert_eq!(
        metrics.effect_done(&sync, true),
        EffectOutcome::Fsynced { id: 5 }
    );
    assert!(!metrics.counters.storage_fault);
    assert!(matches!(
        metrics.effect_done(&sync, false),
        EffectOutcome::FatalDisk(_)
    ));
    assert!(metrics.counters.storage_fault);
    let peer = NodeId::new(2);
    metrics.count_received(peer, 8);
    metrics.count_received(peer, 8);
    assert_eq!(metrics.counters.snapshots_received, 1);
    metrics.count_received(peer, 9);
    assert_eq!(metrics.counters.snapshots_received, 2);
    metrics.count_command(true);
    metrics.count_command(false);
    assert_eq!(metrics.counters.commands, 2);
    assert_eq!(metrics.counters.reads, 1);
    metrics.observe_blocks(&[3, 4]);
    assert_eq!(metrics.counters.block_bytes_read, 7);
    metrics.count_rejection();
    assert_eq!(metrics.counters.queue_rejections, 1);
}

#[test]
fn searches_for_the_leader_end() {
    let mut search = begin_search("a:1");
    assert!(matches!(
        request_membership_follow(&mut search, None),
        SearchStep::Ask(address) if address == "a:1"
    ));
    for hop in 1..MAX_HOPS {
        let answer = fault(FaultKind::Other, &format!("NOTLEADER leader=n2 addr=b:{hop}"));
        assert!(matches!(
            request_membership_follow(&mut search, Some(Err(answer))),
            SearchStep::Ask(address) if address == format!("b:{hop}")
        ));
    }
    let answer = fault(FaultKind::Other, "NOTLEADER leader=n2 addr=c:1");
    match request_membership_follow(&mut search, Some(Err(answer))) {
        SearchStep::Fail(error) => {
            assert_eq!(error.message, "join leader redirect exceeded hop limit");
        }
        _ => panic!("the search goes on"),
    }
    let mut circle = begin_search("a:1");
    request_membership_follow(&mut circle, None);
    let answer = fault(FaultKind::Other, "NOTLEADER leader=n1 addr=a:1");
    match request_membership_follow(&mut circle, Some(Err(answer))) {
        SearchStep::Fail(error) => assert_eq!(error.message, "join leader redirect loop"),
        _ => panic!("the search runs in a circle"),
    }
}

#[test]
fn a_leader_is_found_where_it_answers() {
    let mut search = LeaderSearch {
        current: String::from("a:1"),
        hops: 0,
    };
    let text = info("1", 1, 1, "a:1", 4, 3);
    assert_eq!(
        text,
        "# Server\r\nccdb_version:1\r\nmode:shared-driver\r\nrole:leader\r\nleader:n1\r\nleader_client_addr:a:1\r\ncommit:4\r\napplied:3\r\n"
    );
    assert_eq!(
        info_field(&text, "leader_client_addr"),
        Some(String::from("a:1"))
    );
    let value = RespValue::Bulk(Some(text.into_bytes()));
    let answer = request_info(&value).expect("text");
    match request_info_follow(&mut search, Some(Ok(answer))) {
        LeaderStep::Found { address, .. } => assert_eq!(address, "a:1"),
        _ => panic!("the leader answered"),
    }
    assert_eq!(
        encode(&compose_command(&texts(&["INFO"]))),
        b"*1\r\n$4\r\nINFO\r\n"
    );
    assert!(matches!(read_resp_value(b"+OK\r\n", false), Received::Value(_)));
    assert!(matches!(read_resp_value(b"+O", false), Received::More));
    assert!(matches!(read_resp_value(b"+O", true), Received::Fail(_)));
}

fn sample_status() -> ClusterStatus {
    let ids = NodeSet::from_ids(&[NodeId::new(1), NodeId::new(2), NodeId::new(3)]);
    let mut membership = MembershipState::new(ids).expect("membership");
    let mut addresses = Vec::new();
    for node in 1..=3u16 {
        membership
            .addresses
            .insert(NodeId::new(u64::from(node)), v4(7200 + node));
        addresses.push(ShownAddress {
            id: NodeId::new(u64::from(node)),
            text: format!("127.0.0.1:{}", 7200 + node),
        });
    }
    let genesis = membership.clone();
    membership.active_features = 2;
    let mut matched = NodeMap::new();
    matched.insert(NodeId::new(2), LogIndex::new(5));
    let mut capabilities = NodeMap::new();
    capabilities.insert(
        NodeId::new(2),
        Capability {
            semantic: 3,
            features: 3,
        },
    );
    ClusterStatus {
        cluster_id: cluster(),
        policy: vec![1, 2, 3, 4],
        policy_hash: 7,
        config_index: 1,
        config_term: 1,
        node: NodeId::new(1),
        last_index: 9,
        commit: 8,
        now: Time::from_nanos(5_000_000),
        storage_fault: false,
        active_features: 2,
        membership,
        addresses: addresses.clone(),
        matched,
        capabilities,
        contacts: NodeMap::new(),
        transfers: NodeSet::new(),
        genesis,
        genesis_addresses: addresses,
    }
}

#[test]
fn a_joining_node_starts_from_what_the_leader_shows() {
    let status = sample_status().membership_status();
    assert!(status.contains("active_features=0x2"));
    assert!(status.contains("voters=n1,n2,n3"));
    assert!(status.contains("2:voter:127.0.0.1:7202:5:3:-1:idle:3:0x3:0"));
    assert_eq!(
        parse_member_ids(&status_field(&status, "voters").expect("voters"))
            .expect("members")
            .len(),
        3
    );
    let listed = member_address_texts(&status_field(&status, "addresses").expect("addresses"));
    assert_eq!(
        listed,
        texts(&["127.0.0.1:7201", "127.0.0.1:7202", "127.0.0.1:7203"])
    );
    let known = vec![endpoint(7201), endpoint(7202), endpoint(7203)];
    let plan = prepare_join_config(&status, 4, "127.0.0.1:7204", &known, &[1, 2, 3, 4])
        .expect("plan");
    assert_eq!(plan.cluster_id, cluster());
    assert!(!plan.genesis.has(NodeId::new(4)));
    assert!(plan.genesis.has(NodeId::new(2)));
    let policy = ClusterPolicy {
        encoded: vec![1, 2, 3, 4],
        hash: 7,
        limits: PolicyLimits {
            max_key_bytes: 1,
            max_value_bytes: 1,
            max_command_bytes: 1,
            max_reply_bytes: 1,
            max_batch_bytes: 1,
            max_batch_reply_bytes: 1,
            max_live_logical_bytes: 1,
            valid: true,
        },
    };
    let log = LogState {
        genesis: joining_genesis(&plan, &policy),
        hard_state: HardState {
            term: Term::new(0),
            voted_for: None,
        },
        entries: Vec::new(),
        snapshot: None,
    };
    let configured = MembershipState::new(NodeSet::from_ids(&[NodeId::new(4)])).expect("members");
    let base = (LogIndex::new(0), Term::new(0));
    let unseen = FoundCheckpoint::Unseen;
    assert!(matches!(
        boot(&log, base, 4, &cluster(), &[1, 2, 3, 4], &configured, 10, &unseen),
        BootStep::Start { compact: false, .. }
    ));
    assert!(matches!(
        boot(&log, base, 2, &cluster(), &[1, 2, 3, 4], &configured, 10, &unseen),
        BootStep::Fail(_)
    ));
    let identity = joining_identity(&plan, 4, 7);
    assert_eq!(identity.lifecycle, IDENTITY_JOINING);
    assert_eq!(identity.node_id, 4);
    let args = texts(&[
        "--join",
        "127.0.0.1:7101",
        "--node-id",
        "4",
        "--peer-addr",
        "127.0.0.1:7204",
        "--data-dir",
        "joined",
    ]);
    let request = join_request(&args, Some(v4(7204))).expect("request");
    assert_eq!(request.node_id, 4);
    assert!(join_request(&args, None).is_err());
    let text = join_config(
        &request,
        &plan,
        &known,
        "127.0.0.1:7104",
        "127.0.0.1:7204",
        "127.0.0.1:7304",
    );
    let config = parse_config(&text, &local_known(4)).expect("joined configuration");
    assert_eq!(config.id, 4);
    assert!(resume_join(&request, &identity, &config).is_ok());
    let other = joining_identity(&plan, 5, 7);
    assert!(resume_join(&request, &other, &config).is_err());
    assert_eq!(
        join_client_listener(&args, &v4(7204)),
        ClientRoute::Address(v4(7104))
    );
    assert_eq!(
        join_metrics_listener(&args, &v4(7204)),
        ClientRoute::Address(v4(7304))
    );
    for (node, peer) in [(2, "127.0.0.1:7204"), (4, "127.0.0.1:7202")] {
        assert_eq!(
            prepare_join_config(&status, node, peer, &known, &[1, 2, 3, 4])
                .expect_err("taken")
                .kind,
            FaultKind::AlreadyExists
        );
    }
    assert!(prepare_join_config(&status, 4, "127.0.0.1:7204", &known, &[9]).is_err());
}

#[test]
fn pages_are_served() {
    assert!(matches!(
        requested_page(b"GET /metrics HTTP/1.1\r\n"),
        Page::Metrics
    ));
    assert!(matches!(requested_page(b"GET / HTTP/1.1\r\n"), Page::Dashboard));
    assert!(matches!(requested_page(b"GET /x HTTP/1.1\r\n"), Page::Missing));
    assert!(matches!(requested_page(&[0xff]), Page::Missing));
    assert_eq!(
        serve_metrics(Page::Missing, ""),
        "HTTP/1.1 404 Not Found\r\nContent-Type: text/plain; charset=utf-8\r\nContent-Length: 10\r\nConnection: close\r\n\r\nnot found\n"
    );
    assert_eq!(
        serve_metrics(Page::Metrics, "up 1\n"),
        "HTTP/1.1 200 OK\r\nContent-Type: text/plain; version=0.0.4\r\nContent-Length: 5\r\nConnection: close\r\n\r\nup 1\n"
    );
    let mut text = String::new();
    append_usage_metrics(
        &mut text,
        "log",
        Usage {
            current: 1,
            peak: 2,
            limit: 3,
        },
    );
    assert!(text.contains("log"));
}

#[test]
fn files_are_never_replaced_by_accident() {
    assert!(reject_symlink(true, "d", "data directory").is_err());
    assert!(reject_symlink(false, "d", "data directory").is_ok());
    assert!(initialize_data_dir(1, "d", false, false).is_ok());
    assert!(initialize_data_dir(1, "d", false, true).is_err());
    let free = Place {
        parent_is_link: false,
        is_link: false,
        taken: false,
    };
    assert!(write_new_backup("p", free).is_ok());
    for place in [
        Place { taken: true, ..free },
        Place {
            parent_is_link: true,
            ..free
        },
        Place {
            is_link: true,
            taken: true,
            ..free
        },
    ] {
        assert!(write_new_backup("p", place).is_err());
    }
    assert!(replace_identity(Some("p"), "p/i", free).is_ok());
    assert_eq!(
        replace_identity(Some("p"), "p/i", Place { taken: true, ..free })
            .expect_err("a replacement is under way")
            .message,
        "CCID replacement temporary file already exists"
    );
    assert!(replace_identity(None, "i", free).is_err());
    assert!(matches!(
        write_file(FileId::Wal { segment: 0 }, 8, 4, 8),
        Ok(WritePlan::Append { len: 4 })
    ));
    assert!(write_file(FileId::Wal { segment: 0 }, 7, 4, 8).is_err());
}

#[test]
fn listeners_stop_when_their_time_is_up() {
    assert!(matches!(
        accept_step(true, Accepted::Connection, false),
        AcceptStep::Stop
    ));
    assert!(matches!(
        accept_step(false, Accepted::Connection, false),
        AcceptStep::Serve
    ));
    assert!(matches!(
        accept_step(false, Accepted::Nobody, false),
        AcceptStep::Wait
    ));
    assert!(matches!(
        accept_step(false, Accepted::Nobody, true),
        AcceptStep::Complete
    ));
    assert!(matches!(
        accept_step(false, Accepted::Failure, false),
        AcceptStep::Fail
    ));
}

#[test]
fn recovery_checks_what_it_finds() {
    assert_eq!(snapshot_after_bytes(None, 8, 100).expect("default"), 8);
    assert_eq!(snapshot_after_bytes(Some("16"), 8, 100).expect("asked"), 16);
    assert!(snapshot_after_bytes(Some("x"), 8, 100).is_err());
    assert!(snapshot_after_bytes(Some("0"), 8, 100).is_err());
    let mark = SnapshotMark {
        index: LogIndex::new(4),
        term: Term::new(1),
        generation: 4,
        crc32c: 1,
    };
    assert!(check_mark(&mark).is_ok());
    assert!(check_published_size(10, 10).is_ok());
    assert!(check_published_size(11, 10).is_err());
    assert!(check_staging(true, true).is_err());
    assert!(check_staging(false, true).is_ok());
    let one = MembershipState::new(NodeSet::from_ids(&[NodeId::new(1)])).expect("one");
    let two = MembershipState::new(NodeSet::from_ids(&[NodeId::new(2)])).expect("two");
    assert!(bootstrap_membership_matches(&one, &one));
    assert!(!bootstrap_membership_matches(&one, &two));
}

#[test]
fn work_is_done_in_order() {
    let mut metrics = HostMetrics::new();
    let write = |id| HostEffect::DiskWrite {
        file: FileId::Wal { segment: 0 },
        at: 0,
        bytes: vec![7; 3],
        id,
    };
    let sync = |id| HostEffect::DiskSyncDir { id };
    let mut queue = WorkQueue::new(vec![write(1), sync(2)]);
    assert_eq!(queue.begin(&mut metrics), WorkStep::Perform(&write(1)));
    assert_eq!(metrics.counters.file_bytes_written, 3);
    assert_eq!(
        metrics.effect_done(&write(1), true),
        EffectOutcome::Written { id: 1 }
    );
    queue.settle(vec![sync(3), write(4)]);
    for left in [sync(2), sync(3), write(4)] {
        assert_eq!(queue.begin(&mut metrics), WorkStep::Perform(&left));
        queue.settle(Vec::new());
    }
    assert_eq!(metrics.counters.directory_syncs, 2);
    assert_eq!(metrics.counters.file_bytes_written, 6);
    assert_eq!(queue.begin(&mut metrics), WorkStep::EnforceLifecycle);
    assert!(queue.pending.is_empty());
}

#[test]
fn unknown_peers_are_named_with_the_membership() {
    let config = Config {
        id: 1,
        cluster_id: cluster(),
        data_dir: "d".to_owned(),
        listen_client: "a".to_owned(),
        listen_peer: "b".to_owned(),
        listen_metrics: "c".to_owned(),
        peers: vec![Peer {
            id: 2,
            address: "e".to_owned(),
        }],
    };
    let shown = ShownMembership {
        voters: "{1, 2}".to_owned(),
        learners: "{}".to_owned(),
        addresses: "{1: b}".to_owned(),
    };
    assert_eq!(
        peer_address(&config, 2, None, &shown),
        Ok(ClientRoute::Text("e".to_owned()))
    );
    assert_eq!(
        peer_address(&config, 9, Some(v4(7)), &shown),
        Ok(ClientRoute::Address(v4(7)))
    );
    let error = peer_address(&config, 9, None, &shown).expect_err("unknown");
    assert_eq!(error.kind, FaultKind::InvalidInput);
    assert_eq!(
        error.message,
        "unknown peer node id; voters={1, 2} learners={} addresses={1: b}"
    );
}

#[test]
fn peer_addresses_are_canonical() {
    assert!(canonical_peer_address(b"127.0.0.1:7201", Some(v4(7201))).is_ok());
    assert!(canonical_peer_address(b"nowhere", None).is_err());
}

#[test]
fn explorations_report_or_refuse() {
    let refused = ModelConfig {
        max_log: 0,
        ..ModelConfig::default()
    };
    let error = check(refused).expect_err("no log");
    assert!(matches!(error, ModelError::InvalidConfig));
    assert!(!error.message().is_empty());
    let cramped = ModelConfig {
        max_states: 2,
        ..ModelConfig::default()
    };
    assert!(matches!(
        check(cramped),
        Err(ModelError::StateLimit { limit: 2, .. })
    ));
}

#[test]
fn the_generator_stays_in_range_and_repeats() {
    let mut first = Xoshiro256pp::stream(Seed::new(4), 1);
    let mut second = Xoshiro256pp::stream(Seed::new(4), 1);
    for _ in 0..20 {
        let value = first.range_u64(10, 20);
        assert!((10..20).contains(&value));
        assert_eq!(value, second.range_u64(10, 20));
    }
}
