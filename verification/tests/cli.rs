//! The command line of the operator.
use ccdb::cli::{
    admin_plan, change_command, choose_command, doctor, doctor_plan, filesystem_kind, flag,
    has_flag, init_plan, next_delay, print_help, print_version, probe_plan,
    required_admin_identity, run_config_path, run_options, unknown_command, AdminPlan, InitPlan,
    Report, TopCommand, DEFAULT_RECORD_MAX_BYTES,
};
use ccdb::fault::FaultKind;
use ccdb::hex::ClusterId;

const CLUSTER: &str = "00112233445566778899aabbccddeeff";

fn args(words: &[&str]) -> Vec<String> {
    words.iter().map(|word| String::from(*word)).collect()
}

#[test]
fn trap_cli_help_matches_real_commands_and_unknowns_fail() {
    assert_eq!(choose_command(&args(&["--version"])), TopCommand::Version);
    assert_eq!(print_version("0.15.4"), "ccdb 0.15.4");
    assert_eq!(choose_command(&args(&["--help"])), TopCommand::Help);
    let help = print_help("0.15.4");
    for required in [
        "run --join SEED_ADDR",
        "--operator-id ID --sequence N",
        "--new-cluster-id HEX32 --new-node-id ID",
        "--accept-legacy-node-backup",
    ] {
        assert!(help.contains(required), "help omits {required:?}");
    }
    assert!(
        !help
            .lines()
            .any(|line| line.trim_start().starts_with("admin ") && line.contains("snapshot")),
        "help advertises the unsupported snapshot command"
    );
    assert_eq!(
        choose_command(&args(&["definitely-not-a-command"])),
        TopCommand::Unknown
    );
    assert_eq!(
        unknown_command("definitely-not-a-command").message,
        "unknown command definitely-not-a-command"
    );
    assert_eq!(
        admin_plan(&args(&["snapshot"]))
            .expect_err("unsupported snapshot command succeeded")
            .kind,
        FaultKind::InvalidInput
    );
}

#[test]
fn every_operation_is_named() {
    for (name, command) in [
        ("init", TopCommand::Init),
        ("run", TopCommand::Run),
        ("peer", TopCommand::Peer),
        ("selfcheck", TopCommand::Selfcheck),
        ("doctor", TopCommand::Doctor),
        ("admin", TopCommand::Admin),
    ] {
        assert_eq!(choose_command(&args(&[name, "x"])), command);
    }
    assert_eq!(choose_command(&[]), TopCommand::Help);
}

#[test]
fn flags_take_the_value_behind_their_first_occurrence() {
    let given = args(&["--a", "1", "--b", "--a", "2", "--c"]);
    assert_eq!(flag(&given, "--a"), Some(String::from("1")));
    assert_eq!(flag(&given, "--b"), Some(String::from("--a")));
    assert_eq!(flag(&given, "--c"), None);
    assert!(has_flag(&given, "--c"));
    assert!(!has_flag(&given, "--d"));
}

#[test]
fn run_options_are_read_or_refused() {
    let plain = run_options(&args(&["--config", "node.toml"])).expect("plain run");
    assert!(!plain.allow_unsafe);
    assert_eq!(plain.record_path, None);
    assert_eq!(plain.run_for_ms, None);
    assert_eq!(plain.record_max_bytes, DEFAULT_RECORD_MAX_BYTES);
    assert_eq!(run_config_path(&args(&["--config", "node.toml"])), "node.toml");
    assert_eq!(run_config_path(&[]), "ccdb.toml");
    let recorded = run_options(&args(&[
        "--record",
        "run.ccij",
        "--record-max-bytes",
        "4096",
        "--record-required",
        "--run-for-ms",
        "25",
        "--i-know-this-is-unauthenticated",
    ]))
    .expect("recorded run");
    assert!(recorded.allow_unsafe);
    assert!(recorded.record_required);
    assert_eq!(recorded.record_path, Some(String::from("run.ccij")));
    assert_eq!(recorded.record_max_bytes, 4096);
    assert_eq!(recorded.run_for_ms, Some(25));
    assert!(run_options(&args(&["--record-max-bytes", "4096"])).is_err());
}

#[test]
fn probes_need_a_configuration() {
    assert!(probe_plan(&args(&["--addr", "127.0.0.1:7201"])).is_err());
    let plan = probe_plan(&args(&["--config", "n.toml", "--addr", "127.0.0.1:9"])).expect("plan");
    assert_eq!(plan.address, "127.0.0.1:9");
    assert_eq!(plan.config_path, "n.toml");
    assert!(next_delay(10) >= 10);
}

#[test]
fn initialization_is_planned() {
    let id = ClusterId::from_hex(CLUSTER).expect("cluster id");
    assert_eq!(
        init_plan(&args(&["--cluster-id", CLUSTER])).expect("default"),
        InitPlan::Cluster {
            cluster: String::from("demo"),
            cluster_id: id,
            nodes: 3,
            base: String::from("ccdb-data"),
        }
    );
    assert_eq!(
        init_plan(&args(&[
            "--cluster-id",
            CLUSTER,
            "--data-dir",
            "d",
            "--node-id",
            "4",
            "--cluster",
            "lab"
        ]))
        .expect("single"),
        InitPlan::Single {
            cluster: String::from("lab"),
            cluster_id: id,
            node: 4,
            data_dir: String::from("d"),
        }
    );
    for refused in [
        vec![],
        vec!["--cluster-id", "xyz"],
        vec!["--cluster-id", CLUSTER, "--data-dir", "d"],
        vec!["--cluster-id", CLUSTER, "--data-dir", "d", "--node-id", "x"],
        vec!["--cluster-id", CLUSTER, "--data-dir", "d", "--node-id", "0"],
        vec!["--cluster-id", CLUSTER, "--nodes", "0"],
    ] {
        assert_eq!(
            init_plan(&args(&refused)).expect_err("refused").kind,
            FaultKind::InvalidInput
        );
    }
}

#[test]
fn administration_is_planned() {
    assert_eq!(
        admin_plan(&args(&["backup", "--data-dir", "d", "--output", "o"])).expect("backup"),
        AdminPlan::Backup {
            data_dir: String::from("d"),
            output: String::from("o"),
        }
    );
    assert!(admin_plan(&args(&["backup", "--data-dir", "d"])).is_err());
    assert_eq!(
        admin_plan(&args(&[
            "restore",
            "--input",
            "i",
            "--data-dir",
            "d",
            "--new-cluster-id",
            CLUSTER,
            "--new-node-id",
            "7",
            "--accept-legacy-node-backup"
        ]))
        .expect("restore"),
        AdminPlan::Restore {
            input: String::from("i"),
            data_dir: String::from("d"),
            new_cluster_id: ClusterId::from_hex(CLUSTER).expect("cluster id"),
            new_node_id: 7,
            accept_legacy: true,
        }
    );
    assert_eq!(
        admin_plan(&args(&["members", "--consistent"])).expect("members"),
        AdminPlan::Report {
            address: String::from("127.0.0.1:7101"),
            report: Report::Members,
            consistent: true,
        }
    );
    let change = args(&[
        "add-learner",
        "--node-id",
        "4",
        "--peer-addr",
        "127.0.0.1:7204",
        "--operator-id",
        "9",
        "--sequence",
        "1",
    ]);
    assert_eq!(
        admin_plan(&change).expect("change"),
        AdminPlan::Change {
            address: String::from("127.0.0.1:7101"),
            action: "ADDLEARNER",
            operator: String::from("9"),
            sequence: String::from("1"),
        }
    );
    assert_eq!(
        change_command(&change, "ADDLEARNER", "9", "1", true).expect("command"),
        args(&["CC.ADMIN", "ADDLEARNER", "4", "127.0.0.1:7204", "9", "1"])
    );
    assert!(change_command(&change, "ADDLEARNER", "9", "1", false).is_err());
    assert!(required_admin_identity(&args(&["--operator-id", "9"])).is_err());
}

#[test]
fn the_doctor_reports_what_it_found() {
    let plan = doctor_plan(&[]);
    assert_eq!(plan.data_dir, ".");
    assert_eq!(plan.client, "127.0.0.1:7101");
    assert_eq!(plan.peer, "127.0.0.1:7201");
    assert_eq!(filesystem_kind(Some(true)), "directory");
    assert_eq!(filesystem_kind(Some(false)), "file");
    assert_eq!(filesystem_kind(None), "unknown");
    assert_eq!(
        doctor("d", Some(true), false, true),
        "doctor data_dir=d filesystem=directory fsync=pass client_port=closed peer_port=open"
    );
}
