//! The operator's command line: which operation is asked for, and with what.
use vstd::prelude::*;
use vstd::string::*;

use crate::fault::{because, fault, fault_of, outcome_is, Fault, FaultKind, FaultView};
use crate::hex::{cluster_id_of, ClusterId};
use crate::text::{number_in, read_number, same_text};
use crate::words::{holds_text, texts};

verus! {

/// How many bytes a recording may take unless the operator says otherwise.
pub const DEFAULT_RECORD_MAX_BYTES: u64 = 128 * 1024 * 1024;

pub open spec fn optional_text(text: Option<String>) -> Option<Seq<char>> {
    match text {
        Some(text) => Some(text@),
        None => None,
    }
}

/// The value that follows the first occurrence of a flag from position `i` on.
pub open spec fn flag_from(args: Seq<Seq<char>>, name: Seq<char>, i: int) -> Option<Seq<char>>
    decreases args.len() - i,
{
    if i < 0 || i + 1 >= args.len() {
        None
    } else if args[i] == name {
        Some(args[i + 1])
    } else {
        flag_from(args, name, i + 1)
    }
}

/// The value of a flag.
pub open spec fn flag_of(args: Seq<Seq<char>>, name: &str) -> Option<Seq<char>> {
    flag_from(args, name@, 0)
}

/// Whether a word stands among the arguments.
pub open spec fn says(args: Seq<Seq<char>>, name: &str) -> bool {
    args.contains(name@)
}

/// The value of a flag, or what to use without it.
pub open spec fn flag_or(args: Seq<Seq<char>>, name: &str, default: &str) -> Seq<char> {
    match flag_of(args, name) {
        Some(value) => value,
        None => default@,
    }
}

/// The value that follows a flag.
pub fn flag(args: &[String], name: &str) -> (value: Option<String>)
    ensures
        optional_text(value) == flag_of(texts(args@), name),
{
    let ghost all = texts(args@);
    let mut i: usize = 0;
    let size: usize = args.len();
    while i < size && size - i > 1
        invariant
            i <= size == args@.len(),
            all == texts(args@),
            flag_of(all, name) == flag_from(all, name@, i as int),
        decreases size - i,
    {
        assert(all[i as int] == args@[i as int]@);
        assert(all[i + 1] == args@[i + 1]@);
        if same_text(args[i].as_str(), name) {
            return Some(args[i + 1].clone());
        }
        i += 1;
    }
    None
}

/// Whether a word stands among the arguments.
pub fn has_flag(args: &[String], name: &str) -> (r: bool)
    ensures
        r == says(texts(args@), name),
{
    holds_text(args, name)
}

fn flag_default(args: &[String], name: &str, default: &str) -> (value: String)
    ensures
        value@ == flag_or(texts(args@), name, default),
{
    match flag(args, name) {
        Some(value) => value,
        None => default.to_owned(),
    }
}

/// The value of a flag that has to be there.
pub open spec fn needed(args: Seq<Seq<char>>, name: &str, reason: &str) -> Result<
    Seq<char>,
    FaultView,
> {
    match flag_of(args, name) {
        Some(value) => Ok(value),
        None => Err(because(FaultKind::InvalidInput, reason)),
    }
}

fn need(args: &[String], name: &str, reason: &str) -> (result: Result<String, Fault>)
    ensures
        match result {
            Ok(value) => needed(texts(args@), name, reason) == Ok::<Seq<char>, FaultView>(value@),
            Err(error) => needed(texts(args@), name, reason) == Err::<Seq<char>, FaultView>(
                error@,
            ),
        },
{
    match flag(args, name) {
        Some(value) => Ok(value),
        None => Err(fault(FaultKind::InvalidInput, reason)),
    }
}

/// What an operation of the host is asked to be.
#[derive(Clone, Copy, Debug, PartialEq, Eq, Structural)]
pub enum TopCommand {
    Init,
    Run,
    Peer,
    Selfcheck,
    Doctor,
    Admin,
    Help,
    Version,
    /// Nothing that the host can do.
    Unknown,
}

pub open spec fn top_command(args: Seq<Seq<char>>) -> TopCommand {
    if args.len() == 0 {
        TopCommand::Help
    } else if args[0] == "init"@ {
        TopCommand::Init
    } else if args[0] == "run"@ {
        TopCommand::Run
    } else if args[0] == "peer"@ {
        TopCommand::Peer
    } else if args[0] == "selfcheck"@ {
        TopCommand::Selfcheck
    } else if args[0] == "doctor"@ {
        TopCommand::Doctor
    } else if args[0] == "admin"@ {
        TopCommand::Admin
    } else if args[0] == "--help"@ || args[0] == "-h"@ || args[0] == "help"@ {
        TopCommand::Help
    } else if args[0] == "--version"@ {
        TopCommand::Version
    } else {
        TopCommand::Unknown
    }
}

/// Which operation the first argument names.
pub fn choose_command(args: &[String]) -> (command: TopCommand)
    ensures
        command == top_command(texts(args@)),
{
    if args.len() == 0 {
        return TopCommand::Help;
    }
    assert(texts(args@)[0] == args@[0]@);
    let name = args[0].as_str();
    if same_text(name, "init") {
        TopCommand::Init
    } else if same_text(name, "run") {
        TopCommand::Run
    } else if same_text(name, "peer") {
        TopCommand::Peer
    } else if same_text(name, "selfcheck") {
        TopCommand::Selfcheck
    } else if same_text(name, "doctor") {
        TopCommand::Doctor
    } else if same_text(name, "admin") {
        TopCommand::Admin
    } else if same_text(name, "--help") || same_text(name, "-h") || same_text(name, "help") {
        TopCommand::Help
    } else if same_text(name, "--version") {
        TopCommand::Version
    } else {
        TopCommand::Unknown
    }
}

/// The fault of a first argument that names no operation.
pub fn unknown_command(name: &str) -> (fault: Fault)
    ensures
        fault@ == (FaultView {
            kind: FaultKind::InvalidInput,
            message: "unknown command "@ + name@,
        }),
{
    let mut message = "unknown command ".to_owned();
    message.append(name);
    fault_of(FaultKind::InvalidInput, message)
}

/// For how many milliseconds a run is asked to last.
pub open spec fn run_length(args: Seq<Seq<char>>) -> Result<Option<u64>, FaultView> {
    match flag_of(args, "--run-for-ms") {
        None => Ok(None),
        Some(value) => match number_in(value) {
            Some(millis) => if millis == 0 {
                Err(because(FaultKind::InvalidInput, "--run-for-ms must be a positive integer"))
            } else {
                Ok(Some(millis))
            },
            None => Err(
                because(FaultKind::InvalidInput, "--run-for-ms must be a positive integer"),
            ),
        },
    }
}

/// For how many milliseconds a run is asked to last.
pub fn parse_run_for(args: &[String]) -> (result: Result<Option<u64>, Fault>)
    ensures
        match result {
            Ok(millis) => run_length(texts(args@)) == Ok::<Option<u64>, FaultView>(millis),
            Err(error) => run_length(texts(args@)) == Err::<Option<u64>, FaultView>(error@),
        },
{
    let value = match flag(args, "--run-for-ms") {
        Some(value) => value,
        None => return Ok(None),
    };
    match read_number(value.as_str()) {
        Some(millis) => {
            if millis == 0 {
                Err(fault(FaultKind::InvalidInput, "--run-for-ms must be a positive integer"))
            } else {
                Ok(Some(millis))
            }
        },
        None => Err(fault(FaultKind::InvalidInput, "--run-for-ms must be a positive integer")),
    }
}

/// Why the options of a recording are refused, if they are.
pub open spec fn record_refusal(recorded: bool, has_limit: bool, required: bool) -> Option<
    FaultView,
> {
    if !recorded && has_limit {
        Some(because(FaultKind::InvalidInput, "--record-max-bytes requires --record PATH"))
    } else if !recorded && required {
        Some(because(FaultKind::InvalidInput, "--record-required requires --record PATH"))
    } else {
        None
    }
}

/// Decides whether the options of a recording fit together: without a path
/// there is nothing to limit and nothing to require.
pub fn validate_record_options(
    record_path: Option<&str>,
    has_record_max_bytes: bool,
    record_required: bool,
) -> (result: Result<(), Fault>)
    ensures
        outcome_is(
            result,
            record_refusal(record_path is Some, has_record_max_bytes, record_required),
        ),
{
    if record_path.is_none() && has_record_max_bytes {
        return Err(fault(FaultKind::InvalidInput, "--record-max-bytes requires --record PATH"));
    }
    if record_path.is_none() && record_required {
        return Err(fault(FaultKind::InvalidInput, "--record-required requires --record PATH"));
    }
    Ok(())
}

/// How a node is asked to run.
#[derive(Clone, Debug, PartialEq, Eq)]
pub struct RunOptions {
    pub allow_unsafe: bool,
    pub record_path: Option<String>,
    pub record_required: bool,
    pub run_for_ms: Option<u64>,
    pub record_max_bytes: u64,
}

#[verifier::ext_equal]
pub struct RunView {
    pub allow_unsafe: bool,
    pub record_path: Option<Seq<char>>,
    pub record_required: bool,
    pub run_for_ms: Option<u64>,
    pub record_max_bytes: u64,
}

impl View for RunOptions {
    type V = RunView;

    open spec fn view(&self) -> RunView {
        RunView {
            allow_unsafe: self.allow_unsafe,
            record_path: optional_text(self.record_path),
            record_required: self.record_required,
            run_for_ms: self.run_for_ms,
            record_max_bytes: self.record_max_bytes,
        }
    }
}

/// How many bytes a recording may take.
pub open spec fn record_limit(args: Seq<Seq<char>>) -> Result<u64, FaultView> {
    match flag_of(args, "--record-max-bytes") {
        None => Ok(DEFAULT_RECORD_MAX_BYTES),
        Some(value) => match number_in(value) {
            Some(limit) => if limit == 0 {
                Err(
                    because(
                        FaultKind::InvalidInput,
                        "--record-max-bytes must be a positive integer",
                    ),
                )
            } else {
                Ok(limit)
            },
            None => Err(
                because(FaultKind::InvalidInput, "--record-max-bytes must be a positive integer"),
            ),
        },
    }
}

/// How a node is asked to run, or what is wrong with the request.
pub open spec fn run_of(args: Seq<Seq<char>>) -> Result<RunView, FaultView> {
    match run_length(args) {
        Err(fault) => Err(fault),
        Ok(run_for_ms) => match record_limit(args) {
            Err(fault) => Err(fault),
            Ok(record_max_bytes) => match record_refusal(
                flag_of(args, "--record") is Some,
                flag_of(args, "--record-max-bytes") is Some,
                says(args, "--record-required"),
            ) {
                Some(fault) => Err(fault),
                None => Ok(
                    RunView {
                        allow_unsafe: says(args, "--i-know-this-is-unauthenticated"),
                        record_path: flag_of(args, "--record"),
                        record_required: says(args, "--record-required"),
                        run_for_ms,
                        record_max_bytes,
                    },
                ),
            },
        },
    }
}

/// Reads how a node is asked to run.
pub fn run_options(args: &[String]) -> (result: Result<RunOptions, Fault>)
    ensures
        match result {
            Ok(options) => run_of(texts(args@)) == Ok::<RunView, FaultView>(options@),
            Err(error) => run_of(texts(args@)) == Err::<RunView, FaultView>(error@),
        },
{
    let record_path = flag(args, "--record");
    let record_required = has_flag(args, "--record-required");
    let run_for_ms: Option<u64> = match parse_run_for(args) {
        Ok(length) => length,
        Err(error) => return Err(error),
    };
    let limit = flag(args, "--record-max-bytes");
    let record_max_bytes: u64 = match &limit {
        None => DEFAULT_RECORD_MAX_BYTES,
        Some(value) => match read_number(value.as_str()) {
            Some(bytes) => bytes,
            None => return Err(
                fault(FaultKind::InvalidInput, "--record-max-bytes must be a positive integer"),
            ),
        },
    };
    if record_max_bytes == 0 {
        return Err(
            fault(FaultKind::InvalidInput, "--record-max-bytes must be a positive integer"),
        );
    }
    let path = match &record_path {
        Some(path) => Some(path.as_str()),
        None => None,
    };
    match validate_record_options(path, limit.is_some(), record_required) {
        Ok(_) => {},
        Err(error) => return Err(error),
    }
    Ok(
        RunOptions {
            allow_unsafe: has_flag(args, "--i-know-this-is-unauthenticated"),
            record_path,
            record_required,
            run_for_ms,
            record_max_bytes,
        },
    )
}

/// The configuration file that a run reads where it does not join.
pub fn run_config_path(args: &[String]) -> (path: String)
    ensures
        path@ == flag_or(texts(args@), "--config", "ccdb.toml"),
{
    flag_default(args, "--config", "ccdb.toml")
}

/// How often a probe tries.
pub open spec fn probe_tries(args: Seq<Seq<char>>) -> u64 {
    match flag_of(args, "--retries") {
        Some(value) => match number_in(value) {
            Some(tries) => if tries == 0 {
                1
            } else {
                tries
            },
            None => 5,
        },
        None => 5,
    }
}

/// How a peer is probed.
#[derive(Clone, Debug, PartialEq, Eq)]
pub struct ProbePlan {
    pub address: String,
    pub config_path: String,
    pub tries: u64,
}

/// Reads how a peer is probed. A probe needs a configuration to introduce
/// itself with.
pub fn probe_plan(args: &[String]) -> (result: Result<ProbePlan, Fault>)
    ensures
        match result {
            Ok(plan) => {
                &&& flag_of(texts(args@), "--config") == Some(plan.config_path@)
                &&& plan.address@ == flag_or(texts(args@), "--addr", "127.0.0.1:7201")
                &&& plan.tries == probe_tries(texts(args@))
            },
            Err(error) => flag_of(texts(args@), "--config") is None && error@ == because(
                FaultKind::InvalidInput,
                "peer probe requires --config for CCHL",
            ),
        },
{
    let address = flag_default(args, "--addr", "127.0.0.1:7201");
    let config_path = match need(args, "--config", "peer probe requires --config for CCHL") {
        Ok(path) => path,
        Err(error) => return Err(error),
    };
    let tries: u64 = match flag(args, "--retries") {
        Some(value) => match read_number(value.as_str()) {
            Some(tries) => if tries == 0 {
                1
            } else {
                tries
            },
            None => 5,
        },
        None => 5,
    };
    Ok(ProbePlan { address, config_path, tries })
}

/// The pause before the next try: twice the last one, as far as it goes.
pub fn next_delay(millis: u64) -> (next: u64)
    ensures
        next == if 2 * millis <= u64::MAX {
            (2 * millis) as u64
        } else {
            u64::MAX
        },
{
    if millis <= u64::MAX / 2 {
        2 * millis
    } else {
        u64::MAX
    }
}

/// What an operator's change of membership is called on the wire.
pub open spec fn action_named(arg: Seq<char>) -> Option<&'static str> {
    if arg == "add-learner"@ {
        Some("ADDLEARNER")
    } else if arg == "promote"@ || arg == "promote-learner"@ {
        Some("PROMOTE")
    } else if arg == "remove"@ {
        Some("REMOVE")
    } else if arg == "update-address"@ {
        Some("UPDATEADDRESS")
    } else if arg == "transfer-leader"@ {
        Some("TRANSFER")
    } else if arg == "leave-joint"@ {
        Some("LEAVEJOINT")
    } else {
        None
    }
}

/// The first change of membership among the arguments from position `i` on.
pub open spec fn action_from(args: Seq<Seq<char>>, i: int) -> Option<&'static str>
    decreases args.len() - i,
{
    if i < 0 || i >= args.len() {
        None
    } else if action_named(args[i]) is Some {
        action_named(args[i])
    } else {
        action_from(args, i + 1)
    }
}

fn name_action(arg: &str) -> (action: Option<&'static str>)
    ensures
        action == action_named(arg@),
{
    if same_text(arg, "add-learner") {
        Some("ADDLEARNER")
    } else if same_text(arg, "promote") || same_text(arg, "promote-learner") {
        Some("PROMOTE")
    } else if same_text(arg, "remove") {
        Some("REMOVE")
    } else if same_text(arg, "update-address") {
        Some("UPDATEADDRESS")
    } else if same_text(arg, "transfer-leader") {
        Some("TRANSFER")
    } else if same_text(arg, "leave-joint") {
        Some("LEAVEJOINT")
    } else {
        None
    }
}

fn find_action(args: &[String]) -> (action: Option<&'static str>)
    ensures
        action == action_from(texts(args@), 0),
{
    let ghost all = texts(args@);
    let mut i: usize = 0;
    while i < args.len()
        invariant
            i <= args@.len(),
            all == texts(args@),
            action_from(all, 0) == action_from(all, i as int),
        decreases args@.len() - i,
    {
        assert(all[i as int] == args@[i as int]@);
        let found = name_action(args[i].as_str());
        if found.is_some() {
            return found;
        }
        i += 1;
    }
    None
}

/// The report that an operator asks for: the first of its names among the
/// arguments.
#[derive(Clone, Copy, Debug, PartialEq, Eq, Structural)]
pub enum Report {
    Status,
    Members,
    Snapshot,
}

pub open spec fn report_named(arg: Seq<char>) -> Option<Report> {
    if arg == "status"@ {
        Some(Report::Status)
    } else if arg == "members"@ || arg == "list"@ {
        Some(Report::Members)
    } else if arg == "snapshot"@ {
        Some(Report::Snapshot)
    } else {
        None
    }
}

pub open spec fn report_from(args: Seq<Seq<char>>, i: int) -> Report
    decreases args.len() - i,
{
    if i < 0 || i >= args.len() {
        Report::Status
    } else {
        match report_named(args[i]) {
            Some(report) => report,
            None => report_from(args, i + 1),
        }
    }
}

fn find_report(args: &[String]) -> (report: Report)
    ensures
        report == report_from(texts(args@), 0),
{
    let ghost all = texts(args@);
    let mut i: usize = 0;
    while i < args.len()
        invariant
            i <= args@.len(),
            all == texts(args@),
            report_from(all, 0) == report_from(all, i as int),
        decreases args@.len() - i,
    {
        assert(all[i as int] == args@[i as int]@);
        let arg = args[i].as_str();
        if same_text(arg, "status") {
            return Report::Status;
        }
        if same_text(arg, "members") || same_text(arg, "list") {
            return Report::Members;
        }
        if same_text(arg, "snapshot") {
            return Report::Snapshot;
        }
        i += 1;
    }
    Report::Status
}

/// Who asks for a change, and how often they have asked before.
pub open spec fn admin_owner(args: Seq<Seq<char>>) -> Result<(Seq<char>, Seq<char>), FaultView> {
    match needed(args, "--operator-id", "membership mutation requires --operator-id") {
        Err(fault) => Err(fault),
        Ok(operator) => match needed(
            args,
            "--sequence",
            "membership mutation requires --sequence",
        ) {
            Err(fault) => Err(fault),
            Ok(sequence) => if !nonzero(operator) {
                Err(
                    because(
                        FaultKind::InvalidInput,
                        "--operator-id must be a nonzero integer",
                    ),
                )
            } else if !nonzero(sequence) {
                Err(because(FaultKind::InvalidInput, "--sequence must be a nonzero integer"))
            } else {
                Ok((operator, sequence))
            },
        },
    }
}

/// Whether a text writes a number other than zero.
pub open spec fn nonzero(text: Seq<char>) -> bool {
    number_in(text) matches Some(value) && value != 0
}

fn is_nonzero(text: &str) -> (r: bool)
    ensures
        r == nonzero(text@),
{
    match read_number(text) {
        Some(value) => value != 0,
        None => false,
    }
}

/// Reads who asks for a change.
pub fn required_admin_identity(args: &[String]) -> (result: Result<(String, String), Fault>)
    ensures
        match result {
            Ok(owner) => admin_owner(texts(args@)) == Ok::<(Seq<char>, Seq<char>), FaultView>(
                (owner.0@, owner.1@),
            ),
            Err(error) => admin_owner(texts(args@)) == Err::<(Seq<char>, Seq<char>), FaultView>(
                error@,
            ),
        },
{
    let operator = match need(
        args,
        "--operator-id",
        "membership mutation requires --operator-id",
    ) {
        Ok(value) => value,
        Err(error) => return Err(error),
    };
    let sequence = match need(args, "--sequence", "membership mutation requires --sequence") {
        Ok(value) => value,
        Err(error) => return Err(error),
    };
    if !is_nonzero(operator.as_str()) {
        return Err(fault(FaultKind::InvalidInput, "--operator-id must be a nonzero integer"));
    }
    if !is_nonzero(sequence.as_str()) {
        return Err(fault(FaultKind::InvalidInput, "--sequence must be a nonzero integer"));
    }
    Ok((operator, sequence))
}

/// What an operator asks for.
#[derive(Clone, Debug, PartialEq, Eq)]
pub enum AdminPlan {
    Backup { data_dir: String, output: String },
    Restore {
        input: String,
        data_dir: String,
        new_cluster_id: ClusterId,
        new_node_id: u64,
        accept_legacy: bool,
    },
    Activate { address: String, operator: String, sequence: String },
    Change { address: String, action: &'static str, operator: String, sequence: String },
    Report { address: String, report: Report, consistent: bool },
}

pub enum AdminPlanView {
    Backup { data_dir: Seq<char>, output: Seq<char> },
    Restore {
        input: Seq<char>,
        data_dir: Seq<char>,
        new_cluster_id: Seq<u8>,
        new_node_id: u64,
        accept_legacy: bool,
    },
    Activate { address: Seq<char>, operator: Seq<char>, sequence: Seq<char> },
    Change {
        address: Seq<char>,
        action: &'static str,
        operator: Seq<char>,
        sequence: Seq<char>,
    },
    Report { address: Seq<char>, report: Report, consistent: bool },
}

impl View for AdminPlan {
    type V = AdminPlanView;

    open spec fn view(&self) -> AdminPlanView {
        match *self {
            AdminPlan::Backup { data_dir, output } => AdminPlanView::Backup {
                data_dir: data_dir@,
                output: output@,
            },
            AdminPlan::Restore { input, data_dir, new_cluster_id, new_node_id, accept_legacy } => {
                AdminPlanView::Restore {
                    input: input@,
                    data_dir: data_dir@,
                    new_cluster_id: new_cluster_id@,
                    new_node_id,
                    accept_legacy,
                }
            },
            AdminPlan::Activate { address, operator, sequence } => AdminPlanView::Activate {
                address: address@,
                operator: operator@,
                sequence: sequence@,
            },
            AdminPlan::Change { address, action, operator, sequence } => AdminPlanView::Change {
                address: address@,
                action,
                operator: operator@,
                sequence: sequence@,
            },
            AdminPlan::Report { address, report, consistent } => AdminPlanView::Report {
                address: address@,
                report,
                consistent,
            },
        }
    }
}

pub open spec fn backup_plan(args: Seq<Seq<char>>) -> Result<AdminPlanView, FaultView> {
    match needed(args, "--data-dir", "backup requires --data-dir") {
        Err(fault) => Err(fault),
        Ok(data_dir) => match needed(args, "--output", "backup requires --output") {
            Err(fault) => Err(fault),
            Ok(output) => Ok(AdminPlanView::Backup { data_dir, output }),
        },
    }
}

pub open spec fn restore_plan(args: Seq<Seq<char>>) -> Result<AdminPlanView, FaultView> {
    match needed(args, "--input", "restore requires --input") {
        Err(fault) => Err(fault),
        Ok(input) => match needed(args, "--data-dir", "restore requires --data-dir") {
            Err(fault) => Err(fault),
            Ok(data_dir) => match needed(
                args,
                "--new-cluster-id",
                "restore requires --new-cluster-id",
            ) {
                Err(fault) => Err(fault),
                Ok(cluster) => match cluster_id_of(vstd::utf8::encode_utf8(cluster)) {
                    Err(fault) => Err(fault),
                    Ok(new_cluster_id) => match needed(
                        args,
                        "--new-node-id",
                        "restore requires --new-node-id",
                    ) {
                        Err(fault) => Err(fault),
                        Ok(node) => match number_in(node) {
                            None => Err(
                                because(
                                    FaultKind::InvalidInput,
                                    "restore new node id must be nonzero",
                                ),
                            ),
                            Some(new_node_id) => Ok(
                                AdminPlanView::Restore {
                                    input,
                                    data_dir,
                                    new_cluster_id,
                                    new_node_id,
                                    accept_legacy: says(args, "--accept-legacy-node-backup"),
                                },
                            ),
                        },
                    },
                },
            },
        },
    }
}

/// What an operator asks for, or what is missing.
pub open spec fn admin_plan_of(args: Seq<Seq<char>>) -> Result<AdminPlanView, FaultView> {
    let address = flag_or(args, "--addr", "127.0.0.1:7101");
    if says(args, "backup") {
        backup_plan(args)
    } else if says(args, "restore") {
        restore_plan(args)
    } else if says(args, "feature") && says(args, "activate") && says(args, "atomic-batch") {
        match admin_owner(args) {
            Err(fault) => Err(fault),
            Ok(owner) => Ok(
                AdminPlanView::Activate { address, operator: owner.0, sequence: owner.1 },
            ),
        }
    } else {
        match action_from(args, 0) {
            Some(action) => match admin_owner(args) {
                Err(fault) => Err(fault),
                Ok(owner) => Ok(
                    AdminPlanView::Change { address, action, operator: owner.0, sequence: owner.1 },
                ),
            },
            None => if report_from(args, 0) is Snapshot {
                Err(because(FaultKind::InvalidInput, "admin snapshot is not supported"))
            } else {
                Ok(
                    AdminPlanView::Report {
                        address,
                        report: report_from(args, 0),
                        consistent: says(args, "--consistent"),
                    },
                )
            },
        }
    }
}

pub open spec fn plan_is(
    result: Result<AdminPlan, Fault>,
    expected: Result<AdminPlanView, FaultView>,
) -> bool {
    match result {
        Ok(plan) => expected == Ok::<AdminPlanView, FaultView>(plan@),
        Err(error) => expected == Err::<AdminPlanView, FaultView>(error@),
    }
}

fn plan_backup(args: &[String]) -> (result: Result<AdminPlan, Fault>)
    ensures
        plan_is(result, backup_plan(texts(args@))),
{
    let data_dir = match need(args, "--data-dir", "backup requires --data-dir") {
        Ok(value) => value,
        Err(error) => return Err(error),
    };
    let output = match need(args, "--output", "backup requires --output") {
        Ok(value) => value,
        Err(error) => return Err(error),
    };
    Ok(AdminPlan::Backup { data_dir, output })
}

fn plan_restore(args: &[String]) -> (result: Result<AdminPlan, Fault>)
    ensures
        plan_is(result, restore_plan(texts(args@))),
{
    let input = match need(args, "--input", "restore requires --input") {
        Ok(value) => value,
        Err(error) => return Err(error),
    };
    let data_dir = match need(args, "--data-dir", "restore requires --data-dir") {
        Ok(value) => value,
        Err(error) => return Err(error),
    };
    let cluster = match need(args, "--new-cluster-id", "restore requires --new-cluster-id") {
        Ok(value) => value,
        Err(error) => return Err(error),
    };
    let new_cluster_id = match ClusterId::from_hex(cluster.as_str()) {
        Ok(id) => id,
        Err(error) => return Err(error),
    };
    let node = match need(args, "--new-node-id", "restore requires --new-node-id") {
        Ok(value) => value,
        Err(error) => return Err(error),
    };
    let new_node_id: u64 = match read_number(node.as_str()) {
        Some(number) => number,
        None => return Err(
            fault(FaultKind::InvalidInput, "restore new node id must be nonzero"),
        ),
    };
    Ok(
        AdminPlan::Restore {
            input,
            data_dir,
            new_cluster_id,
            new_node_id,
            accept_legacy: has_flag(args, "--accept-legacy-node-backup"),
        },
    )
}

/// Reads what an operator asks for.
pub fn admin_plan(args: &[String]) -> (result: Result<AdminPlan, Fault>)
    ensures
        plan_is(result, admin_plan_of(texts(args@))),
{
    if has_flag(args, "backup") {
        return plan_backup(args);
    }
    if has_flag(args, "restore") {
        return plan_restore(args);
    }
    let address = flag_default(args, "--addr", "127.0.0.1:7101");
    if has_flag(args, "feature") && has_flag(args, "activate") && has_flag(args, "atomic-batch") {
        return match required_admin_identity(args) {
            Ok((operator, sequence)) => Ok(AdminPlan::Activate { address, operator, sequence }),
            Err(error) => Err(error),
        };
    }
    match find_action(args) {
        Some(action) => match required_admin_identity(args) {
            Ok((operator, sequence)) => Ok(
                AdminPlan::Change { address, action, operator, sequence },
            ),
            Err(error) => Err(error),
        },
        None => {
            let report = find_report(args);
            if report == Report::Snapshot {
                return Err(fault(FaultKind::InvalidInput, "admin snapshot is not supported"));
            }
            Ok(AdminPlan::Report { address, report, consistent: has_flag(args, "--consistent") })
        },
    }
}

pub open spec fn names_address(action: Seq<char>) -> bool {
    action == "ADDLEARNER"@ || action == "UPDATEADDRESS"@
}

/// The command that carries a change of membership to the leader.
/// `numeric_peer` says whether the peer address is a numeric endpoint.
pub open spec fn change_of(
    args: Seq<Seq<char>>,
    action: Seq<char>,
    operator: Seq<char>,
    sequence: Seq<char>,
    numeric_peer: bool,
) -> Result<Seq<Seq<char>>, FaultView> {
    let head = seq!["CC.ADMIN"@, action];
    if action == "LEAVEJOINT"@ {
        Ok(head.push(operator).push(sequence))
    } else {
        match needed(args, "--node-id", "membership operation requires --node-id") {
            Err(fault) => Err(fault),
            Ok(node) => if !nonzero(node) {
                Err(because(FaultKind::InvalidInput, "--node-id must be a nonzero integer"))
            } else if !names_address(action) {
                Ok(head.push(node).push(operator).push(sequence))
            } else {
                match needed(
                    args,
                    "--peer-addr",
                    "learner/address operation requires --peer-addr",
                ) {
                    Err(fault) => Err(fault),
                    Ok(peer) => if !numeric_peer {
                        Err(
                            because(
                                FaultKind::InvalidInput,
                                "--peer-addr must be a numeric IP:port",
                            ),
                        )
                    } else {
                        Ok(head.push(node).push(peer).push(operator).push(sequence))
                    },
                }
            },
        }
    }
}

/// Composes the command that carries a change of membership to the leader.
pub fn change_command(
    args: &[String],
    action: &str,
    operator: &str,
    sequence: &str,
    numeric_peer: bool,
) -> (result: Result<Vec<String>, Fault>)
    ensures
        match result {
            Ok(command) => change_of(
                texts(args@),
                action@,
                operator@,
                sequence@,
                numeric_peer,
            ) == Ok::<Seq<Seq<char>>, FaultView>(texts(command@)),
            Err(error) => change_of(
                texts(args@),
                action@,
                operator@,
                sequence@,
                numeric_peer,
            ) == Err::<Seq<Seq<char>>, FaultView>(error@),
        },
{
    let mut command: Vec<String> = Vec::new();
    command.push("CC.ADMIN".to_owned());
    command.push(action.to_owned());
    assert(texts(command@) =~= seq!["CC.ADMIN"@, action@]);
    let ghost head = texts(command@);
    if !same_text(action, "LEAVEJOINT") {
        let node = match need(args, "--node-id", "membership operation requires --node-id") {
            Ok(node) => node,
            Err(error) => return Err(error),
        };
        if !is_nonzero(node.as_str()) {
            return Err(fault(FaultKind::InvalidInput, "--node-id must be a nonzero integer"));
        }
        let ghost node_text = node@;
        command.push(node);
        assert(texts(command@) =~= head.push(node_text));
        if same_text(action, "ADDLEARNER") || same_text(action, "UPDATEADDRESS") {
            let peer = match need(
                args,
                "--peer-addr",
                "learner/address operation requires --peer-addr",
            ) {
                Ok(peer) => peer,
                Err(error) => return Err(error),
            };
            if !numeric_peer {
                return Err(
                    fault(FaultKind::InvalidInput, "--peer-addr must be a numeric IP:port"),
                );
            }
            let ghost so_far = texts(command@);
            let ghost peer_text = peer@;
            command.push(peer);
            assert(texts(command@) =~= so_far.push(peer_text));
        }
    }
    let ghost so_far = texts(command@);
    command.push(operator.to_owned());
    command.push(sequence.to_owned());
    assert(texts(command@) =~= so_far.push(operator@).push(sequence@));
    Ok(command)
}

/// What is initialized.
#[derive(Clone, Debug, PartialEq, Eq)]
pub enum InitPlan {
    Single { cluster: String, cluster_id: ClusterId, node: u64, data_dir: String },
    Cluster { cluster: String, cluster_id: ClusterId, nodes: u64, base: String },
}

pub enum InitView {
    Single { cluster: Seq<char>, cluster_id: Seq<u8>, node: u64, data_dir: Seq<char> },
    Cluster { cluster: Seq<char>, cluster_id: Seq<u8>, nodes: u64, base: Seq<char> },
}

impl View for InitPlan {
    type V = InitView;

    open spec fn view(&self) -> InitView {
        match *self {
            InitPlan::Single { cluster, cluster_id, node, data_dir } => InitView::Single {
                cluster: cluster@,
                cluster_id: cluster_id@,
                node,
                data_dir: data_dir@,
            },
            InitPlan::Cluster { cluster, cluster_id, nodes, base } => InitView::Cluster {
                cluster: cluster@,
                cluster_id: cluster_id@,
                nodes,
                base: base@,
            },
        }
    }
}

/// How many nodes a new cluster gets.
pub open spec fn node_count(args: Seq<Seq<char>>) -> u64 {
    match flag_of(args, "--nodes") {
        Some(value) => match number_in(value) {
            Some(nodes) => nodes,
            None => 3,
        },
        None => 3,
    }
}

/// What is initialized, or what is missing.
pub open spec fn init_of(args: Seq<Seq<char>>) -> Result<InitView, FaultView> {
    let cluster = flag_or(args, "--cluster", "demo");
    match needed(
        args,
        "--cluster-id",
        "init requires --cluster-id as 32 lowercase hexadecimal characters",
    ) {
        Err(fault) => Err(fault),
        Ok(value) => match cluster_id_of(vstd::utf8::encode_utf8(value)) {
            Err(fault) => Err(fault),
            Ok(cluster_id) => match flag_of(args, "--data-dir") {
                Some(data_dir) => match needed(
                    args,
                    "--node-id",
                    "single-node initialization requires --node-id",
                ) {
                    Err(fault) => Err(fault),
                    Ok(node) => match number_in(node) {
                        None => Err(
                            because(FaultKind::InvalidInput, "node id must be a nonzero u64"),
                        ),
                        Some(node) => if node == 0 {
                            Err(because(FaultKind::InvalidInput, "node id must be nonzero"))
                        } else {
                            Ok(InitView::Single { cluster, cluster_id, node, data_dir })
                        },
                    },
                },
                None => if node_count(args) == 0 {
                    Err(because(FaultKind::InvalidInput, "init --nodes must be nonzero"))
                } else {
                    Ok(
                        InitView::Cluster {
                            cluster,
                            cluster_id,
                            nodes: node_count(args),
                            base: flag_or(args, "--base-dir", "ccdb-data"),
                        },
                    )
                },
            },
        },
    }
}

/// Reads what is initialized.
pub fn init_plan(args: &[String]) -> (result: Result<InitPlan, Fault>)
    ensures
        match result {
            Ok(plan) => init_of(texts(args@)) == Ok::<InitView, FaultView>(plan@),
            Err(error) => init_of(texts(args@)) == Err::<InitView, FaultView>(error@),
        },
{
    let cluster = flag_default(args, "--cluster", "demo");
    let value = match need(
        args,
        "--cluster-id",
        "init requires --cluster-id as 32 lowercase hexadecimal characters",
    ) {
        Ok(value) => value,
        Err(error) => return Err(error),
    };
    let cluster_id = match ClusterId::from_hex(value.as_str()) {
        Ok(id) => id,
        Err(error) => return Err(error),
    };
    if let Some(data_dir) = flag(args, "--data-dir") {
        let node_text = match need(
            args,
            "--node-id",
            "single-node initialization requires --node-id",
        ) {
            Ok(value) => value,
            Err(error) => return Err(error),
        };
        let node: u64 = match read_number(node_text.as_str()) {
            Some(node) => node,
            None => return Err(fault(FaultKind::InvalidInput, "node id must be a nonzero u64")),
        };
        if node == 0 {
            return Err(fault(FaultKind::InvalidInput, "node id must be nonzero"));
        }
        return Ok(InitPlan::Single { cluster, cluster_id, node, data_dir });
    }
    let nodes: u64 = match flag(args, "--nodes") {
        Some(value) => match read_number(value.as_str()) {
            Some(nodes) => nodes,
            None => 3,
        },
        None => 3,
    };
    if nodes == 0 {
        return Err(fault(FaultKind::InvalidInput, "init --nodes must be nonzero"));
    }
    Ok(
        InitPlan::Cluster {
            cluster,
            cluster_id,
            nodes,
            base: flag_default(args, "--base-dir", "ccdb-data"),
        },
    )
}

/// What the host checks of a data directory and its listeners.
#[derive(Debug, PartialEq, Eq)]
pub struct DoctorPlan {
    pub data_dir: String,
    pub client: String,
    pub peer: String,
}

/// Reads what the host checks.
pub fn doctor_plan(args: &[String]) -> (plan: DoctorPlan)
    ensures
        plan.data_dir@ == flag_or(texts(args@), "--data-dir", "."),
        plan.client@ == flag_or(texts(args@), "--client-addr", "127.0.0.1:7101"),
        plan.peer@ == flag_or(texts(args@), "--peer-addr", "127.0.0.1:7201"),
{
    DoctorPlan {
        data_dir: flag_default(args, "--data-dir", "."),
        client: flag_default(args, "--client-addr", "127.0.0.1:7101"),
        peer: flag_default(args, "--peer-addr", "127.0.0.1:7201"),
    }
}

/// What stands at a path: a directory, a file, or something that cannot be
/// looked at.
pub open spec fn kind_shown(is_dir: Option<bool>) -> &'static str {
    match is_dir {
        Some(true) => "directory",
        Some(false) => "file",
        None => "unknown",
    }
}

/// Says what stands at a path, where `is_dir` is what its metadata tells.
pub fn filesystem_kind(is_dir: Option<bool>) -> (kind: String)
    ensures
        kind@ == kind_shown(is_dir)@,
{
    match is_dir {
        Some(true) => "directory".to_owned(),
        Some(false) => "file".to_owned(),
        None => "unknown".to_owned(),
    }
}

/// Whether a port answers.
pub open spec fn port_shown(open: bool) -> &'static str {
    if open {
        "open"
    } else {
        "closed"
    }
}

fn port_probe(open: bool) -> (shown: &'static str)
    ensures
        shown == port_shown(open),
{
    if open {
        "open"
    } else {
        "closed"
    }
}

/// Composes the report of a check that passed.
pub fn doctor(data_dir: &str, is_dir: Option<bool>, client_open: bool, peer_open: bool) -> (text:
    String)
    ensures
        text@ == "doctor data_dir="@ + data_dir@ + " filesystem="@ + kind_shown(is_dir)@
            + " fsync=pass client_port="@ + port_shown(client_open)@ + " peer_port="@ + port_shown(
            peer_open,
        )@,
{
    let mut text = "doctor data_dir=".to_owned();
    text.append(data_dir);
    text.append(" filesystem=");
    text.append(filesystem_kind(is_dir).as_str());
    text.append(" fsync=pass client_port=");
    text.append(port_probe(client_open));
    text.append(" peer_port=");
    text.append(port_probe(peer_open));
    text
}

/// What the operator can ask for.
pub open spec fn help_of(version: Seq<char>) -> Seq<char> {
    "ccdb "@ + version
        + "\n\nCommands:\n  init --cluster NAME --cluster-id HEX32 --nodes N [--base-dir DIR]\n  init --cluster NAME --cluster-id HEX32 --node-id ID --data-dir DIR\n  run --config PATH [--record PATH] [--record-max-bytes N] [--record-required] [--run-for-ms N] [--i-know-this-is-unauthenticated]\n  run --join SEED_ADDR --node-id ID --peer-addr ADDR --data-dir DIR [--client-addr ADDR] [--metrics-addr ADDR]\n  peer --config PATH --addr ADDR [--retries N]\n  admin --addr ADDR status|members [--consistent]\n  admin --addr ADDR add-learner|update-address --node-id ID --peer-addr ADDR --operator-id ID --sequence N\n  admin --addr ADDR promote|remove|transfer-leader --node-id ID --operator-id ID --sequence N\n  admin --addr ADDR leave-joint --operator-id ID --sequence N\n  admin --addr ADDR feature activate atomic-batch --operator-id ID --sequence N\n  admin backup --data-dir DIR --output FILE\n  admin restore --input FILE --data-dir DIR --new-cluster-id HEX32 --new-node-id ID [--accept-legacy-node-backup]\n  selfcheck --data-dir DIR [--deep]\n  doctor [--data-dir DIR] [--client-addr ADDR] [--peer-addr ADDR]"@
}

/// The version that the host shows.
pub fn print_version(version: &str) -> (text: String)
    ensures
        text@ == "ccdb "@ + version@,
{
    let mut text = "ccdb ".to_owned();
    text.append(version);
    text
}

/// Composes what the operator can ask for.
pub fn print_help(version: &str) -> (text: String)
    ensures
        text@ == help_of(version@),
{
    let mut text = "ccdb ".to_owned();
    text.append(version);
    text.append(
        "\n\nCommands:\n  init --cluster NAME --cluster-id HEX32 --nodes N [--base-dir DIR]\n  init --cluster NAME --cluster-id HEX32 --node-id ID --data-dir DIR\n  run --config PATH [--record PATH] [--record-max-bytes N] [--record-required] [--run-for-ms N] [--i-know-this-is-unauthenticated]\n  run --join SEED_ADDR --node-id ID --peer-addr ADDR --data-dir DIR [--client-addr ADDR] [--metrics-addr ADDR]\n  peer --config PATH --addr ADDR [--retries N]\n  admin --addr ADDR status|members [--consistent]\n  admin --addr ADDR add-learner|update-address --node-id ID --peer-addr ADDR --operator-id ID --sequence N\n  admin --addr ADDR promote|remove|transfer-leader --node-id ID --operator-id ID --sequence N\n  admin --addr ADDR leave-joint --operator-id ID --sequence N\n  admin --addr ADDR feature activate atomic-batch --operator-id ID --sequence N\n  admin backup --data-dir DIR --output FILE\n  admin restore --input FILE --data-dir DIR --new-cluster-id HEX32 --new-node-id ID [--accept-legacy-node-backup]\n  selfcheck --data-dir DIR [--deep]\n  doctor [--data-dir DIR] [--client-addr ADDR] [--peer-addr ADDR]",
    );
    text
}

} // verus!
