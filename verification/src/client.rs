//! A client connection: its transaction, and what each of its commands asks of
//! the host. The host performs an action and hands back what came of it.
use vstd::prelude::*;
use vstd::string::*;

use crate::command::{
    byte_views, command_views, word, AdminOperation, AdminView, ClientCommand, CommandView,
};
use crate::fault::{because, fault, fault_of, Fault, FaultKind, FaultView};
use crate::ids::{ClientId, Time};
use crate::kv::{
    batch_command, batch_kv, batchable, explicit_write_kv, flat_pairs, flatten_pairs, kv_views,
    queue_transaction_command, refusal, render_write_replies, render_write_reply, reply_views,
    request_command, resp_of, set_command, set_kv, simple, simple_command, simple_kv, to_resp,
    write_replies, write_reply, KvCommand, KvReply, KvView, ReplyView,
};
use crate::membership::{namespace_code, SessionKey, SessionNamespace};
use crate::prose::{append_number, number_text};
use crate::resp::{views, RespValue, RespView};
use crate::text::{copy_bytes, lossy_of, lossy_text};

verus! {

/// What the cluster's policy lets one batch hold.
#[derive(Clone, Copy, Debug, PartialEq, Eq, Structural)]
pub struct BatchLimits {
    pub max_commands: u64,
    pub max_bytes: u64,
}

/// The transaction that a connection builds. It is local to the connection and
/// never replicated: closing the connection drops it.
#[derive(Debug, PartialEq, Eq)]
pub enum ClientTransaction {
    Clean { commands: Vec<ClientCommand>, translated: Vec<KvCommand>, encoded_bytes: u64 },
    Dirty,
}

/// A transaction as mathematics.
pub enum TransactionView {
    Clean { commands: Seq<CommandView>, translated: Seq<KvView>, encoded_bytes: u64 },
    Dirty,
}

impl View for ClientTransaction {
    type V = TransactionView;

    open spec fn view(&self) -> TransactionView {
        match *self {
            ClientTransaction::Clean { commands, translated, encoded_bytes } => {
                TransactionView::Clean {
                    commands: command_views(commands@),
                    translated: kv_views(translated@),
                    encoded_bytes,
                }
            },
            ClientTransaction::Dirty => TransactionView::Dirty,
        }
    }
}

pub open spec fn transaction_view(transaction: Option<ClientTransaction>) -> Option<
    TransactionView,
> {
    match transaction {
        Some(transaction) => Some(transaction@),
        None => None,
    }
}

/// A transaction without commands.
pub open spec fn empty_transaction() -> TransactionView {
    TransactionView::Clean {
        commands: Seq::empty(),
        translated: Seq::empty(),
        encoded_bytes: 0,
    }
}

/// What queueing a command does to a transaction, and the answer. A command
/// that cannot be queued, or does not fit, spoils the transaction for good.
pub open spec fn queued(
    transaction: TransactionView,
    command: CommandView,
    limits: BatchLimits,
    child_bytes: u64,
) -> (TransactionView, RespView) {
    match batchable(command) {
        Err(fault) => (
            TransactionView::Dirty,
            RespView::Error("ERR command cannot be queued: "@ + fault.message),
        ),
        Ok(kv) => match transaction {
            TransactionView::Dirty => (
                TransactionView::Dirty,
                RespView::Error("ERR transaction is already dirty"@),
            ),
            TransactionView::Clean { commands, translated, encoded_bytes } => {
                if commands.len() >= limits.max_commands || encoded_bytes + child_bytes
                    > limits.max_bytes {
                    (
                        TransactionView::Dirty,
                        RespView::Error("ERR transaction exceeds batch limits"@),
                    )
                } else {
                    (
                        TransactionView::Clean {
                            commands: commands.push(command),
                            translated: translated.push(kv),
                            encoded_bytes: (encoded_bytes + child_bytes) as u64,
                        },
                        RespView::Simple("QUEUED"@),
                    )
                }
            },
        },
    }
}

/// What still has to be done with the reply to a submitted command.
#[derive(Debug, PartialEq, Eq)]
pub enum Pending {
    Plain,
    Write(ClientCommand),
    Transaction(Vec<ClientCommand>),
    Deleting { rest: Vec<Vec<u8>>, deleted: i64 },
    Exists,
    Scan { cursor: u64 },
    Members,
}

pub enum PendingView {
    Plain,
    Write(CommandView),
    Transaction(Seq<CommandView>),
    Deleting { rest: Seq<Seq<u8>>, deleted: i64 },
    Exists,
    Scan { cursor: u64 },
    Members,
}

impl View for Pending {
    type V = PendingView;

    open spec fn view(&self) -> PendingView {
        match *self {
            Pending::Plain => PendingView::Plain,
            Pending::Write(command) => PendingView::Write(command@),
            Pending::Transaction(commands) => PendingView::Transaction(command_views(commands@)),
            Pending::Deleting { rest, deleted } => PendingView::Deleting {
                rest: byte_views(rest@),
                deleted,
            },
            Pending::Exists => PendingView::Exists,
            Pending::Scan { cursor } => PendingView::Scan { cursor },
            Pending::Members => PendingView::Members,
        }
    }
}

/// What a command asks of the host next.
#[derive(Debug, PartialEq, Eq)]
pub enum ClientAction {
    /// Answer the client.
    Reply(RespValue),
    /// Answer the client with the reason of a fault.
    Fail(Fault),
    /// Answer with the server's own report.
    Info,
    /// Answer with the membership report.
    Members,
    /// Submit a command, under a caller-owned session or none.
    Submit { session: Option<(u64, u64)>, command: KvCommand, next: Pending },
    /// Submit an operator's change.
    Admin { operator_id: u64, sequence: u64, operation: AdminOperation },
    /// Read on this node once the leader has confirmed the read.
    FollowerRead { command: KvCommand },
    /// Read this node's own state, however old.
    StaleGet { key: Vec<u8> },
}

pub enum ActionView {
    Reply(RespView),
    Fail(FaultView),
    Info,
    Members,
    Submit { session: Option<(u64, u64)>, command: KvView, next: PendingView },
    Admin { operator_id: u64, sequence: u64, operation: AdminView },
    FollowerRead { command: KvView },
    StaleGet { key: Seq<u8> },
}

impl View for ClientAction {
    type V = ActionView;

    open spec fn view(&self) -> ActionView {
        match *self {
            ClientAction::Reply(value) => ActionView::Reply(value@),
            ClientAction::Fail(fault) => ActionView::Fail(fault@),
            ClientAction::Info => ActionView::Info,
            ClientAction::Members => ActionView::Members,
            ClientAction::Submit { session, command, next } => ActionView::Submit {
                session,
                command: command@,
                next: next@,
            },
            ClientAction::Admin { operator_id, sequence, operation } => ActionView::Admin {
                operator_id,
                sequence,
                operation: operation@,
            },
            ClientAction::FollowerRead { command } => ActionView::FollowerRead {
                command: command@,
            },
            ClientAction::StaleGet { key } => ActionView::StaleGet { key: key@ },
        }
    }
}

/// How a submission failed.
#[derive(Debug, PartialEq, Eq)]
pub enum SubmitFailure {
    NotLeader { leader: u64, address: String },
    FeatureDisabled,
    Host(String),
    Timeout,
    InvalidReply,
}

pub open spec fn failure_fault(failure: SubmitFailure) -> FaultView {
    match failure {
        SubmitFailure::NotLeader { leader, address } => FaultView {
            kind: FaultKind::Other,
            message: "NOTLEADER leader=n"@ + number_text(leader as nat) + " addr="@ + address@,
        },
        SubmitFailure::FeatureDisabled => because(FaultKind::Other, "FEATUREDISABLED"),
        SubmitFailure::Host(reason) => FaultView { kind: FaultKind::Other, message: reason@ },
        SubmitFailure::Timeout => because(FaultKind::TimedOut, "request did not commit"),
        SubmitFailure::InvalidReply => because(FaultKind::InvalidData, "invalid core reply"),
    }
}

impl SubmitFailure {
    /// The fault that a client is answered with.
    pub fn to_fault(self) -> (fault: Fault)
        ensures
            fault@ == failure_fault(self),
    {
        match self {
            SubmitFailure::NotLeader { leader, address } => {
                let mut message = "NOTLEADER leader=n".to_owned();
                append_number(&mut message, leader);
                message.append(" addr=");
                message.append(address.as_str());
                fault_of(FaultKind::Other, message)
            },
            SubmitFailure::FeatureDisabled => fault(FaultKind::Other, "FEATUREDISABLED"),
            SubmitFailure::Host(reason) => fault_of(FaultKind::Other, reason),
            SubmitFailure::Timeout => fault(FaultKind::TimedOut, "request did not commit"),
            SubmitFailure::InvalidReply => fault(FaultKind::InvalidData, "invalid core reply"),
        }
    }
}

/// A command that is submitted without a session, or the fault of making it.
pub open spec fn submitted(command: Result<KvView, FaultView>, next: PendingView) -> ActionView {
    match command {
        Err(fault) => ActionView::Fail(fault),
        Ok(command) => ActionView::Submit { session: None, command, next },
    }
}

/// The next deletion, or the answer once all are done.
pub open spec fn deleting(rest: Seq<Seq<u8>>, deleted: i64) -> ActionView {
    if rest.len() == 0 {
        ActionView::Reply(RespView::Integer(deleted as int))
    } else {
        ActionView::Submit {
            session: None,
            command: KvView::Del { key: rest[0] },
            next: PendingView::Deleting { rest: rest.skip(1), deleted },
        }
    }
}

/// Bytes as a list of numbers.
pub open spec fn listed(bytes: Seq<u8>) -> Seq<char>
    decreases bytes.len(),
{
    if bytes.len() == 0 {
        Seq::empty()
    } else if bytes.len() == 1 {
        number_text(bytes[0] as nat)
    } else {
        listed(bytes.drop_last()) + ", "@ + number_text(bytes.last() as nat)
    }
}

/// What a command outside a transaction asks for.
pub open spec fn immediate(command: CommandView, leads: bool) -> ActionView {
    match command {
        CommandView::Ping => ActionView::Reply(RespView::Simple("PONG"@)),
        CommandView::Echo(value) => ActionView::Reply(RespView::Bulk(Some(value))),
        CommandView::Info => ActionView::Info,
        CommandView::Batch(commands) => submitted(
            batch_command(commands),
            PendingView::Write(command),
        ),
        CommandView::Request { client, sequence, command: inner } => if client == 0 || sequence
            == 0 {
            ActionView::Fail(
                because(
                    FaultKind::InvalidInput,
                    "CC.REQUEST client and sequence must be nonzero",
                ),
            )
        } else {
            match request_command(*inner) {
                Err(fault) => ActionView::Fail(fault),
                Ok(kv) => ActionView::Submit {
                    session: Some((client, sequence)),
                    command: kv,
                    next: PendingView::Write(*inner),
                },
            }
        },
        CommandView::Admin { operator_id, sequence, operation } => ActionView::Admin {
            operator_id,
            sequence,
            operation,
        },
        CommandView::AdminMembers { consistent } => if consistent && !leads {
            ActionView::Reply(
                RespView::Error("NOTLEADER consistent membership requires the leader"@),
            )
        } else if consistent {
            ActionView::Submit {
                session: None,
                command: KvView::Get { key: word("__cc_admin_readindex__") },
                next: PendingView::Members,
            }
        } else {
            ActionView::Members
        },
        CommandView::ReadFollower(inner) => match *inner {
            CommandView::Get(key) => ActionView::FollowerRead { command: KvView::Get { key } },
            CommandView::Ttl(key) => ActionView::FollowerRead { command: KvView::Ttl { key } },
            _ => ActionView::Reply(RespView::Error("ERR READ FOLLOWER accepts GET or TTL"@)),
        },
        CommandView::ReadStale(inner) => match *inner {
            CommandView::Get(key) => ActionView::StaleGet { key },
            _ => ActionView::Reply(RespView::Error("ERR READ STALE accepts GET"@)),
        },
        CommandView::Unknown(name) => ActionView::Reply(
            RespView::Error("ERR unknown command ["@ + listed(name) + "]"@),
        ),
        CommandView::Del(keys) => deleting(keys, 0),
        CommandView::Exists(key) => ActionView::Submit {
            session: None,
            command: KvView::Get { key },
            next: PendingView::Exists,
        },
        CommandView::Scan { cursor, prefix, count } => ActionView::Submit {
            session: None,
            command: KvView::Scan { start: prefix, end: None, limit: count },
            next: PendingView::Scan { cursor },
        },
        CommandView::SetKey { nx, xx, .. } => if nx && xx {
            ActionView::Reply(RespView::Error("ERR NX and XX are mutually exclusive"@))
        } else {
            submitted(set_command(command), PendingView::Write(command))
        },
        _ => submitted(simple_command(command), PendingView::Plain),
    }
}

/// What a command asks for on a connection with a transaction or none.
pub open spec fn begun(
    command: CommandView,
    transaction: Option<TransactionView>,
    batches_active: bool,
    leads: bool,
    limits: BatchLimits,
    child_bytes: u64,
) -> (Option<TransactionView>, ActionView) {
    match (command, transaction) {
        (CommandView::Multi, Some(_)) => (
            transaction,
            ActionView::Reply(RespView::Error("ERR MULTI calls cannot be nested"@)),
        ),
        (CommandView::Multi, None) => if !batches_active {
            (None, ActionView::Reply(RespView::Error("FEATUREDISABLED"@)))
        } else {
            (Some(empty_transaction()), ActionView::Reply(RespView::Simple("OK"@)))
        },
        (CommandView::Discard, None) => (
            None,
            ActionView::Reply(RespView::Error("ERR DISCARD without MULTI"@)),
        ),
        (CommandView::Discard, Some(_)) => (None, ActionView::Reply(RespView::Simple("OK"@))),
        (CommandView::Exec, None) => (
            None,
            ActionView::Reply(RespView::Error("ERR EXEC without MULTI"@)),
        ),
        (CommandView::Exec, Some(TransactionView::Dirty)) => (
            None,
            ActionView::Reply(
                RespView::Error(
                    "EXECABORT transaction discarded because it contains queue errors"@,
                ),
            ),
        ),
        (CommandView::Exec, Some(TransactionView::Clean { commands, translated, .. })) => (
            None,
            if commands.len() == 0 {
                ActionView::Reply(RespView::Array(Seq::empty()))
            } else {
                ActionView::Submit {
                    session: None,
                    command: KvView::Batch { commands: translated },
                    next: PendingView::Transaction(commands),
                }
            },
        ),
        (_, Some(open)) => {
            let step = queued(open, command, limits, child_bytes);
            (Some(step.0), ActionView::Reply(step.1))
        },
        (_, None) => (None, immediate(command, leads)),
    }
}

/// A number as a RESP integer, as far as it goes.
pub open spec fn clipped(value: u64) -> int {
    if value <= i64::MAX {
        value as int
    } else {
        i64::MAX as int
    }
}

/// What follows once a submitted command was answered.
pub open spec fn resumed(next: PendingView, outcome: Result<ReplyView, FaultView>) -> ActionView {
    match outcome {
        Err(fault) => ActionView::Fail(fault),
        Ok(reply) => match next {
            PendingView::Plain => ActionView::Reply(resp_of(reply)),
            PendingView::Write(command) => ActionView::Reply(write_reply(command, reply)),
            PendingView::Transaction(commands) => match reply {
                ReplyView::Batch(replies) => if replies.len() == commands.len() {
                    ActionView::Reply(RespView::Array(write_replies(commands, replies)))
                } else {
                    ActionView::Fail(
                        FaultView {
                            kind: FaultKind::InvalidData,
                            message: "batch reply count "@ + number_text(replies.len())
                                + " does not match request"@,
                        },
                    )
                },
                _ => ActionView::Reply(resp_of(reply)),
            },
            PendingView::Deleting { rest, deleted } => deleting(
                rest,
                if reply == ReplyView::Integer(1) && deleted < i64::MAX {
                    (deleted + 1) as i64
                } else {
                    deleted
                },
            ),
            PendingView::Exists => match reply {
                ReplyView::Value(value) => ActionView::Reply(
                    RespView::Integer(
                        if value is Some {
                            1
                        } else {
                            0
                        },
                    ),
                ),
                _ => ActionView::Reply(resp_of(reply)),
            },
            PendingView::Scan { cursor } => match reply {
                ReplyView::Scan(pairs) => ActionView::Reply(
                    RespView::Array(
                        seq![
                            RespView::Integer(clipped(cursor)),
                            RespView::Array(flat_pairs(pairs)),
                        ],
                    ),
                ),
                _ => ActionView::Reply(resp_of(reply)),
            },
            PendingView::Members => ActionView::Members,
        },
    }
}

pub open spec fn outcome_view(outcome: Result<KvReply, SubmitFailure>) -> Result<
    ReplyView,
    FaultView,
> {
    match outcome {
        Ok(reply) => Ok(reply@),
        Err(failure) => Err(failure_fault(failure)),
    }
}

/// Queues a command in a transaction. `child_bytes` is the size of its encoded
/// form.
pub fn queue_client_transaction(
    transaction: &mut ClientTransaction,
    command: ClientCommand,
    limits: BatchLimits,
    child_bytes: u64,
) -> (answer: RespValue)
    ensures
        (final(transaction)@, answer@) == queued(
            old(transaction)@,
            command@,
            limits,
            child_bytes,
        ),
{
    let kv = match queue_transaction_command(&command) {
        Ok(kv) => kv,
        Err(error) => {
            *transaction = ClientTransaction::Dirty;
            return RespValue::Error(
                "ERR command cannot be queued: ".to_owned().concat(error.message.as_str()),
            );
        },
    };
    let mut fits = true;
    match transaction {
        ClientTransaction::Dirty => {
            return refusal("ERR transaction is already dirty");
        },
        ClientTransaction::Clean { commands, translated, encoded_bytes } => {
            let count: usize = commands.len();
            assert(count == command_views(commands@).len());
            if count as u64 >= limits.max_commands || child_bytes > u64::MAX - *encoded_bytes
                || *encoded_bytes + child_bytes > limits.max_bytes {
                fits = false;
            } else {
                let ghost asked = command_views(commands@);
                let ghost made = kv_views(translated@);
                *encoded_bytes = *encoded_bytes + child_bytes;
                commands.push(command);
                translated.push(kv);
                assert(command_views(commands@) =~= asked.push(command@));
                assert(kv_views(translated@) =~= made.push(kv@));
            }
        },
    }
    if fits {
        simple("QUEUED")
    } else {
        *transaction = ClientTransaction::Dirty;
        refusal("ERR transaction exceeds batch limits")
    }
}

/// The next deletion, or the answer once all are done.
fn next_deletion(rest: &Vec<Vec<u8>>, deleted: i64) -> (action: ClientAction)
    ensures
        action@ == deleting(byte_views(rest@), deleted),
{
    if rest.len() == 0 {
        return ClientAction::Reply(RespValue::Integer(deleted));
    }
    let ghost all = byte_views(rest@);
    assert(all[0] == rest@[0]@);
    let key = copy_bytes(rest[0].as_slice());
    let mut tail: Vec<Vec<u8>> = Vec::new();
    let mut i: usize = 1;
    while i < rest.len()
        invariant
            1 <= i <= rest@.len(),
            tail@.len() == i - 1,
            forall|k: int| 0 <= k < tail@.len() ==> #[trigger] tail@[k]@ == rest@[k + 1]@,
        decreases rest@.len() - i,
    {
        tail.push(copy_bytes(rest[i].as_slice()));
        i += 1;
    }
    assert(byte_views(tail@) =~= all.skip(1));
    ClientAction::Submit {
        session: None,
        command: KvCommand::Del { key },
        next: Pending::Deleting { rest: tail, deleted },
    }
}

/// Appends bytes as a list of numbers.
fn append_list(text: &mut String, bytes: &Vec<u8>)
    ensures
        final(text)@ == old(text)@ + listed(bytes@),
{
    let ghost before = text@;
    let mut i: usize = 0;
    assert(bytes@.take(0) =~= Seq::<u8>::empty());
    assert(before + listed(bytes@.take(0)) =~= before);
    while i < bytes.len()
        invariant
            i <= bytes@.len(),
            text@ == before + listed(bytes@.take(i as int)),
        decreases bytes@.len() - i,
    {
        proof {
            let next = bytes@.take(i as int + 1);
            assert(next.drop_last() =~= bytes@.take(i as int));
            assert(next.last() == bytes@[i as int]);
        }
        let ghost so_far = listed(bytes@.take(i as int));
        if i > 0 {
            text.append(", ");
        }
        append_number(text, bytes[i] as u64);
        proof {
            let digit = number_text(bytes@[i as int] as nat);
            if i > 0 {
                assert(before + so_far + ", "@ + digit =~= before + (so_far + ", "@ + digit));
            } else {
                assert(before + so_far + digit =~= before + digit);
            }
        }
        i += 1;
    }
    assert(bytes@.take(i as int) =~= bytes@);
}

/// Decides what a command outside a transaction asks for.
pub fn execute_client_immediate(command: ClientCommand, leads: bool) -> (action: ClientAction)
    ensures
        action@ == immediate(command@, leads),
{
    reveal(word);
    proof {
        reveal_with_fuel(ClientCommand::view, 2);
    }
    match command {
        ClientCommand::Ping => ClientAction::Reply(simple("PONG")),
        ClientCommand::Echo(value) => ClientAction::Reply(RespValue::Bulk(Some(value))),
        ClientCommand::Info => ClientAction::Info,
        ClientCommand::Batch(commands) => match batch_kv(&commands) {
            Ok(kv) => {
                let ghost inside = command_views(commands@);
                let batch = ClientCommand::Batch(commands);
                assert(batch@ == CommandView::Batch(inside));
                ClientAction::Submit { session: None, command: kv, next: Pending::Write(batch) }
            },
            Err(error) => ClientAction::Fail(error),
        },
        ClientCommand::Request { client, sequence, command: inner } => {
            if client == 0 || sequence == 0 {
                return ClientAction::Fail(
                    fault(
                        FaultKind::InvalidInput,
                        "CC.REQUEST client and sequence must be nonzero",
                    ),
                );
            }
            match explicit_write_kv(&inner) {
                Ok(kv) => ClientAction::Submit {
                    session: Some((client, sequence)),
                    command: kv,
                    next: Pending::Write(*inner),
                },
                Err(error) => ClientAction::Fail(error),
            }
        },
        ClientCommand::Admin { operator_id, sequence, operation } => ClientAction::Admin {
            operator_id,
            sequence,
            operation,
        },
        ClientCommand::AdminMembers { consistent } => {
            if consistent && !leads {
                ClientAction::Reply(
                    refusal("NOTLEADER consistent membership requires the leader"),
                )
            } else if consistent {
                // The value is ignored: only the completed barrier authorizes
                // the report.
                ClientAction::Submit {
                    session: None,
                    command: KvCommand::Get {
                        key: copy_bytes("__cc_admin_readindex__".as_bytes()),
                    },
                    next: Pending::Members,
                }
            } else {
                ClientAction::Members
            }
        },
        ClientCommand::ReadFollower(inner) => match *inner {
            ClientCommand::Get(key) => ClientAction::FollowerRead {
                command: KvCommand::Get { key },
            },
            ClientCommand::Ttl(key) => ClientAction::FollowerRead {
                command: KvCommand::Ttl { key },
            },
            _ => ClientAction::Reply(refusal("ERR READ FOLLOWER accepts GET or TTL")),
        },
        ClientCommand::ReadStale(inner) => match *inner {
            ClientCommand::Get(key) => ClientAction::StaleGet { key },
            _ => ClientAction::Reply(refusal("ERR READ STALE accepts GET")),
        },
        ClientCommand::Unknown(name) => {
            let mut text = "ERR unknown command [".to_owned();
            append_list(&mut text, &name);
            text.append("]");
            ClientAction::Reply(RespValue::Error(text))
        },
        ClientCommand::Del(keys) => next_deletion(&keys, 0),
        ClientCommand::Exists(key) => ClientAction::Submit {
            session: None,
            command: KvCommand::Get { key },
            next: Pending::Exists,
        },
        ClientCommand::Scan { cursor, prefix, count } => ClientAction::Submit {
            session: None,
            command: KvCommand::Scan { start: prefix, end: None, limit: count },
            next: Pending::Scan { cursor },
        },
        ClientCommand::SetKey { key, value, ttl, nx, xx } => {
            if nx && xx {
                return ClientAction::Reply(refusal("ERR NX and XX are mutually exclusive"));
            }
            let set = ClientCommand::SetKey { key, value, ttl, nx, xx };
            match set_kv(&set) {
                Ok(kv) => ClientAction::Submit {
                    session: None,
                    command: kv,
                    next: Pending::Write(set),
                },
                Err(error) => ClientAction::Fail(error),
            }
        },
        other => match simple_kv(&other) {
            Ok(kv) => ClientAction::Submit { session: None, command: kv, next: Pending::Plain },
            Err(error) => ClientAction::Fail(error),
        },
    }
}

/// Decides what a command asks for, and what becomes of the connection's
/// transaction.
pub fn execute_client(
    command: ClientCommand,
    transaction: &mut Option<ClientTransaction>,
    batches_active: bool,
    leads: bool,
    limits: BatchLimits,
    child_bytes: u64,
) -> (action: ClientAction)
    ensures
        (transaction_view(*final(transaction)), action@) == begun(
            command@,
            transaction_view(*old(transaction)),
            batches_active,
            leads,
            limits,
            child_bytes,
        ),
{
    match command {
        ClientCommand::Multi => {
            if transaction.is_some() {
                return ClientAction::Reply(refusal("ERR MULTI calls cannot be nested"));
            }
            if !batches_active {
                return ClientAction::Reply(refusal("FEATUREDISABLED"));
            }
            let open = ClientTransaction::Clean {
                commands: Vec::new(),
                translated: Vec::new(),
                encoded_bytes: 0,
            };
            proof {
                assert(command_views(Seq::<ClientCommand>::empty()) =~= Seq::empty());
                assert(kv_views(Seq::<KvCommand>::empty()) =~= Seq::empty());
            }
            *transaction = Some(open);
            ClientAction::Reply(simple("OK"))
        },
        ClientCommand::Discard => {
            if transaction.is_none() {
                return ClientAction::Reply(refusal("ERR DISCARD without MULTI"));
            }
            *transaction = None;
            ClientAction::Reply(simple("OK"))
        },
        ClientCommand::Exec => match transaction.take() {
            None => ClientAction::Reply(refusal("ERR EXEC without MULTI")),
            Some(ClientTransaction::Dirty) => ClientAction::Reply(
                refusal("EXECABORT transaction discarded because it contains queue errors"),
            ),
            Some(ClientTransaction::Clean { commands, translated, .. }) => {
                let count: usize = commands.len();
                assert(count == command_views(commands@).len());
                if count == 0 {
                    let nothing: Vec<RespValue> = Vec::new();
                    assert(views(nothing@) =~= Seq::empty());
                    return ClientAction::Reply(RespValue::Array(nothing));
                }
                let ghost inside = kv_views(translated@);
                let batch = KvCommand::Batch { commands: translated };
                assert(batch@ == KvView::Batch { commands: inside });
                ClientAction::Submit {
                    session: None,
                    command: batch,
                    next: Pending::Transaction(commands),
                }
            },
        },
        other => {
            if let Some(open) = transaction {
                return ClientAction::Reply(
                    queue_client_transaction(open, other, limits, child_bytes),
                );
            }
            execute_client_immediate(other, leads)
        },
    }
}

fn clip(value: u64) -> (number: i64)
    ensures
        number == clipped(value),
{
    if value <= i64::MAX as u64 {
        value as i64
    } else {
        i64::MAX
    }
}

/// Decides what follows once a submitted command was answered.
pub fn resume_client(next: Pending, outcome: Result<KvReply, SubmitFailure>) -> (action:
    ClientAction)
    ensures
        action@ == resumed(next@, outcome_view(outcome)),
{
    let reply = match outcome {
        Ok(reply) => reply,
        Err(failure) => return ClientAction::Fail(failure.to_fault()),
    };
    match next {
        Pending::Plain => ClientAction::Reply(to_resp(&reply)),
        Pending::Write(command) => ClientAction::Reply(render_write_reply(&command, &reply)),
        Pending::Transaction(commands) => {
            if let KvReply::Batch(replies) = &reply {
                assert(replies@.len() == reply_views(replies@).len());
                assert(commands@.len() == command_views(commands@).len());
                if replies.len() == commands.len() {
                    return ClientAction::Reply(
                        RespValue::Array(render_write_replies(&commands, replies)),
                    );
                }
                let mut message = "batch reply count ".to_owned();
                append_number(&mut message, replies.len() as u64);
                message.append(" does not match request");
                return ClientAction::Fail(fault_of(FaultKind::InvalidData, message));
            }
            ClientAction::Reply(to_resp(&reply))
        },
        Pending::Deleting { rest, deleted } => {
            let mut count: i64 = deleted;
            if let KvReply::Integer(hit) = &reply {
                if *hit == 1 && deleted < i64::MAX {
                    count = deleted + 1;
                }
            }
            next_deletion(&rest, count)
        },
        Pending::Exists => match &reply {
            KvReply::Value(value) => ClientAction::Reply(
                RespValue::Integer(
                    if value.is_some() {
                        1
                    } else {
                        0
                    },
                ),
            ),
            _ => ClientAction::Reply(to_resp(&reply)),
        },
        Pending::Scan { cursor } => match &reply {
            KvReply::Scan(pairs) => {
                let head = RespValue::Integer(clip(cursor));
                let flat = flatten_pairs(pairs);
                let ghost shown = views(flat@);
                let body = RespValue::Array(flat);
                assert(body@ == RespView::Array(shown));
                let mut items: Vec<RespValue> = Vec::new();
                items.push(head);
                items.push(body);
                assert(views(items@) =~= seq![head@, body@]);
                ClientAction::Reply(RespValue::Array(items))
            },
            _ => ClientAction::Reply(to_resp(&reply)),
        },
        Pending::Members => ClientAction::Members,
    }
}

/// How an operator's change ended.
#[derive(Clone, Copy, Debug, PartialEq, Eq, Structural)]
pub enum AdminResultTag {
    Applied,
    InProgress,
    RequestConflict,
    RequestExpired,
    TransferSuccess,
    TransferTimeout,
    TransferSuperseded,
    Rejected,
}

pub open spec fn tag_name(tag: AdminResultTag) -> &'static str {
    match tag {
        AdminResultTag::Applied => "Applied",
        AdminResultTag::InProgress => "InProgress",
        AdminResultTag::RequestConflict => "RequestConflict",
        AdminResultTag::RequestExpired => "RequestExpired",
        AdminResultTag::TransferSuccess => "TransferSuccess",
        AdminResultTag::TransferTimeout => "TransferTimeout",
        AdminResultTag::TransferSuperseded => "TransferSuperseded",
        AdminResultTag::Rejected => "Rejected",
    }
}

impl AdminResultTag {
    pub fn name(self) -> (text: &'static str)
        ensures
            text == tag_name(self),
    {
        match self {
            AdminResultTag::Applied => "Applied",
            AdminResultTag::InProgress => "InProgress",
            AdminResultTag::RequestConflict => "RequestConflict",
            AdminResultTag::RequestExpired => "RequestExpired",
            AdminResultTag::TransferSuccess => "TransferSuccess",
            AdminResultTag::TransferTimeout => "TransferTimeout",
            AdminResultTag::TransferSuperseded => "TransferSuperseded",
            AdminResultTag::Rejected => "Rejected",
        }
    }
}

/// The receipt of an operator's change.
pub open spec fn receipt(tag: AdminResultTag, source_index: u64, detail: Seq<char>) -> Seq<char> {
    "result="@ + tag_name(tag)@ + " source_index="@ + number_text(source_index as nat)
        + " detail="@ + detail
}

/// What an operator sees of a reply.
pub open spec fn admin_shown(
    tag: AdminResultTag,
    source_index: u64,
    detail: Seq<char>,
) -> RespView {
    let text = receipt(tag, source_index, detail);
    match tag {
        AdminResultTag::Applied | AdminResultTag::TransferSuccess => RespView::Simple(text),
        AdminResultTag::InProgress => RespView::Error("INPROGRESS "@ + text),
        AdminResultTag::RequestConflict => RespView::Error("REQUESTCONFLICT "@ + text),
        AdminResultTag::RequestExpired => RespView::Error("REQUESTEXPIRED "@ + text),
        AdminResultTag::TransferTimeout | AdminResultTag::TransferSuperseded
        | AdminResultTag::Rejected => RespView::Error(text),
    }
}

/// Renders the reply to an operator's change.
pub fn render_admin_reply(tag: AdminResultTag, source_index: u64, detail: &[u8]) -> (value:
    RespValue)
    ensures
        value@ == admin_shown(tag, source_index, lossy_of(detail@)),
{
    show_admin_reply(tag, source_index, lossy_text(detail).as_str())
}

/// Renders the reply to an operator's change, whose detail is a text.
pub fn show_admin_reply(tag: AdminResultTag, source_index: u64, detail: &str) -> (value: RespValue)
    ensures
        value@ == admin_shown(tag, source_index, detail@),
{
    let mut text = "result=".to_owned();
    text.append(tag.name());
    text.append(" source_index=");
    append_number(&mut text, source_index);
    text.append(" detail=");
    text.append(detail);
    match tag {
        AdminResultTag::Applied => RespValue::Simple(text),
        AdminResultTag::TransferSuccess => RespValue::Simple(text),
        AdminResultTag::InProgress => RespValue::Error(
            "INPROGRESS ".to_owned().concat(text.as_str()),
        ),
        AdminResultTag::RequestConflict => RespValue::Error(
            "REQUESTCONFLICT ".to_owned().concat(text.as_str()),
        ),
        AdminResultTag::RequestExpired => RespValue::Error(
            "REQUESTEXPIRED ".to_owned().concat(text.as_str()),
        ),
        _ => RespValue::Error(text),
    }
}

/// The session of an operator's change, where its identity is complete.
pub fn admin_identity(operator_id: u64, sequence: u64) -> (session: Option<SessionKey>)
    ensures
        session == if operator_id == 0 || sequence == 0 {
            None
        } else {
            Some(
                SessionKey {
                    namespace: namespace_code(SessionNamespace::AdminRequest),
                    client: ClientId(operator_id),
                },
            )
        },
{
    if sequence == 0 {
        return None;
    }
    SessionKey::new(SessionNamespace::AdminRequest.code(), ClientId(operator_id))
}

/// What an operator sees of a change that could not be submitted.
pub open spec fn admin_failure(
    failure: SubmitFailure,
    operator_id: u64,
    sequence: u64,
) -> ActionView {
    match failure {
        SubmitFailure::NotLeader { address, .. } => ActionView::Reply(
            RespView::Error("NOTLEADER addr="@ + address@),
        ),
        SubmitFailure::FeatureDisabled => ActionView::Reply(RespView::Error("FEATUREDISABLED"@)),
        SubmitFailure::Timeout => ActionView::Reply(
            RespView::Error(
                "UNKNOWN operator_id="@ + number_text(operator_id as nat) + " sequence="@
                    + number_text(sequence as nat),
            ),
        ),
        SubmitFailure::Host(reason) => ActionView::Fail(
            FaultView { kind: FaultKind::Other, message: reason@ },
        ),
        SubmitFailure::InvalidReply => ActionView::Fail(
            because(FaultKind::InvalidData, "invalid administrative reply"),
        ),
    }
}

/// Decides how an operator is answered whose change could not be submitted.
pub fn refuse_admin_submission(failure: SubmitFailure, operator_id: u64, sequence: u64) -> (action:
    ClientAction)
    ensures
        action@ == admin_failure(failure, operator_id, sequence),
{
    match failure {
        SubmitFailure::NotLeader { leader: _, address } => ClientAction::Reply(
            RespValue::Error("NOTLEADER addr=".to_owned().concat(address.as_str())),
        ),
        SubmitFailure::FeatureDisabled => ClientAction::Reply(refusal("FEATUREDISABLED")),
        SubmitFailure::Timeout => {
            let mut text = "UNKNOWN operator_id=".to_owned();
            append_number(&mut text, operator_id);
            text.append(" sequence=");
            append_number(&mut text, sequence);
            ClientAction::Reply(RespValue::Error(text))
        },
        SubmitFailure::Host(reason) => ClientAction::Fail(fault_of(FaultKind::Other, reason)),
        SubmitFailure::InvalidReply => ClientAction::Fail(
            fault(FaultKind::InvalidData, "invalid administrative reply"),
        ),
    }
}

/// The answer to a leader-confirmed read on a follower.
pub fn follower_read_answer(
    reply: &KvReply,
    read_index: u64,
    applied_index: u64,
    applied_term: u64,
    read_time: Time,
) -> (value: RespValue)
    ensures
        value@ == RespView::Array(
            seq![
                RespView::Bulk(Some(word("FOLLOWER"))),
                resp_of(reply@),
                RespView::Integer(clipped(read_index)),
                RespView::Integer(clipped(applied_index)),
                RespView::Integer(clipped(applied_term)),
                RespView::Integer(clipped(read_time.0)),
            ],
        ),
{
    reveal(word);
    let mut items: Vec<RespValue> = Vec::new();
    let label = RespValue::Bulk(Some(copy_bytes("FOLLOWER".as_bytes())));
    let shown = to_resp(reply);
    let ghost (first, second) = (label@, shown@);
    items.push(label);
    items.push(shown);
    items.push(RespValue::Integer(clip(read_index)));
    items.push(RespValue::Integer(clip(applied_index)));
    items.push(RespValue::Integer(clip(applied_term)));
    items.push(RespValue::Integer(clip(read_time.0)));
    assert(views(items@) =~= seq![
        first,
        second,
        RespView::Integer(clipped(read_index)),
        RespView::Integer(clipped(applied_index)),
        RespView::Integer(clipped(applied_term)),
        RespView::Integer(clipped(read_time.0)),
    ]);
    RespValue::Array(items)
}

/// The answer to a read of this node's own state.
pub fn stale_read_answer(
    reply: &KvReply,
    index: u64,
    term: u64,
    read_time: Time,
    contact_age: i64,
) -> (value: RespValue)
    ensures
        value@ == RespView::Array(
            seq![
                RespView::Bulk(Some(word("STALE"))),
                resp_of(reply@),
                RespView::Integer(clipped(index)),
                RespView::Integer(clipped(term)),
                RespView::Integer(clipped(read_time.0)),
                RespView::Integer(contact_age as int),
            ],
        ),
{
    reveal(word);
    let mut items: Vec<RespValue> = Vec::new();
    let label = RespValue::Bulk(Some(copy_bytes("STALE".as_bytes())));
    let shown = to_resp(reply);
    let ghost (first, second) = (label@, shown@);
    items.push(label);
    items.push(shown);
    items.push(RespValue::Integer(clip(index)));
    items.push(RespValue::Integer(clip(term)));
    items.push(RespValue::Integer(clip(read_time.0)));
    items.push(RespValue::Integer(contact_age));
    assert(views(items@) =~= seq![
        first,
        second,
        RespView::Integer(clipped(index)),
        RespView::Integer(clipped(term)),
        RespView::Integer(clipped(read_time.0)),
        RespView::Integer(contact_age as int),
    ]);
    RespValue::Array(items)
}

/// The answer to a follower read that has to be tried elsewhere.
pub fn follower_read_retry(leader: u64, address: &str) -> (value: RespValue)
    ensures
        value@ == RespView::Error(
            "TRYAGAIN follower read unavailable leader=n"@ + number_text(leader as nat) + " addr="@
                + address@,
        ),
{
    let mut text = "TRYAGAIN follower read unavailable leader=n".to_owned();
    append_number(&mut text, leader);
    text.append(" addr=");
    text.append(address);
    RespValue::Error(text)
}

/// A dirty transaction never proposes: whatever is queued behind the error, it
/// stays dirty, and EXEC drops it without submitting anything.
pub proof fn law_dirty_transactions_never_propose(
    command: CommandView,
    batches_active: bool,
    leads: bool,
    limits: BatchLimits,
    child_bytes: u64,
)
    ensures
        ({
            let step = begun(
                command,
                Some(TransactionView::Dirty),
                batches_active,
                leads,
                limits,
                child_bytes,
            );
            &&& step.1 is Reply
            &&& step.0 == Some(TransactionView::Dirty) || (step.0 is None && (command is Exec
                || command is Discard))
        }),
{
}

/// A transaction proposes nothing before EXEC, and then exactly one batch of
/// what was queued, in order.
pub proof fn law_transactions_propose_once(
    command: CommandView,
    transaction: TransactionView,
    batches_active: bool,
    leads: bool,
    limits: BatchLimits,
    child_bytes: u64,
)
    ensures
        ({
            let step = begun(
                command,
                Some(transaction),
                batches_active,
                leads,
                limits,
                child_bytes,
            );
            step.1 is Submit ==> {
                &&& command is Exec
                &&& step.0 is None
                &&& transaction matches TransactionView::Clean { commands, translated, .. }
                    && step.1 == (ActionView::Submit {
                    session: None,
                    command: KvView::Batch { commands: translated },
                    next: PendingView::Transaction(commands),
                })
            }
        }),
{
}

/// A queued transaction stays within the limits that it was queued under.
pub proof fn law_transactions_stay_within_limits(
    transaction: TransactionView,
    command: CommandView,
    limits: BatchLimits,
    child_bytes: u64,
)
    ensures
        queued(transaction, command, limits, child_bytes).0 matches TransactionView::Clean {
            commands,
            encoded_bytes,
            ..
        } ==> commands.len() <= limits.max_commands && encoded_bytes <= limits.max_bytes,
{
}

} // verus!
