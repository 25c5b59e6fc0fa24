//! The command table: which client command an array of arguments writes.
use vstd::prelude::*;
use vstd::string::*;
use vstd::utf8::encode_utf8;

use crate::ids::{scaled, Duration};
use crate::resp::{
    i64_argument, parse_i64, parse_u64, u64_argument, views, RespError, RespValue, RespView,
};
use crate::text::{copy_bytes, same_bytes};

verus! {

/// An operator's change of membership, as a client writes it.
#[derive(Debug, Eq, PartialEq)]
pub enum AdminOperation {
    AddLearner { id: u64, peer_address: Vec<u8> },
    Promote { id: u64 },
    Remove { id: u64 },
    UpdateAddress { id: u64, peer_address: Vec<u8> },
    TransferLeader { id: u64 },
    LeaveJoint,
    ActivateAtomicBatch,
}

#[verifier::ext_equal]
pub enum AdminView {
    AddLearner { id: u64, peer_address: Seq<u8> },
    Promote { id: u64 },
    Remove { id: u64 },
    UpdateAddress { id: u64, peer_address: Seq<u8> },
    TransferLeader { id: u64 },
    LeaveJoint,
    ActivateAtomicBatch,
}

impl View for AdminOperation {
    type V = AdminView;

    open spec fn view(&self) -> AdminView {
        match *self {
            AdminOperation::AddLearner { id, peer_address } => AdminView::AddLearner {
                id,
                peer_address: peer_address@,
            },
            AdminOperation::Promote { id } => AdminView::Promote { id },
            AdminOperation::Remove { id } => AdminView::Remove { id },
            AdminOperation::UpdateAddress { id, peer_address } => AdminView::UpdateAddress {
                id,
                peer_address: peer_address@,
            },
            AdminOperation::TransferLeader { id } => AdminView::TransferLeader { id },
            AdminOperation::LeaveJoint => AdminView::LeaveJoint,
            AdminOperation::ActivateAtomicBatch => AdminView::ActivateAtomicBatch,
        }
    }
}

impl Clone for AdminOperation {
    fn clone(&self) -> (copy: Self)
        ensures
            copy@ == self@,
    {
        match self {
            AdminOperation::AddLearner { id, peer_address } => AdminOperation::AddLearner {
                id: *id,
                peer_address: copy_bytes(peer_address.as_slice()),
            },
            AdminOperation::Promote { id } => AdminOperation::Promote { id: *id },
            AdminOperation::Remove { id } => AdminOperation::Remove { id: *id },
            AdminOperation::UpdateAddress { id, peer_address } => AdminOperation::UpdateAddress {
                id: *id,
                peer_address: copy_bytes(peer_address.as_slice()),
            },
            AdminOperation::TransferLeader { id } => AdminOperation::TransferLeader { id: *id },
            AdminOperation::LeaveJoint => AdminOperation::LeaveJoint,
            AdminOperation::ActivateAtomicBatch => AdminOperation::ActivateAtomicBatch,
        }
    }
}

#[derive(Debug, Eq, PartialEq)]
pub enum ClientCommand {
    Ping,
    Echo(Vec<u8>),
    SetKey { key: Vec<u8>, value: Vec<u8>, ttl: Option<Duration>, nx: bool, xx: bool },
    Get(Vec<u8>),
    Del(Vec<Vec<u8>>),
    Exists(Vec<u8>),
    IncrBy { key: Vec<u8>, delta: i64 },
    Append { key: Vec<u8>, value: Vec<u8> },
    GetSet { key: Vec<u8>, value: Vec<u8> },
    GetDel(Vec<u8>),
    SetNx { key: Vec<u8>, value: Vec<u8> },
    Cas { key: Vec<u8>, expected: Vec<u8>, value: Vec<u8> },
    Expire { key: Vec<u8>, ttl: Duration },
    ExpireAt { key: Vec<u8>, at_seconds: u64 },
    Ttl(Vec<u8>),
    Persist(Vec<u8>),
    Scan { cursor: u64, prefix: Option<Vec<u8>>, count: usize },
    /// A caller-owned durable retry identity around exactly one mutating
    /// command. The identity stays outside the command it wraps.
    Request { client: u64, sequence: u64, command: Box<ClientCommand> },
    Multi,
    Exec,
    Discard,
    Batch(Vec<ClientCommand>),
    Admin { operator_id: u64, sequence: u64, operation: AdminOperation },
    AdminMembers { consistent: bool },
    ReadFollower(Box<ClientCommand>),
    ReadStale(Box<ClientCommand>),
    Info,
    Unknown(Vec<u8>),
}

/// A client command as mathematics.
pub enum CommandView {
    Ping,
    Echo(Seq<u8>),
    SetKey { key: Seq<u8>, value: Seq<u8>, ttl: Option<Duration>, nx: bool, xx: bool },
    Get(Seq<u8>),
    Del(Seq<Seq<u8>>),
    Exists(Seq<u8>),
    IncrBy { key: Seq<u8>, delta: i64 },
    Append { key: Seq<u8>, value: Seq<u8> },
    GetSet { key: Seq<u8>, value: Seq<u8> },
    GetDel(Seq<u8>),
    SetNx { key: Seq<u8>, value: Seq<u8> },
    Cas { key: Seq<u8>, expected: Seq<u8>, value: Seq<u8> },
    Expire { key: Seq<u8>, ttl: Duration },
    ExpireAt { key: Seq<u8>, at_seconds: u64 },
    Ttl(Seq<u8>),
    Persist(Seq<u8>),
    Scan { cursor: u64, prefix: Option<Seq<u8>>, count: usize },
    Request { client: u64, sequence: u64, command: Box<CommandView> },
    Multi,
    Exec,
    Discard,
    Batch(Seq<CommandView>),
    Admin { operator_id: u64, sequence: u64, operation: AdminView },
    AdminMembers { consistent: bool },
    ReadFollower(Box<CommandView>),
    ReadStale(Box<CommandView>),
    Info,
    Unknown(Seq<u8>),
}

/// Byte strings, each as mathematics.
pub open spec fn byte_views(items: Seq<Vec<u8>>) -> Seq<Seq<u8>> {
    items.map_values(|item: Vec<u8>| item@)
}

pub open spec fn optional_bytes(bytes: Option<Vec<u8>>) -> Option<Seq<u8>> {
    match bytes {
        Some(bytes) => Some(bytes@),
        None => None,
    }
}

impl ClientCommand {
    pub open spec fn view(&self) -> CommandView
        decreases self,
    {
        match self {
            ClientCommand::Ping => CommandView::Ping,
            ClientCommand::Echo(value) => CommandView::Echo(value@),
            ClientCommand::SetKey { key, value, ttl, nx, xx } => CommandView::SetKey {
                key: key@,
                value: value@,
                ttl: *ttl,
                nx: *nx,
                xx: *xx,
            },
            ClientCommand::Get(key) => CommandView::Get(key@),
            ClientCommand::Del(keys) => CommandView::Del(byte_views(keys@)),
            ClientCommand::Exists(key) => CommandView::Exists(key@),
            ClientCommand::IncrBy { key, delta } => CommandView::IncrBy {
                key: key@,
                delta: *delta,
            },
            ClientCommand::Append { key, value } => CommandView::Append {
                key: key@,
                value: value@,
            },
            ClientCommand::GetSet { key, value } => CommandView::GetSet {
                key: key@,
                value: value@,
            },
            ClientCommand::GetDel(key) => CommandView::GetDel(key@),
            ClientCommand::SetNx { key, value } => CommandView::SetNx { key: key@, value: value@ },
            ClientCommand::Cas { key, expected, value } => CommandView::Cas {
                key: key@,
                expected: expected@,
                value: value@,
            },
            ClientCommand::Expire { key, ttl } => CommandView::Expire { key: key@, ttl: *ttl },
            ClientCommand::ExpireAt { key, at_seconds } => CommandView::ExpireAt {
                key: key@,
                at_seconds: *at_seconds,
            },
            ClientCommand::Ttl(key) => CommandView::Ttl(key@),
            ClientCommand::Persist(key) => CommandView::Persist(key@),
            ClientCommand::Scan { cursor, prefix, count } => CommandView::Scan {
                cursor: *cursor,
                prefix: optional_bytes(*prefix),
                count: *count,
            },
            ClientCommand::Request { client, sequence, command } => CommandView::Request {
                client: *client,
                sequence: *sequence,
                command: Box::new(command.view()),
            },
            ClientCommand::Multi => CommandView::Multi,
            ClientCommand::Exec => CommandView::Exec,
            ClientCommand::Discard => CommandView::Discard,
            ClientCommand::Batch(commands) => CommandView::Batch(command_views(commands@)),
            ClientCommand::Admin { operator_id, sequence, operation } => CommandView::Admin {
                operator_id: *operator_id,
                sequence: *sequence,
                operation: operation@,
            },
            ClientCommand::AdminMembers { consistent } => CommandView::AdminMembers {
                consistent: *consistent,
            },
            ClientCommand::ReadFollower(command) => CommandView::ReadFollower(
                Box::new(command.view()),
            ),
            ClientCommand::ReadStale(command) => CommandView::ReadStale(
                Box::new(command.view()),
            ),
            ClientCommand::Info => CommandView::Info,
            ClientCommand::Unknown(name) => CommandView::Unknown(name@),
        }
    }
}

/// Commands, each as mathematics.
pub open spec fn command_views(commands: Seq<ClientCommand>) -> Seq<CommandView>
    decreases commands,
{
    Seq::new(
        commands.len(),
        |i: int|
            if 0 <= i < commands.len() {
                commands[i].view()
            } else {
                CommandView::Ping
            },
    )
}

/// A copy of optional bytes.
pub fn copy_optional(bytes: &Option<Vec<u8>>) -> (copy: Option<Vec<u8>>)
    ensures
        optional_bytes(copy) == optional_bytes(*bytes),
{
    match bytes {
        Some(bytes) => Some(copy_bytes(bytes.as_slice())),
        None => None,
    }
}

/// A copy of a command.
fn copy_command(command: &ClientCommand) -> (copy: ClientCommand)
    ensures
        copy@ == command@,
    decreases command,
{
    match command {
        ClientCommand::Ping => ClientCommand::Ping,
        ClientCommand::Echo(value) => ClientCommand::Echo(copy_bytes(value.as_slice())),
        ClientCommand::SetKey { key, value, ttl, nx, xx } => ClientCommand::SetKey {
            key: copy_bytes(key.as_slice()),
            value: copy_bytes(value.as_slice()),
            ttl: *ttl,
            nx: *nx,
            xx: *xx,
        },
        ClientCommand::Get(key) => ClientCommand::Get(copy_bytes(key.as_slice())),
        ClientCommand::Del(keys) => {
            let copies = copy_args(keys, 0);
            assert(byte_views(keys@).skip(0) =~= byte_views(keys@));
            ClientCommand::Del(copies)
        },
        ClientCommand::Exists(key) => ClientCommand::Exists(copy_bytes(key.as_slice())),
        ClientCommand::IncrBy { key, delta } => ClientCommand::IncrBy {
            key: copy_bytes(key.as_slice()),
            delta: *delta,
        },
        ClientCommand::Append { key, value } => ClientCommand::Append {
            key: copy_bytes(key.as_slice()),
            value: copy_bytes(value.as_slice()),
        },
        ClientCommand::GetSet { key, value } => ClientCommand::GetSet {
            key: copy_bytes(key.as_slice()),
            value: copy_bytes(value.as_slice()),
        },
        ClientCommand::GetDel(key) => ClientCommand::GetDel(copy_bytes(key.as_slice())),
        ClientCommand::SetNx { key, value } => ClientCommand::SetNx {
            key: copy_bytes(key.as_slice()),
            value: copy_bytes(value.as_slice()),
        },
        ClientCommand::Cas { key, expected, value } => ClientCommand::Cas {
            key: copy_bytes(key.as_slice()),
            expected: copy_bytes(expected.as_slice()),
            value: copy_bytes(value.as_slice()),
        },
        ClientCommand::Expire { key, ttl } => ClientCommand::Expire {
            key: copy_bytes(key.as_slice()),
            ttl: *ttl,
        },
        ClientCommand::ExpireAt { key, at_seconds } => ClientCommand::ExpireAt {
            key: copy_bytes(key.as_slice()),
            at_seconds: *at_seconds,
        },
        ClientCommand::Ttl(key) => ClientCommand::Ttl(copy_bytes(key.as_slice())),
        ClientCommand::Persist(key) => ClientCommand::Persist(copy_bytes(key.as_slice())),
        ClientCommand::Scan { cursor, prefix, count } => ClientCommand::Scan {
            cursor: *cursor,
            prefix: copy_optional(prefix),
            count: *count,
        },
        ClientCommand::Request { client, sequence, command } => ClientCommand::Request {
            client: *client,
            sequence: *sequence,
            command: Box::new(copy_command(&**command)),
        },
        ClientCommand::Multi => ClientCommand::Multi,
        ClientCommand::Exec => ClientCommand::Exec,
        ClientCommand::Discard => ClientCommand::Discard,
        ClientCommand::Batch(commands) => {
            let mut copies: Vec<ClientCommand> = Vec::new();
            let mut i: usize = 0;
            while i < commands.len()
                invariant
                    i <= commands@.len(),
                    copies@.len() == i,
                    command matches ClientCommand::Batch(own) && own == commands,
                    forall|k: int| 0 <= k < i ==> #[trigger] copies@[k]@ == commands@[k]@,
                decreases commands@.len() - i,
            {
                copies.push(copy_command(&commands[i]));
                i += 1;
            }
            assert forall|k: int| 0 <= k < i implies #[trigger] command_views(copies@)[k]
                == command_views(commands@)[k] by {
                assert(copies@[k]@ == commands@[k]@);
            }
            assert(command_views(copies@) =~= command_views(commands@));
            ClientCommand::Batch(copies)
        },
        ClientCommand::Admin { operator_id, sequence, operation } => ClientCommand::Admin {
            operator_id: *operator_id,
            sequence: *sequence,
            operation: operation.clone(),
        },
        ClientCommand::AdminMembers { consistent } => ClientCommand::AdminMembers {
            consistent: *consistent,
        },
        ClientCommand::ReadFollower(command) => ClientCommand::ReadFollower(
            Box::new(copy_command(&**command)),
        ),
        ClientCommand::ReadStale(command) => ClientCommand::ReadStale(
            Box::new(copy_command(&**command)),
        ),
        ClientCommand::Info => ClientCommand::Info,
        ClientCommand::Unknown(name) => ClientCommand::Unknown(copy_bytes(name.as_slice())),
    }
}

impl Clone for ClientCommand {
    fn clone(&self) -> (copy: Self)
        ensures
            copy@ == self@,
    {
        copy_command(self)
    }
}

/// The bytes of a keyword.
#[verifier::opaque]
pub open spec fn word(text: &str) -> Seq<u8> {
    encode_utf8(text@)
}

pub open spec fn upper_byte(byte: u8) -> u8 {
    if 97 <= byte <= 122 {
        (byte - 32) as u8
    } else {
        byte
    }
}

/// Bytes with ASCII letters in upper case.
pub open spec fn upper(bytes: Seq<u8>) -> Seq<u8> {
    bytes.map_values(|byte: u8| upper_byte(byte))
}

/// The lifetime that a SET option writes.
pub open spec fn lifetime(flag: Seq<u8>, amount: u64) -> Duration {
    if flag == word("EX") {
        Duration(scaled(amount, 1_000_000_000))
    } else {
        Duration(scaled(amount, 1_000_000))
    }
}

/// The options of SET from position `i` on, given those before.
pub open spec fn set_of(
    args: Seq<Seq<u8>>,
    i: int,
    ttl: Option<Duration>,
    nx: bool,
    xx: bool,
) -> Result<CommandView, RespError>
    decreases args.len() - i,
{
    if i < 3 || i >= args.len() {
        if nx && xx {
            Err(RespError::Protocol("SET NX and XX are exclusive"))
        } else {
            Ok(CommandView::SetKey { key: args[1], value: args[2], ttl, nx, xx })
        }
    } else {
        let flag = upper(args[i]);
        if (flag == word("EX") || flag == word("PX")) && i + 1 < args.len() {
            match u64_argument(args[i + 1]) {
                Err(error) => Err(error),
                Ok(amount) => set_of(args, i + 2, Some(lifetime(flag, amount)), nx, xx),
            }
        } else if flag == word("NX") {
            set_of(args, i + 1, ttl, true, xx)
        } else if flag == word("XX") {
            set_of(args, i + 1, ttl, nx, true)
        } else {
            Err(RespError::Protocol("invalid SET option"))
        }
    }
}

/// A number of items, as far as memory can count.
pub open spec fn as_count(value: u64) -> usize {
    if value <= usize::MAX {
        value as usize
    } else {
        usize::MAX
    }
}

/// What a pattern matches by prefix: one that ends in `*`.
pub open spec fn prefix_of(pattern: Seq<u8>) -> Option<Seq<u8>> {
    if pattern.len() > 0 && pattern.last() == 42 {
        Some(pattern.drop_last())
    } else {
        None
    }
}

/// The options of SCAN from position `i` on, given those before.
pub open spec fn scan_of(
    args: Seq<Seq<u8>>,
    cursor: u64,
    i: int,
    prefix: Option<Seq<u8>>,
    count: usize,
) -> Result<CommandView, RespError>
    decreases args.len() - i,
{
    if i < 2 || i >= args.len() {
        Ok(CommandView::Scan { cursor, prefix, count })
    } else {
        let flag = upper(args[i]);
        if flag == word("MATCH") && i + 1 < args.len() {
            scan_of(args, cursor, i + 2, prefix_of(args[i + 1]), count)
        } else if flag == word("COUNT") && i + 1 < args.len() {
            match u64_argument(args[i + 1]) {
                Err(error) => Err(error),
                Ok(amount) => scan_of(args, cursor, i + 2, prefix, as_count(amount)),
            }
        } else {
            Err(RespError::Protocol("invalid SCAN option"))
        }
    }
}

/// An operator's change that names a member and an address.
pub open spec fn addressed_change(action: Seq<u8>, id: u64, address: Seq<u8>) -> AdminView {
    if action == word("ADDLEARNER") {
        AdminView::AddLearner { id, peer_address: address }
    } else {
        AdminView::UpdateAddress { id, peer_address: address }
    }
}

/// An operator's change that names a member.
pub open spec fn member_change(action: Seq<u8>, id: u64) -> AdminView {
    if action == word("PROMOTE") {
        AdminView::Promote { id }
    } else if action == word("REMOVE") {
        AdminView::Remove { id }
    } else {
        AdminView::TransferLeader { id }
    }
}

/// An operator's change with the identity that stands behind its arguments.
pub open spec fn owned(args: Seq<Seq<u8>>, operation: AdminView) -> Result<
    CommandView,
    RespError,
> {
    match u64_argument(args[args.len() - 2]) {
        Err(error) => Err(error),
        Ok(operator_id) => match u64_argument(args[args.len() - 1]) {
            Err(error) => Err(error),
            Ok(sequence) => Ok(CommandView::Admin { operator_id, sequence, operation }),
        },
    }
}

/// The administrative commands.
pub open spec fn admin_of(args: Seq<Seq<u8>>) -> Result<CommandView, RespError> {
    let n = args.len();
    let action = upper(args[1]);
    if action == word("MEMBERS") && n == 2 {
        Ok(CommandView::AdminMembers { consistent: false })
    } else if action == word("MEMBERS") && n == 3 && upper(args[2]) == word("CONSISTENT") {
        Ok(CommandView::AdminMembers { consistent: true })
    } else if action == word("ACTIVATE") && n == 5 && upper(args[2]) == word("ATOMIC-BATCH") {
        owned(args, AdminView::ActivateAtomicBatch)
    } else if action == word("LEAVEJOINT") && n == 4 {
        owned(args, AdminView::LeaveJoint)
    } else if (action == word("ADDLEARNER") || action == word("UPDATEADDRESS")) && n == 6 {
        match u64_argument(args[2]) {
            Err(error) => Err(error),
            Ok(id) => owned(args, addressed_change(action, id, args[3])),
        }
    } else if (action == word("PROMOTE") || action == word("REMOVE") || action == word("TRANSFER"))
        && n == 5 {
        match u64_argument(args[2]) {
            Err(error) => Err(error),
            Ok(id) => owned(args, member_change(action, id)),
        }
    } else {
        Ok(CommandView::Unknown(args[0]))
    }
}

/// The command that arguments write.
pub open spec fn command_of(args: Seq<Seq<u8>>) -> Result<CommandView, RespError>
    decreases args.len(),
{
    let n = args.len();
    if n == 0 {
        Ok(CommandView::Unknown(Seq::empty()))
    } else {
        let name = upper(args[0]);
        if name == word("PING") && n == 1 {
            Ok(CommandView::Ping)
        } else if name == word("INFO") && n == 1 {
            Ok(CommandView::Info)
        } else if name == word("MULTI") && n == 1 {
            Ok(CommandView::Multi)
        } else if name == word("EXEC") && n == 1 {
            Ok(CommandView::Exec)
        } else if name == word("DISCARD") && n == 1 {
            Ok(CommandView::Discard)
        } else if n == 2 {
            pair_of(name, args)
        } else if name == word("SET") && n >= 3 {
            set_of(args, 3, None, false, false)
        } else if name == word("DEL") && n >= 2 {
            Ok(CommandView::Del(args.skip(1)))
        } else if name == word("SCAN") && n >= 2 {
            match u64_argument(args[1]) {
                Err(error) => Err(error),
                Ok(cursor) => scan_of(args, cursor, 2, None, 10),
            }
        } else if name == word("CC.ADMIN") && n >= 2 {
            admin_of(args)
        } else if name == word("CC.REQUEST") && n >= 4 {
            match u64_argument(args[1]) {
                Err(error) => Err(error),
                Ok(client) => match u64_argument(args[2]) {
                    Err(error) => Err(error),
                    Ok(sequence) => match command_of(args.skip(3)) {
                        Err(error) => Err(error),
                        Ok(command) => Ok(
                            CommandView::Request { client, sequence, command: Box::new(command) },
                        ),
                    },
                },
            }
        } else if name == word("READ") && n >= 3 && upper(args[1]) == word("FOLLOWER") {
            match command_of(args.skip(2)) {
                Err(error) => Err(error),
                Ok(command) => Ok(CommandView::ReadFollower(Box::new(command))),
            }
        } else if name == word("READ") && n >= 3 && upper(args[1]) == word("STALE") {
            match command_of(args.skip(2)) {
                Err(error) => Err(error),
                Ok(command) => Ok(CommandView::ReadStale(Box::new(command))),
            }
        } else if n == 3 {
            triple_of(name, args)
        } else if name == word("CAS") && n == 4 {
            Ok(CommandView::Cas { key: args[1], expected: args[2], value: args[3] })
        } else {
            Ok(CommandView::Unknown(args[0]))
        }
    }
}

/// The commands of two arguments.
pub open spec fn pair_of(name: Seq<u8>, args: Seq<Seq<u8>>) -> Result<CommandView, RespError> {
    if name == word("ECHO") {
        Ok(CommandView::Echo(args[1]))
    } else if name == word("GET") {
        Ok(CommandView::Get(args[1]))
    } else if name == word("DEL") {
        Ok(CommandView::Del(args.skip(1)))
    } else if name == word("EXISTS") {
        Ok(CommandView::Exists(args[1]))
    } else if name == word("INCR") {
        Ok(CommandView::IncrBy { key: args[1], delta: 1 })
    } else if name == word("DECR") {
        Ok(CommandView::IncrBy { key: args[1], delta: -1i64 as i64 })
    } else if name == word("GETDEL") {
        Ok(CommandView::GetDel(args[1]))
    } else if name == word("TTL") {
        Ok(CommandView::Ttl(args[1]))
    } else if name == word("PERSIST") {
        Ok(CommandView::Persist(args[1]))
    } else if name == word("SCAN") {
        match u64_argument(args[1]) {
            Err(error) => Err(error),
            Ok(cursor) => scan_of(args, cursor, 2, None, 10),
        }
    } else if name == word("CC.ADMIN") {
        admin_of(args)
    } else {
        Ok(CommandView::Unknown(args[0]))
    }
}

/// The commands of three arguments.
pub open spec fn triple_of(name: Seq<u8>, args: Seq<Seq<u8>>) -> Result<CommandView, RespError> {
    if name == word("INCRBY") {
        match i64_argument(args[2]) {
            Err(error) => Err(error),
            Ok(delta) => Ok(CommandView::IncrBy { key: args[1], delta }),
        }
    } else if name == word("APPEND") {
        Ok(CommandView::Append { key: args[1], value: args[2] })
    } else if name == word("GETSET") {
        Ok(CommandView::GetSet { key: args[1], value: args[2] })
    } else if name == word("SETNX") {
        Ok(CommandView::SetNx { key: args[1], value: args[2] })
    } else if name == word("EXPIRE") {
        match u64_argument(args[2]) {
            Err(error) => Err(error),
            Ok(seconds) => Ok(
                CommandView::Expire {
                    key: args[1],
                    ttl: Duration(scaled(seconds, 1_000_000_000)),
                },
            ),
        }
    } else if name == word("EXPIREAT") {
        match u64_argument(args[2]) {
            Err(error) => Err(error),
            Ok(at_seconds) => Ok(CommandView::ExpireAt { key: args[1], at_seconds }),
        }
    } else {
        Ok(CommandView::Unknown(args[0]))
    }
}

/// Whether an outcome of parsing is the one that its specification gives.
pub open spec fn command_result(
    result: Result<ClientCommand, RespError>,
    expected: Result<CommandView, RespError>,
) -> bool {
    match result {
        Ok(command) => expected == Ok::<CommandView, RespError>(command@),
        Err(error) => expected == Err::<CommandView, RespError>(error),
    }
}

/// The argument that a RESP value carries.
pub open spec fn argument(value: RespView) -> Option<Seq<u8>> {
    match value {
        RespView::Bulk(Some(bytes)) => Some(bytes),
        RespView::Simple(text) => Some(encode_utf8(text)),
        _ => None,
    }
}

/// The arguments that RESP values carry, where each carries one.
pub open spec fn arguments(items: Seq<RespView>) -> Option<Seq<Seq<u8>>>
    decreases items.len(),
{
    if items.len() == 0 {
        Some(Seq::empty())
    } else {
        match (arguments(items.drop_last()), argument(items.last())) {
            (Some(head), Some(last)) => Some(head.push(last)),
            _ => None,
        }
    }
}

/// The command that flat items write.
pub open spec fn flat_command(items: Seq<RespView>) -> Result<CommandView, RespError> {
    match arguments(items) {
        None => Err(RespError::Protocol("command arguments must be bulk strings")),
        Some(args) => command_of(args),
    }
}

/// Whether a batch stands at a position: the keyword and one array.
pub open spec fn batch_stands(items: Seq<RespView>, at: int) -> bool {
    &&& items.len() == at + 2
    &&& items[at + 1] is Array
    &&& argument(items[at]) matches Some(name) && upper(name) == word("BATCH")
}

/// The commands of a batch, one from each inner array.
pub open spec fn batch_of(children: Seq<RespView>) -> Result<Seq<CommandView>, RespError>
    decreases children.len(),
{
    if children.len() == 0 {
        Ok(Seq::empty())
    } else {
        match batch_of(children.drop_last()) {
            Err(error) => Err(error),
            Ok(head) => match children.last() {
                RespView::Array(items) => match flat_command(items) {
                    Err(error) => Err(error),
                    Ok(command) => Ok(head.push(command)),
                },
                _ => Err(RespError::Protocol("command arguments must be bulk strings")),
            },
        }
    }
}

/// A batch with a caller-owned retry identity.
pub open spec fn owned_batch(
    client: Seq<u8>,
    sequence: Seq<u8>,
    children: Seq<RespView>,
) -> Result<CommandView, RespError> {
    match u64_argument(client) {
        Err(error) => Err(error),
        Ok(client) => match u64_argument(sequence) {
            Err(error) => Err(error),
            Ok(sequence) => match batch_of(children) {
                Err(error) => Err(error),
                Ok(commands) => Ok(
                    CommandView::Request {
                        client,
                        sequence,
                        command: Box::new(CommandView::Batch(commands)),
                    },
                ),
            },
        },
    }
}

/// The command that a RESP value writes.
pub open spec fn command_from(value: RespView) -> Result<CommandView, RespError> {
    match value {
        RespView::Array(items) => if batch_stands(items, 0) {
            match batch_of(items[1]->Array_0) {
                Err(error) => Err(error),
                Ok(commands) => Ok(CommandView::Batch(commands)),
            }
        } else if batch_stands(items, 3) && (argument(items[0]) matches Some(name) && upper(name)
            == word("CC.REQUEST")) && argument(items[1]) is Some && argument(items[2]) is Some {
            owned_batch(argument(items[1])->0, argument(items[2])->0, items[4]->Array_0)
        } else {
            flat_command(items)
        },
        _ => Err(RespError::Protocol("command must be an array")),
    }
}

fn to_upper(bytes: &[u8]) -> (result: Vec<u8>)
    ensures
        result@ == upper(bytes@),
{
    let mut result: Vec<u8> = Vec::new();
    let mut i: usize = 0;
    while i < bytes.len()
        invariant
            i <= bytes@.len(),
            result@.len() == i,
            forall|k: int| 0 <= k < i ==> result@[k] == upper_byte(#[trigger] bytes@[k]),
        decreases bytes@.len() - i,
    {
        let byte: u8 = bytes[i];
        if 97 <= byte && byte <= 122 {
            result.push(byte - 32);
        } else {
            result.push(byte);
        }
        i += 1;
    }
    assert(result@ =~= upper(bytes@));
    result
}

/// Whether bytes are a keyword.
pub fn is_word(bytes: &Vec<u8>, text: &str) -> (r: bool)
    ensures
        r == (bytes@ == word(text)),
{
    reveal(word);
    same_bytes(bytes.as_slice(), text.as_bytes())
}

/// A copy of some arguments.
fn copy_args(args: &Vec<Vec<u8>>, from: usize) -> (copy: Vec<Vec<u8>>)
    requires
        from <= args@.len(),
    ensures
        byte_views(copy@) == byte_views(args@).skip(from as int),
{
    let mut copy: Vec<Vec<u8>> = Vec::new();
    let mut i: usize = from;
    while i < args.len()
        invariant
            from <= i <= args@.len(),
            copy@.len() == i - from,
            forall|k: int| 0 <= k < copy@.len() ==> #[trigger] copy@[k]@ == args@[from + k]@,
        decreases args@.len() - i,
    {
        copy.push(copy_bytes(args[i].as_slice()));
        i += 1;
    }
    assert(byte_views(copy@) =~= byte_views(args@).skip(from as int));
    copy
}

fn parse_set(args: &Vec<Vec<u8>>) -> (result: Result<ClientCommand, RespError>)
    requires
        args@.len() >= 3,
    ensures
        command_result(result, set_of(byte_views(args@), 3, None, false, false)),
{
    let ghost view = byte_views(args@);
    let mut ttl: Option<Duration> = None;
    let mut nx = false;
    let mut xx = false;
    let mut i: usize = 3;
    while i < args.len()
        invariant
            3 <= i <= args@.len(),
            view == byte_views(args@),
            set_of(view, 3, None, false, false) == set_of(view, i as int, ttl, nx, xx),
        decreases args@.len() - i,
    {
        let flag = to_upper(args[i].as_slice());
        assert(view[i as int] == args@[i as int]@);
        let seconds = is_word(&flag, "EX");
        let millis = is_word(&flag, "PX");
        if (seconds || millis) && i + 1 < args.len() {
            assert(view[i + 1] == args@[i + 1]@);
            let amount: u64 = match parse_u64(args[i + 1].as_slice()) {
                Ok(amount) => amount,
                Err(error) => return Err(error),
            };
            ttl = Some(
                if seconds {
                    Duration::from_secs(amount)
                } else {
                    Duration::from_millis(amount)
                },
            );
            i += 2;
        } else if is_word(&flag, "NX") {
            nx = true;
            i += 1;
        } else if is_word(&flag, "XX") {
            xx = true;
            i += 1;
        } else {
            return Err(RespError::Protocol("invalid SET option"));
        }
    }
    if nx && xx {
        return Err(RespError::Protocol("SET NX and XX are exclusive"));
    }
    assert(view[1] == args@[1]@ && view[2] == args@[2]@);
    Ok(
        ClientCommand::SetKey {
            key: copy_bytes(args[1].as_slice()),
            value: copy_bytes(args[2].as_slice()),
            ttl,
            nx,
            xx,
        },
    )
}

/// The part of a pattern that it matches by prefix.
fn pattern_prefix(pattern: &Vec<u8>) -> (prefix: Option<Vec<u8>>)
    ensures
        optional_bytes(prefix) == prefix_of(pattern@),
{
    let size: usize = pattern.len();
    if size > 0 && pattern[size - 1] == 42 {
        let head = vstd::slice::slice_subrange(pattern.as_slice(), 0, size - 1);
        let copy = copy_bytes(head);
        assert(copy@ =~= pattern@.drop_last());
        Some(copy)
    } else {
        None
    }
}

fn parse_scan(args: &Vec<Vec<u8>>) -> (result: Result<ClientCommand, RespError>)
    requires
        args@.len() >= 2,
    ensures
        command_result(
            result,
            match u64_argument(byte_views(args@)[1]) {
                Err(error) => Err(error),
                Ok(cursor) => scan_of(byte_views(args@), cursor, 2, None, 10),
            },
        ),
{
    let ghost view = byte_views(args@);
    assert(view[1] == args@[1]@);
    let cursor: u64 = match parse_u64(args[1].as_slice()) {
        Ok(cursor) => cursor,
        Err(error) => return Err(error),
    };
    let mut prefix: Option<Vec<u8>> = None;
    let mut count: usize = 10;
    let mut i: usize = 2;
    while i < args.len()
        invariant
            2 <= i <= args@.len(),
            view == byte_views(args@),
            u64_argument(view[1]) == Ok::<u64, RespError>(cursor),
            scan_of(view, cursor, 2, None, 10) == scan_of(
                view,
                cursor,
                i as int,
                optional_bytes(prefix),
                count,
            ),
        decreases args@.len() - i,
    {
        let flag = to_upper(args[i].as_slice());
        assert(view[i as int] == args@[i as int]@);
        if is_word(&flag, "MATCH") && i + 1 < args.len() {
            assert(view[i + 1] == args@[i + 1]@);
            prefix = pattern_prefix(&args[i + 1]);
            i += 2;
        } else if is_word(&flag, "COUNT") && i + 1 < args.len() {
            assert(view[i + 1] == args@[i + 1]@);
            let amount: u64 = match parse_u64(args[i + 1].as_slice()) {
                Ok(amount) => amount,
                Err(error) => return Err(error),
            };
            count = if amount <= usize::MAX as u64 {
                amount as usize
            } else {
                usize::MAX
            };
            i += 2;
        } else {
            return Err(RespError::Protocol("invalid SCAN option"));
        }
    }
    Ok(ClientCommand::Scan { cursor, prefix, count })
}

/// Adds the identity that stands behind an operator's arguments.
fn parse_owner(args: &Vec<Vec<u8>>, operation: AdminOperation) -> (result: Result<
    ClientCommand,
    RespError,
>)
    requires
        args@.len() >= 2,
    ensures
        command_result(result, owned(byte_views(args@), operation@)),
{
    let n: usize = args.len();
    assert(byte_views(args@)[n - 2] == args@[n - 2]@);
    assert(byte_views(args@)[n - 1] == args@[n - 1]@);
    let operator_id: u64 = match parse_u64(args[n - 2].as_slice()) {
        Ok(number) => number,
        Err(error) => return Err(error),
    };
    let sequence: u64 = match parse_u64(args[n - 1].as_slice()) {
        Ok(number) => number,
        Err(error) => return Err(error),
    };
    Ok(ClientCommand::Admin { operator_id, sequence, operation })
}

fn parse_admin(args: &Vec<Vec<u8>>) -> (result: Result<ClientCommand, RespError>)
    requires
        args@.len() >= 2,
    ensures
        command_result(result, admin_of(byte_views(args@))),
{
    let ghost view = byte_views(args@);
    let n: usize = args.len();
    assert(forall|k: int| 0 <= k < n ==> #[trigger] view[k] == args@[k]@);
    let action = to_upper(args[1].as_slice());
    if is_word(&action, "MEMBERS") && n == 2 {
        return Ok(ClientCommand::AdminMembers { consistent: false });
    }
    if is_word(&action, "MEMBERS") && n == 3 && is_word(
        &to_upper(args[2].as_slice()),
        "CONSISTENT",
    ) {
        return Ok(ClientCommand::AdminMembers { consistent: true });
    }
    if is_word(&action, "ACTIVATE") && n == 5 && is_word(
        &to_upper(args[2].as_slice()),
        "ATOMIC-BATCH",
    ) {
        return parse_owner(args, AdminOperation::ActivateAtomicBatch);
    }
    if is_word(&action, "LEAVEJOINT") && n == 4 {
        return parse_owner(args, AdminOperation::LeaveJoint);
    }
    let adds = is_word(&action, "ADDLEARNER");
    if (adds || is_word(&action, "UPDATEADDRESS")) && n == 6 {
        let id: u64 = match parse_u64(args[2].as_slice()) {
            Ok(id) => id,
            Err(error) => return Err(error),
        };
        let peer_address = copy_bytes(args[3].as_slice());
        return parse_owner(
            args,
            if adds {
                AdminOperation::AddLearner { id, peer_address }
            } else {
                AdminOperation::UpdateAddress { id, peer_address }
            },
        );
    }
    let promotes = is_word(&action, "PROMOTE");
    let removes = is_word(&action, "REMOVE");
    if (promotes || removes || is_word(&action, "TRANSFER")) && n == 5 {
        let id: u64 = match parse_u64(args[2].as_slice()) {
            Ok(id) => id,
            Err(error) => return Err(error),
        };
        let operation = if promotes {
            AdminOperation::Promote { id }
        } else if removes {
            AdminOperation::Remove { id }
        } else {
            AdminOperation::TransferLeader { id }
        };
        return parse_owner(args, operation);
    }
    Ok(ClientCommand::Unknown(copy_bytes(args[0].as_slice())))
}

fn parse_pair(name: &Vec<u8>, args: &Vec<Vec<u8>>) -> (result: Result<ClientCommand, RespError>)
    requires
        args@.len() == 2,
    ensures
        command_result(result, pair_of(name@, byte_views(args@))),
{
    let ghost view = byte_views(args@);
    assert(view[0] == args@[0]@ && view[1] == args@[1]@);
    let key = copy_bytes(args[1].as_slice());
    if is_word(name, "ECHO") {
        Ok(ClientCommand::Echo(key))
    } else if is_word(name, "GET") {
        Ok(ClientCommand::Get(key))
    } else if is_word(name, "DEL") {
        Ok(ClientCommand::Del(copy_args(args, 1)))
    } else if is_word(name, "EXISTS") {
        Ok(ClientCommand::Exists(key))
    } else if is_word(name, "INCR") {
        Ok(ClientCommand::IncrBy { key, delta: 1 })
    } else if is_word(name, "DECR") {
        Ok(ClientCommand::IncrBy { key, delta: -1 })
    } else if is_word(name, "GETDEL") {
        Ok(ClientCommand::GetDel(key))
    } else if is_word(name, "TTL") {
        Ok(ClientCommand::Ttl(key))
    } else if is_word(name, "PERSIST") {
        Ok(ClientCommand::Persist(key))
    } else if is_word(name, "SCAN") {
        parse_scan(args)
    } else if is_word(name, "CC.ADMIN") {
        parse_admin(args)
    } else {
        Ok(ClientCommand::Unknown(copy_bytes(args[0].as_slice())))
    }
}

fn parse_triple(name: &Vec<u8>, args: &Vec<Vec<u8>>) -> (result: Result<ClientCommand, RespError>)
    requires
        args@.len() == 3,
    ensures
        command_result(result, triple_of(name@, byte_views(args@))),
{
    let ghost view = byte_views(args@);
    assert(view[0] == args@[0]@ && view[1] == args@[1]@ && view[2] == args@[2]@);
    let key = copy_bytes(args[1].as_slice());
    if is_word(name, "INCRBY") {
        match parse_i64(args[2].as_slice()) {
            Ok(delta) => Ok(ClientCommand::IncrBy { key, delta }),
            Err(error) => Err(error),
        }
    } else if is_word(name, "APPEND") {
        Ok(ClientCommand::Append { key, value: copy_bytes(args[2].as_slice()) })
    } else if is_word(name, "GETSET") {
        Ok(ClientCommand::GetSet { key, value: copy_bytes(args[2].as_slice()) })
    } else if is_word(name, "SETNX") {
        Ok(ClientCommand::SetNx { key, value: copy_bytes(args[2].as_slice()) })
    } else if is_word(name, "EXPIRE") {
        match parse_u64(args[2].as_slice()) {
            Ok(seconds) => Ok(ClientCommand::Expire { key, ttl: Duration::from_secs(seconds) }),
            Err(error) => Err(error),
        }
    } else if is_word(name, "EXPIREAT") {
        match parse_u64(args[2].as_slice()) {
            Ok(at_seconds) => Ok(ClientCommand::ExpireAt { key, at_seconds }),
            Err(error) => Err(error),
        }
    } else {
        Ok(ClientCommand::Unknown(copy_bytes(args[0].as_slice())))
    }
}

/// Parses the arguments of a command.
pub fn parse_args(args: Vec<Vec<u8>>) -> (result: Result<ClientCommand, RespError>)
    ensures
        command_result(result, command_of(byte_views(args@))),
    decreases args@.len(),
{
    let ghost view = byte_views(args@);
    let n: usize = args.len();
    if n == 0 {
        let nothing: Vec<u8> = Vec::new();
        assert(nothing@ =~= Seq::<u8>::empty());
        return Ok(ClientCommand::Unknown(nothing));
    }
    assert(forall|k: int| 0 <= k < n ==> #[trigger] view[k] == args@[k]@);
    let name = to_upper(args[0].as_slice());
    if is_word(&name, "PING") && n == 1 {
        return Ok(ClientCommand::Ping);
    }
    if is_word(&name, "INFO") && n == 1 {
        return Ok(ClientCommand::Info);
    }
    if is_word(&name, "MULTI") && n == 1 {
        return Ok(ClientCommand::Multi);
    }
    if is_word(&name, "EXEC") && n == 1 {
        return Ok(ClientCommand::Exec);
    }
    if is_word(&name, "DISCARD") && n == 1 {
        return Ok(ClientCommand::Discard);
    }
    if n == 2 {
        return parse_pair(&name, &args);
    }
    if is_word(&name, "SET") && n >= 3 {
        return parse_set(&args);
    }
    if is_word(&name, "DEL") && n >= 2 {
        return Ok(ClientCommand::Del(copy_args(&args, 1)));
    }
    if is_word(&name, "SCAN") && n >= 2 {
        return parse_scan(&args);
    }
    if is_word(&name, "CC.ADMIN") && n >= 2 {
        return parse_admin(&args);
    }
    if is_word(&name, "CC.REQUEST") && n >= 4 {
        let client: u64 = match parse_u64(args[1].as_slice()) {
            Ok(number) => number,
            Err(error) => return Err(error),
        };
        let sequence: u64 = match parse_u64(args[2].as_slice()) {
            Ok(number) => number,
            Err(error) => return Err(error),
        };
        let rest = copy_args(&args, 3);
        assert(rest@.len() == byte_views(rest@).len());
        return match parse_args(rest) {
            Ok(command) => Ok(
                ClientCommand::Request { client, sequence, command: Box::new(command) },
            ),
            Err(error) => Err(error),
        };
    }
    if is_word(&name, "READ") && n >= 3 {
        let mode = to_upper(args[1].as_slice());
        let follower = is_word(&mode, "FOLLOWER");
        if follower || is_word(&mode, "STALE") {
            let rest = copy_args(&args, 2);
            assert(rest@.len() == byte_views(rest@).len());
            return match parse_args(rest) {
                Ok(command) => Ok(
                    if follower {
                        ClientCommand::ReadFollower(Box::new(command))
                    } else {
                        ClientCommand::ReadStale(Box::new(command))
                    },
                ),
                Err(error) => Err(error),
            };
        }
    }
    if n == 3 {
        return parse_triple(&name, &args);
    }
    if is_word(&name, "CAS") && n == 4 {
        return Ok(
            ClientCommand::Cas {
                key: copy_bytes(args[1].as_slice()),
                expected: copy_bytes(args[2].as_slice()),
                value: copy_bytes(args[3].as_slice()),
            },
        );
    }
    Ok(ClientCommand::Unknown(copy_bytes(args[0].as_slice())))
}

/// The argument that a RESP value carries.
fn read_argument(value: &RespValue) -> (bytes: Option<Vec<u8>>)
    ensures
        optional_bytes(bytes) == argument(value@),
{
    match value {
        RespValue::Bulk(Some(bytes)) => Some(copy_bytes(bytes.as_slice())),
        RespValue::Simple(text) => Some(copy_bytes(text.as_str().as_bytes())),
        _ => None,
    }
}

fn parse_flat(items: &Vec<RespValue>) -> (result: Result<ClientCommand, RespError>)
    ensures
        command_result(result, flat_command(views(items@))),
{
    let ghost view = views(items@);
    let mut args: Vec<Vec<u8>> = Vec::new();
    let mut i: usize = 0;
    assert(view.take(0) =~= Seq::<RespView>::empty());
    assert(byte_views(args@) =~= Seq::<Seq<u8>>::empty());
    while i < items.len()
        invariant
            i <= items@.len(),
            view == views(items@),
            arguments(view.take(i as int)) == Some(byte_views(args@)),
        decreases items@.len() - i,
    {
        proof {
            let next = view.take(i as int + 1);
            assert(next.drop_last() =~= view.take(i as int));
            assert(next.last() == items@[i as int]@);
        }
        match read_argument(&items[i]) {
            Some(bytes) => {
                let ghost before = byte_views(args@);
                args.push(bytes);
                assert(byte_views(args@) =~= before.push(bytes@));
            },
            None => {
                proof {
                    lemma_arguments_prefix(view, i as int + 1);
                }
                return Err(RespError::Protocol("command arguments must be bulk strings"));
            },
        }
        i += 1;
    }
    assert(view.take(i as int) =~= view);
    parse_args(args)
}

/// A value without an argument spoils every longer list.
proof fn lemma_arguments_prefix(items: Seq<RespView>, n: int)
    requires
        0 <= n <= items.len(),
        arguments(items.take(n)) is None,
    ensures
        arguments(items) is None,
    decreases items.len() - n,
{
    if n < items.len() {
        let next = items.take(n + 1);
        assert(next.drop_last() =~= items.take(n));
        lemma_arguments_prefix(items, n + 1);
    } else {
        assert(items.take(n) =~= items);
    }
}

/// A child that is no command spoils every longer batch.
proof fn lemma_batch_prefix(children: Seq<RespView>, n: int)
    requires
        0 <= n <= children.len(),
        batch_of(children.take(n)) is Err,
    ensures
        batch_of(children) == batch_of(children.take(n)),
    decreases children.len() - n,
{
    if n < children.len() {
        let next = children.take(n + 1);
        assert(next.drop_last() =~= children.take(n));
        lemma_batch_prefix(children, n + 1);
    } else {
        assert(children.take(n) =~= children);
    }
}

fn parse_batch(children: &Vec<RespValue>) -> (result: Result<Vec<ClientCommand>, RespError>)
    ensures
        match result {
            Ok(commands) => batch_of(views(children@)) == Ok::<Seq<CommandView>, RespError>(
                command_views(commands@),
            ),
            Err(error) => batch_of(views(children@)) == Err::<Seq<CommandView>, RespError>(error),
        },
{
    let ghost view = views(children@);
    let mut commands: Vec<ClientCommand> = Vec::new();
    let mut i: usize = 0;
    assert(view.take(0) =~= Seq::<RespView>::empty());
    assert(command_views(commands@) =~= Seq::<CommandView>::empty());
    while i < children.len()
        invariant
            i <= children@.len(),
            view == views(children@),
            batch_of(view.take(i as int)) == Ok::<Seq<CommandView>, RespError>(
                command_views(commands@),
            ),
        decreases children@.len() - i,
    {
        proof {
            let next = view.take(i as int + 1);
            assert(next.drop_last() =~= view.take(i as int));
            assert(next.last() == children@[i as int]@);
        }
        let parsed: Result<ClientCommand, RespError> = match &children[i] {
            RespValue::Array(items) => parse_flat(items),
            _ => Err(RespError::Protocol("command arguments must be bulk strings")),
        };
        match parsed {
            Ok(command) => {
                let ghost before = command_views(commands@);
                commands.push(command);
                assert(command_views(commands@) =~= before.push(command@));
            },
            Err(error) => {
                proof {
                    lemma_batch_prefix(view, i as int + 1);
                }
                return Err(error);
            },
        }
        i += 1;
    }
    assert(view.take(i as int) =~= view);
    Ok(commands)
}

/// Whether a value is the keyword `text`.
fn says(value: &RespValue, text: &str) -> (r: bool)
    ensures
        r == (argument(value@) matches Some(name) && upper(name) == word(text)),
{
    match read_argument(value) {
        Some(bytes) => is_word(&to_upper(bytes.as_slice()), text),
        None => false,
    }
}

fn parse_owned_batch(client: &Vec<u8>, sequence: &Vec<u8>, children: &Vec<RespValue>) -> (result:
    Result<ClientCommand, RespError>)
    ensures
        command_result(result, owned_batch(client@, sequence@, views(children@))),
{
    let client: u64 = match parse_u64(client.as_slice()) {
        Ok(number) => number,
        Err(error) => return Err(error),
    };
    let sequence: u64 = match parse_u64(sequence.as_slice()) {
        Ok(number) => number,
        Err(error) => return Err(error),
    };
    match parse_batch(children) {
        Ok(commands) => {
            let ghost inside = command_views(commands@);
            let batch = ClientCommand::Batch(commands);
            assert(batch@ == CommandView::Batch(inside));
            Ok(ClientCommand::Request { client, sequence, command: Box::new(batch) })
        },
        Err(error) => Err(error),
    }
}

/// Parses the command that a RESP value writes.
pub fn parse_command(value: RespValue) -> (result: Result<ClientCommand, RespError>)
    ensures
        command_result(result, command_from(value@)),
{
    let items = match value {
        RespValue::Array(items) => items,
        _ => return Err(RespError::Protocol("command must be an array")),
    };
    let ghost view = views(items@);
    assert(forall|k: int| 0 <= k < items@.len() ==> #[trigger] view[k] == items@[k]@);
    let n: usize = items.len();
    if n == 2 && says(&items[0], "BATCH") {
        if let RespValue::Array(children) = &items[1] {
            return match parse_batch(children) {
                Ok(commands) => Ok(ClientCommand::Batch(commands)),
                Err(error) => Err(error),
            };
        }
    }
    if n == 5 && says(&items[3], "BATCH") && says(&items[0], "CC.REQUEST") {
        if let RespValue::Array(children) = &items[4] {
            if let Some(client_text) = read_argument(&items[1]) {
                if let Some(sequence_text) = read_argument(&items[2]) {
                    return parse_owned_batch(&client_text, &sequence_text, children);
                }
            }
        }
    }
    parse_flat(&items)
}

} // verus!
