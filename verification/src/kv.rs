//! The commands of the replicated store, and how clients' commands and the
//! store's replies translate into each other's terms.
use vstd::prelude::*;
use vstd::string::*;

use crate::command::{
    byte_views, command_views, copy_optional, optional_bytes, ClientCommand, CommandView,
};
use crate::fault::{because, fault, Fault, FaultKind, FaultView};
use crate::ids::{Duration, Time};
use crate::prose::{append_number, number_text};
use crate::resp::{views, RespValue, RespView};
use crate::text::copy_bytes;

verus! {

#[derive(Clone, Copy, Debug, PartialEq, Eq, Structural)]
pub enum SetCondition {
    Nx,
    Xx,
}

#[derive(Debug, PartialEq, Eq)]
pub enum KvCommand {
    Get { key: Vec<u8> },
    SetKey { key: Vec<u8>, value: Vec<u8>, ttl: Option<Duration> },
    Del { key: Vec<u8> },
    ConditionalSet {
        key: Vec<u8>,
        value: Vec<u8>,
        ttl: Option<Duration>,
        condition: SetCondition,
    },
    Cas { key: Vec<u8>, expected: Option<Vec<u8>>, value: Option<Vec<u8>> },
    Incr { key: Vec<u8>, delta: i64 },
    Append { key: Vec<u8>, value: Vec<u8> },
    GetSet { key: Vec<u8>, value: Vec<u8> },
    GetDel { key: Vec<u8> },
    Expire { key: Vec<u8>, ttl: Duration },
    ExpireAt { key: Vec<u8>, at: Time },
    Ttl { key: Vec<u8> },
    Persist { key: Vec<u8> },
    Scan { start: Option<Vec<u8>>, end: Option<Vec<u8>>, limit: usize },
    Batch { commands: Vec<KvCommand> },
}

/// A store command as mathematics.
pub enum KvView {
    Get { key: Seq<u8> },
    SetKey { key: Seq<u8>, value: Seq<u8>, ttl: Option<Duration> },
    Del { key: Seq<u8> },
    ConditionalSet {
        key: Seq<u8>,
        value: Seq<u8>,
        ttl: Option<Duration>,
        condition: SetCondition,
    },
    Cas { key: Seq<u8>, expected: Option<Seq<u8>>, value: Option<Seq<u8>> },
    Incr { key: Seq<u8>, delta: i64 },
    Append { key: Seq<u8>, value: Seq<u8> },
    GetSet { key: Seq<u8>, value: Seq<u8> },
    GetDel { key: Seq<u8> },
    Expire { key: Seq<u8>, ttl: Duration },
    ExpireAt { key: Seq<u8>, at: Time },
    Ttl { key: Seq<u8> },
    Persist { key: Seq<u8> },
    Scan { start: Option<Seq<u8>>, end: Option<Seq<u8>>, limit: usize },
    Batch { commands: Seq<KvView> },
}

impl KvCommand {
    pub open spec fn view(&self) -> KvView
        decreases self,
    {
        match self {
            KvCommand::Get { key } => KvView::Get { key: key@ },
            KvCommand::SetKey { key, value, ttl } => KvView::SetKey {
                key: key@,
                value: value@,
                ttl: *ttl,
            },
            KvCommand::Del { key } => KvView::Del { key: key@ },
            KvCommand::ConditionalSet { key, value, ttl, condition } => KvView::ConditionalSet {
                key: key@,
                value: value@,
                ttl: *ttl,
                condition: *condition,
            },
            KvCommand::Cas { key, expected, value } => KvView::Cas {
                key: key@,
                expected: optional_bytes(*expected),
                value: optional_bytes(*value),
            },
            KvCommand::Incr { key, delta } => KvView::Incr { key: key@, delta: *delta },
            KvCommand::Append { key, value } => KvView::Append { key: key@, value: value@ },
            KvCommand::GetSet { key, value } => KvView::GetSet { key: key@, value: value@ },
            KvCommand::GetDel { key } => KvView::GetDel { key: key@ },
            KvCommand::Expire { key, ttl } => KvView::Expire { key: key@, ttl: *ttl },
            KvCommand::ExpireAt { key, at } => KvView::ExpireAt { key: key@, at: *at },
            KvCommand::Ttl { key } => KvView::Ttl { key: key@ },
            KvCommand::Persist { key } => KvView::Persist { key: key@ },
            KvCommand::Scan { start, end, limit } => KvView::Scan {
                start: optional_bytes(*start),
                end: optional_bytes(*end),
                limit: *limit,
            },
            KvCommand::Batch { commands } => KvView::Batch { commands: kv_views(commands@) },
        }
    }

    /// Whether the command only reads.
    pub fn is_read(&self) -> (r: bool)
        ensures
            r == self@.reads(),
    {
        match self {
            KvCommand::Get { .. } => true,
            KvCommand::Ttl { .. } => true,
            KvCommand::Scan { .. } => true,
            _ => false,
        }
    }

    /// Whether the command changes state.
    pub fn is_write(&self) -> (r: bool)
        ensures
            r == !self@.reads(),
    {
        !self.is_read()
    }
}

impl KvView {
    pub open spec fn reads(self) -> bool {
        self is Get || self is Ttl || self is Scan
    }
}

/// Store commands, each as mathematics.
pub open spec fn kv_views(commands: Seq<KvCommand>) -> Seq<KvView>
    decreases commands,
{
    Seq::new(
        commands.len(),
        |i: int|
            if 0 <= i < commands.len() {
                commands[i].view()
            } else {
                KvView::Get { key: Seq::empty() }
            },
    )
}

/// An error of the store: whether it is only busy, and the text it shows.
#[derive(Clone, Debug, PartialEq, Eq)]
pub struct KvError {
    pub busy: bool,
    pub text: String,
}

#[derive(Debug, PartialEq, Eq)]
pub enum KvReply {
    Done,
    Value(Option<Vec<u8>>),
    Integer(i64),
    Cas(bool),
    Conditional(bool),
    Scan(Vec<(Vec<u8>, Vec<u8>)>),
    Batch(Vec<KvReply>),
    BatchError { failed_index: u64, error: KvError },
    Error(KvError),
}

/// A reply of the store as mathematics.
pub enum ReplyView {
    Done,
    Value(Option<Seq<u8>>),
    Integer(i64),
    Cas(bool),
    Conditional(bool),
    Scan(Seq<(Seq<u8>, Seq<u8>)>),
    Batch(Seq<ReplyView>),
    BatchError { failed_index: u64, busy: bool, text: Seq<char> },
    Error { busy: bool, text: Seq<char> },
}

pub open spec fn pair_views(pairs: Seq<(Vec<u8>, Vec<u8>)>) -> Seq<(Seq<u8>, Seq<u8>)> {
    pairs.map_values(|pair: (Vec<u8>, Vec<u8>)| (pair.0@, pair.1@))
}

impl KvReply {
    pub open spec fn view(&self) -> ReplyView
        decreases self,
    {
        match self {
            KvReply::Done => ReplyView::Done,
            KvReply::Value(value) => ReplyView::Value(optional_bytes(*value)),
            KvReply::Integer(value) => ReplyView::Integer(*value),
            KvReply::Cas(value) => ReplyView::Cas(*value),
            KvReply::Conditional(value) => ReplyView::Conditional(*value),
            KvReply::Scan(pairs) => ReplyView::Scan(pair_views(pairs@)),
            KvReply::Batch(replies) => ReplyView::Batch(reply_views(replies@)),
            KvReply::BatchError { failed_index, error } => ReplyView::BatchError {
                failed_index: *failed_index,
                busy: error.busy,
                text: error.text@,
            },
            KvReply::Error(error) => ReplyView::Error { busy: error.busy, text: error.text@ },
        }
    }
}

/// Replies, each as mathematics.
pub open spec fn reply_views(replies: Seq<KvReply>) -> Seq<ReplyView>
    decreases replies,
{
    Seq::new(
        replies.len(),
        |i: int|
            if 0 <= i < replies.len() {
                replies[i].view()
            } else {
                ReplyView::Done
            },
    )
}

/// The keys and values of a scan, one after the other.
pub open spec fn flat_pairs(pairs: Seq<(Seq<u8>, Seq<u8>)>) -> Seq<RespView>
    decreases pairs.len(),
{
    if pairs.len() == 0 {
        Seq::empty()
    } else {
        flat_pairs(pairs.drop_last()).push(RespView::Bulk(Some(pairs.last().0))).push(
            RespView::Bulk(Some(pairs.last().1)),
        )
    }
}

/// What a client sees of a reply.
pub open spec fn resp_of(reply: ReplyView) -> RespView
    decreases reply,
{
    match reply {
        ReplyView::Done => RespView::Simple("OK"@),
        ReplyView::Value(value) => RespView::Bulk(value),
        ReplyView::Integer(value) => RespView::Integer(value as int),
        ReplyView::Cas(value) => RespView::Integer(
            if value {
                1
            } else {
                0
            },
        ),
        ReplyView::Conditional(value) => RespView::Integer(
            if value {
                1
            } else {
                0
            },
        ),
        ReplyView::Scan(pairs) => RespView::Array(flat_pairs(pairs)),
        ReplyView::Batch(replies) => RespView::Array(resp_all(replies)),
        ReplyView::BatchError { failed_index, text, .. } => RespView::Error(
            "ERR batch failed at index "@ + number_text(failed_index as nat) + ": "@ + text,
        ),
        ReplyView::Error { busy, text } => RespView::Error(
            if busy {
                "BUSY"@
            } else {
                "ERR "@ + text
            },
        ),
    }
}

pub open spec fn resp_all(replies: Seq<ReplyView>) -> Seq<RespView>
    decreases replies,
{
    Seq::new(
        replies.len(),
        |i: int|
            if 0 <= i < replies.len() {
                resp_of(replies[i])
            } else {
                RespView::Integer(0)
            },
    )
}

/// A simple string.
pub fn simple(text: &str) -> (value: RespValue)
    ensures
        value@ == RespView::Simple(text@),
{
    RespValue::Simple(text.to_owned())
}

/// An error.
pub fn refusal(text: &str) -> (value: RespValue)
    ensures
        value@ == RespView::Error(text@),
{
    RespValue::Error(text.to_owned())
}

/// The keys and values of a scan, one after the other.
pub fn flatten_pairs(pairs: &Vec<(Vec<u8>, Vec<u8>)>) -> (items: Vec<RespValue>)
    ensures
        views(items@) == flat_pairs(pair_views(pairs@)),
{
    let mut items: Vec<RespValue> = Vec::new();
    let ghost all = pair_views(pairs@);
    let mut i: usize = 0;
    assert(all.take(0) =~= Seq::<(Seq<u8>, Seq<u8>)>::empty());
    assert(views(items@) =~= flat_pairs(all.take(0)));
    while i < pairs.len()
        invariant
            i <= pairs@.len(),
            all == pair_views(pairs@),
            views(items@) == flat_pairs(all.take(i as int)),
        decreases pairs@.len() - i,
    {
        proof {
            let next = all.take(i as int + 1);
            assert(next.drop_last() =~= all.take(i as int));
            assert(next.last() == (pairs@[i as int].0@, pairs@[i as int].1@));
        }
        let ghost before = views(items@);
        let key = RespValue::Bulk(Some(copy_bytes(pairs[i].0.as_slice())));
        let value = RespValue::Bulk(Some(copy_bytes(pairs[i].1.as_slice())));
        items.push(key);
        items.push(value);
        assert(views(items@) =~= before.push(key@).push(value@));
        i += 1;
    }
    assert(all.take(i as int) =~= all);
    items
}

/// What a client sees of a reply.
pub fn to_resp(reply: &KvReply) -> (value: RespValue)
    ensures
        value@ == resp_of(reply@),
    decreases reply,
{
    match reply {
        KvReply::Done => simple("OK"),
        KvReply::Value(value) => RespValue::Bulk(copy_optional(value)),
        KvReply::Integer(value) => RespValue::Integer(*value),
        KvReply::Cas(value) => RespValue::Integer(
            if *value {
                1
            } else {
                0
            },
        ),
        KvReply::Conditional(value) => RespValue::Integer(
            if *value {
                1
            } else {
                0
            },
        ),
        KvReply::Scan(pairs) => RespValue::Array(flatten_pairs(pairs)),
        KvReply::Batch(replies) => {
            let ghost all = reply_views(replies@);
            let mut items: Vec<RespValue> = Vec::new();
            let mut i: usize = 0;
            while i < replies.len()
                invariant
                    i <= replies@.len(),
                    all == reply_views(replies@),
                    reply matches KvReply::Batch(own) && own == replies,
                    items@.len() == i,
                    forall|k: int| 0 <= k < i ==> #[trigger] items@[k]@ == resp_of(all[k]),
                decreases replies@.len() - i,
            {
                assert(all[i as int] == replies@[i as int]@);
                items.push(to_resp(&replies[i]));
                i += 1;
            }
            proof {
                let shown = resp_all(all);
                assert forall|k: int| 0 <= k < items@.len() implies #[trigger] views(items@)[k]
                    == shown[k] by {
                    assert(items@[k]@ == resp_of(all[k]));
                }
                assert(views(items@) =~= shown);
            }
            RespValue::Array(items)
        },
        KvReply::BatchError { failed_index, error } => {
            let mut text = "ERR batch failed at index ".to_owned();
            append_number(&mut text, *failed_index);
            text.append(": ");
            text.append(error.text.as_str());
            RespValue::Error(text)
        },
        KvReply::Error(error) => {
            if error.busy {
                refusal("BUSY")
            } else {
                RespValue::Error("ERR ".to_owned().concat(error.text.as_str()))
            }
        },
    }
}

/// What a client sees of the reply to its write. A conditional SET answers as
/// SET does; a batch answers command by command.
pub open spec fn write_reply(command: CommandView, reply: ReplyView) -> RespView
    decreases command,
{
    match (command, reply) {
        (CommandView::Batch(commands), ReplyView::Batch(replies)) => if commands.len()
            == replies.len() {
            RespView::Array(write_replies(commands, replies))
        } else {
            resp_of(reply)
        },
        (CommandView::SetKey { .. }, ReplyView::Conditional(done)) => if done {
            RespView::Simple("OK"@)
        } else {
            RespView::Bulk(None)
        },
        _ => resp_of(reply),
    }
}

pub open spec fn write_replies(commands: Seq<CommandView>, replies: Seq<ReplyView>) -> Seq<RespView>
    decreases commands,
{
    Seq::new(
        commands.len(),
        |i: int|
            if 0 <= i < commands.len() {
                write_reply(commands[i], replies[i])
            } else {
                RespView::Integer(0)
            },
    )
}

/// What a client sees of the reply to its write.
pub fn render_write_reply(command: &ClientCommand, reply: &KvReply) -> (value: RespValue)
    ensures
        value@ == write_reply(command@, reply@),
    decreases command,
{
    match command {
        ClientCommand::Batch(commands) => {
            if let KvReply::Batch(replies) = reply {
                if commands.len() == replies.len() {
                    return RespValue::Array(render_write_replies(commands, replies));
                }
            }
            to_resp(reply)
        },
        ClientCommand::SetKey { .. } => {
            if let KvReply::Conditional(done) = reply {
                return if *done {
                    simple("OK")
                } else {
                    RespValue::Bulk(None)
                };
            }
            to_resp(reply)
        },
        _ => to_resp(reply),
    }
}

/// What a client sees of the replies to the commands of a batch.
pub fn render_write_replies(commands: &Vec<ClientCommand>, replies: &Vec<KvReply>) -> (items: Vec<
    RespValue,
>)
    requires
        commands@.len() == replies@.len(),
    ensures
        views(items@) == write_replies(command_views(commands@), reply_views(replies@)),
    decreases commands,
{
    let ghost asked = command_views(commands@);
    let ghost given = reply_views(replies@);
    let mut items: Vec<RespValue> = Vec::new();
    let mut i: usize = 0;
    while i < commands.len()
        invariant
            i <= commands@.len() == replies@.len(),
            asked == command_views(commands@),
            given == reply_views(replies@),
            items@.len() == i,
            forall|k: int|
                0 <= k < i ==> #[trigger] items@[k]@ == write_reply(asked[k], given[k]),
        decreases commands@.len() - i,
    {
        assert(asked[i as int] == commands@[i as int]@);
        assert(given[i as int] == replies@[i as int]@);
        items.push(render_write_reply(&commands[i], &replies[i]));
        i += 1;
    }
    proof {
        let shown = write_replies(asked, given);
        assert forall|k: int| 0 <= k < items@.len() implies #[trigger] views(items@)[k]
            == shown[k] by {
            assert(items@[k]@ == write_reply(asked[k], given[k]));
        }
        assert(views(items@) =~= shown);
    }
    items
}

/// The store command of a SET.
pub open spec fn set_command(command: CommandView) -> Result<KvView, FaultView> {
    match command {
        CommandView::SetKey { key, value, ttl, nx, xx } => if nx && xx {
            Err(because(FaultKind::InvalidInput, "SET NX and XX are mutually exclusive"))
        } else if nx {
            Ok(KvView::ConditionalSet { key, value, ttl, condition: SetCondition::Nx })
        } else if xx {
            Ok(KvView::ConditionalSet { key, value, ttl, condition: SetCondition::Xx })
        } else {
            Ok(KvView::SetKey { key, value, ttl })
        },
        _ => Err(because(FaultKind::InvalidInput, "expected SET command")),
    }
}

/// The store command of a command that needs no other treatment.
pub open spec fn simple_command(command: CommandView) -> Result<KvView, FaultView> {
    match command {
        CommandView::Get(key) => Ok(KvView::Get { key }),
        CommandView::Cas { key, expected, value } => Ok(
            KvView::Cas { key, expected: Some(expected), value: Some(value) },
        ),
        CommandView::IncrBy { key, delta } => Ok(KvView::Incr { key, delta }),
        CommandView::Append { key, value } => Ok(KvView::Append { key, value }),
        CommandView::GetSet { key, value } => Ok(KvView::GetSet { key, value }),
        CommandView::GetDel(key) => Ok(KvView::GetDel { key }),
        CommandView::SetNx { key, value } => Ok(
            KvView::ConditionalSet { key, value, ttl: None, condition: SetCondition::Nx },
        ),
        CommandView::Expire { key, ttl } => Ok(KvView::Expire { key, ttl }),
        CommandView::ExpireAt { key, at_seconds } => if at_seconds * 1_000_000_000 > u64::MAX {
            Err(because(FaultKind::InvalidInput, "EXPIREAT nanosecond overflow"))
        } else {
            Ok(KvView::ExpireAt { key, at: Time((at_seconds * 1_000_000_000) as u64) })
        },
        CommandView::Ttl(key) => Ok(KvView::Ttl { key }),
        CommandView::Persist(key) => Ok(KvView::Persist { key }),
        _ => Err(because(FaultKind::InvalidInput, "unsupported client command")),
    }
}

/// The store command that a transaction or a batch takes a command as.
pub open spec fn batchable(command: CommandView) -> Result<KvView, FaultView> {
    match command {
        CommandView::SetKey { .. } => set_command(command),
        CommandView::Del(keys) => if keys.len() == 1 {
            Ok(KvView::Del { key: keys[0] })
        } else {
            Err(because(FaultKind::InvalidInput, "DEL inside MULTI accepts one key"))
        },
        CommandView::Get(_) | CommandView::Cas { .. } | CommandView::IncrBy { .. }
        | CommandView::Append { .. } | CommandView::GetSet { .. } | CommandView::GetDel(_)
        | CommandView::SetNx { .. } | CommandView::Expire { .. } | CommandView::ExpireAt { .. }
        | CommandView::Ttl(_) | CommandView::Persist(_) => simple_command(command),
        _ => Err(because(FaultKind::InvalidInput, "command is not batchable")),
    }
}

/// The store commands of a batch, up to the first that is not batchable.
pub open spec fn batch_commands(commands: Seq<CommandView>) -> Result<Seq<KvView>, FaultView>
    decreases commands.len(),
{
    if commands.len() == 0 {
        Ok(Seq::empty())
    } else {
        match batch_commands(commands.drop_last()) {
            Err(fault) => Err(fault),
            Ok(head) => match batchable(commands.last()) {
                Err(fault) => Err(fault),
                Ok(command) => Ok(head.push(command)),
            },
        }
    }
}

/// The store command of a batch.
pub open spec fn batch_command(commands: Seq<CommandView>) -> Result<KvView, FaultView> {
    if commands.len() == 0 {
        Err(because(FaultKind::InvalidInput, "BATCH requires at least one command"))
    } else {
        match batch_commands(commands) {
            Err(fault) => Err(fault),
            Ok(commands) => Ok(KvView::Batch { commands }),
        }
    }
}

/// The store command of the one state-changing command that a caller-owned
/// request may hold.
pub open spec fn request_command(command: CommandView) -> Result<KvView, FaultView> {
    match command {
        CommandView::Batch(commands) => batch_command(commands),
        CommandView::SetKey { .. } => set_command(command),
        CommandView::Del(keys) => if keys.len() == 1 {
            Ok(KvView::Del { key: keys[0] })
        } else {
            Err(because(FaultKind::InvalidInput, "CC.REQUEST accepts one mutating command"))
        },
        _ => match simple_command(command) {
            Err(fault) => Err(fault),
            Ok(kv) => if kv.reads() {
                Err(
                    because(
                        FaultKind::InvalidInput,
                        "CC.REQUEST accepts state-changing commands only",
                    ),
                )
            } else {
                Ok(kv)
            },
        },
    }
}

/// Whether a store command, or its refusal, is the expected one.
pub open spec fn kv_result(
    result: Result<KvCommand, Fault>,
    expected: Result<KvView, FaultView>,
) -> bool {
    match result {
        Ok(command) => expected == Ok::<KvView, FaultView>(command@),
        Err(error) => expected == Err::<KvView, FaultView>(error@),
    }
}

/// Translates a SET.
pub fn set_kv(command: &ClientCommand) -> (result: Result<KvCommand, Fault>)
    ensures
        kv_result(result, set_command(command@)),
{
    if let ClientCommand::SetKey { key, value, ttl, nx, xx } = command {
        if *nx && *xx {
            return Err(fault(FaultKind::InvalidInput, "SET NX and XX are mutually exclusive"));
        }
        let key = copy_bytes(key.as_slice());
        let value = copy_bytes(value.as_slice());
        Ok(
            if *nx {
                KvCommand::ConditionalSet { key, value, ttl: *ttl, condition: SetCondition::Nx }
            } else if *xx {
                KvCommand::ConditionalSet { key, value, ttl: *ttl, condition: SetCondition::Xx }
            } else {
                KvCommand::SetKey { key, value, ttl: *ttl }
            },
        )
    } else {
        Err(fault(FaultKind::InvalidInput, "expected SET command"))
    }
}

/// Translates a command that needs no other treatment.
pub fn simple_kv(command: &ClientCommand) -> (result: Result<KvCommand, Fault>)
    ensures
        kv_result(result, simple_command(command@)),
{
    match command {
        ClientCommand::Get(key) => Ok(KvCommand::Get { key: copy_bytes(key.as_slice()) }),
        ClientCommand::Cas { key, expected, value } => Ok(
            KvCommand::Cas {
                key: copy_bytes(key.as_slice()),
                expected: Some(copy_bytes(expected.as_slice())),
                value: Some(copy_bytes(value.as_slice())),
            },
        ),
        ClientCommand::IncrBy { key, delta } => Ok(
            KvCommand::Incr { key: copy_bytes(key.as_slice()), delta: *delta },
        ),
        ClientCommand::Append { key, value } => Ok(
            KvCommand::Append {
                key: copy_bytes(key.as_slice()),
                value: copy_bytes(value.as_slice()),
            },
        ),
        ClientCommand::GetSet { key, value } => Ok(
            KvCommand::GetSet {
                key: copy_bytes(key.as_slice()),
                value: copy_bytes(value.as_slice()),
            },
        ),
        ClientCommand::GetDel(key) => Ok(KvCommand::GetDel { key: copy_bytes(key.as_slice()) }),
        ClientCommand::SetNx { key, value } => Ok(
            KvCommand::ConditionalSet {
                key: copy_bytes(key.as_slice()),
                value: copy_bytes(value.as_slice()),
                ttl: None,
                condition: SetCondition::Nx,
            },
        ),
        ClientCommand::Expire { key, ttl } => Ok(
            KvCommand::Expire { key: copy_bytes(key.as_slice()), ttl: *ttl },
        ),
        ClientCommand::ExpireAt { key, at_seconds } => {
            if *at_seconds > u64::MAX / 1_000_000_000 {
                return Err(fault(FaultKind::InvalidInput, "EXPIREAT nanosecond overflow"));
            }
            Ok(
                KvCommand::ExpireAt {
                    key: copy_bytes(key.as_slice()),
                    at: Time(*at_seconds * 1_000_000_000),
                },
            )
        },
        ClientCommand::Ttl(key) => Ok(KvCommand::Ttl { key: copy_bytes(key.as_slice()) }),
        ClientCommand::Persist(key) => Ok(KvCommand::Persist { key: copy_bytes(key.as_slice()) }),
        _ => Err(fault(FaultKind::InvalidInput, "unsupported client command")),
    }
}

/// Translates a command for a transaction or a batch.
pub fn queue_transaction_command(command: &ClientCommand) -> (result: Result<KvCommand, Fault>)
    ensures
        kv_result(result, batchable(command@)),
{
    match command {
        ClientCommand::SetKey { .. } => set_kv(command),
        ClientCommand::Del(keys) => {
            if keys.len() == 1 {
                assert(byte_views(keys@)[0] == keys@[0]@);
                Ok(KvCommand::Del { key: copy_bytes(keys[0].as_slice()) })
            } else {
                Err(fault(FaultKind::InvalidInput, "DEL inside MULTI accepts one key"))
            }
        },
        ClientCommand::Get(_) | ClientCommand::Cas { .. } | ClientCommand::IncrBy { .. }
        | ClientCommand::Append { .. } | ClientCommand::GetSet { .. } | ClientCommand::GetDel(_)
        | ClientCommand::SetNx { .. } | ClientCommand::Expire { .. }
        | ClientCommand::ExpireAt { .. } | ClientCommand::Ttl(_) | ClientCommand::Persist(_)
        => simple_kv(command),
        _ => Err(fault(FaultKind::InvalidInput, "command is not batchable")),
    }
}

/// A command that is not batchable spoils every longer batch.
proof fn lemma_batch_spoils(commands: Seq<CommandView>, n: int)
    requires
        0 <= n <= commands.len(),
        batch_commands(commands.take(n)) is Err,
    ensures
        batch_commands(commands) == batch_commands(commands.take(n)),
    decreases commands.len() - n,
{
    if n < commands.len() {
        let next = commands.take(n + 1);
        assert(next.drop_last() =~= commands.take(n));
        lemma_batch_spoils(commands, n + 1);
    } else {
        assert(commands.take(n) =~= commands);
    }
}

/// Translates a batch.
pub fn batch_kv(commands: &Vec<ClientCommand>) -> (result: Result<KvCommand, Fault>)
    ensures
        kv_result(result, batch_command(command_views(commands@))),
{
    if commands.len() == 0 {
        return Err(fault(FaultKind::InvalidInput, "BATCH requires at least one command"));
    }
    let ghost all = command_views(commands@);
    let mut translated: Vec<KvCommand> = Vec::new();
    let mut i: usize = 0;
    assert(all.take(0) =~= Seq::<CommandView>::empty());
    assert(kv_views(translated@) =~= Seq::<KvView>::empty());
    while i < commands.len()
        invariant
            i <= commands@.len(),
            commands@.len() > 0,
            all == command_views(commands@),
            batch_commands(all.take(i as int)) == Ok::<Seq<KvView>, FaultView>(
                kv_views(translated@),
            ),
        decreases commands@.len() - i,
    {
        proof {
            let next = all.take(i as int + 1);
            assert(next.drop_last() =~= all.take(i as int));
            assert(next.last() == commands@[i as int]@);
        }
        match queue_transaction_command(&commands[i]) {
            Ok(command) => {
                let ghost before = kv_views(translated@);
                translated.push(command);
                assert(kv_views(translated@) =~= before.push(command@));
            },
            Err(error) => {
                proof {
                    lemma_batch_spoils(all, i as int + 1);
                }
                return Err(error);
            },
        }
        i += 1;
    }
    assert(all.take(i as int) =~= all);
    Ok(KvCommand::Batch { commands: translated })
}

/// Translates the one state-changing command of a caller-owned request. Reads
/// and multi-key writes are refused: one retry identity never stands for
/// several hidden operations.
pub fn explicit_write_kv(command: &ClientCommand) -> (result: Result<KvCommand, Fault>)
    ensures
        kv_result(result, request_command(command@)),
        result matches Ok(kv) ==> !kv@.reads(),
{
    match command {
        ClientCommand::Batch(commands) => batch_kv(commands),
        ClientCommand::SetKey { .. } => set_kv(command),
        ClientCommand::Del(keys) => {
            if keys.len() == 1 {
                assert(byte_views(keys@)[0] == keys@[0]@);
                Ok(KvCommand::Del { key: copy_bytes(keys[0].as_slice()) })
            } else {
                Err(fault(FaultKind::InvalidInput, "CC.REQUEST accepts one mutating command"))
            }
        },
        _ => {
            let kv = match simple_kv(command) {
                Ok(kv) => kv,
                Err(error) => return Err(error),
            };
            if kv.is_write() {
                Ok(kv)
            } else {
                Err(
                    fault(
                        FaultKind::InvalidInput,
                        "CC.REQUEST accepts state-changing commands only",
                    ),
                )
            }
        },
    }
}

} // verus!
