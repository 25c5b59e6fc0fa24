//! What a client gets for its commands.
use vstd::prelude::*;
use vstd::string::*;

use crate::client::{
    begun, deleting, failure_fault, resumed, ActionView, BatchLimits, PendingView, SubmitFailure,
    TransactionView,
};
use crate::command::CommandView;
use crate::fault::FaultView;
use crate::ids::{Duration, Time};
use crate::kv::{
    batch_command, batch_commands, batchable, resp_of, write_replies, write_reply, KvView,
    ReplyView, SetCondition,
};
use crate::prose::number_text;
use crate::resp::RespView;

verus! {

/// Whether a command outside a transaction is one submission without a session, and
/// a reply of the store is shown to the client as `shown`.
pub open spec fn asks_and_shows(
    command: CommandView,
    asked: KvView,
    reply: ReplyView,
    shown: RespView,
) -> bool {
    forall|batches: bool, leads: bool, limits: BatchLimits, bytes: u64|
        {
            let first = #[trigger] begun(command, None, batches, leads, limits, bytes);
            &&& first.0 is None
            &&& first.1 matches ActionView::Submit { session, command: submitted, next }
            &&& session is None
            &&& submitted == asked
            &&& resumed(next, Ok(reply)) == ActionView::Reply(shown)
        }
}

/// Reads and writes reach the store as they were written, and what the store says
/// of them reaches the client: a value or nothing, a number, that it was done.
pub proof fn law_commands_reach_the_store(
    key: Seq<u8>,
    value: Seq<u8>,
    expected: Seq<u8>,
    found: Option<Seq<u8>>,
    number: i64,
    delta: i64,
    ttl: Duration,
    lifetime: Option<Duration>,
    done: bool,
)
    ensures
        asks_and_shows(
            CommandView::Get(key),
            KvView::Get { key },
            ReplyView::Value(found),
            RespView::Bulk(found),
        ),
        asks_and_shows(
            CommandView::SetKey { key, value, ttl: lifetime, nx: false, xx: false },
            KvView::SetKey { key, value, ttl: lifetime },
            ReplyView::Done,
            RespView::Simple("OK"@),
        ),
        asks_and_shows(
            CommandView::SetKey { key, value, ttl: lifetime, nx: true, xx: false },
            KvView::ConditionalSet { key, value, ttl: lifetime, condition: SetCondition::Nx },
            ReplyView::Conditional(done),
            if done {
                RespView::Simple("OK"@)
            } else {
                RespView::Bulk(None)
            },
        ),
        asks_and_shows(
            CommandView::SetKey { key, value, ttl: lifetime, nx: false, xx: true },
            KvView::ConditionalSet { key, value, ttl: lifetime, condition: SetCondition::Xx },
            ReplyView::Conditional(done),
            if done {
                RespView::Simple("OK"@)
            } else {
                RespView::Bulk(None)
            },
        ),
        asks_and_shows(
            CommandView::SetNx { key, value },
            KvView::ConditionalSet { key, value, ttl: None, condition: SetCondition::Nx },
            ReplyView::Conditional(done),
            RespView::Integer(
                if done {
                    1
                } else {
                    0
                },
            ),
        ),
        asks_and_shows(
            CommandView::Exists(key),
            KvView::Get { key },
            ReplyView::Value(found),
            RespView::Integer(
                if found is Some {
                    1
                } else {
                    0
                },
            ),
        ),
        asks_and_shows(
            CommandView::IncrBy { key, delta },
            KvView::Incr { key, delta },
            ReplyView::Integer(number),
            RespView::Integer(number as int),
        ),
        asks_and_shows(
            CommandView::Append { key, value },
            KvView::Append { key, value },
            ReplyView::Integer(number),
            RespView::Integer(number as int),
        ),
        asks_and_shows(
            CommandView::GetSet { key, value },
            KvView::GetSet { key, value },
            ReplyView::Value(found),
            RespView::Bulk(found),
        ),
        asks_and_shows(
            CommandView::GetDel(key),
            KvView::GetDel { key },
            ReplyView::Value(found),
            RespView::Bulk(found),
        ),
        asks_and_shows(
            CommandView::Cas { key, expected, value },
            KvView::Cas { key, expected: Some(expected), value: Some(value) },
            ReplyView::Cas(done),
            RespView::Integer(
                if done {
                    1
                } else {
                    0
                },
            ),
        ),
        asks_and_shows(
            CommandView::Expire { key, ttl },
            KvView::Expire { key, ttl },
            ReplyView::Integer(number),
            RespView::Integer(number as int),
        ),
        asks_and_shows(
            CommandView::Ttl(key),
            KvView::Ttl { key },
            ReplyView::Integer(number),
            RespView::Integer(number as int),
        ),
        asks_and_shows(
            CommandView::Persist(key),
            KvView::Persist { key },
            ReplyView::Integer(number),
            RespView::Integer(number as int),
        ),
{
}

/// EXPIREAT names a second, and the store is told that second; one that cannot be
/// told is refused before anything is submitted.
pub proof fn law_deadlines_are_in_seconds(key: Seq<u8>, at_seconds: u64, number: i64)
    ensures
        at_seconds * 1_000_000_000 <= u64::MAX ==> asks_and_shows(
            CommandView::ExpireAt { key, at_seconds },
            KvView::ExpireAt { key, at: Time((at_seconds * 1_000_000_000) as u64) },
            ReplyView::Integer(number),
            RespView::Integer(number as int),
        ),
        at_seconds * 1_000_000_000 > u64::MAX ==> forall|
            batches: bool,
            leads: bool,
            limits: BatchLimits,
            bytes: u64,
        |
            (#[trigger] begun(
                CommandView::ExpireAt { key, at_seconds },
                None,
                batches,
                leads,
                limits,
                bytes,
            )).1 is Fail,
{
}

/// SCAN asks for keys from its prefix on, and shows keys and values in turn behind
/// its cursor.
pub proof fn law_scans_show_keys_and_values(
    cursor: u64,
    prefix: Option<Seq<u8>>,
    count: usize,
    pairs: Seq<(Seq<u8>, Seq<u8>)>,
    batches: bool,
    leads: bool,
    limits: BatchLimits,
    bytes: u64,
    k: int,
)
    requires
        0 <= k < pairs.len(),
    ensures
        ({
            let asked = begun(
                CommandView::Scan { cursor, prefix, count },
                None,
                batches,
                leads,
                limits,
                bytes,
            );
            &&& asked.1 matches ActionView::Submit { session, command, next }
            &&& session is None
            &&& command == (KvView::Scan { start: prefix, end: None, limit: count })
            &&& resumed(next, Ok(ReplyView::Scan(pairs))) matches ActionView::Reply(
                RespView::Array(parts),
            )
            &&& parts.len() == 2
            &&& cursor <= i64::MAX ==> parts[0] == RespView::Integer(cursor as int)
            &&& parts[1] matches RespView::Array(items)
            &&& items.len() == 2 * pairs.len()
            &&& items[2 * k] == RespView::Bulk(Some(pairs[k].0))
            &&& items[2 * k + 1] == RespView::Bulk(Some(pairs[k].1))
        }),
{
    lemma_flat(pairs, k);
}

proof fn lemma_flat(pairs: Seq<(Seq<u8>, Seq<u8>)>, k: int)
    requires
        0 <= k < pairs.len(),
    ensures
        crate::kv::flat_pairs(pairs).len() == 2 * pairs.len(),
        crate::kv::flat_pairs(pairs)[2 * k] == RespView::Bulk(Some(pairs[k].0)),
        crate::kv::flat_pairs(pairs)[2 * k + 1] == RespView::Bulk(Some(pairs[k].1)),
    decreases pairs.len(),
{
    lemma_flat_len(pairs.drop_last());
    if k < pairs.len() - 1 {
        lemma_flat(pairs.drop_last(), k);
    }
}

proof fn lemma_flat_len(pairs: Seq<(Seq<u8>, Seq<u8>)>)
    ensures
        crate::kv::flat_pairs(pairs).len() == 2 * pairs.len(),
    decreases pairs.len(),
{
    if pairs.len() > 0 {
        lemma_flat_len(pairs.drop_last());
    }
}

/// What comes of deleting keys one after the other, where `gone` says of each
/// whether the store had it.
pub open spec fn deleted_all(action: ActionView, gone: Seq<bool>) -> ActionView
    decreases gone.len(),
{
    if gone.len() == 0 {
        action
    } else {
        match action {
            ActionView::Submit { next, .. } => deleted_all(
                resumed(
                    next,
                    Ok(
                        ReplyView::Integer(
                            if gone[0] {
                                1
                            } else {
                                0
                            },
                        ),
                    ),
                ),
                gone.drop_first(),
            ),
            _ => action,
        }
    }
}

pub open spec fn count_true(flags: Seq<bool>) -> nat
    decreases flags.len(),
{
    if flags.len() == 0 {
        0
    } else {
        count_true(flags.drop_first()) + if flags[0] {
            1nat
        } else {
            0
        }
    }
}

/// DEL asks the store to remove every key, in order, and answers how many of them
/// were there.
pub proof fn law_deletions_are_counted(
    keys: Seq<Seq<u8>>,
    gone: Seq<bool>,
    batches: bool,
    leads: bool,
    limits: BatchLimits,
    bytes: u64,
    k: int,
)
    requires
        keys.len() == gone.len() <= i64::MAX,
        0 <= k < keys.len(),
    ensures
        ({
            let first = begun(CommandView::Del(keys), None, batches, leads, limits, bytes).1;
            &&& deleted_all(first, gone) == ActionView::Reply(
                RespView::Integer(count_true(gone) as int),
            )
            &&& deleted_all(first, gone.take(k)) matches ActionView::Submit { session, command, .. }
            &&& session is None && command == (KvView::Del { key: keys[k] })
        }),
{
    lemma_deleting(keys, gone, 0);
    lemma_deleting_at(keys, gone, 0, k);
}

proof fn lemma_deleting(keys: Seq<Seq<u8>>, gone: Seq<bool>, deleted: i64)
    requires
        keys.len() == gone.len(),
        0 <= deleted,
        deleted + gone.len() <= i64::MAX,
    ensures
        deleted_all(deleting(keys, deleted), gone) == ActionView::Reply(
            RespView::Integer(deleted + count_true(gone)),
        ),
    decreases keys.len(),
{
    if keys.len() > 0 {
        let next = if gone[0] {
            (deleted + 1) as i64
        } else {
            deleted
        };
        lemma_deleting(keys.skip(1), gone.drop_first(), next);
    }
}

proof fn lemma_deleting_at(keys: Seq<Seq<u8>>, gone: Seq<bool>, deleted: i64, k: int)
    requires
        keys.len() == gone.len(),
        0 <= deleted,
        deleted + gone.len() <= i64::MAX,
        0 <= k < keys.len(),
    ensures
        deleted_all(deleting(keys, deleted), gone.take(k)) matches ActionView::Submit {
            session,
            command,
            ..
        } && session is None && command == (KvView::Del { key: keys[k] }),
    decreases keys.len(),
{
    if k > 0 {
        let next = if gone[0] {
            (deleted + 1) as i64
        } else {
            deleted
        };
        lemma_deleting_at(keys.skip(1), gone.drop_first(), next, k - 1);
        assert(gone.take(k).drop_first() =~= gone.drop_first().take(k - 1));
        assert(gone.take(k)[0] == gone[0]);
    }
}

/// A command in a transaction or a batch is the command that it would be alone, and
/// its reply is shown as it would be alone.
pub proof fn law_batched_commands_are_the_same(
    command: CommandView,
    batches: bool,
    leads: bool,
    limits: BatchLimits,
    bytes: u64,
    reply: ReplyView,
)
    ensures
        batchable(command) matches Ok(translated) ==> {
            let alone = begun(command, None, batches, leads, limits, bytes).1;
            &&& alone matches ActionView::Submit { session, command: submitted, next }
            &&& session is None
            &&& submitted == translated
            &&& command !is Del ==> resumed(next, Ok(reply)) == ActionView::Reply(
                write_reply(command, reply),
            )
        },
{
}

proof fn lemma_batch(commands: Seq<CommandView>, k: int)
    requires
        0 <= k < commands.len(),
    ensures
        batch_commands(commands) matches Ok(translated) ==> translated.len() == commands.len()
            && batchable(commands[k]) == Ok::<KvView, FaultView>(translated[k]),
    decreases commands.len(),
{
    if batch_commands(commands) is Ok {
        let head = batch_commands(commands.drop_last())->Ok_0;
        if commands.len() > 1 {
            lemma_batch(
                commands.drop_last(),
                if k < commands.len() - 1 {
                    k
                } else {
                    0
                },
            );
        }
    }
}

/// BATCH submits its commands as one, each in its place, and shows their replies in
/// their places; a batch of nothing, or with a command that cannot be batched,
/// submits nothing.
pub proof fn law_batches_keep_their_places(
    commands: Seq<CommandView>,
    replies: Seq<ReplyView>,
    batches: bool,
    leads: bool,
    limits: BatchLimits,
    bytes: u64,
    k: int,
)
    requires
        0 <= k < commands.len(),
        replies.len() == commands.len(),
    ensures
        ({
            let step = begun(CommandView::Batch(commands), None, batches, leads, limits, bytes).1;
            &&& batchable(commands[k]) is Err ==> step is Fail
            &&& step matches ActionView::Submit { command, next, .. } ==> {
                &&& command matches KvView::Batch { commands: translated }
                &&& translated.len() == commands.len()
                &&& batchable(commands[k]) == Ok::<KvView, FaultView>(translated[k])
                &&& resumed(next, Ok(ReplyView::Batch(replies))) matches ActionView::Reply(
                    RespView::Array(shown),
                )
                &&& shown.len() == commands.len()
                &&& shown[k] == write_reply(commands[k], replies[k])
            }
        }),
        begun(CommandView::Batch(Seq::empty()), None, batches, leads, limits, bytes).1 is Fail,
{
    lemma_batch(commands, k);
    lemma_batch_refused(commands, k);
    assert(write_replies(commands, replies)[k] == write_reply(commands[k], replies[k]));
}

proof fn lemma_batch_refused(commands: Seq<CommandView>, k: int)
    requires
        0 <= k < commands.len(),
    ensures
        batchable(commands[k]) is Err ==> batch_commands(commands) is Err,
    decreases commands.len(),
{
    if k < commands.len() - 1 {
        lemma_batch_refused(commands.drop_last(), k);
    }
}

/// The transaction after commands were queued one after the other.
pub open spec fn queued_all(commands: Seq<CommandView>, limits: BatchLimits, bytes: Seq<u64>) -> Option<
    TransactionView,
>
    decreases commands.len(),
{
    if commands.len() == 0 {
        begun(CommandView::Multi, None, true, true, limits, 0).0
    } else {
        begun(
            commands.last(),
            queued_all(commands.drop_last(), limits, bytes.drop_last()),
            true,
            true,
            limits,
            bytes.last(),
        ).0
    }
}

/// Whether a command is queued while a transaction is open: everything but the
/// commands that open, run and drop one.
pub open spec fn queueable(command: CommandView) -> bool {
    command !is Multi && command !is Exec && command !is Discard
}

proof fn lemma_queued_all(commands: Seq<CommandView>, limits: BatchLimits, bytes: Seq<u64>)
    requires
        commands.len() == bytes.len(),
        forall|i: int| 0 <= i < commands.len() ==> queueable(#[trigger] commands[i]),
    ensures
        queued_all(commands, limits, bytes) matches Some(open) && (open matches TransactionView::Clean {
            commands: held,
            translated,
            ..
        } ==> held == commands && batch_commands(commands) == Ok::<Seq<KvView>, FaultView>(
            translated,
        )),
    decreases commands.len(),
{
    if commands.len() > 0 {
        let front = commands.drop_last();
        assert forall|i: int| 0 <= i < front.len() implies queueable(#[trigger] front[i]) by {
            assert(front[i] == commands[i]);
        }
        lemma_queued_all(front, limits, bytes.drop_last());
        let last = commands.len() - 1;
        assert(queueable(commands[last]));
        assert(front.push(commands.last()) =~= commands);
    } else {
        assert(commands =~= Seq::empty());
    }
}

/// EXEC runs exactly what was queued since MULTI, as one and in order, and shows the
/// replies in order; nothing of it was submitted before, DISCARD drops all of it,
/// and either way the transaction is over.
pub proof fn law_transactions_run_what_was_queued(
    commands: Seq<CommandView>,
    replies: Seq<ReplyView>,
    limits: BatchLimits,
    bytes: Seq<u64>,
    k: int,
)
    requires
        commands.len() == bytes.len() == replies.len(),
        forall|i: int| 0 <= i < commands.len() ==> queueable(#[trigger] commands[i]),
        0 <= k < commands.len(),
    ensures
        ({
            let open = queued_all(commands, limits, bytes);
            let run = begun(CommandView::Exec, open, true, true, limits, 0);
            let dropped = begun(CommandView::Discard, open, true, true, limits, 0);
            let before = queued_all(commands.take(k), limits, bytes.take(k));
            &&& open is Some && run.0 is None && dropped.0 is None
            &&& dropped.1 == ActionView::Reply(RespView::Simple("OK"@))
            &&& begun(commands[k], before, true, true, limits, bytes[k]).1 is Reply
            &&& open->0 is Dirty ==> run.1 is Reply
            &&& open->0 is Clean ==> {
                &&& run.1 matches ActionView::Submit { session, command, next }
                &&& session is None
                &&& command matches KvView::Batch { commands: translated }
                &&& translated.len() == commands.len()
                &&& batchable(commands[k]) == Ok::<KvView, FaultView>(translated[k])
                &&& resumed(next, Ok(ReplyView::Batch(replies))) matches ActionView::Reply(
                    RespView::Array(shown),
                )
                &&& shown.len() == commands.len()
                &&& shown[k] == write_reply(commands[k], replies[k])
            }
        }),
{
    lemma_queued_all(commands, limits, bytes);
    lemma_batch(commands, k);
    let front = commands.take(k);
    assert forall|i: int| 0 <= i < front.len() implies queueable(#[trigger] front[i]) by {
        assert(front[i] == commands[i]);
    }
    lemma_queued_all(front, limits, bytes.take(k));
    assert(queueable(commands[k]));
    assert(write_replies(commands, replies)[k] == write_reply(commands[k], replies[k]));
}

/// A command that can be batched and fits is queued, and one that spoils a
/// transaction spoils it for good.
pub proof fn law_fitting_commands_are_queued(
    open: TransactionView,
    command: CommandView,
    limits: BatchLimits,
    bytes: u64,
)
    requires
        queueable(command),
    ensures
        ({
            let step = begun(command, Some(open), true, true, limits, bytes);
            &&& open is Dirty ==> step.0 == Some(TransactionView::Dirty) && (
            step.1 matches ActionView::Reply(RespView::Error(_)))
            &&& open matches TransactionView::Clean { commands, translated, encoded_bytes } ==> {
                let fits = batchable(command) is Ok && commands.len() < limits.max_commands
                    && encoded_bytes + bytes <= limits.max_bytes;
                &&& fits ==> step.1 == ActionView::Reply(RespView::Simple("QUEUED"@)) && (
                step.0 matches Some(TransactionView::Clean { encoded_bytes: total, .. }) && total
                    == encoded_bytes + bytes)
                &&& !fits ==> step.0 == Some(TransactionView::Dirty) && (
                step.1 matches ActionView::Reply(RespView::Error(_)))
            }
        }),
{
}

/// A retry identity reaches the store with the command that it wraps, and that
/// command is the one that it would be alone; without an identity, or around what
/// only reads, nothing is submitted.
pub proof fn law_requests_carry_their_identity(
    client: u64,
    sequence: u64,
    inner: CommandView,
    batches: bool,
    leads: bool,
    limits: BatchLimits,
    bytes: u64,
    reply: ReplyView,
)
    ensures
        ({
            let command = CommandView::Request { client, sequence, command: Box::new(inner) };
            let step = begun(command, None, batches, leads, limits, bytes).1;
            &&& client == 0 || sequence == 0 ==> step is Fail
            &&& step matches ActionView::Submit { session, command: submitted, next } ==> {
                &&& session == Some((client, sequence))
                &&& !(submitted is Get || submitted is Ttl || submitted is Scan)
                &&& inner matches CommandView::Batch(commands) ==> batch_command(commands) == Ok::<
                    KvView,
                    FaultView,
                >(submitted)
                &&& inner !is Batch ==> batchable(inner) == Ok::<KvView, FaultView>(submitted)
                &&& resumed(next, Ok(reply)) == ActionView::Reply(write_reply(inner, reply))
            }
            &&& client != 0 && sequence != 0 && inner !is Batch && inner !is Get && inner !is Ttl
                && batchable(inner) is Ok ==> step is Submit
        }),
{
}

/// What needs no store is answered at once; a failure of the store is shown as the
/// error that it is; and what failed to be submitted fails for the client.
pub proof fn law_other_answers(
    value: Seq<u8>,
    text: Seq<char>,
    failed_index: u64,
    next: PendingView,
    fault: FaultView,
    batches: bool,
    leads: bool,
    limits: BatchLimits,
    bytes: u64,
)
    ensures
        begun(CommandView::Ping, None, batches, leads, limits, bytes).1 == ActionView::Reply(
            RespView::Simple("PONG"@),
        ),
        begun(CommandView::Echo(value), None, batches, leads, limits, bytes).1 == ActionView::Reply(
            RespView::Bulk(Some(value)),
        ),
        begun(CommandView::Info, None, batches, leads, limits, bytes).1 is Info,
        begun(CommandView::Unknown(value), None, batches, leads, limits, bytes).1 matches
            ActionView::Reply(RespView::Error(_)),
        begun(
            CommandView::ReadFollower(Box::new(CommandView::Get(value))),
            None,
            batches,
            leads,
            limits,
            bytes,
        ).1 == (ActionView::FollowerRead { command: KvView::Get { key: value } }),
        begun(
            CommandView::ReadFollower(Box::new(CommandView::Ttl(value))),
            None,
            batches,
            leads,
            limits,
            bytes,
        ).1 == (ActionView::FollowerRead { command: KvView::Ttl { key: value } }),
        begun(
            CommandView::ReadStale(Box::new(CommandView::Get(value))),
            None,
            batches,
            leads,
            limits,
            bytes,
        ).1 == (ActionView::StaleGet { key: value }),
        resumed(next, Err(fault)) == ActionView::Fail(fault),
        resp_of(ReplyView::Error { busy: false, text }) == RespView::Error("ERR "@ + text),
        resp_of(ReplyView::Error { busy: true, text }) == RespView::Error("BUSY"@),
        resp_of(ReplyView::BatchError { failed_index, busy: false, text }) == RespView::Error(
            "ERR batch failed at index "@ + number_text(failed_index as nat) + ": "@ + text,
        ),
{
}

/// A client of a node that does not lead is told who does, and where that node's
/// clients go.
pub proof fn law_redirects_name_the_leader(leader: u64, address: String)
    ensures
        failure_fault(SubmitFailure::NotLeader { leader, address }).message == "NOTLEADER leader=n"@
            + number_text(leader as nat) + " addr="@ + address@,
{
}

} // verus!
