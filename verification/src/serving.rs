//! How a host takes up what comes in: bytes of clients, and transitions of the
//! engine.
use vstd::prelude::*;
use vstd::string::*;

use crate::client::{transaction_view, ClientTransaction, SubmitFailure, TransactionView};
use crate::command::{command_from, parse_command, ClientCommand, CommandView};
use crate::kv::{refusal, KvReply};
use crate::resp::{parse, parsed, RespError, RespValue, RespView, MAX_FRAME};

verus! {

/// What the bytes of a client come to.
#[derive(Debug)]
pub enum ClientFrame {
    /// The bytes go on.
    Wait,
    /// The client is answered and the connection closed.
    Close(RespValue),
    /// The client is answered, and goes on behind the bytes that were used.
    Answer { used: usize, reply: RespValue },
    /// A command, behind which the client goes on.
    Command { used: usize, command: ClientCommand },
}

pub enum FrameView {
    Wait,
    Close(RespView),
    Answer { used: int, reply: RespView },
    Command { used: int, command: CommandView },
}

impl View for ClientFrame {
    type V = FrameView;

    open spec fn view(&self) -> FrameView {
        match *self {
            ClientFrame::Wait => FrameView::Wait,
            ClientFrame::Close(reply) => FrameView::Close(reply@),
            ClientFrame::Answer { used, reply } => FrameView::Answer {
                used: used as int,
                reply: reply@,
            },
            ClientFrame::Command { used, command } => FrameView::Command {
                used: used as int,
                command: command@,
            },
        }
    }
}

/// What the bytes of a client come to, and what becomes of the transaction. A
/// whole request is read before it is refused, so that the refusal arrives.
pub open spec fn frame_of(
    buffer: Seq<u8>,
    serves: bool,
    transaction: Option<TransactionView>,
) -> (FrameView, Option<TransactionView>) {
    if buffer.len() > 2 * MAX_FRAME {
        (FrameView::Close(RespView::Error("ERR frame too large"@)), transaction)
    } else {
        match parsed(buffer) {
            Err(RespError::Incomplete) => (FrameView::Wait, transaction),
            Err(error) => (
                FrameView::Close(RespView::Error("ERR "@ + error.shown())),
                transaction,
            ),
            Ok((value, used)) => if !serves {
                (
                    FrameView::Close(RespView::Error("TRYAGAIN joining node is not active"@)),
                    transaction,
                )
            } else {
                match command_from(value) {
                    Ok(command) => (FrameView::Command { used, command }, transaction),
                    Err(error) => (
                        FrameView::Answer { used, reply: RespView::Error("ERR "@ + error.shown()) },
                        if transaction is Some {
                            Some(TransactionView::Dirty)
                        } else {
                            transaction
                        },
                    ),
                }
            },
        }
    }
}

fn error_reply(error: &RespError) -> (reply: RespValue)
    ensures
        reply@ == RespView::Error("ERR "@ + error.shown()),
{
    let mut text = "ERR ".to_owned();
    text.append(error.message().as_str());
    RespValue::Error(text)
}

/// Takes up the bytes of a client. A request that is no command spoils the
/// transaction that the connection builds.
pub fn serve_client(
    buffer: &[u8],
    serves: bool,
    transaction: &mut Option<ClientTransaction>,
) -> (frame: ClientFrame)
    ensures
        (frame@, transaction_view(*final(transaction))) == frame_of(
            buffer@,
            serves,
            transaction_view(*old(transaction)),
        ),
{
    if buffer.len() > 2 * MAX_FRAME {
        return ClientFrame::Close(refusal("ERR frame too large"));
    }
    let (value, used) = match parse(buffer) {
        Ok(frame) => frame,
        Err(RespError::Incomplete) => return ClientFrame::Wait,
        Err(error) => return ClientFrame::Close(error_reply(&error)),
    };
    if !serves {
        return ClientFrame::Close(refusal("TRYAGAIN joining node is not active"));
    }
    match parse_command(value) {
        Ok(command) => ClientFrame::Command { used, command },
        Err(error) => {
            if transaction.is_some() {
                *transaction = Some(ClientTransaction::Dirty);
            }
            ClientFrame::Answer { used, reply: error_reply(&error) }
        },
    }
}

/// A node that does not serve lets no command through.
pub proof fn law_inactive_nodes_run_nothing(buffer: Seq<u8>, transaction: Option<TransactionView>)
    ensures
        !(frame_of(buffer, false, transaction).0 is Command),
        frame_of(buffer, false, transaction).1 == transaction,
{
}

/// What came of handing an input to the engine.
#[derive(Clone, Copy, Debug, PartialEq, Eq, Structural)]
pub enum Delivery {
    /// The engine took it.
    Taken,
    /// The engine waits for the disk.
    PersistencePending,
    /// The engine failed.
    Failed,
}

/// What a host does next with an input.
#[derive(Clone, Copy, Debug, PartialEq, Eq, Structural)]
pub enum TransitionStep {
    /// Nothing: it stops.
    Drop,
    /// It records the transition and performs its effects.
    Perform,
    /// It queues the input behind the disk.
    Enqueue,
    /// It closes its recording and fails.
    Fail,
}

/// What a host does next with an input. Nothing passes the engine while it waits
/// for the disk.
pub open spec fn next_transition(stopping: bool, delivery: Delivery) -> TransitionStep {
    if stopping {
        TransitionStep::Drop
    } else {
        match delivery {
            Delivery::Taken => TransitionStep::Perform,
            Delivery::PersistencePending => TransitionStep::Enqueue,
            Delivery::Failed => TransitionStep::Fail,
        }
    }
}

/// Decides what a host does next with an input.
pub fn transition(stopping: bool, delivery: Delivery) -> (step: TransitionStep)
    ensures
        step == next_transition(stopping, delivery),
{
    if stopping {
        return TransitionStep::Drop;
    }
    match delivery {
        Delivery::Taken => TransitionStep::Perform,
        Delivery::PersistencePending => TransitionStep::Enqueue,
        Delivery::Failed => TransitionStep::Fail,
    }
}

/// How the engine dealt with a submission.
#[derive(Debug)]
pub enum Submitted {
    /// The engine answered in time, and the answer reads as a reply.
    Reply(KvReply),
    /// Another node leads, if any does.
    NotLeader(Option<(u64, String)>),
    FeatureDisabled,
    /// The engine failed, for some reason.
    Failed(String),
    /// Nothing came in time.
    Silence,
    /// The answer cannot be read, or none can come any more.
    Unreadable,
}

/// Where a client is sent when nobody is known to lead.
pub open spec fn leader_hint(leader: Option<(u64, Seq<char>)>) -> (u64, Seq<char>) {
    match leader {
        Some(known) => known,
        None => (0, "unknown"@),
    }
}

/// Whether a submission ended as the engine dealt with it.
pub open spec fn submission_is(result: Result<KvReply, SubmitFailure>, submitted: Submitted) -> bool {
    match submitted {
        Submitted::Reply(reply) => result == Ok::<KvReply, SubmitFailure>(reply),
        Submitted::NotLeader(known) => result matches Err(
            SubmitFailure::NotLeader { leader, address },
        ) && (leader, address@) == leader_hint(
            match known {
                Some(known) => Some((known.0, known.1@)),
                None => None,
            },
        ),
        Submitted::FeatureDisabled => result == Err::<KvReply, SubmitFailure>(
            SubmitFailure::FeatureDisabled,
        ),
        Submitted::Failed(reason) => result == Err::<KvReply, SubmitFailure>(
            SubmitFailure::Host(reason),
        ),
        Submitted::Silence => result == Err::<KvReply, SubmitFailure>(SubmitFailure::Timeout),
        Submitted::Unreadable => result == Err::<KvReply, SubmitFailure>(
            SubmitFailure::InvalidReply,
        ),
    }
}

/// Tells a reply from a failed submission.
pub fn submit(submitted: Submitted) -> (result: Result<KvReply, SubmitFailure>)
    ensures
        submission_is(result, submitted),
{
    match submitted {
        Submitted::Reply(reply) => Ok(reply),
        Submitted::NotLeader(Some(known)) => Err(
            SubmitFailure::NotLeader { leader: known.0, address: known.1 },
        ),
        Submitted::NotLeader(None) => Err(
            SubmitFailure::NotLeader { leader: 0, address: "unknown".to_owned() },
        ),
        Submitted::FeatureDisabled => Err(SubmitFailure::FeatureDisabled),
        Submitted::Failed(reason) => Err(SubmitFailure::Host(reason)),
        Submitted::Silence => Err(SubmitFailure::Timeout),
        Submitted::Unreadable => Err(SubmitFailure::InvalidReply),
    }
}

} // verus!
