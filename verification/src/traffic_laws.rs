//! What becomes of bytes that arrive: requests of clients and frames of peers.
use vstd::prelude::*;
use vstd::string::*;

use crate::client::TransactionView;
use crate::codec::{encode_error, message_bytes};
use crate::codec_laws::law_message_reads_back;
use crate::command::command_from;
use crate::metrics::completed_transfer;
use crate::peers::{frame_allowed, frame_diagnostic, sent_step, NegotiatedPeer, SendOutcome};
use crate::prose::number_text;
use crate::raft_types::{KindView, MessageView};
use crate::resp::{encoded, parsed, RespError, RespView};
use crate::resp_laws::{
    framable, law_decided_frames_are_final, law_frame_is_within_input, law_parse_encode,
};
use crate::serving::{frame_of, FrameView};

verus! {

/// A whole request is run as soon as it is there, whatever stands behind it, and
/// the client goes on right behind it. One that is no command is answered with an
/// error, and spoils the transaction that is open.
pub proof fn law_whole_requests_are_taken(
    value: RespView,
    suffix: Seq<u8>,
    transaction: Option<TransactionView>,
)
    requires
        framable(value, 0),
        encoded(value).len() <= 4_194_304,
        encoded(value).len() + suffix.len() <= 2 * 4_194_304,
    ensures
        ({
            let (frame, after) = frame_of(encoded(value) + suffix, true, transaction);
            match command_from(value) {
                Ok(command) => frame == (FrameView::Command {
                    used: encoded(value).len() as int,
                    command,
                }) && after == transaction,
                Err(_) => frame matches FrameView::Answer { used, reply } && used == encoded(
                    value,
                ).len() && reply is Error && after == if transaction is Some {
                    Some(TransactionView::Dirty)
                } else {
                    None
                },
            }
        }),
{
    law_parse_encode(value, suffix);
}

/// A request of which anything is missing waits for the rest.
pub proof fn law_partial_requests_wait(
    value: RespView,
    n: int,
    serves: bool,
    transaction: Option<TransactionView>,
)
    requires
        framable(value, 0),
        encoded(value).len() <= 4_194_304,
        0 <= n < encoded(value).len(),
    ensures
        frame_of(encoded(value).take(n), serves, transaction) == (FrameView::Wait, transaction),
{
    let whole = encoded(value);
    let part = whole.take(n);
    law_parse_encode(value, Seq::empty());
    assert(whole + Seq::<u8>::empty() =~= whole);
    assert(part + whole.skip(n) =~= whole);
    if parsed(part) != Err::<(RespView, int), RespError>(RespError::Incomplete) {
        law_decided_frames_are_final(part, whole.skip(n));
        law_frame_is_within_input(part);
    }
}

/// A message crosses between two nodes exactly where both speak its version, and
/// use its feature where it is part of a read that a follower serves. Under the mark
/// of another version it does not cross.
pub proof fn law_messages_cross_where_both_understand(
    message: MessageView,
    marked: u16,
    negotiated: NegotiatedPeer,
)
    requires
        encode_error(message) is None,
    ensures
        frame_allowed(marked, message_bytes(message), negotiated) <==> {
            &&& marked == message.proto_version
            &&& message.proto_version == 2 || message.proto_version == 3
            &&& message.proto_version <= negotiated.semantic_version
            &&& (message.kind is FollowerReadRequest || message.kind is FollowerReadGrant)
                ==> negotiated.features & 1 != 0
        },
{
    law_message_reads_back(message);
}

/// A transfer ends with the chunk that says so, and with no other frame.
pub proof fn law_transfers_end_with_their_last_chunk(message: MessageView, transfer: u64)
    requires
        encode_error(message) is None,
    ensures
        completed_transfer(message_bytes(message)) == Some(transfer) <==> (message.kind matches
            KindView::SnapshotChunk { transfer_id, done, .. } && transfer_id == transfer && done),
{
    law_message_reads_back(message);
}

/// A frame that may not cross is an error, and one that was sent is done. One whose
/// connection broke is sent once more over another, and then given up.
pub proof fn law_broken_frames_are_sent_once_more(tries: u64)
    ensures
        sent_step(SendOutcome::Sent, tries) is Done,
        sent_step(SendOutcome::Refused, tries) is Fail,
        tries < 2 ==> sent_step(SendOutcome::Broken, tries) is Retry,
        tries >= 2 ==> sent_step(SendOutcome::Broken, tries) is GiveUp,
{
}

/// What is said of a frame that the engine could not take names its sender, its term and
/// its kind.
pub proof fn law_frames_are_named(message: MessageView)
    requires
        encode_error(message) is None,
    ensures
        frame_diagnostic(message_bytes(message)) == "from=n"@ + number_text(message.from.0 as nat)
            + " term="@ + number_text(message.term.0 as nat) + " kind="@ + (match message.kind {
            KindView::PreVoteReq { .. } => "PreVoteReq"@,
            KindView::PreVoteResp { .. } => "PreVoteResp"@,
            KindView::VoteReq { .. } => "VoteReq"@,
            KindView::VoteResp { .. } => "VoteResp"@,
            KindView::AppendReq(_) => "AppendReq"@,
            KindView::AppendResp(_) => "AppendResp"@,
            KindView::SnapshotChunk { .. } => "SnapshotChunk"@,
            KindView::SnapshotAck { .. } => "SnapshotAck"@,
            KindView::TimeoutNow { .. } => "TimeoutNow"@,
            KindView::FollowerReadRequest { .. } => "FollowerReadRequest"@,
            KindView::FollowerReadGrant { .. } => "FollowerReadGrant"@,
        }),
{
    law_message_reads_back(message);
}

} // verus!
