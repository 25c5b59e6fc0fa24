//! How snapshots travel: what becomes of the chunks that a leader sends, and of
//! the log of the node that they bring up to date.
use vstd::prelude::*;

use crate::ids::{LogIndex, Term, Time};
use crate::raft_membership::{chunks_from, law_chunks_carry_the_snapshot};
use crate::raft_model::{entries_upto, NodeView};
use crate::raft_types::{
    known_version, EffectView, EntryView, KindView, MessageView, SnapshotRejectReason,
};

verus! {

/// A snapshot that goes further than the one before stands for the log up to it:
/// what it covers is committed, applied and gone from the log, and what lies above
/// it stays, without a gap. Nothing else of the node changes.
pub proof fn law_snapshots_stand_for_the_log(node: NodeView, index: LogIndex, term: Term)
    requires
        node.inv(),
        node.snapshot_index.0 < index.0 < u64::MAX,
    ensures
        ({
            let after = node.snapshot_installed(index, term);
            &&& after.snapshot_index == index
            &&& after.snapshot_term == term
            &&& after.commit_index.0 == if node.commit_index.0 > index.0 {
                node.commit_index.0
            } else {
                index.0
            }
            &&& after.applied_index.0 == if node.applied_index.0 > index.0 {
                node.applied_index.0
            } else {
                index.0
            }
            &&& after.last_index().0 == if node.last_index().0 > index.0 {
                node.last_index().0
            } else {
                index.0
            }
            &&& after.term_at(index) == Some(term)
            &&& forall|i: LogIndex|
                #![trigger after.holds(i)]
                after.holds(i) <==> node.holds(i) && i.0 > index.0
            &&& after.hard_state == node.hard_state
            &&& after.role == node.role
            &&& after.leader_id == node.leader_id
            &&& after.roster == node.roster
            &&& after.match_index == node.match_index
            &&& after.next_index == node.next_index
        }),
{
    let after = node.snapshot_installed(index, term);
    let covered = index.0 - node.snapshot_index.0;
    if covered <= node.log.len() {
        assert(after.log.len() == node.log.len() - covered);
    }
}

/// A node that lacks a snapshot takes every chunk of it, and hands each to its host
/// as it came, whatever else it does. The leader is of the node's own term.
pub proof fn law_chunks_reach_the_host(
    leader: NodeView,
    follower: NodeView,
    index: LogIndex,
    term: Term,
    transfer_id: u64,
    bytes: Seq<u8>,
    k: int,
    now: Time,
)
    requires
        leader.hard_state.term == follower.hard_state.term,
        index.0 > follower.snapshot_index.0,
        index.0 >= follower.applied_index.0,
        transfer_id != 0,
        bytes.len() <= 67_108_864,
        0 <= k < chunks_from(leader, follower.id, index, term, transfer_id, bytes, 0).len(),
    ensures
        ({
            let chunk = chunks_from(leader, follower.id, index, term, transfer_id, bytes, 0)[k];
            follower.received(chunk, now) == (
                follower,
                seq![EffectView::ReceiveSnapshotChunk(chunk)],
            )
        }),
{
    reveal(NodeView::received);
    reveal(NodeView::taken);
    law_chunks_carry_the_snapshot(leader, follower.id, index, term, transfer_id, bytes);
}

/// Whether a node refuses a chunk to its sender for some reason.
pub open spec fn refuses_chunk(
    node: NodeView,
    message: MessageView,
    effect: EffectView,
    reason: SnapshotRejectReason,
) -> bool {
    &&& effect matches EffectView::Send(answer)
    &&& answer.from == node.id
    &&& answer.to == message.from
    &&& answer.term == node.hard_state.term
    &&& message.kind matches KindView::SnapshotChunk { transfer_id, .. }
    &&& answer.kind == KindView::SnapshotAck {
        transfer_id,
        next_offset: 0,
        accepted: false,
        reason: Some(reason),
    }
}

/// A chunk of a snapshot that a node is already past, or whose bytes do not fit the
/// whole that it claims to be part of, is refused to its sender and goes no further.
pub proof fn law_unusable_chunks_are_refused(node: NodeView, message: MessageView, now: Time)
    requires
        known_version(message.proto_version),
        message.term == node.hard_state.term,
        message.kind is SnapshotChunk,
    ensures
        ({
            let step = node.received(message, now);
            &&& step.0 == node
            &&& step.1.len() == 1
            &&& message.kind matches KindView::SnapshotChunk {
                transfer_id,
                last_included_index,
                last_included_term,
                total_len,
                offset,
                data,
                done,
                ..
            } && {
                let past = last_included_index.0 < node.snapshot_index.0 || last_included_index.0
                    < node.applied_index.0 || (last_included_index == node.snapshot_index
                    && last_included_term != node.snapshot_term);
                let end = offset + data.len();
                &&& past ==> refuses_chunk(node, message, step.1[0], SnapshotRejectReason::StaleTerm)
                &&& !past && end > u64::MAX ==> refuses_chunk(
                    node,
                    message,
                    step.1[0],
                    SnapshotRejectReason::TooLarge,
                )
                &&& !past && end <= u64::MAX && (end > total_len || (end == total_len && !done) || (end
                    < total_len && done) || data.len() == 0 || data.len() > 262_144
                    || transfer_id == 0 || total_len > 67_108_864) ==> refuses_chunk(
                    node,
                    message,
                    step.1[0],
                    SnapshotRejectReason::Corrupt,
                )
                &&& !past && end <= total_len && done == (end == total_len) && 0 < data.len()
                    <= 262_144 && transfer_id != 0 && total_len <= 67_108_864
                    ==> step.1[0] == EffectView::ReceiveSnapshotChunk(message)
            }
        }),
{
    reveal(NodeView::received);
    reveal(NodeView::taken);
}

/// The answer to a chunk reaches the host that sends the snapshot, and one that
/// accepts it shows that its sender is there.
pub proof fn law_answers_to_chunks_reach_the_host(node: NodeView, message: MessageView, now: Time)
    requires
        known_version(message.proto_version),
        message.term == node.hard_state.term,
        message.kind is SnapshotAck,
    ensures
        ({
            let step = node.received(message, now);
            &&& step.1.contains(EffectView::ReceiveSnapshotAck(message))
            &&& message.kind matches KindView::SnapshotAck { accepted, .. } && step.0.last_contact
                == if accepted {
                node.last_contact.insert(message.from, now)
            } else {
                node.last_contact
            }
            &&& step.0.log == node.log && step.0.hard_state == node.hard_state && step.0.role
                == node.role && step.0.commit_index == node.commit_index
        }),
{
    reveal(NodeView::received);
    reveal(NodeView::taken);
    let step = node.received(message, now);
    assert(step.1[0] == EffectView::ReceiveSnapshotAck(message));
}

proof fn lemma_front(log: Seq<EntryView>, base: int, n: int, index: LogIndex)
    requires
        0 <= n <= log.len(),
        base <= index.0,
        forall|i: int| 0 <= i < log.len() ==> (#[trigger] log[i]).index.0 == base + 1 + i,
    ensures
        entries_upto(log.take(n), index) == log.take(
            if index.0 - base < n {
                index.0 - base
            } else {
                n
            },
        ),
    decreases n,
{
    let front = log.take(n);
    if n == 0 {
        assert(entries_upto(front, index) =~= log.take(0));
    } else {
        lemma_front(log, base, n - 1, index);
        assert(front.drop_last() =~= log.take(n - 1));
        assert(front.last() == log[n - 1]);
        if log[n - 1].index.0 <= index.0 {
            assert(log.take(n - 1).push(log[n - 1]) =~= log.take(n));
        }
    }
}

/// A log that is cut at an index keeps what stands up to it, in order, and nothing above
/// it. What else the node knows stays.
pub proof fn law_cuts_keep_the_front(node: NodeView, index: LogIndex)
    requires
        node.inv(),
        node.snapshot_index.0 <= index.0,
    ensures
        ({
            let cut = node.cut_at(index);
            let kept = index.0 - node.snapshot_index.0;
            &&& cut.log == if kept < node.log.len() {
                node.log.take(kept)
            } else {
                node.log
            }
            &&& cut.roster == node.roster
            &&& cut.hard_state == node.hard_state
            &&& cut.snapshot_index == node.snapshot_index
        }),
{
    let n = node.log.len() as int;
    assert(node.log.take(n) =~= node.log);
    lemma_front(node.log, node.snapshot_index.0 as int, n, index);
}

} // verus!
