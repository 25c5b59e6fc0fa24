//! What holds of every transition of a Raft node.
use vstd::prelude::*;

use crate::envelope::{envelope_of, law_envelope_reads_back};
use crate::ids::{LogIndex, NodeId, Term, Time};
use crate::membership::{
    EnvelopeView, MembershipView, OperationView, TransferResult, ATOMIC_BATCH_FEATURE,
};
use crate::raft_model::{more_than_half, Absorbed, NodeView, RosterView};
use crate::raft_types::{
    config_kind, AppendResponse, AppendView, EffectView, EntryKind, EntryView, HardState, KindView,
    MessageView, Role, TimerKind,
};

verus! {

/// What no transition undoes: terms, votes, commitment and application only
/// move on, and what is committed stays as it is.
pub open spec fn progresses(before: NodeView, after: NodeView) -> bool {
    &&& after.id == before.id
    &&& after.config == before.config
    &&& after.snapshot_index == before.snapshot_index
    &&& after.snapshot_term == before.snapshot_term
    &&& after.base == before.base
    &&& before.hard_state.term.0 <= after.hard_state.term.0
    &&& after.hard_state.term == before.hard_state.term ==> (before.hard_state.voted_for is Some
        ==> after.hard_state.voted_for == before.hard_state.voted_for)
    &&& before.commit_index.0 <= after.commit_index.0
    &&& before.applied_index.0 <= after.applied_index.0
    &&& keeps_committed(before, after)
}

/// Every committed entry that `before` retains stands in `after` as it is.
pub open spec fn keeps_committed(before: NodeView, after: NodeView) -> bool {
    &&& before.commit_index.0 - before.snapshot_index.0 <= after.log.len()
    &&& forall|i: int|
        0 <= i < before.commit_index.0 - before.snapshot_index.0 ==> #[trigger] after.log[i]
            == before.log[i]
}

pub proof fn lemma_progress_chain(a: NodeView, b: NodeView, c: NodeView)
    requires
        a.inv(),
        progresses(a, b),
        progresses(b, c),
    ensures
        progresses(a, c),
{
    assert forall|i: int| 0 <= i < a.commit_index.0 - a.snapshot_index.0 implies #[trigger] c.log[i]
        == a.log[i] by {
        assert(b.log[i] == a.log[i]);
    }
}

/// The configuration half of a state may move freely.
pub open spec fn same_but_roster(before: NodeView, after: NodeView) -> bool {
    &&& after.id == before.id
    &&& after.config == before.config
    &&& after.hard_state == before.hard_state
    &&& after.snapshot_index == before.snapshot_index
    &&& after.snapshot_term == before.snapshot_term
    &&& after.base == before.base
    &&& after.commit_index == before.commit_index
    &&& after.applied_index == before.applied_index
    &&& after.log == before.log
    &&& after.transfer == before.transfer
    &&& after.next_snapshot_transfer_id == before.next_snapshot_transfer_id
}

proof fn lemma_replayed(node: NodeView, log: Seq<EntryView>, i: int)
    ensures
        same_but_roster(node, node.replayed_from(log, i)),
    decreases log.len() - i,
{
    if i < 0 || i >= log.len() {
    } else if !config_kind(log[i].kind) {
        lemma_replayed(node, log, i + 1);
    } else {
        match envelope_of(log[i].payload) {
            None => {},
            Some(envelope) => {
                lemma_replayed(
                    node.replayed_one(envelope.operation, log[i].index),
                    log,
                    i + 1,
                );
            },
        }
    }
}

pub proof fn lemma_rebuilt(node: NodeView)
    ensures
        same_but_roster(node, node.rebuilt()),
        node.inv() ==> node.rebuilt().inv(),
{
    reveal(NodeView::rebuilt);
    lemma_replayed(
        NodeView { roster: node.base, retiring_peers: Map::empty(), ..node },
        node.log,
        0,
    );
}

pub proof fn lemma_configured(node: NodeView, entry: EntryView)
    ensures
        node.configured(entry) matches Ok(next) ==> same_but_roster(node, next) && (node.inv()
            ==> next.inv()),
{
    reveal(NodeView::configured);
}

proof fn lemma_applied(node: NodeView)
    requires
        node.inv(),
    ensures
        progresses(node, node.applied().0),
        node.applied().0.inv(),
        node.applied().0.log == node.log,
        node.applied().0.roster == node.roster,
        node.applied().0.hard_state == node.hard_state,
        node.applied().0.role == node.role,
        node.applied().0.applied_index == node.commit_index,
        node.applied().0.commit_index == node.commit_index,
{
    reveal(NodeView::applied);
}

pub proof fn lemma_commit_target(node: NodeView, upto: int)
    requires
        node.commit_index.0 <= upto,
    ensures
        node.commit_index.0 <= node.commit_target(upto) <= upto,
        node.commit_target(upto) > node.commit_index.0 ==> node.committable(
            node.commit_target(upto),
        ),
        forall|index: int|
            node.commit_target(upto) < index <= upto ==> !#[trigger] node.committable(index),
    decreases upto,
{
    if upto > node.commit_index.0 && !node.committable(upto) {
        lemma_commit_target(node, upto - 1);
    }
}

proof fn lemma_advanced(node: NodeView)
    requires
        node.inv(),
    ensures
        progresses(node, node.advanced().0),
        node.advanced().0.inv(),
        node.advanced().0.log == node.log,
        node.advanced().0.roster == node.roster,
        node.advanced().0.hard_state == node.hard_state,
        node.advanced().0.role == node.role,
        node.advanced().0.transfer == node.transfer,
{
    reveal(NodeView::advanced);
    reveal(NodeView::applied);
    let last = node.last_index().0 as int;
    lemma_commit_target(node, last);
    let target = node.commit_target(last);
    if target > node.commit_index.0 {
        lemma_applied(NodeView { commit_index: LogIndex(target as u64), ..node });
    }
}

pub proof fn lemma_pushed(node: NodeView, entry: EntryView)
    requires
        node.inv(),
        node.snapshot_index.0 + node.log.len() < u64::MAX - 1,
        entry.index.0 == node.last_index().0 + 1,
    ensures
        ({
            let next = NodeView { log: node.log.push(entry), ..node };
            progresses(node, next) && next.inv()
        }),
{
}

proof fn lemma_config_appended(node: NodeView, envelope: EnvelopeView)
    requires
        node.inv(),
        node.snapshot_index.0 + node.log.len() < u64::MAX - 1,
    ensures
        node.config_appended(envelope) matches Ok(step) ==> progresses(node, step.0)
            && step.0.inv() && step.0.hard_state == node.hard_state && step.0.commit_index
            == node.commit_index,
{
    reveal(NodeView::config_appended);
    let entry = node.config_entry(envelope);
    lemma_configured(node, entry);
    if let Ok(projected) = node.configured(entry) {
        lemma_pushed(projected, entry);
    }
}

proof fn lemma_transfer_finished(node: NodeView, result: TransferResult, at: Time)
    requires
        node.inv(),
        node.snapshot_index.0 + node.log.len() < u64::MAX - 1,
    ensures
        node.transfer_finished(result, at) matches Ok(step) ==> progresses(node, step.0)
            && step.0.inv() && step.0.hard_state == node.hard_state && step.0.commit_index
            == node.commit_index,
{
    reveal(NodeView::transfer_finished);
    if let Some(transfer) = node.transfer {
        let marked = NodeView {
            transfer: Some(
                crate::raft_model::LeadershipTransfer { finishing: true, ..transfer },
            ),
            ..node
        };
        lemma_config_appended(
            marked,
            EnvelopeView {
                admin_session: transfer.admin_session,
                leader_time: at,
                operation: OperationView::FinishLeaderTransfer {
                    intent_index: transfer.intent_index,
                    result,
                },
            },
        );
    }
}

proof fn lemma_resumed(node: NodeView)
    requires
        node.inv(),
        node.snapshot_index.0 + node.log.len() < u64::MAX - 1,
    ensures
        progresses(node, node.resumed().0),
        node.resumed().0.inv(),
        node.resumed().0.hard_state == node.hard_state,
{
    reveal(NodeView::resumed);
    if let Some(enter) = node.resumable_enter() {
        lemma_config_appended(
            node,
            EnvelopeView {
                admin_session: enter.admin_session,
                leader_time: enter.leader_time,
                operation: OperationView::LeaveJoint {
                    enter_index: node.roster.joint_enter_index->0,
                },
            },
        );
    }
    if let Some(transfer) = node.transfer {
        lemma_transfer_finished(
            node,
            if node.id == transfer.target {
                TransferResult::Success
            } else {
                TransferResult::Superseded
            },
            transfer.deadline,
        );
    }
}

proof fn lemma_became_leader(node: NodeView)
    requires
        node.inv(),
        node.snapshot_index.0 + node.log.len() < u64::MAX - 3,
    ensures
        progresses(node, node.became_leader().0),
        node.became_leader().0.inv(),
        node.became_leader().0.hard_state == node.hard_state,
{
    reveal(NodeView::became_leader);
    let won = node.elected();
    assert(progresses(node, won) && won.inv());
    lemma_advanced(won);
    lemma_resumed(won.advanced().0);
    lemma_progress_chain(node, won, won.advanced().0);
    lemma_progress_chain(node, won.advanced().0, node.became_leader().0);
}

proof fn lemma_election_started(node: NodeView)
    requires
        node.inv(),
        node.headroom(),
    ensures
        progresses(node, node.election_started().0),
        node.election_started().0.inv(),
{
    reveal(NodeView::election_started);
    if node.voting() {
        let next = node.candidate();
        assert(progresses(node, next) && next.inv());
        if next.roster.quorum(next.votes) {
            lemma_became_leader(next);
            lemma_progress_chain(node, next, next.became_leader().0);
        }
    }
}

proof fn lemma_pre_vote_started(node: NodeView, now: Time)
    requires
        node.inv(),
        node.headroom(),
    ensures
        progresses(node, node.pre_vote_started(now).0),
        node.pre_vote_started(now).0.inv(),
{
    reveal(NodeView::pre_vote_started);
    if node.voting() {
        let next = NodeView {
            role: Role::Candidate,
            pre_votes: set![node.id],
            votes: Set::empty(),
            ..node
        }.election_reset(now);
        assert(progresses(node, next) && next.inv());
        if next.roster.quorum(next.pre_votes) {
            lemma_election_started(next);
            lemma_progress_chain(node, next, next.election_started().0);
        }
    }
}

pub proof fn lemma_truncated(node: NodeView, index: LogIndex)
    requires
        node.inv(),
        node.holds(index),
        index.0 > node.commit_index.0,
    ensures
        progresses(node, node.truncated(index)),
        node.truncated(index).inv(),
        node.truncated(index).log.len() <= node.log.len(),
{
    let cut = NodeView {
        log: node.log.subrange(0, index.0 - node.snapshot_index.0 - 1),
        ..node
    };
    assert(progresses(node, cut) && cut.inv());
    lemma_rebuilt(cut);
}

spec fn absorbed_state(absorbed: Absorbed) -> NodeView {
    match absorbed {
        Absorbed::Done { state, .. } => state,
        Absorbed::Stopped { state, .. } => state,
    }
}

proof fn lemma_absorbed(
    node: NodeView,
    from: NodeId,
    request: AppendView,
    i: int,
    effects: Seq<EffectView>,
    appended: Seq<EntryView>,
)
    requires
        node.inv(),
        0 <= i <= request.entries.len(),
        node.snapshot_index.0 + node.log.len() + (request.entries.len() - i) < u64::MAX - 3,
    ensures
        ({
            let next = absorbed_state(node.absorbed(from, request, i, effects, appended));
            &&& progresses(node, next)
            &&& next.inv()
            &&& next.hard_state == node.hard_state
            &&& next.commit_index == node.commit_index
        }),
    decreases request.entries.len() - i,
{
    if i < request.entries.len() {
        let entry = request.entries[i];
        let held = node.holds(entry.index);
        if held && node.entry(entry.index).term == entry.term {
            lemma_absorbed(node, from, request, i + 1, effects, appended);
        } else if held && entry.index.0 <= node.commit_index.0 {
        } else {
            let state = if held {
                node.truncated(entry.index)
            } else {
                node
            };
            let so_far = if held {
                effects.push(EffectView::TruncateSuffix(entry.index))
            } else {
                effects
            };
            if held {
                lemma_truncated(node, entry.index);
                lemma_rebuilt(
                    NodeView {
                        log: node.log.subrange(0, entry.index.0 - node.snapshot_index.0 - 1),
                        ..node
                    },
                );
            }
            assert(progresses(node, state) && state.inv());
            if entry.index.0 == state.last_index().0 + 1 {
                if !config_kind(entry.kind) {
                    let next = NodeView { log: state.log.push(entry), ..state };
                    lemma_pushed(state, entry);
                    lemma_absorbed(next, from, request, i + 1, so_far, appended.push(entry));
                    lemma_progress_chain(node, state, next);
                    lemma_progress_chain(
                        node,
                        next,
                        absorbed_state(
                            next.absorbed(from, request, i + 1, so_far, appended.push(entry)),
                        ),
                    );
                } else {
                    lemma_configured(state, entry);
                    if let Ok(projected) = state.configured(entry) {
                        let next = NodeView { log: projected.log.push(entry), ..projected };
                        lemma_pushed(projected, entry);
                        lemma_absorbed(next, from, request, i + 1, so_far, appended.push(entry));
                        lemma_progress_chain(node, state, next);
                        lemma_progress_chain(
                            node,
                            next,
                            absorbed_state(
                                next.absorbed(
                                    from,
                                    request,
                                    i + 1,
                                    so_far,
                                    appended.push(entry),
                                ),
                            ),
                        );
                    }
                }
            }
        }
    }
}

pub proof fn lemma_append_asked(
    node: NodeView,
    from: NodeId,
    term: Term,
    request: AppendView,
    now: Time,
)
    requires
        node.inv(),
        node.snapshot_index.0 + node.log.len() + request.entries.len() < u64::MAX - 3,
    ensures
        progresses(node, node.append_asked(from, term, request, now).0),
        node.append_asked(from, term, request, now).0.inv(),
        node.append_asked(from, term, request, now).0.hard_state == node.hard_state,
{
    reveal(NodeView::append_asked);
    if term.0 >= node.hard_state.term.0 {
        let state = NodeView {
            role: node.resting_role(),
            leader_id: Some(from),
            ..node
        }.election_reset(now);
        assert(progresses(node, state) && state.inv());
        if state.term_at(request.prev_index) == Some(request.prev_term) {
            lemma_absorbed(state, from, request, 0, Seq::empty(), Seq::empty());
            let absorbed = state.absorbed(from, request, 0, Seq::empty(), Seq::empty());
            lemma_progress_chain(node, state, absorbed_state(absorbed));
            if let Absorbed::Done { state: done, effects, appended } = absorbed {
                if request.leader_commit.0 > done.commit_index.0 {
                    let moved = NodeView {
                        commit_index: LogIndex(
                            crate::raft_model::smaller(
                                request.leader_commit.0,
                                done.last_index().0,
                            ),
                        ),
                        ..done
                    };
                    lemma_applied(moved);
                    assert(progresses(done, moved));
                    lemma_progress_chain(node, done, moved);
                    lemma_progress_chain(node, moved, moved.applied().0);
                }
            }
        }
    }
}

proof fn lemma_answered(node: NodeView, peer: NodeId, response: AppendResponse)
    requires
        node.inv(),
        response.match_index.0 < u64::MAX,
    ensures
        progresses(node, node.answered(peer, response).0),
        node.answered(peer, response).0.inv(),
        node.answered(peer, response).0.hard_state == node.hard_state,
{
    reveal(NodeView::answered);
    if response.success {
        let matched = node.matched(peer, response.match_index);
        assert(progresses(node, matched) && matched.inv());
        lemma_advanced(matched);
        lemma_progress_chain(node, matched, matched.advanced().0);
    }
}

proof fn lemma_append_answered(
    node: NodeView,
    from: NodeId,
    term: Term,
    response: AppendResponse,
    now: Time,
)
    requires
        node.inv(),
        response.match_index.0 < u64::MAX,
    ensures
        progresses(node, node.append_answered(from, term, response, now).0),
        node.append_answered(from, term, response, now).0.inv(),
        node.append_answered(from, term, response, now).0.hard_state == node.hard_state,
{
    reveal(NodeView::append_answered);
    let heard = NodeView { last_contact: node.last_contact.insert(from, now), ..node };
    assert(progresses(node, heard) && heard.inv());
    lemma_answered(node, from, response);
    lemma_answered(heard, from, response);
    lemma_progress_chain(node, heard, heard.answered(from, response).0);
}

proof fn lemma_taken(node: NodeView, message: MessageView, now: Time)
    requires
        node.inv(),
        node.headroom(),
        node.message_fits(message),
    ensures
        progresses(node, node.taken(message, now).0),
        node.taken(message, now).0.inv(),
{
    reveal(NodeView::taken);
    match message.kind {
        KindView::PreVoteResp { granted } => {
            let counted = NodeView { pre_votes: node.pre_votes.insert(message.from), ..node };
            assert(progresses(node, counted) && counted.inv());
            lemma_election_started(counted);
            lemma_progress_chain(node, counted, counted.election_started().0);
        },
        KindView::VoteResp { granted } => {
            let counted = NodeView { votes: node.votes.insert(message.from), ..node };
            assert(progresses(node, counted) && counted.inv());
            lemma_became_leader(counted);
            lemma_progress_chain(node, counted, counted.became_leader().0);
        },
        KindView::AppendReq(request) => {
            lemma_append_asked(node, message.from, message.term, request, now);
        },
        KindView::AppendResp(response) => {
            lemma_append_answered(node, message.from, message.term, response, now);
        },
        KindView::TimeoutNow { intent_index } => {
            lemma_election_started(node);
        },
        _ => {},
    }
}

/// A message never takes a node back: its term does not fall, its vote in a
/// term does not change, its commit and applied indexes do not fall, and no
/// committed entry is lost or replaced. The node's invariant holds on.
pub proof fn law_messages_never_undo(node: NodeView, message: MessageView, now: Time)
    requires
        node.inv(),
        node.headroom(),
        node.message_fits(message),
    ensures
        progresses(node, node.received(message, now).0),
        node.received(message, now).0.inv(),
{
    reveal(NodeView::received);
    lemma_taken(node, message, now);
    if node.adopts_term(message) {
        let adopted = node.term_adopted(message.term);
        assert(progresses(node, adopted) && adopted.inv());
        lemma_taken(adopted, message, now);
        lemma_progress_chain(node, adopted, adopted.taken(message, now).0);
    }
}

proof fn lemma_beat(node: NodeView, now: Time)
    requires
        node.inv(),
        node.headroom(),
    ensures
        progresses(node, node.beat(now).0),
        node.beat(now).0.inv(),
{
    reveal(NodeView::beat);
    lemma_pre_vote_started(node, now);
}

/// Time never takes a node back.
pub proof fn law_time_never_undoes(node: NodeView, now: Time, timer: TimerKind)
    requires
        node.inv(),
        node.headroom(),
    ensures
        progresses(node, node.ticked(now).0),
        node.ticked(now).0.inv(),
        progresses(node, node.timer_fired(now, timer).0),
        node.timer_fired(now, timer).0.inv(),
{
    reveal(NodeView::ticked);
    lemma_transfer_finished(node, TransferResult::Timeout, now);
    lemma_pre_vote_started(node, now);
    let restarted = node.quorum_restarted(now);
    assert(progresses(node, restarted) && restarted.inv());
    lemma_beat(restarted, now);
    lemma_beat(node, now);
    lemma_progress_chain(node, restarted, restarted.beat(now).0);
}

proof fn lemma_offered(node: NodeView, entry: EntryView)
    requires
        node.inv(),
        node.snapshot_index.0 + node.log.len() < u64::MAX - 1,
        entry.index.0 == node.last_index().0 + 1,
    ensures
        progresses(node, node.entry_offered(entry).0),
        node.entry_offered(entry).0.inv(),
{
    reveal(NodeView::entry_offered);
    let next = NodeView { log: node.log.push(entry), ..node };
    lemma_pushed(node, entry);
    lemma_advanced(next);
    lemma_progress_chain(node, next, next.advanced().0);
}

/// A proposal never takes a node back, and one that is refused is told why
/// without any change: the outcome is an error exactly then.
pub proof fn law_proposals_never_undo(node: NodeView, payload: Seq<u8>, kind: EntryKind)
    requires
        node.inv(),
        node.headroom(),
    ensures
        node.proposed(payload, kind) matches Ok(step) ==> progresses(node, step.0)
            && step.0.inv() && step.0.hard_state == node.hard_state,
        node.proposed(payload, kind) is Ok <==> node.role is Leader && node.transfer is None
            && !node.pipeline_full(),
{
    let entry = EntryView {
        term: node.hard_state.term,
        index: LogIndex((node.last_index().0 + 1) as u64),
        kind,
        payload,
    };
    lemma_offered(node, entry);
    reveal(NodeView::entry_offered);
    lemma_advanced(NodeView { log: node.log.push(entry), ..node });
}

/// A change of configuration never takes a node back.
pub proof fn law_configuration_never_undoes(node: NodeView, envelope: EnvelopeView)
    requires
        node.inv(),
        node.headroom(),
    ensures
        node.admin_proposed(envelope) matches Ok(step) ==> progresses(node, step.0)
            && step.0.inv(),
{
    lemma_config_appended(node, envelope);
}

/// A commit index moves by counting only to an entry of the current term that
/// a quorum holds; in a joint configuration that is a majority of both sides.
pub proof fn law_commit_needs_quorum_and_current_term(node: NodeView)
    requires
        node.inv(),
    ensures
        ({
            let after = node.advanced().0;
            let index = after.commit_index;
            &&& index.0 > node.commit_index.0 ==> {
                &&& node.term_at(index) == Some(node.hard_state.term)
                &&& node.roster.quorum(node.replicated(index.0 as int))
            }
            &&& after.applied_index == if index.0 > node.commit_index.0 {
                index
            } else {
                node.applied_index
            }
            &&& forall|later: int|
                index.0 < later <= node.last_index().0 ==> !#[trigger] node.committable(later)
        }),
{
    reveal(NodeView::advanced);
    reveal(NodeView::applied);
    lemma_commit_target(node, node.last_index().0 as int);
}

pub proof fn lemma_halves_meet(a: Set<NodeId>, b: Set<NodeId>, members: Set<NodeId>)
    requires
        members.finite(),
        more_than_half(a, members),
        more_than_half(b, members),
    ensures
        exists|id: NodeId| #[trigger] members.contains(id) && a.contains(id) && b.contains(id),
{
    let x = a.intersect(members);
    let y = b.intersect(members);
    if forall|id: NodeId| #[trigger] members.contains(id) ==> !(a.contains(id) && b.contains(id)) {
        assert(x.disjoint(y)) by {
            assert forall|id: NodeId| x.contains(id) implies !y.contains(id) by {
                assert(members.contains(id));
            }
        }
        vstd::set_lib::lemma_len_intersect::<NodeId>(members, a);
        vstd::set_lib::lemma_len_intersect::<NodeId>(members, b);
        assert(x =~= members.intersect(a));
        assert(y =~= members.intersect(b));
        vstd::set_lib::lemma_set_disjoint_lens(x, y);
        assert((x + y).subset_of(members));
        vstd::set_lib::lemma_len_subset(x + y, members);
        assert(false);
    }
}

/// Two deciding sets of one configuration share a voter, so that no two
/// leaders are elected, and no two entries committed, by separate halves.
pub proof fn law_quorums_meet(roster: RosterView, a: Set<NodeId>, b: Set<NodeId>)
    requires
        roster.quorum(a),
        roster.quorum(b),
        roster.voters.finite(),
        roster.joint matches Some(sides) ==> sides.0.finite() && sides.1.finite(),
    ensures
        match roster.joint {
            None => exists|id: NodeId| #[trigger]
                roster.voters.contains(id) && a.contains(id) && b.contains(id),
            Some(sides) => {
                &&& exists|id: NodeId| #[trigger]
                    sides.0.contains(id) && a.contains(id) && b.contains(id)
                &&& exists|id: NodeId| #[trigger]
                    sides.1.contains(id) && a.contains(id) && b.contains(id)
            },
        },
{
    match roster.joint {
        None => lemma_halves_meet(a, b, roster.voters),
        Some(sides) => {
            lemma_halves_meet(a, b, sides.0);
            lemma_halves_meet(a, b, sides.1);
        },
    }
}

/// Entering a joint configuration keeps every deciding set of the old voters
/// in touch with every deciding set of the joint one, and leaving it does the
/// same for the new voters.
pub proof fn law_joint_bridges_both_sides(
    roster: RosterView,
    new_voters: Set<NodeId>,
    index: LogIndex,
    alone: Set<NodeId>,
    joint: Set<NodeId>,
)
    requires
        roster.joint is None,
        roster.voters.finite(),
        new_voters.finite(),
        roster.entered(new_voters, index).quorum(joint),
    ensures
        more_than_half(alone, roster.voters) ==> exists|id: NodeId| #[trigger]
            roster.voters.contains(id) && alone.contains(id) && joint.contains(id),
        more_than_half(alone, new_voters) ==> exists|id: NodeId| #[trigger]
            new_voters.contains(id) && alone.contains(id) && joint.contains(id),
{
    if more_than_half(alone, roster.voters) {
        lemma_halves_meet(alone, joint, roster.voters);
    }
    if more_than_half(alone, new_voters) {
        lemma_halves_meet(alone, joint, new_voters);
    }
}

/// A learner is counted in no quorum: adding learners to a set of
/// acknowledgements changes no decision.
pub proof fn law_learners_never_count(roster: RosterView, acks: Set<NodeId>, learner: NodeId)
    requires
        !roster.voters.contains(learner),
        roster.joint matches Some(sides) ==> !sides.0.contains(learner) && !sides.1.contains(
            learner,
        ),
    ensures
        roster.quorum(acks.insert(learner)) == roster.quorum(acks),
{
    assert(acks.insert(learner).intersect(roster.voters) =~= acks.intersect(roster.voters));
    if let Some(sides) = roster.joint {
        assert(acks.insert(learner).intersect(sides.0) =~= acks.intersect(sides.0));
        assert(acks.insert(learner).intersect(sides.1) =~= acks.intersect(sides.1));
    }
}

/// A node that is no voter never moves the cluster's term and asks nobody for
/// a vote, however often its election timer fires.
pub proof fn law_nonvoters_never_campaign(node: NodeView, now: Time)
    requires
        !node.voting(),
        node.role !is Leader,
    ensures
        ({
            let step = node.timer_fired(now, TimerKind::Election);
            &&& step.0.hard_state == node.hard_state
            &&& step.0.role is Learner
            &&& step.1 == Seq::<EffectView>::empty()
        }),
        node.election_started().0.hard_state == node.hard_state,
        node.election_started().1 == Seq::<EffectView>::empty(),
{
    reveal(NodeView::pre_vote_started);
    reveal(NodeView::election_started);
}

/// A vote is persisted before it is sent: a granted answer stands behind the
/// hard state that records it.
pub proof fn law_votes_are_persisted_first(
    node: NodeView,
    message: MessageView,
    last_index: LogIndex,
    last_term: Term,
    now: Time,
)
    ensures
        ({
            let step = node.vote_asked(message, last_index, last_term, now);
            if node.grants_vote(message, last_index, last_term) {
                &&& step.1.len() == 2
                &&& step.1[0] == EffectView::PersistHard(step.0.hard_state)
                &&& step.0.hard_state.voted_for == Some(message.from)
                &&& step.1[1] == node.message(message.from, KindView::VoteResp { granted: true })
            } else {
                &&& step.0 == node
                &&& step.1 == seq![
                    node.message(message.from, KindView::VoteResp { granted: false }),
                ]
            }
        }),
{
    let step = node.vote_asked(message, last_index, last_term, now);
    if !node.grants_vote(message, last_index, last_term) {
        assert(step.1 =~= seq![node.message(message.from, KindView::VoteResp { granted: false })]);
    }
}

/// A campaign is persisted before anything else it does, and what a leader
/// appends is persisted before it is applied or sent.
pub proof fn law_persistence_comes_first(node: NodeView, entry: EntryView)
    ensures
        node.voting() ==> {
            let step = node.election_started();
            step.1.len() > 0 && step.1[0] == EffectView::PersistHard(node.candidate().hard_state)
        },
        ({
            let step = node.became_leader();
            step.1.len() > 0 && step.1[0] == EffectView::PersistEntries(
                seq![node.elected().log.last()],
            )
        }),
        ({
            let step = node.entry_offered(entry);
            step.1.len() > 0 && step.1[0] == EffectView::PersistEntries(seq![entry])
        }),
{
    reveal(NodeView::election_started);
    reveal(NodeView::became_leader);
    reveal(NodeView::entry_offered);
}

/// A tally does not outlive its election: a node that adopts a later term
/// starts it without votes, without a leader and without a vote of its own.
pub proof fn law_tallies_end_with_their_term(node: NodeView, message: MessageView)
    requires
        node.adopts_term(message),
    ensures
        ({
            let adopted = node.term_adopted(message.term);
            &&& adopted.votes == Set::<NodeId>::empty()
            &&& adopted.pre_votes == Set::<NodeId>::empty()
            &&& adopted.leader_id is None
            &&& adopted.hard_state == (HardState { term: message.term, voted_for: None })
            &&& adopted.role !is Candidate && adopted.role !is Leader
        }),
{
}

/// A refusal elects nobody, and neither does a grant of another term.
pub proof fn law_only_current_grants_elect(node: NodeView, message: MessageView, now: Time)
    requires
        message.kind matches KindView::VoteResp { granted } && (!granted || message.term
            != node.hard_state.term),
    ensures
        node.taken(message, now) == (node, Seq::<EffectView>::empty()),
{
    reveal(NodeView::taken);
}

/// An answer of an older round is no evidence for a read: it neither counts
/// towards it nor, on its own, releases it.
pub proof fn law_stale_rounds_release_no_read(
    node: NodeView,
    peer: NodeId,
    read_round: u64,
)
    requires
        read_round != node.read_round,
    ensures
        node.read_counted(peer, read_round) == node,
{
}

/// A read is released only once a quorum has confirmed its round, and at the
/// commit index that was fixed when it was asked for.
pub proof fn law_reads_wait_for_a_quorum(node: NodeView)
    ensures
        ({
            let step = node.read_released();
            step.1.len() > 0 <==> node.read_index is Some && node.roster.quorum(node.read_acks)
        }),
        node.read_asked() matches Ok(step) ==> step.1.len() > 0 && step.1[0]
            == (EffectView::ReadBarrier { index: node.commit_index }) && (step.0.read_index
            is Some ==> step.0.read_index == Some(node.commit_index)),
        node.read_asked() is Ok ==> node.role is Leader && node.term_committed(),
{
}

/// Appending the activation of a feature does not activate it; applying the
/// entry does.
pub proof fn law_features_activate_on_application(node: NodeView, leader_time: Time)
    ensures
        node.activation_proposed(ATOMIC_BATCH_FEATURE, leader_time) matches Ok(step)
            ==> step.0.roster.active_features == node.roster.active_features,
        forall|entry: EntryView|
            config_kind(entry.kind) && (envelope_of(entry.payload) matches Some(envelope)
                && envelope.operation == (OperationView::ActivateFeature {
                feature: ATOMIC_BATCH_FEATURE,
            })) ==> (#[trigger] node.config_applied(entry) matches Ok(step)
                ==> step.0.roster.active_features == node.roster.active_features
                | ATOMIC_BATCH_FEATURE),
{
    reveal(NodeView::config_appended);
    reveal(NodeView::configured);
    reveal(NodeView::config_applied);
    law_envelope_reads_back(
        NodeView::anonymous(
            leader_time,
            OperationView::ActivateFeature { feature: ATOMIC_BATCH_FEATURE },
        ),
    );
}

/// Installing a snapshot never moves commitment or application back, keeps the
/// entries above it, is idempotent, and ignores one that is older.
pub proof fn law_snapshots_install_once(node: NodeView, index: LogIndex, term: Term)
    requires
        node.inv(),
        index.0 < u64::MAX,
    ensures
        ({
            let after = node.snapshot_installed(index, term);
            &&& after.inv()
            &&& node.commit_index.0 <= after.commit_index.0
            &&& node.applied_index.0 <= after.applied_index.0
            &&& after.snapshot_installed(index, term) == after
            &&& index.0 < node.snapshot_index.0 ==> after == node
            &&& forall|later: LogIndex|
                later.0 > index.0 && #[trigger] node.holds(later) ==> after.holds(later)
                    && after.entry(later) == node.entry(later)
        }),
{
    let after = node.snapshot_installed(index, term);
    let covered = index.0 - node.snapshot_index.0;
    if !(index.0 < node.snapshot_index.0 || (index == node.snapshot_index && term
        != node.snapshot_term)) {
        assert(after.snapshot_installed(index, term).log =~= after.log);
        assert forall|i: int| 0 <= i < after.log.len() implies (#[trigger] after.log[i]).index.0
            == after.snapshot_index.0 + 1 + i by {
            assert(node.log[covered + i].index.0 == node.snapshot_index.0 + 1 + covered + i);
        }
    }
}

/// Asking who could win binds nobody: a node that answers a pre-vote request
/// stays exactly as it was.
pub proof fn law_pre_votes_bind_nobody(node: NodeView, message: MessageView, now: Time)
    requires
        message.kind is PreVoteReq,
    ensures
        node.received(message, now).0 == node,
{
    reveal(NodeView::received);
    reveal(NodeView::taken);
}

/// Membership survives a snapshot: restoring what a node reports gives back
/// the voters, learners, joint configuration, addresses and features.
pub proof fn law_membership_restores(membership: MembershipView)
    requires
        membership.addresses.dom().subset_of(membership.voters.union(membership.learners)),
    ensures
        forall|node: NodeView| #[trigger]
            node.roster == NodeView::roster_of(membership) ==> node.membership() == membership,
{
    assert forall|node: NodeView| #[trigger]
        node.roster == NodeView::roster_of(membership) implies node.membership() == membership by {
        assert(node.membership().addresses =~= membership.addresses);
        assert(node.membership() =~= membership);
    }
}

} // verus!
