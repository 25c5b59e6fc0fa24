//! What holds of a whole cluster of Raft nodes, however its messages are
//! delayed, repeated or lost and however often its nodes restart.
use vstd::prelude::*;

use crate::envelope::{envelope_bytes, envelope_of};
use crate::ids::{LogIndex, NodeId, Term, Time};
use crate::membership::{EnvelopeView, OperationView, TransferResult};
use crate::node_set::ascending;
use crate::raft_durable::{last_written, law_votes_are_durable_before_messages};
use crate::raft_laws::{law_pre_votes_bind_nobody, lemma_halves_meet};
use crate::raft_model::{
    more_than_half, Absorbed, LeadershipTransfer, NodeView, RosterView, Step,
};
use crate::raft_types::{
    config_kind, AppendResponse, AppendView, EffectView, EntryKind, EntryView, KindView,
    MessageView, Role, TimerKind,
};

verus! {

/// Whether a message grants a vote.
pub open spec fn is_grant(message: MessageView) -> bool {
    message.kind == (KindView::VoteResp { granted: true })
}

/// Whether no message among some effects grants a vote.
pub open spec fn no_grants(effects: Seq<EffectView>) -> bool {
    forall|i: int|
        0 <= i < effects.len() ==> ((#[trigger] effects[i]) matches EffectView::Send(message)
            ==> !is_grant(message))
}

/// Whether a transition leaves elections alone: the term, the vote and the
/// tally stay, nobody is granted a vote, and leadership is not gained.
pub open spec fn calm(before: NodeView, step: Step) -> bool {
    &&& calm_state(before, step.0)
    &&& no_grants(step.1)
}

pub open spec fn calm_state(before: NodeView, after: NodeView) -> bool {
    &&& after.id == before.id
    &&& after.hard_state == before.hard_state
    &&& after.votes == before.votes
    &&& after.role is Leader ==> before.role is Leader
}

/// Whether a vote in the tally of a node is one that it has from its past, its
/// own, or the one that it has just been granted.
pub open spec fn vouched(
    before: NodeView,
    heard: Option<MessageView>,
    after: NodeView,
    voter: NodeId,
) -> bool {
    ||| after.hard_state.term == before.hard_state.term && before.votes.contains(voter)
    ||| voter == after.id && after.hard_state.voted_for == Some(after.id)
    ||| heard matches Some(message) && is_grant(message) && message.from == voter && message.term
        == after.hard_state.term
}

/// Whether a transition votes at most once in a term, counts only votes that
/// it has, leads only by a quorum of them, and grants only the vote that it
/// records.
pub open spec fn fair(before: NodeView, heard: Option<MessageView>, step: Step) -> bool {
    let after = step.0;
    &&& after.id == before.id
    &&& before.hard_state.term.0 <= after.hard_state.term.0
    &&& after.hard_state.term == before.hard_state.term && before.hard_state.voted_for is Some
        ==> after.hard_state.voted_for == before.hard_state.voted_for
    &&& forall|voter: NodeId| #[trigger]
        after.votes.contains(voter) ==> vouched(before, heard, after, voter)
    &&& after.role is Leader ==> (before.role is Leader && after.hard_state.term
        == before.hard_state.term) || before.roster.quorum(after.votes)
    &&& forall|i: int|
        0 <= i < step.1.len() ==> ((#[trigger] step.1[i]) matches EffectView::Send(message)
            ==> is_grant(message) ==> message.from == after.id && message.term
            == after.hard_state.term && after.hard_state.voted_for == Some(message.to))
}

proof fn lemma_joined(a: Seq<EffectView>, b: Seq<EffectView>)
    requires
        no_grants(a),
        no_grants(b),
    ensures
        no_grants(a + b),
{
    assert forall|i: int| 0 <= i < (a + b).len() implies ((#[trigger] (a
        + b)[i]) matches EffectView::Send(message) ==> !is_grant(message)) by {
        if i < a.len() {
            assert((a + b)[i] == a[i]);
        } else {
            assert((a + b)[i] == b[i - a.len()]);
        }
    }
}

proof fn lemma_pushed(a: Seq<EffectView>, effect: EffectView)
    requires
        no_grants(a),
        effect matches EffectView::Send(message) ==> !is_grant(message),
    ensures
        no_grants(a.push(effect)),
{
    assert forall|i: int| 0 <= i < a.push(effect).len() implies ((#[trigger] a.push(
        effect,
    )[i]) matches EffectView::Send(message) ==> !is_grant(message)) by {
        if i < a.len() {
            assert(a.push(effect)[i] == a[i]);
        }
    }
}

proof fn lemma_append_for(node: NodeView, peer: NodeId)
    ensures
        no_grants(seq![node.append_for(peer)]),
        node.append_for(peer) matches EffectView::Send(message) ==> !is_grant(message),
{
    reveal(NodeView::append_for);
}

proof fn lemma_appends(node: NodeView, peers: Seq<NodeId>)
    ensures
        no_grants(node.appends_for(peers)),
    decreases peers.len(),
{
    if peers.len() > 0 {
        lemma_appends(node, peers.drop_last());
        lemma_append_for(node, peers.last());
        lemma_pushed(node.appends_for(peers.drop_last()), node.append_for(peers.last()));
    }
}

proof fn lemma_broadcast(node: NodeView)
    ensures
        no_grants(node.broadcast()),
{
    reveal(NodeView::broadcast);
    let voters = node.appends_for(ascending(node.roster.voters));
    let learners = node.appends_for(ascending(node.roster.learners));
    let retiring = node.appends_for(ascending(node.retiring_peers.dom()));
    lemma_appends(node, ascending(node.roster.voters));
    lemma_appends(node, ascending(node.roster.learners));
    lemma_appends(node, ascending(node.retiring_peers.dom()));
    lemma_joined(voters, learners);
    lemma_joined(voters + learners, retiring);
}

proof fn lemma_requests(node: NodeView, peers: Seq<NodeId>, term: Term, kind: KindView)
    requires
        kind is PreVoteReq || kind is VoteReq,
    ensures
        no_grants(node.requests_for(peers, term, kind)),
    decreases peers.len(),
{
    if peers.len() > 0 {
        lemma_requests(node, peers.drop_last(), term, kind);
        if peers.last() != node.id {
            lemma_pushed(
                node.requests_for(peers.drop_last(), term, kind),
                node.requests_for(peers, term, kind).last(),
            );
        }
    }
}

proof fn lemma_advanced(node: NodeView)
    ensures
        calm(node, node.advanced()),
        node.advanced().0.role == node.role,
        node.advanced().0.roster == node.roster,
{
    reveal(NodeView::advanced);
    reveal(NodeView::applied);
}

proof fn lemma_replayed(node: NodeView, log: Seq<EntryView>, i: int)
    ensures
        calm_state(node, node.replayed_from(log, i)),
    decreases log.len() - i,
{
    if i < 0 || i >= log.len() {
    } else if !config_kind(log[i].kind) {
        lemma_replayed(node, log, i + 1);
    } else {
        match envelope_of(log[i].payload) {
            None => {},
            Some(envelope) => {
                lemma_replayed(node.replayed_one(envelope.operation, log[i].index), log, i + 1);
            },
        }
    }
}

proof fn lemma_rebuilt(node: NodeView)
    ensures
        calm_state(node, node.rebuilt()),
{
    reveal(NodeView::rebuilt);
    lemma_replayed(
        NodeView { roster: node.base, retiring_peers: Map::empty(), ..node },
        node.log,
        0,
    );
}

proof fn lemma_configured(node: NodeView, entry: EntryView)
    ensures
        node.configured(entry) matches Ok(next) ==> calm_state(node, next),
{
    reveal(NodeView::configured);
}

proof fn lemma_config_appended(node: NodeView, envelope: EnvelopeView)
    ensures
        node.config_appended(envelope) matches Ok(step) ==> calm(node, step),
{
    reveal(NodeView::config_appended);
    let leaving = node.leaving(envelope.operation);
    let entry = node.config_entry(envelope);
    lemma_configured(node, entry);
    if let Ok(projected) = node.configured(entry) {
        let next = NodeView {
            log: projected.log.push(entry),
            retiring_peers: projected.retired(leaving, entry.index),
            ..projected
        };
        let persist = seq![EffectView::PersistEntries(seq![entry])];
        assert(no_grants(persist));
        lemma_broadcast(next);
        lemma_appends(next, ascending(leaving));
        lemma_joined(persist, next.broadcast());
        lemma_joined(persist + next.broadcast(), next.appends_for(ascending(leaving)));
    }
}

proof fn lemma_transfer_finished(node: NodeView, result: TransferResult, at: Time)
    ensures
        node.transfer_finished(result, at) matches Ok(step) ==> calm(node, step),
{
    reveal(NodeView::transfer_finished);
    if let Some(transfer) = node.transfer {
        lemma_config_appended(
            NodeView {
                transfer: Some(LeadershipTransfer { finishing: true, ..transfer }),
                ..node
            },
            EnvelopeView {
                admin_session: transfer.admin_session,
                leader_time: at,
                operation: OperationView::FinishLeaderTransfer {
                    intent_index: transfer.intent_index,
                    result,
                },
            },
        );
    }
}

proof fn lemma_resumed(node: NodeView)
    ensures
        calm(node, node.resumed()),
{
    reveal(NodeView::resumed);
    lemma_broadcast(node);
    if let Some(enter) = node.resumable_enter() {
        lemma_config_appended(
            node,
            EnvelopeView {
                admin_session: enter.admin_session,
                leader_time: enter.leader_time,
                operation: OperationView::LeaveJoint {
                    enter_index: node.roster.joint_enter_index->0,
                },
            },
        );
    }
    if let Some(transfer) = node.transfer {
        lemma_transfer_finished(
            node,
            if node.id == transfer.target {
                TransferResult::Success
            } else {
                TransferResult::Superseded
            },
            transfer.deadline,
        );
    }
}

proof fn lemma_became_leader(node: NodeView)
    ensures
        ({
            let step = node.became_leader();
            &&& step.0.id == node.id
            &&& step.0.hard_state == node.hard_state
            &&& step.0.votes == node.votes
            &&& no_grants(step.1)
        }),
{
    reveal(NodeView::became_leader);
    let won = node.elected();
    lemma_advanced(won);
    lemma_resumed(won.advanced().0);
    let persist = seq![EffectView::PersistEntries(seq![won.log.last()])];
    assert(no_grants(persist));
    lemma_joined(persist, won.advanced().1);
    lemma_joined(persist + won.advanced().1, won.advanced().0.resumed().1);
}

proof fn lemma_election_started(node: NodeView)
    requires
        node.hard_state.term.0 < u64::MAX,
    ensures
        fair(node, None, node.election_started()),
{
    reveal(NodeView::election_started);
    if node.voting() {
        let next = node.candidate();
        let persist = seq![EffectView::PersistHard(next.hard_state)];
        assert(no_grants(persist));
        if next.roster.quorum(next.votes) {
            lemma_became_leader(next);
            lemma_joined(persist, next.became_leader().1);
        } else {
            let kind = KindView::VoteReq {
                last_index: next.last_index(),
                last_term: next.last_term(),
            };
            let peers = ascending(next.roster.voters);
            lemma_requests(next, peers, next.hard_state.term, kind);
            lemma_joined(persist, next.requests_for(peers, next.hard_state.term, kind));
        }
    }
}

proof fn lemma_pre_vote_started(node: NodeView, now: Time)
    requires
        node.hard_state.term.0 < u64::MAX,
    ensures
        fair(node, None, node.pre_vote_started(now)),
{
    reveal(NodeView::pre_vote_started);
    if node.voting() {
        let next = NodeView {
            role: Role::Candidate,
            pre_votes: set![node.id],
            votes: Set::empty(),
            ..node
        }.election_reset(now);
        if next.roster.quorum(next.pre_votes) {
            lemma_election_started(next);
        } else {
            lemma_requests(
                next,
                ascending(next.roster.voters),
                Term((next.hard_state.term.0 + 1) as u64),
                KindView::PreVoteReq {
                    last_index: next.last_index(),
                    last_term: next.last_term(),
                },
            );
        }
    }
}

spec fn absorbed_state(absorbed: Absorbed) -> NodeView {
    match absorbed {
        Absorbed::Done { state, .. } => state,
        Absorbed::Stopped { state, .. } => state,
    }
}

spec fn absorbed_effects(absorbed: Absorbed) -> Seq<EffectView> {
    match absorbed {
        Absorbed::Done { effects, .. } => effects,
        Absorbed::Stopped { effects, .. } => effects,
    }
}

proof fn lemma_absorbed(
    node: NodeView,
    from: NodeId,
    request: AppendView,
    i: int,
    effects: Seq<EffectView>,
    appended: Seq<EntryView>,
)
    requires
        no_grants(effects),
    ensures
        calm_state(
            node,
            absorbed_state(node.absorbed(from, request, i, effects, appended)),
        ),
        no_grants(absorbed_effects(node.absorbed(from, request, i, effects, appended))),
    decreases request.entries.len() - i,
{
    if i < 0 || i >= request.entries.len() {
    } else {
        let entry = request.entries[i];
        let held = node.holds(entry.index);
        if held && node.entry(entry.index).term == entry.term {
            lemma_absorbed(node, from, request, i + 1, effects, appended);
        } else if held && entry.index.0 <= node.commit_index.0 {
            lemma_pushed(
                effects,
                EffectView::Trace { name: "committed_conflict_rejected", index: entry.index },
            );
        } else {
            let state = if held {
                node.truncated(entry.index)
            } else {
                node
            };
            let so_far = if held {
                effects.push(EffectView::TruncateSuffix(entry.index))
            } else {
                effects
            };
            if held {
                lemma_rebuilt(
                    NodeView {
                        log: node.log.subrange(0, entry.index.0 - node.snapshot_index.0 - 1),
                        ..node
                    },
                );
                lemma_pushed(effects, EffectView::TruncateSuffix(entry.index));
            }
            let due = LogIndex(crate::raft_model::bumped(state.last_index().0));
            if entry.index != due {
                let trace = EffectView::Trace { name: "append_gap_rejected", index: entry.index };
                lemma_pushed(so_far, trace);
                lemma_pushed(
                    so_far.push(trace),
                    state.append_answer(
                        from,
                        request.read_round,
                        false,
                        state.last_index(),
                        None,
                        due,
                    ),
                );
            } else if !config_kind(entry.kind) {
                lemma_absorbed(
                    NodeView { log: state.log.push(entry), ..state },
                    from,
                    request,
                    i + 1,
                    so_far,
                    appended.push(entry),
                );
            } else {
                lemma_configured(state, entry);
                if let Ok(projected) = state.configured(entry) {
                    lemma_absorbed(
                        NodeView { log: projected.log.push(entry), ..projected },
                        from,
                        request,
                        i + 1,
                        so_far,
                        appended.push(entry),
                    );
                }
            }
        }
    }
}

proof fn lemma_append_asked(
    node: NodeView,
    from: NodeId,
    term: Term,
    request: AppendView,
    now: Time,
)
    ensures
        calm(node, node.append_asked(from, term, request, now)),
{
    reveal(NodeView::append_asked);
    reveal(NodeView::applied);
    if term.0 >= node.hard_state.term.0 {
        let state = NodeView {
            role: node.resting_role(),
            leader_id: Some(from),
            ..node
        }.election_reset(now);
        if state.term_at(request.prev_index) == Some(request.prev_term) {
            lemma_absorbed(state, from, request, 0, Seq::empty(), Seq::empty());
            let absorbed = state.absorbed(from, request, 0, Seq::empty(), Seq::empty());
            if let Absorbed::Done { state: done, effects, appended } = absorbed {
                let persisted = if appended.len() > 0 {
                    effects.push(EffectView::PersistEntries(appended))
                } else {
                    effects
                };
                lemma_pushed(effects, EffectView::PersistEntries(appended));
                let applied: Step = if request.leader_commit.0 > done.commit_index.0 {
                    NodeView {
                        commit_index: LogIndex(
                            crate::raft_model::smaller(
                                request.leader_commit.0,
                                done.last_index().0,
                            ),
                        ),
                        ..done
                    }.applied()
                } else {
                    (done, Seq::empty())
                };
                assert(no_grants(applied.1));
                lemma_joined(persisted, applied.1);
                lemma_pushed(
                    persisted + applied.1,
                    applied.0.append_answer(
                        from,
                        request.read_round,
                        true,
                        applied.0.last_index(),
                        None,
                        LogIndex(0),
                    ),
                );
            }
        }
    }
}

proof fn lemma_answered(node: NodeView, peer: NodeId, response: AppendResponse)
    ensures
        calm(node, node.answered(peer, response)),
{
    reveal(NodeView::answered);
    if response.success {
        let matched = node.matched(peer, response.match_index);
        lemma_advanced(matched);
        let advanced = matched.advanced();
        let released = advanced.0.read_counted(peer, response.read_round).read_released();
        let state = released.0;
        lemma_append_for(state, peer);
        assert(no_grants(released.1));
        let handover = state.handover(peer, response.match_index);
        assert(no_grants(handover));
        lemma_joined(advanced.1, released.1);
        lemma_joined(advanced.1 + released.1, handover);
        lemma_joined(advanced.1 + released.1 + handover, seq![state.append_for(peer)]);
        lemma_joined(advanced.1 + released.1 + handover, Seq::empty());
    } else {
        let state = NodeView {
            next_index: node.next_index.insert(
                peer,
                LogIndex(crate::raft_model::larger(response.conflict_index.0, 1)),
            ),
            ..node
        };
        lemma_append_for(state, peer);
    }
}

proof fn lemma_append_answered(
    node: NodeView,
    from: NodeId,
    term: Term,
    response: AppendResponse,
    now: Time,
)
    ensures
        calm(node, node.append_answered(from, term, response, now)),
{
    reveal(NodeView::append_answered);
    lemma_answered(node, from, response);
    lemma_answered(
        NodeView { last_contact: node.last_contact.insert(from, now), ..node },
        from,
        response,
    );
}

proof fn lemma_taken(node: NodeView, message: MessageView, now: Time)
    requires
        node.hard_state.term.0 < u64::MAX,
    ensures
        fair(node, Some(message), node.taken(message, now)),
{
    reveal(NodeView::taken);
    match message.kind {
        KindView::PreVoteResp { granted } => {
            lemma_election_started(
                NodeView { pre_votes: node.pre_votes.insert(message.from), ..node },
            );
        },
        KindView::VoteResp { granted } => {
            lemma_became_leader(NodeView { votes: node.votes.insert(message.from), ..node });
        },
        KindView::AppendReq(request) => {
            lemma_append_asked(node, message.from, message.term, request, now);
        },
        KindView::AppendResp(response) => {
            lemma_append_answered(node, message.from, message.term, response, now);
        },
        KindView::TimeoutNow { intent_index } => {
            lemma_election_started(node);
        },
        _ => {},
    }
}

/// A message makes a node vote at most once in a term, count only votes that
/// were cast, lead only by a quorum of them, and grant only the vote that it
/// records.
pub proof fn law_messages_are_answered_fairly(node: NodeView, message: MessageView, now: Time)
    requires
        node.hard_state.term.0 < u64::MAX,
        message.term.0 < u64::MAX,
    ensures
        fair(node, Some(message), node.received(message, now)),
{
    reveal(NodeView::received);
    lemma_taken(node, message, now);
    if node.adopts_term(message) {
        let adopted = node.term_adopted(message.term);
        lemma_taken(adopted, message, now);
        let taken = adopted.taken(message, now);
        let persist = seq![EffectView::PersistHard(adopted.hard_state)];
        let all = persist + taken.1;
        assert forall|i: int| 0 <= i < all.len() implies ((#[trigger] all[i]) matches
            EffectView::Send(sent) ==> is_grant(sent) ==> sent.from == taken.0.id && sent.term
            == taken.0.hard_state.term && taken.0.hard_state.voted_for == Some(sent.to)) by {
            if i > 0 {
                assert(all[i] == taken.1[i - 1]);
            }
        }
    }
}

/// What a message may do to the term and the vote of a node, whatever state the
/// node is in: its term does not fall; a vote once cast stands for the rest of its
/// term; a changed term or vote is written, and what is written last is what the
/// node goes on with; every such write stands before everything that is sent; and
/// a pre-vote request leaves the node exactly as it was.
pub proof fn law_messages_keep_terms_and_votes(node: NodeView, message: MessageView, now: Time)
    requires
        node.hard_state.term.0 < u64::MAX,
        message.term.0 < u64::MAX,
    ensures
        ({
            let after = node.received(message, now).0;
            let effects = node.received(message, now).1;
            &&& node.hard_state.term.0 <= after.hard_state.term.0
            &&& after.hard_state.term == node.hard_state.term && node.hard_state.voted_for is Some
                ==> after.hard_state.voted_for == node.hard_state.voted_for
            &&& after.hard_state != node.hard_state ==> exists|at: int| #[trigger]
                last_written(effects, at, after.hard_state)
            &&& forall|i: int, j: int|
                0 <= i < effects.len() && 0 <= j < effects.len() && (
                #[trigger] effects[i]) is PersistHard && (#[trigger] effects[j]) is Send ==> i < j
            &&& message.kind is PreVoteReq ==> after == node
        }),
{
    law_messages_are_answered_fairly(node, message, now);
    law_votes_are_durable_before_messages(node, message, now);
    if message.kind is PreVoteReq {
        law_pre_votes_bind_nobody(node, message, now);
    }
}

proof fn lemma_beat(node: NodeView, now: Time)
    requires
        node.hard_state.term.0 < u64::MAX,
    ensures
        fair(node, None, node.beat(now)),
{
    reveal(NodeView::beat);
    if node.role is Leader && now.0 >= node.heartbeat_deadline.0 {
        let next = NodeView { heartbeat_deadline: now.later(node.config.heartbeat), ..node };
        lemma_broadcast(next);
        assert(no_grants(next.nudge()));
        lemma_joined(next.broadcast(), next.nudge());
        let step = node.beat(now);
        assert(step.1 == (next.broadcast() + next.nudge()).push(step.1.last()));
        lemma_pushed(next.broadcast() + next.nudge(), step.1.last());
    } else {
        lemma_pre_vote_started(node, now);
    }
}

/// Time makes a node vote at most once in a term, for itself, and lead only by
/// a quorum.
pub proof fn law_time_is_fair(node: NodeView, now: Time, timer: TimerKind)
    requires
        node.hard_state.term.0 < u64::MAX,
    ensures
        fair(node, None, node.ticked(now)),
        fair(node, None, node.timer_fired(now, timer)),
{
    reveal(NodeView::ticked);
    lemma_transfer_finished(node, TransferResult::Timeout, now);
    lemma_beat(node.quorum_restarted(now), now);
    lemma_beat(node, now);
    lemma_pre_vote_started(node, now);
    lemma_broadcast(node);
    assert(no_grants(node.nudge()));
    lemma_joined(node.broadcast(), node.nudge());
}

/// Proposals, reads, changes of configuration and snapshots leave elections
/// alone.
pub proof fn law_requests_leave_elections_alone(
    node: NodeView,
    payload: Seq<u8>,
    kind: EntryKind,
    envelope: EnvelopeView,
    index: LogIndex,
    term: Term,
)
    ensures
        node.proposed(payload, kind) matches Ok(step) ==> calm(node, step),
        node.read_asked() matches Ok(step) ==> calm(node, step),
        node.admin_proposed(envelope) matches Ok(step) ==> calm(node, step),
        calm_state(node, node.snapshot_installed(index, term)),
{
    let entry = EntryView {
        term: node.hard_state.term,
        index: LogIndex((node.last_index().0 + 1) as u64),
        kind,
        payload,
    };
    reveal(NodeView::entry_offered);
    let pushed = NodeView { log: node.log.push(entry), ..node };
    lemma_advanced(pushed);
    let advanced = pushed.advanced();
    let persist = seq![EffectView::PersistEntries(seq![entry])];
    assert(no_grants(persist));
    lemma_broadcast(advanced.0);
    lemma_joined(persist, advanced.1);
    lemma_joined(persist + advanced.1, advanced.0.broadcast());
    if let Ok(step) = node.read_asked() {
        let fixed = NodeView {
            read_round: crate::raft_model::bumped(node.read_round),
            read_acks: set![node.id],
            read_index: Some(node.commit_index),
            ..node
        };
        let barrier = seq![EffectView::ReadBarrier { index: node.commit_index }];
        assert(no_grants(barrier));
        lemma_broadcast(fixed);
        assert(no_grants(fixed.read_released().1));
        lemma_joined(barrier, fixed.broadcast());
        lemma_joined(barrier + fixed.broadcast(), fixed.read_released().1);
    }
    lemma_config_appended(node, envelope);
}

/// Appending a change of the configuration, entering a joint one, and applying a
/// change leave elections alone.
pub proof fn law_changes_leave_elections_alone(
    node: NodeView,
    envelope: EnvelopeView,
    new_voters: Set<NodeId>,
    entry: EntryView,
)
    ensures
        node.config_appended(envelope) matches Ok(step) ==> calm(node, step),
        node.joint_proposed(new_voters) matches Ok(step) ==> calm(node, step),
        node.config_applied(entry) matches Ok(step) ==> calm(node, step),
{
    if let Ok(step) = node.joint_proposed(new_voters) {
        let enter = EntryView {
            term: node.hard_state.term,
            index: LogIndex((node.last_index().0 + 1) as u64),
            kind: EntryKind::Config,
            payload: envelope_bytes(
                NodeView::anonymous(Time(0), OperationView::EnterJoint { new_voters }),
            ),
        };
        lemma_configured(node, enter);
        reveal(NodeView::entry_offered);
        let projected = node.configured(enter)->Ok_0;
        let pushed = NodeView { log: projected.log.push(enter), ..projected };
        lemma_advanced(pushed);
        let advanced = pushed.advanced();
        let persist = seq![EffectView::PersistEntries(seq![enter])];
        assert(no_grants(persist));
        lemma_broadcast(advanced.0);
        lemma_joined(persist, advanced.1);
        lemma_joined(persist + advanced.1, advanced.0.broadcast());
    }
    lemma_config_appended(node, envelope);
    reveal(NodeView::config_applied);
    if let Some(found) = envelope_of(entry.payload) {
        if let OperationView::AddLearner { id, .. } = found.operation {
            lemma_append_for(node, id);
        }
        if let OperationView::BeginLeaderTransfer { target } = found.operation {
            let begun = NodeView {
                transfer: Some(
                    LeadershipTransfer {
                        intent_index: entry.index,
                        target,
                        deadline: found.leader_time.later(node.config.leader_transfer_timeout),
                        finishing: false,
                        admin_session: found.admin_session,
                    },
                ),
                ..node
            };
            lemma_transfer_finished(begun, TransferResult::Success, found.leader_time);
        }
    }
}

/// A vote that was cast.
pub struct Ballot {
    pub voter: NodeId,
    pub term: Term,
    pub candidate: NodeId,
}

/// A cluster: its nodes, every message that was ever sent, and every vote that
/// was ever cast. A sent message may arrive at any time, any number of times,
/// or never.
pub struct ClusterView {
    pub nodes: Map<NodeId, NodeView>,
    pub sent: Set<MessageView>,
    pub ballots: Set<Ballot>,
}

/// The vote that the durable state of a node records, if any.
pub open spec fn casts(node: NodeView, ballot: Ballot) -> bool {
    &&& ballot.voter == node.id
    &&& ballot.term == node.hard_state.term
    &&& node.hard_state.voted_for == Some(ballot.candidate)
}

/// Whether a transition sends a message.
pub open spec fn sends(step: Step, message: MessageView) -> bool {
    exists|i: int| 0 <= i < step.1.len() && #[trigger] step.1[i] == EffectView::Send(message)
}

/// The cluster after a transition of one of its nodes.
pub open spec fn moved(cluster: ClusterView, id: NodeId, step: Step) -> ClusterView {
    ClusterView {
        nodes: cluster.nodes.insert(id, step.0),
        sent: Set::new(
            |message: MessageView| cluster.sent.contains(message) || sends(step, message),
        ),
        ballots: Set::new(
            |ballot: Ballot| cluster.ballots.contains(ballot) || casts(step.0, ballot),
        ),
    }
}

/// Whether a node can start over: what is durable of its elections stays, its
/// tally is gone, and it leads no longer.
pub open spec fn restarts(before: NodeView, step: Step) -> bool {
    &&& step.0.id == before.id
    &&& step.0.hard_state == before.hard_state
    &&& step.0.votes == Set::<NodeId>::empty()
    &&& step.0.role !is Leader
    &&& no_grants(step.1)
}

/// Whether a node of a cluster can make a transition: a message that was sent
/// to it arrives, time passes, it restarts, or something happens that leaves
/// elections alone.
pub open spec fn possible(cluster: ClusterView, id: NodeId, step: Step) -> bool {
    let node = cluster.nodes[id];
    &&& cluster.nodes.dom().contains(id)
    &&& node.hard_state.term.0 < u64::MAX
    &&& {
        ||| exists|message: MessageView, now: Time|
            cluster.sent.contains(message) && message.to == id && message.term.0 < u64::MAX
                && step == #[trigger] node.received(message, now)
        ||| exists|now: Time| step == #[trigger] node.ticked(now)
        ||| exists|now: Time, timer: TimerKind| step == #[trigger] node.timer_fired(now, timer)
        ||| restarts(node, step)
        ||| calm(node, step)
    }
}

pub open spec fn cluster_step(before: ClusterView, after: ClusterView) -> bool {
    exists|id: NodeId, step: Step| #[trigger]
        possible(before, id, step) && after == moved(before, id, step)
}

/// Whether these voters decide in the configuration of every node: alone, or as
/// a side of a joint one.
pub open spec fn steady(cluster: ClusterView, voters: Set<NodeId>) -> bool {
    forall|id: NodeId| #[trigger]
        cluster.nodes.dom().contains(id) ==> cluster.nodes[id].id == id && finite_roster(
            cluster.nodes[id].roster,
        ) && decides(cluster.nodes[id].roster, voters) && voters.subset_of(
            cluster.nodes[id].roster.voters,
        )
}

/// A cluster whose nodes have just started, with the votes that they recorded
/// before.
pub open spec fn started(cluster: ClusterView) -> bool {
    &&& cluster.sent == Set::<MessageView>::empty()
    &&& forall|id: NodeId| #[trigger]
        cluster.nodes.dom().contains(id) ==> cluster.nodes[id].role !is Leader
            && cluster.nodes[id].votes == Set::<NodeId>::empty()
    &&& forall|ballot: Ballot| #[trigger]
        cluster.ballots.contains(ballot) <==> cluster.nodes.dom().contains(ballot.voter) && casts(
            cluster.nodes[ballot.voter],
            ballot,
        )
}

/// A run of a cluster in which the same voters decide all along.
pub open spec fn steady_run(run: Seq<ClusterView>, voters: Set<NodeId>) -> bool {
    &&& run.len() > 0
    &&& started(run[0])
    &&& forall|i: int| 0 <= i < run.len() ==> steady(#[trigger] run[i], voters)
    &&& forall|i: int| 0 <= i < run.len() - 1 ==> #[trigger] steps_at(run, i)
}

/// Whether a run goes on from a cluster by a transition.
pub open spec fn steps_at(run: Seq<ClusterView>, i: int) -> bool {
    cluster_step(run[i], run[i + 1])
}

/// Those who voted for a candidate in a term.
pub open spec fn supporters(cluster: ClusterView, term: Term, candidate: NodeId) -> Set<NodeId> {
    Set::new(|voter: NodeId| cluster.ballots.contains(Ballot { voter, term, candidate }))
}

/// What every cluster of a run keeps of its votes: each stands in the durable
/// state that cast it or in that of an earlier term, nobody voted twice in a
/// term, and what was granted or counted was cast.
pub open spec fn ballots_hold(cluster: ClusterView) -> bool {
    &&& forall|ballot: Ballot| #[trigger]
        cluster.ballots.contains(ballot) ==> {
            let node = cluster.nodes[ballot.voter];
            &&& cluster.nodes.dom().contains(ballot.voter)
            &&& ballot.term.0 <= node.hard_state.term.0
            &&& ballot.term == node.hard_state.term ==> node.hard_state.voted_for == Some(
                ballot.candidate,
            )
        }
    &&& forall|a: Ballot, b: Ballot|
        #![trigger cluster.ballots.contains(a), cluster.ballots.contains(b)]
        cluster.ballots.contains(a) && cluster.ballots.contains(b) && a.voter == b.voter && a.term
            == b.term ==> a.candidate == b.candidate
    &&& forall|message: MessageView| #[trigger]
        cluster.sent.contains(message) && is_grant(message) ==> cluster.ballots.contains(
            Ballot { voter: message.from, term: message.term, candidate: message.to },
        )
    &&& forall|id: NodeId, voter: NodeId|
        #![trigger cluster.nodes[id].votes.contains(voter)]
        cluster.nodes.dom().contains(id) && cluster.nodes[id].votes.contains(voter)
            ==> cluster.ballots.contains(
            Ballot { voter, term: cluster.nodes[id].hard_state.term, candidate: id },
        )
}

/// What every cluster of a run with the same voters keeps.
#[verifier::opaque]
pub open spec fn elections_hold(cluster: ClusterView, voters: Set<NodeId>) -> bool {
    &&& ballots_hold(cluster)
    &&& forall|id: NodeId| #[trigger]
        cluster.nodes.dom().contains(id) && cluster.nodes[id].role is Leader ==> more_than_half(
            supporters(cluster, cluster.nodes[id].hard_state.term, id),
            voters,
        )
}

pub proof fn lemma_more_supporters(less: Set<NodeId>, more: Set<NodeId>, voters: Set<NodeId>)
    requires
        voters.finite(),
        less.subset_of(more),
        more_than_half(less, voters),
    ensures
        more_than_half(more, voters),
{
    assert(less.intersect(voters).subset_of(more.intersect(voters)));
    assert(more.intersect(voters).subset_of(voters));
    vstd::set_lib::lemma_len_subset(more.intersect(voters), voters);
    vstd::set_lib::lemma_len_subset(less.intersect(voters), more.intersect(voters));
}

/// Whatever a node does, it does fairly: what it heard, if anything, was sent
/// to it.
proof fn lemma_possible_is_fair(cluster: ClusterView, id: NodeId, step: Step) -> (heard: Option<
    MessageView,
>)
    requires
        possible(cluster, id, step),
    ensures
        fair(cluster.nodes[id], heard, step),
        heard matches Some(message) ==> cluster.sent.contains(message) && message.to == id,
{
    let node = cluster.nodes[id];
    if exists|message: MessageView, now: Time|
        cluster.sent.contains(message) && message.to == id && message.term.0 < u64::MAX && step
            == #[trigger] node.received(message, now) {
        let (message, now) = choose|message: MessageView, now: Time|
            cluster.sent.contains(message) && message.to == id && message.term.0 < u64::MAX && step
                == #[trigger] node.received(message, now);
        law_messages_are_answered_fairly(node, message, now);
        Some(message)
    } else if exists|now: Time| step == #[trigger] node.ticked(now) {
        let now = choose|now: Time| step == #[trigger] node.ticked(now);
        law_time_is_fair(node, now, TimerKind::Election);
        None
    } else if exists|now: Time, timer: TimerKind| step == #[trigger] node.timer_fired(now, timer) {
        let (now, timer) = choose|now: Time, timer: TimerKind|
            step == #[trigger] node.timer_fired(now, timer);
        law_time_is_fair(node, now, timer);
        None
    } else {
        None
    }
}

/// Fair transitions keep what votes rest on.
proof fn lemma_ballots_hold_on(
    cluster: ClusterView,
    id: NodeId,
    heard: Option<MessageView>,
    step: Step,
)
    requires
        ballots_hold(cluster),
        cluster.nodes.dom().contains(id),
        cluster.nodes[id].id == id,
        fair(cluster.nodes[id], heard, step),
        heard matches Some(message) ==> cluster.sent.contains(message) && message.to == id,
    ensures
        ballots_hold(moved(cluster, id, step)),
{
    let node = cluster.nodes[id];
    let after = step.0;
    let next = moved(cluster, id, step);
    assert forall|ballot: Ballot| #[trigger] next.ballots.contains(ballot) implies {
        let node = next.nodes[ballot.voter];
        &&& next.nodes.dom().contains(ballot.voter)
        &&& ballot.term.0 <= node.hard_state.term.0
        &&& ballot.term == node.hard_state.term ==> node.hard_state.voted_for == Some(
            ballot.candidate,
        )
    } by {
        if cluster.ballots.contains(ballot) && ballot.voter == id {
            assert(ballot.term.0 <= node.hard_state.term.0);
        }
    }
    assert forall|a: Ballot, b: Ballot|
        #![trigger next.ballots.contains(a), next.ballots.contains(b)]
        next.ballots.contains(a) && next.ballots.contains(b) && a.voter == b.voter && a.term
            == b.term implies a.candidate == b.candidate by {
        if cluster.ballots.contains(a) && cluster.ballots.contains(b) {
        } else if cluster.ballots.contains(a) {
            assert(casts(after, b));
        } else if cluster.ballots.contains(b) {
            assert(casts(after, a));
        }
    }
    assert forall|message: MessageView| #[trigger]
        next.sent.contains(message) && is_grant(message) implies next.ballots.contains(
        Ballot { voter: message.from, term: message.term, candidate: message.to },
    ) by {
        if !cluster.sent.contains(message) {
            let i = choose|i: int|
                0 <= i < step.1.len() && #[trigger] step.1[i] == EffectView::Send(message);
            assert(casts(
                after,
                Ballot { voter: message.from, term: message.term, candidate: message.to },
            ));
        }
    }
    assert forall|who: NodeId, voter: NodeId|
        #![trigger next.nodes[who].votes.contains(voter)]
        next.nodes.dom().contains(who) && next.nodes[who].votes.contains(
            voter,
        ) implies next.ballots.contains(
        Ballot { voter, term: next.nodes[who].hard_state.term, candidate: who },
    ) by {
        if who == id {
            assert(after.votes.contains(voter));
            assert(vouched(node, heard, after, voter));
            let ballot = Ballot { voter, term: after.hard_state.term, candidate: id };
            if after.hard_state.term == node.hard_state.term && node.votes.contains(voter) {
                assert(cluster.nodes[id].votes.contains(voter));
                assert(cluster.ballots.contains(ballot));
            } else if voter == after.id && after.hard_state.voted_for == Some(after.id) {
                assert(casts(after, ballot));
            } else {
                let message = heard->0;
                assert(cluster.sent.contains(message));
                assert(cluster.ballots.contains(
                    Ballot { voter: message.from, term: message.term, candidate: message.to },
                ));
            }
        } else {
            assert(cluster.nodes[who].votes.contains(voter));
        }
    }
}

/// Fair transitions keep what elections rest on.
pub proof fn lemma_elections_hold_on(
    cluster: ClusterView,
    id: NodeId,
    heard: Option<MessageView>,
    step: Step,
    voters: Set<NodeId>,
)
    requires
        elections_hold(cluster, voters),
        steady(cluster, voters),
        cluster.nodes.dom().contains(id),
        fair(cluster.nodes[id], heard, step),
        heard matches Some(message) ==> cluster.sent.contains(message) && message.to == id,
        voters.finite(),
    ensures
        elections_hold(moved(cluster, id, step), voters),
{
    reveal(elections_hold);
    let node = cluster.nodes[id];
    let after = step.0;
    let next = moved(cluster, id, step);
    assert(node.id == id);
    lemma_ballots_hold_on(cluster, id, heard, step);
    assert forall|who: NodeId| #[trigger]
        next.nodes.dom().contains(who) && next.nodes[who].role is Leader implies more_than_half(
        supporters(next, next.nodes[who].hard_state.term, who),
        voters,
    ) by {
        let term = next.nodes[who].hard_state.term;
        let now = supporters(next, term, who);
        if who == id && !(node.role is Leader && after.hard_state.term == node.hard_state.term) {
            assert forall|voter: NodeId| after.votes.contains(voter) implies now.contains(voter) by {
                assert(next.nodes[who].votes.contains(voter));
            }
            lemma_more_supporters(after.votes, now, voters);
        } else {
            assert(cluster.nodes.dom().contains(who));
            lemma_more_supporters(supporters(cluster, term, who), now, voters);
        }
    }
}

/// Whether a set of members decides in a configuration: its voters, or either
/// side of a joint one.
pub open spec fn decides(roster: RosterView, members: Set<NodeId>) -> bool {
    match roster.joint {
        None => members == roster.voters,
        Some(sides) => members == sides.0 || members == sides.1,
    }
}

/// Whether two configurations share a set that decides in both, as each joint
/// configuration does with the one before it and the one after it.
pub open spec fn bridged(a: RosterView, b: RosterView) -> bool {
    exists|members: Set<NodeId>| #[trigger] decides(a, members) && decides(b, members)
}

pub open spec fn finite_roster(roster: RosterView) -> bool {
    &&& roster.voters.finite()
    &&& roster.joint matches Some(sides) ==> sides.0.finite() && sides.1.finite()
}

/// Whether every node of a cluster stands under its own id, and its
/// configuration is finite.
pub open spec fn labelled(cluster: ClusterView) -> bool {
    forall|id: NodeId| #[trigger]
        cluster.nodes.dom().contains(id) ==> cluster.nodes[id].id == id && finite_roster(
            cluster.nodes[id].roster,
        )
}

/// A run of a cluster. Its nodes may enter and leave configurations, install
/// snapshots, cut their logs and restart.
pub open spec fn cluster_run(run: Seq<ClusterView>) -> bool {
    &&& run.len() > 0
    &&& started(run[0])
    &&& forall|i: int| 0 <= i < run.len() ==> labelled(#[trigger] run[i])
    &&& forall|i: int| 0 <= i < run.len() - 1 ==> #[trigger] steps_at(run, i)
}

/// Whether a node wins the election of a term at a moment of a run.
pub open spec fn wins_at(run: Seq<ClusterView>, k: int, id: NodeId, term: Term) -> bool {
    &&& 0 <= k < run.len() - 1
    &&& run[k].nodes.dom().contains(id)
    &&& run[k + 1].nodes[id].role is Leader
    &&& run[k + 1].nodes[id].hard_state.term == term
    &&& run[k].nodes[id].role is Leader ==> run[k].nodes[id].hard_state.term != term
}

/// Whether a node that leads at moment `i` won at moment `k`, by a quorum of
/// the configuration that it had there.
spec fn won_by(run: Seq<ClusterView>, k: int, i: int, id: NodeId) -> bool {
    let term = run[i].nodes[id].hard_state.term;
    &&& k < i
    &&& wins_at(run, k, id, term)
    &&& run[k].nodes[id].roster.quorum(supporters(run[i], term, id))
}

spec fn leaders_won(run: Seq<ClusterView>, i: int) -> bool {
    forall|id: NodeId| #[trigger]
        run[i].nodes.dom().contains(id) && run[i].nodes[id].role is Leader ==> exists|k: int|
            #[trigger] won_by(run, k, i, id)
}

proof fn lemma_more_backing(roster: RosterView, less: Set<NodeId>, more: Set<NodeId>)
    requires
        finite_roster(roster),
        less.subset_of(more),
        roster.quorum(less),
    ensures
        roster.quorum(more),
{
    match roster.joint {
        None => lemma_more_supporters(less, more, roster.voters),
        Some(sides) => {
            lemma_more_supporters(less, more, sides.0);
            lemma_more_supporters(less, more, sides.1);
        },
    }
}

/// Deciding sets of bridged configurations share a member. So what one of them
/// decided is known to somebody who decides in the other.
pub proof fn law_bridged_quorums_meet(
    one: RosterView,
    other: RosterView,
    a: Set<NodeId>,
    b: Set<NodeId>,
)
    requires
        finite_roster(one),
        finite_roster(other),
        bridged(one, other),
        one.quorum(a),
        other.quorum(b),
    ensures
        exists|id: NodeId| #[trigger] a.contains(id) && b.contains(id),
{
    let members = choose|members: Set<NodeId>| #[trigger]
        decides(one, members) && decides(other, members);
    lemma_halves_meet(a, b, members);
    let id = choose|id: NodeId| #[trigger]
        members.contains(id) && a.contains(id) && b.contains(id);
    assert(a.contains(id) && b.contains(id));
}

/// A transition of one node keeps it that every leader won.
proof fn lemma_leaders_won_on(
    run: Seq<ClusterView>,
    i: int,
    mover: NodeId,
    heard: Option<MessageView>,
    step: Step,
)
    requires
        cluster_run(run),
        0 < i < run.len(),
        leaders_won(run, i - 1),
        ballots_hold(run[i]),
        run[i - 1].nodes.dom().contains(mover),
        run[i] == moved(run[i - 1], mover, step),
        fair(run[i - 1].nodes[mover], heard, step),
    ensures
        leaders_won(run, i),
{
    let before = run[i - 1];
    let next = run[i];
    assert(labelled(before));
    assert forall|id: NodeId| #[trigger]
        next.nodes.dom().contains(id) && next.nodes[id].role is Leader implies exists|k: int|
        #[trigger] won_by(run, k, i, id) by {
        let term = next.nodes[id].hard_state.term;
        let now = supporters(next, term, id);
        let node = before.nodes[id];
        assert(before.nodes.dom().contains(id));
        if id == mover && !(node.role is Leader && node.hard_state.term == term) {
            assert forall|voter: NodeId| step.0.votes.contains(voter) implies now.contains(
                voter,
            ) by {
                assert(next.nodes[id].votes.contains(voter));
            }
            lemma_more_backing(node.roster, step.0.votes, now);
            assert(won_by(run, i - 1, i, id));
        } else {
            let k = choose|k: int| #[trigger] won_by(run, k, i - 1, id);
            assert(labelled(run[k]));
            assert(supporters(before, term, id).subset_of(now));
            lemma_more_backing(run[k].nodes[id].roster, supporters(before, term, id), now);
            assert(won_by(run, k, i, id));
        }
    }
}

proof fn lemma_runs_hold(run: Seq<ClusterView>, i: int)
    requires
        cluster_run(run),
        0 <= i < run.len(),
    ensures
        ballots_hold(run[i]),
        leaders_won(run, i),
    decreases i,
{
    if i > 0 {
        lemma_runs_hold(run, i - 1);
        assert(steps_at(run, i - 1));
        let (id, step) = choose|id: NodeId, step: Step| #[trigger]
            possible(run[i - 1], id, step) && run[i] == moved(run[i - 1], id, step);
        let heard = lemma_possible_is_fair(run[i - 1], id, step);
        assert(labelled(run[i - 1]));
        lemma_ballots_hold_on(run[i - 1], id, heard, step);
        lemma_leaders_won_on(run, i, id, heard, step);
    } else {
        let first = run[0];
        assert forall|id: NodeId, voter: NodeId|
            #![trigger first.nodes[id].votes.contains(voter)]
            first.nodes.dom().contains(id) && first.nodes[id].votes.contains(
                voter,
            ) implies first.ballots.contains(
            Ballot { voter, term: first.nodes[id].hard_state.term, candidate: id },
        ) by {
            assert(first.nodes[id].votes == Set::<NodeId>::empty());
        }
    }
}

proof fn lemma_ballots_stay(run: Seq<ClusterView>, i: int, j: int)
    requires
        cluster_run(run),
        0 <= i <= j < run.len(),
    ensures
        run[i].ballots.subset_of(run[j].ballots),
    decreases j - i,
{
    if i < j {
        lemma_ballots_stay(run, i, j - 1);
        assert(steps_at(run, j - 1));
    }
}

proof fn lemma_later_leader(run: Seq<ClusterView>, i: int, a: NodeId, j: int, b: NodeId)
    requires
        cluster_run(run),
        0 <= i <= j < run.len(),
        run[i].nodes.dom().contains(a),
        run[i].nodes[a].role is Leader,
        run[j].nodes.dom().contains(b),
        run[j].nodes[b].role is Leader,
        run[i].nodes[a].hard_state.term == run[j].nodes[b].hard_state.term,
        forall|k: int, l: int|
            #![trigger wins_at(run, k, a, run[i].nodes[a].hard_state.term), wins_at(
                run,
                l,
                b,
                run[i].nodes[a].hard_state.term,
            )]
            wins_at(run, k, a, run[i].nodes[a].hard_state.term) && wins_at(
                run,
                l,
                b,
                run[i].nodes[a].hard_state.term,
            ) ==> bridged(run[k].nodes[a].roster, run[l].nodes[b].roster),
    ensures
        a == b,
{
    lemma_runs_hold(run, i);
    lemma_runs_hold(run, j);
    lemma_ballots_stay(run, i, j);
    let term = run[i].nodes[a].hard_state.term;
    let k = choose|k: int| #[trigger] won_by(run, k, i, a);
    let l = choose|l: int| #[trigger] won_by(run, l, j, b);
    assert(wins_at(run, k, a, term) && wins_at(run, l, b, term));
    assert(labelled(run[k]) && labelled(run[l]));
    let first = supporters(run[i], term, a);
    let second = supporters(run[j], term, b);
    law_bridged_quorums_meet(run[k].nodes[a].roster, run[l].nodes[b].roster, first, second);
    let voter = choose|voter: NodeId| #[trigger] first.contains(voter) && second.contains(voter);
    assert(run[i].ballots.contains(Ballot { voter, term, candidate: a }));
    assert(run[j].ballots.contains(Ballot { voter, term, candidate: a }));
    assert(run[j].ballots.contains(Ballot { voter, term, candidate: b }));
}

/// A term has at most one leader: two nodes that lead in the same term, at
/// whatever moments of a run, are the same node. Messages may be delayed,
/// repeated, reordered or lost, nodes may restart with their durable state,
/// change their configurations, install snapshots and cut their logs. What the
/// law needs is that wherever the two of them won that term, the configurations
/// they had there are bridged: they are the same, or next to each other on the
/// way through a joint one.
pub proof fn law_one_leader_per_term(
    run: Seq<ClusterView>,
    i: int,
    a: NodeId,
    j: int,
    b: NodeId,
    term: Term,
)
    requires
        cluster_run(run),
        0 <= i < run.len(),
        0 <= j < run.len(),
        run[i].nodes.dom().contains(a),
        run[i].nodes[a].role is Leader,
        run[i].nodes[a].hard_state.term == term,
        run[j].nodes.dom().contains(b),
        run[j].nodes[b].role is Leader,
        run[j].nodes[b].hard_state.term == term,
        forall|k: int, l: int|
            #![trigger wins_at(run, k, a, term), wins_at(run, l, b, term)]
            wins_at(run, k, a, term) && wins_at(run, l, b, term) ==> bridged(
                run[k].nodes[a].roster,
                run[l].nodes[b].roster,
            ),
    ensures
        a == b,
{
    if i <= j {
        lemma_later_leader(run, i, a, j, b);
    } else {
        assert forall|k: int, l: int|
            #![trigger wins_at(run, k, b, term), wins_at(run, l, a, term)]
            wins_at(run, k, b, term) && wins_at(run, l, a, term) implies bridged(
            run[k].nodes[b].roster,
            run[l].nodes[a].roster,
        ) by {
            let members = choose|members: Set<NodeId>| #[trigger]
                decides(run[l].nodes[a].roster, members) && decides(
                    run[k].nodes[b].roster,
                    members,
                );
            assert(decides(run[k].nodes[b].roster, members));
        }
        lemma_later_leader(run, j, b, i, a);
    }
}

/// Configurations next to each other are bridged: a settled one with itself and
/// with the joint one that is entered from it, and the joint one with the
/// settled one that is left to.
pub proof fn law_joint_configurations_bridge(
    roster: RosterView,
    new_voters: Set<NodeId>,
    index: LogIndex,
    left: RosterView,
)
    requires
        roster.joint is None,
        left.joint is None,
        left.voters == new_voters,
    ensures
        bridged(roster, roster),
        bridged(roster, roster.entered(new_voters, index)),
        bridged(roster.entered(new_voters, index), left),
{
    let joint = roster.entered(new_voters, index);
    assert(decides(roster, roster.voters) && decides(joint, roster.voters));
    assert(decides(joint, new_voters) && decides(left, new_voters));
}

/// Where the same voters decide all along, alone or as a side of joint
/// configurations, a term has at most one leader, whatever else happens.
pub proof fn law_steady_voters_elect_one_leader(
    run: Seq<ClusterView>,
    voters: Set<NodeId>,
    i: int,
    a: NodeId,
    j: int,
    b: NodeId,
)
    requires
        steady_run(run, voters),
        voters.finite(),
        0 <= i < run.len(),
        0 <= j < run.len(),
        run[i].nodes.dom().contains(a),
        run[i].nodes[a].role is Leader,
        run[j].nodes.dom().contains(b),
        run[j].nodes[b].role is Leader,
        run[i].nodes[a].hard_state.term == run[j].nodes[b].hard_state.term,
    ensures
        a == b,
{
    let term = run[i].nodes[a].hard_state.term;
    assert forall|k: int| 0 <= k < run.len() implies labelled(#[trigger] run[k]) by {
        assert(steady(run[k], voters));
    }
    assert forall|k: int, l: int|
        #![trigger wins_at(run, k, a, term), wins_at(run, l, b, term)]
        wins_at(run, k, a, term) && wins_at(run, l, b, term) implies bridged(
        run[k].nodes[a].roster,
        run[l].nodes[b].roster,
    ) by {
        assert(steady(run[k], voters) && steady(run[l], voters));
        assert(run[l].nodes.dom().contains(b));
        assert(decides(run[k].nodes[a].roster, voters) && decides(run[l].nodes[b].roster, voters));
    }
    law_one_leader_per_term(run, i, a, j, b, term);
}

} // verus!
