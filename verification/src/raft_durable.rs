//! What a node makes durable before it tells anybody.
use vstd::prelude::*;

use crate::ids::{LogIndex, NodeId, Term, Time};
use crate::membership::{EnvelopeView, OperationView, TransferResult};
use crate::node_set::ascending;
use crate::raft_laws::{
    lemma_append_asked, lemma_configured, lemma_pushed, lemma_rebuilt,
    lemma_truncated, progresses,
};
use crate::raft_model::{bumped, Absorbed, LeadershipTransfer, NodeView, Step};
use crate::raft_types::{
    config_kind, known_version, AppendResponse, AppendView, EffectView, EntryView, HardState,
    KindView, MessageView,
};

verus! {

/// Whether no effect writes a hard state.
pub open spec fn writes_no_vote(effects: Seq<EffectView>) -> bool {
    forall|i: int| 0 <= i < effects.len() ==> !((#[trigger] effects[i]) is PersistHard)
}

/// Whether everything that writes a hard state stands before everything that
/// is sent.
pub open spec fn votes_before_sends(effects: Seq<EffectView>) -> bool {
    forall|i: int, j: int|
        0 <= i < effects.len() && 0 <= j < effects.len() && (#[trigger] effects[i]) is PersistHard
            && (#[trigger] effects[j]) is Send ==> i < j
}

/// Whether `at` is the last effect that writes a hard state, and it writes
/// `hard`.
pub open spec fn last_written(effects: Seq<EffectView>, at: int, hard: HardState) -> bool {
    &&& 0 <= at < effects.len()
    &&& effects[at] == EffectView::PersistHard(hard)
    &&& forall|i: int| at < i < effects.len() ==> !((#[trigger] effects[i]) is PersistHard)
}

/// Whether a step keeps the hard state, and writes none.
spec fn keeps_vote(before: NodeView, step: Step) -> bool {
    &&& step.0.hard_state == before.hard_state
    &&& writes_no_vote(step.1)
}

/// Whether what a step leaves behind as the hard state is what its effects
/// leave behind on disk, and is there before anything is sent.
pub open spec fn vote_durable(before: NodeView, step: Step) -> bool {
    &&& votes_before_sends(step.1)
    &&& writes_no_vote(step.1) ==> step.0.hard_state == before.hard_state
    &&& !writes_no_vote(step.1) ==> exists|at: int| #[trigger]
        last_written(step.1, at, step.0.hard_state)
}

proof fn lemma_quiet_appends(node: NodeView, peers: Seq<NodeId>)
    ensures
        writes_no_vote(node.appends_for(peers)),
    decreases peers.len(),
{
    reveal(NodeView::append_for);
    if peers.len() > 0 {
        lemma_quiet_appends(node, peers.drop_last());
    }
}

proof fn lemma_quiet_broadcast(node: NodeView)
    ensures
        writes_no_vote(node.broadcast()),
{
    reveal(NodeView::broadcast);
    lemma_quiet_appends(node, ascending(node.roster.voters));
    lemma_quiet_appends(node, ascending(node.roster.learners));
    lemma_quiet_appends(node, ascending(node.retiring_peers.dom()));
}

proof fn lemma_quiet_requests(node: NodeView, peers: Seq<NodeId>, term: Term, kind: KindView)
    ensures
        writes_no_vote(node.requests_for(peers, term, kind)),
    decreases peers.len(),
{
    if peers.len() > 0 {
        lemma_quiet_requests(node, peers.drop_last(), term, kind);
    }
}

proof fn lemma_quiet_applied(node: NodeView)
    ensures
        keeps_vote(node, node.applied()),
        keeps_vote(node, node.advanced()),
{
    reveal(NodeView::applied);
    reveal(NodeView::advanced);
}

proof fn lemma_quiet_config(node: NodeView, envelope: EnvelopeView)
    ensures
        node.config_appended(envelope) matches Ok(step) ==> keeps_vote(node, step),
{
    reveal(NodeView::config_appended);
    let entry = node.config_entry(envelope);
    lemma_configured(node, entry);
    if let Ok(step) = node.config_appended(envelope) {
        lemma_quiet_broadcast(step.0);
        lemma_quiet_appends(step.0, ascending(node.leaving(envelope.operation)));
    }
}

proof fn lemma_quiet_finish(node: NodeView, result: TransferResult, at: Time)
    ensures
        node.transfer_finished(result, at) matches Ok(step) ==> keeps_vote(node, step),
{
    reveal(NodeView::transfer_finished);
    if let Some(transfer) = node.transfer {
        lemma_quiet_config(
            NodeView {
                transfer: Some(LeadershipTransfer { finishing: true, ..transfer }),
                ..node
            },
            EnvelopeView {
                admin_session: transfer.admin_session,
                leader_time: at,
                operation: OperationView::FinishLeaderTransfer {
                    intent_index: transfer.intent_index,
                    result,
                },
            },
        );
    }
}

proof fn lemma_quiet_resumed(node: NodeView)
    ensures
        keeps_vote(node, node.resumed()),
{
    reveal(NodeView::resumed);
    lemma_quiet_broadcast(node);
    if let Some(enter) = node.resumable_enter() {
        lemma_quiet_config(
            node,
            EnvelopeView {
                admin_session: enter.admin_session,
                leader_time: enter.leader_time,
                operation: OperationView::LeaveJoint {
                    enter_index: node.roster.joint_enter_index->0,
                },
            },
        );
    }
    if let Some(transfer) = node.transfer {
        lemma_quiet_finish(
            node,
            if node.id == transfer.target {
                TransferResult::Success
            } else {
                TransferResult::Superseded
            },
            transfer.deadline,
        );
    }
}

proof fn lemma_quiet_leader(node: NodeView)
    ensures
        keeps_vote(node, node.became_leader()),
{
    reveal(NodeView::became_leader);
    let won = node.elected();
    lemma_quiet_applied(won);
    lemma_quiet_resumed(won.advanced().0);
}

proof fn lemma_quiet_absorbed(
    node: NodeView,
    from: NodeId,
    request: AppendView,
    i: int,
    effects: Seq<EffectView>,
    appended: Seq<EntryView>,
)
    requires
        writes_no_vote(effects),
    ensures
        match node.absorbed(from, request, i, effects, appended) {
            Absorbed::Done { state, effects, .. } => keeps_vote(node, (state, effects)),
            Absorbed::Stopped { state, effects } => keeps_vote(node, (state, effects)),
        },
    decreases request.entries.len() - i,
{
    if 0 <= i < request.entries.len() {
        let entry = request.entries[i];
        let held = node.holds(entry.index);
        if held && node.entry(entry.index).term == entry.term {
            lemma_quiet_absorbed(node, from, request, i + 1, effects, appended);
        } else if !(held && entry.index.0 <= node.commit_index.0) {
            let state = if held {
                node.truncated(entry.index)
            } else {
                node
            };
            let so_far = if held {
                effects.push(EffectView::TruncateSuffix(entry.index))
            } else {
                effects
            };
            lemma_rebuilt(
                NodeView {
                    log: node.log.subrange(0, entry.index.0 - node.snapshot_index.0 - 1),
                    ..node
                },
            );
            lemma_configured(state, entry);
            if !config_kind(entry.kind) {
                lemma_quiet_absorbed(
                    NodeView { log: state.log.push(entry), ..state },
                    from,
                    request,
                    i + 1,
                    so_far,
                    appended.push(entry),
                );
            } else if let Ok(projected) = state.configured(entry) {
                lemma_quiet_absorbed(
                    NodeView { log: projected.log.push(entry), ..projected },
                    from,
                    request,
                    i + 1,
                    so_far,
                    appended.push(entry),
                );
            }
        }
    }
}

proof fn lemma_quiet_append(
    node: NodeView,
    from: NodeId,
    term: Term,
    request: AppendView,
    now: Time,
)
    ensures
        keeps_vote(node, node.append_asked(from, term, request, now)),
{
    reveal(NodeView::append_asked);
    if term.0 >= node.hard_state.term.0 {
        let state = NodeView {
            role: node.resting_role(),
            leader_id: Some(from),
            ..node
        }.election_reset(now);
        lemma_quiet_absorbed(state, from, request, 0, Seq::empty(), Seq::empty());
        if let Absorbed::Done { state: done, .. } = state.absorbed(
            from,
            request,
            0,
            Seq::empty(),
            Seq::empty(),
        ) {
            reveal(NodeView::applied);
        }
    }
}

proof fn lemma_quiet_answer(
    node: NodeView,
    from: NodeId,
    term: Term,
    response: AppendResponse,
    now: Time,
)
    ensures
        keeps_vote(node, node.append_answered(from, term, response, now)),
{
    reveal(NodeView::append_answered);
    reveal(NodeView::answered);
    reveal(NodeView::append_for);
    let heard = NodeView { last_contact: node.last_contact.insert(from, now), ..node };
    lemma_quiet_applied(heard.matched(from, response.match_index));
    lemma_quiet_applied(node.matched(from, response.match_index));
}

proof fn lemma_campaign_durable(node: NodeView)
    ensures
        vote_durable(node, node.election_started()),
{
    reveal(NodeView::election_started);
    if node.voting() {
        let next = node.candidate();
        let step = node.election_started();
        lemma_quiet_leader(next);
        lemma_quiet_requests(
            next,
            ascending(next.roster.voters),
            next.hard_state.term,
            KindView::VoteReq { last_index: next.last_index(), last_term: next.last_term() },
        );
        assert(last_written(step.1, 0, step.0.hard_state));
    }
}

proof fn lemma_taken_durable(node: NodeView, message: MessageView, now: Time)
    ensures
        vote_durable(node, node.taken(message, now)),
{
    reveal(NodeView::taken);
    let step = node.taken(message, now);
    match message.kind {
        KindView::PreVoteResp { .. } => {
            lemma_campaign_durable(
                NodeView { pre_votes: node.pre_votes.insert(message.from), ..node },
            );
        },
        KindView::VoteReq { last_index, last_term } => {
            if node.grants_vote(message, last_index, last_term) {
                assert(last_written(step.1, 0, step.0.hard_state));
            }
        },
        KindView::VoteResp { .. } => {
            lemma_quiet_leader(NodeView { votes: node.votes.insert(message.from), ..node });
        },
        KindView::AppendReq(request) => {
            lemma_quiet_append(node, message.from, message.term, request, now);
        },
        KindView::AppendResp(response) => {
            lemma_quiet_answer(node, message.from, message.term, response, now);
        },
        KindView::TimeoutNow { .. } => {
            lemma_campaign_durable(node);
        },
        _ => {},
    }
}

/// Whatever a message does to the term or the vote of a node is durable before
/// anything is sent on account of it: a changed hard state is written, what is
/// written last is what the node goes on with, and every write stands before
/// every message.
pub proof fn law_votes_are_durable_before_messages(node: NodeView, message: MessageView, now: Time)
    ensures
        vote_durable(node, node.received(message, now)),
        node.received(message, now).0.hard_state != node.hard_state ==> exists|at: int| #[trigger]
            last_written(
                node.received(message, now).1,
                at,
                node.received(message, now).0.hard_state,
            ),
{
    reveal(NodeView::received);
    lemma_taken_durable(node, message, now);
    if node.adopts_term(message) {
        let adopted = node.term_adopted(message.term);
        let taken = adopted.taken(message, now);
        let step = node.received(message, now);
        lemma_taken_durable(adopted, message, now);
        let written = EffectView::PersistHard(adopted.hard_state);
        let effects = seq![written] + taken.1;
        if known_version(message.proto_version) {
            assert(step.1 == effects);
            assert(effects[0] == written);
            assert forall|i: int| 0 < i < effects.len() implies #[trigger] effects[i] == taken.1[i
                - 1] by {}
            if writes_no_vote(taken.1) {
                assert(last_written(step.1, 0, step.0.hard_state));
            } else {
                let at = choose|at: int| #[trigger]
                    last_written(taken.1, at, taken.0.hard_state);
                assert(effects[at + 1] == taken.1[at]);
                assert(last_written(step.1, at + 1, step.0.hard_state));
            }
        }
    }
}

/// Whether no effect writes entries.
pub open spec fn writes_no_entries(effects: Seq<EffectView>) -> bool {
    forall|i: int| 0 <= i < effects.len() ==> !((#[trigger] effects[i]) is PersistEntries)
}

/// Whether `at` is the one effect that writes entries, and it writes `entries`.
pub open spec fn only_written(effects: Seq<EffectView>, at: int, entries: Seq<EntryView>) -> bool {
    &&& 0 <= at < effects.len()
    &&& effects[at] == EffectView::PersistEntries(entries)
    &&& forall|i: int|
        0 <= i < effects.len() && i != at ==> !((#[trigger] effects[i]) is PersistEntries)
}

/// Whether the indexes of some entries grow.
pub open spec fn ordered(entries: Seq<EntryView>) -> bool {
    forall|i: int, j: int|
        0 <= i < j < entries.len() ==> (#[trigger] entries[i]).index.0 < (
        #[trigger] entries[j]).index.0
}

/// Whether `log` is `before` with everything from position `cut` on replaced
/// by `fresh`, whose first entry is none that stood there.
pub open spec fn continues(
    before: Seq<EntryView>,
    log: Seq<EntryView>,
    cut: int,
    fresh: Seq<EntryView>,
) -> bool {
    &&& 0 <= cut <= before.len()
    &&& log == before.take(cut) + fresh
    &&& fresh.len() == 0 ==> cut == before.len()
    &&& fresh.len() > 0 && cut < before.len() ==> fresh[0].term != before[cut].term
}

/// Whether an effect tells a leader that its append succeeded.
pub open spec fn confirms(effect: EffectView) -> bool {
    effect matches EffectView::Send(message) && (message.kind matches KindView::AppendResp(response)
        && response.success)
}

/// Whether an append that ran through left `before` with what it appended, and
/// one that stopped confirms nothing.
spec fn absorbs_onto(before: Seq<EntryView>, absorbed: Absorbed) -> bool {
    match absorbed {
        Absorbed::Done { state, effects, appended } => {
            &&& writes_no_entries(effects)
            &&& exists|cut: int| #[trigger] continues(before, state.log, cut, appended)
        },
        Absorbed::Stopped { effects, .. } => effects.len() > 0 && !confirms(effects.last()),
    }
}

/// What the entries of an append that runs through leave in the log.
proof fn lemma_absorbed_log(
    node: NodeView,
    from: NodeId,
    request: AppendView,
    i: int,
    effects: Seq<EffectView>,
    appended: Seq<EntryView>,
    before: Seq<EntryView>,
    cut: int,
)
    requires
        node.inv(),
        0 <= i <= request.entries.len(),
        node.snapshot_index.0 + node.log.len() + (request.entries.len() - i) < u64::MAX - 3,
        ordered(request.entries),
        writes_no_entries(effects),
        continues(before, node.log, cut, appended),
        appended.len() > 0 ==> forall|j: int|
            i <= j < request.entries.len() ==> (#[trigger] request.entries[j]).index.0
                > node.last_index().0,
    ensures
        absorbs_onto(before, node.absorbed(from, request, i, effects, appended)),
    decreases request.entries.len() - i,
{
    if i < request.entries.len() {
        let entry = request.entries[i];
        let held = node.holds(entry.index);
        if held && node.entry(entry.index).term == entry.term {
            lemma_absorbed_log(node, from, request, i + 1, effects, appended, before, cut);
        } else if !(held && entry.index.0 <= node.commit_index.0) {
            let state = if held {
                node.truncated(entry.index)
            } else {
                node
            };
            let so_far = if held {
                effects.push(EffectView::TruncateSuffix(entry.index))
            } else {
                effects
            };
            let from_here = if held {
                entry.index.0 - node.snapshot_index.0 - 1
            } else {
                cut
            };
            if held {
                lemma_truncated(node, entry.index);
                lemma_rebuilt(NodeView { log: node.log.subrange(0, from_here), ..node });
                assert(node.log =~= before);
                assert(state.log =~= before.take(from_here));
                assert(before[from_here].term != entry.term);
            }
            assert(progresses(node, state) && state.inv());
            if entry.index.0 == state.last_index().0 + 1 {
                lemma_configured(state, entry);
                let log = state.log.push(entry);
                let fresh = appended.push(entry);
                assert(log =~= before.take(from_here) + fresh);
                assert(fresh[0] == (if appended.len() > 0 {
                    appended[0]
                } else {
                    entry
                }));
                assert(continues(before, log, from_here, fresh));
                if !config_kind(entry.kind) {
                    let next = NodeView { log, ..state };
                    lemma_pushed(state, entry);
                    lemma_absorbed_log(
                        next,
                        from,
                        request,
                        i + 1,
                        so_far,
                        fresh,
                        before,
                        from_here,
                    );
                } else if let Ok(projected) = state.configured(entry) {
                    let next = NodeView { log: projected.log.push(entry), ..projected };
                    lemma_pushed(projected, entry);
                    lemma_absorbed_log(
                        next,
                        from,
                        request,
                        i + 1,
                        so_far,
                        fresh,
                        before,
                        from_here,
                    );
                }
            } else {
                let result = node.absorbed(from, request, i, effects, appended);
                let answer = state.append_answer(
                    from,
                    request.read_round,
                    false,
                    state.last_index(),
                    None,
                    LogIndex(bumped(state.last_index().0)),
                );
                assert(!confirms(answer));
                assert(result->Stopped_effects.last() == answer);
                assert(result->Stopped_effects.len() > 0);
            }
        }
    } else {
        let result = node.absorbed(from, request, i, effects, appended);
        assert(continues(before, result->Done_state.log, cut, result->appended));
        assert(writes_no_entries(result->Done_effects));
    }
}

/// An append never takes a node back, and what it adds is durable before it is
/// confirmed. Commitment does not fall, committed entries stay, and the
/// invariant holds on. Where the last effect confirms the append, either the
/// log is as it was and nothing is written, or an earlier effect, the only one
/// that writes entries, writes exactly what the log has from where it parted
/// from the old one. The entries of the append stand in the order of their
/// indexes, as every leader sends them.
pub proof fn law_appends_are_durable_before_confirmed(
    node: NodeView,
    from: NodeId,
    term: Term,
    request: AppendView,
    now: Time,
)
    requires
        node.inv(),
        node.snapshot_index.0 + node.log.len() + request.entries.len() < u64::MAX - 3,
        ordered(request.entries),
    ensures
        ({
            let step = node.append_asked(from, term, request, now);
            &&& progresses(node, step.0)
            &&& step.0.inv()
            &&& step.1.len() > 0
            &&& confirms(step.1.last()) ==> {
                ||| writes_no_entries(step.1) && step.0.log == node.log
                ||| exists|at: int, cut: int, fresh: Seq<EntryView>|
                    {
                        &&& fresh.len() > 0
                        &&& at + 1 < step.1.len()
                        &&& #[trigger] only_written(step.1, at, fresh)
                        &&& #[trigger] continues(node.log, step.0.log, cut, fresh)
                    }
            }
        }),
{
    lemma_append_asked(node, from, term, request, now);
    reveal(NodeView::append_asked);
    reveal(NodeView::applied);
    let step = node.append_asked(from, term, request, now);
    if term.0 >= node.hard_state.term.0 {
        let state = NodeView {
            role: node.resting_role(),
            leader_id: Some(from),
            ..node
        }.election_reset(now);
        if state.term_at(request.prev_index) == Some(request.prev_term) {
            let none = Seq::<EntryView>::empty();
            let silent = Seq::<EffectView>::empty();
            assert(node.log =~= node.log.take(node.log.len() as int) + none);
            lemma_absorbed_log(
                state,
                from,
                request,
                0,
                silent,
                none,
                node.log,
                node.log.len() as int,
            );
            if let Absorbed::Done { state: done, effects, appended } = state.absorbed(
                from,
                request,
                0,
                silent,
                none,
            ) {
                let cut = choose|cut: int| #[trigger]
                    continues(node.log, done.log, cut, appended);
                assert(step.0.log == done.log);
                if appended.len() > 0 {
                    assert(only_written(step.1, effects.len() as int, appended));
                } else {
                    assert(done.log =~= node.log);
                }
            }
        }
    }
}

} // verus!
