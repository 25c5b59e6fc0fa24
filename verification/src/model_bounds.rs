//! What the steps of a small cluster without changes of membership keep: every
//! log starts at its first entry, every message goes from one member to
//! another, and terms and logs grow by at most one with each step.
use vstd::prelude::*;

use crate::ids::{LogIndex, NodeId, Term, Time};
use crate::node_set::{ascending, lemma_ascending};
use crate::raft_model::{bumped, Absorbed, NodeView, RosterView, Step};
use crate::raft_types::{
    config_kind, AppendResponse, AppendView, EffectView, EntryKind, EntryView, KindView,
    MessageView, TimerKind,
};

verus! {

/// The members of the cluster.
pub open spec fn crew() -> Set<NodeId> {
    seq![NodeId(1), NodeId(2), NodeId(3)].to_set()
}

/// Their configuration.
pub open spec fn crew_roster() -> RosterView {
    RosterView {
        voters: crew(),
        learners: Set::empty(),
        joint: None,
        joint_enter_index: None,
        addresses: Map::empty(),
        active_features: 0,
    }
}

/// Whether an entry changes no configuration and is among the first `n`.
pub open spec fn plain_entry(entry: EntryView, n: int) -> bool {
    entry.index.0 <= n && !config_kind(entry.kind)
}

/// Whether a node is a member that never changed its configuration, in a term
/// up to `t` and with a log of up to `n` entries from the first one on.
pub open spec fn kept(node: NodeView, t: int, n: int) -> bool {
    &&& crew().contains(node.id)
    &&& node.roster == crew_roster()
    &&& node.base == crew_roster()
    &&& node.retiring_peers == Map::<NodeId, LogIndex>::empty()
    &&& node.transfer is None
    &&& node.snapshot_index.0 == 0
    &&& node.snapshot_term.0 == 0
    &&& node.config.max_entries_per_append > 0
    &&& node.hard_state.term.0 <= t
    &&& node.log.len() <= n
    &&& forall|i: int|
        0 <= i < node.log.len() ==> (#[trigger] node.log[i]).index.0 == i + 1 && !config_kind(
            node.log[i].kind,
        )
}

/// Whether a message runs between two members and stays within the same bounds.
pub open spec fn carried(message: MessageView, t: int, n: int) -> bool {
    &&& crew().contains(message.from)
    &&& crew().contains(message.to)
    &&& message.from != message.to
    &&& message.term.0 <= t + 1
    &&& match message.kind {
        KindView::PreVoteReq { .. } => true,
        KindView::PreVoteResp { .. } => true,
        KindView::VoteReq { .. } => true,
        KindView::VoteResp { .. } => true,
        KindView::AppendReq(request) => request.entries.len() <= n && forall|i: int|
            0 <= i < request.entries.len() ==> plain_entry(#[trigger] request.entries[i], n),
        KindView::AppendResp(response) => response.match_index.0 <= n,
        _ => false,
    }
}

/// Whether every message among some effects does.
pub open spec fn all_carried(effects: Seq<EffectView>, t: int, n: int) -> bool {
    forall|i: int|
        0 <= i < effects.len() ==> ((#[trigger] effects[i]) matches EffectView::Send(message)
            ==> carried(message, t, n))
}

/// Whether a step ends within the bounds.
pub open spec fn step_kept(step: Step, t: int, n: int) -> bool {
    kept(step.0, t, n) && all_carried(step.1, t, n)
}

pub proof fn lemma_crew()
    ensures
        crew().finite(),
        crew().len() == 3,
        ascending(crew()) == seq![NodeId(1), NodeId(2), NodeId(3)],
        forall|id: NodeId| #[trigger] crew().contains(id) <==> 1 <= id.0 <= 3,
{
    let ids = seq![NodeId(1), NodeId(2), NodeId(3)];
    lemma_ascending(ids);
    assert(ids[0] == NodeId(1) && ids[1] == NodeId(2) && ids[2] == NodeId(3));
    assert forall|id: NodeId| #[trigger] crew().contains(id) <==> 1 <= id.0 <= 3 by {
        if 1 <= id.0 <= 3 {
            assert(ids[id.0 - 1] == id);
        }
    }
}

proof fn lemma_joined(a: Seq<EffectView>, b: Seq<EffectView>, t: int, n: int)
    requires
        all_carried(a, t, n),
        all_carried(b, t, n),
    ensures
        all_carried(a + b, t, n),
{
    assert forall|i: int| 0 <= i < (a + b).len() implies ((#[trigger] (a
        + b)[i]) matches EffectView::Send(message) ==> carried(message, t, n)) by {
        if i < a.len() {
            assert((a + b)[i] == a[i]);
        } else {
            assert((a + b)[i] == b[i - a.len()]);
        }
    }
}

proof fn lemma_pushed(a: Seq<EffectView>, effect: EffectView, t: int, n: int)
    requires
        all_carried(a, t, n),
        effect matches EffectView::Send(message) ==> carried(message, t, n),
    ensures
        all_carried(a.push(effect), t, n),
{
    assert forall|i: int| 0 <= i < a.push(effect).len() implies ((#[trigger] a.push(
        effect,
    )[i]) matches EffectView::Send(message) ==> carried(message, t, n)) by {
        if i < a.len() {
            assert(a.push(effect)[i] == a[i]);
        }
    }
}

proof fn lemma_requests(node: NodeView, peers: Seq<NodeId>, term: Term, kind: KindView, t: int, n: int)
    requires
        crew().contains(node.id),
        forall|i: int| 0 <= i < peers.len() ==> crew().contains(#[trigger] peers[i]),
        term.0 <= t + 1,
        kind is PreVoteReq || kind is VoteReq,
    ensures
        all_carried(node.requests_for(peers, term, kind), t, n),
    decreases peers.len(),
{
    if peers.len() > 0 {
        let head = peers.drop_last();
        assert forall|i: int| 0 <= i < head.len() implies crew().contains(#[trigger] head[i]) by {
            assert(head[i] == peers[i]);
        }
        lemma_requests(node, head, term, kind, t, n);
        if peers.last() != node.id {
            lemma_pushed(
                node.requests_for(head, term, kind),
                node.requests_for(peers, term, kind).last(),
                t,
                n,
            );
        }
    }
}

proof fn lemma_append_for(node: NodeView, peer: NodeId, t: int, n: int)
    requires
        kept(node, t, n),
        crew().contains(peer),
        peer != node.id,
        n < u64::MAX - 8,
    ensures
        node.append_for(peer) matches EffectView::Send(message) ==> carried(message, t, n),
{
    reveal(NodeView::append_for);
    let next = node.next_for(peer);
    let batch = node.batch_from(next);
    assert forall|i: int| 0 <= i < batch.len() implies plain_entry(#[trigger] batch[i], n) by {
        let wanted = next.0 - node.snapshot_index.0 - 1;
        let from = if wanted < 0 {
            0
        } else if wanted > node.log.len() {
            node.log.len() as int
        } else {
            wanted
        };
        assert(batch[i] == node.log[from + i]);
    }
}

proof fn lemma_appends(node: NodeView, peers: Seq<NodeId>, t: int, n: int)
    requires
        kept(node, t, n),
        forall|i: int| 0 <= i < peers.len() ==> crew().contains(#[trigger] peers[i]),
        n < u64::MAX - 8,
    ensures
        all_carried(node.appends_for(peers), t, n),
    decreases peers.len(),
{
    if peers.len() > 0 {
        let head = peers.drop_last();
        assert forall|i: int| 0 <= i < head.len() implies crew().contains(#[trigger] head[i]) by {
            assert(head[i] == peers[i]);
        }
        lemma_appends(node, head, t, n);
        if peers.last() != node.id {
            lemma_append_for(node, peers.last(), t, n);
            lemma_pushed(node.appends_for(head), node.append_for(peers.last()), t, n);
        }
    }
}

proof fn lemma_broadcast(node: NodeView, t: int, n: int)
    requires
        kept(node, t, n),
        n < u64::MAX - 8,
    ensures
        all_carried(node.broadcast(), t, n),
{
    reveal(NodeView::broadcast);
    lemma_crew();
    let none = Seq::<NodeId>::empty();
    lemma_ascending(none);
    assert(none.to_set() =~= Set::<NodeId>::empty());
    assert(node.retiring_peers.dom() =~= Set::<NodeId>::empty());
    lemma_appends(node, ascending(crew()), t, n);
    lemma_appends(node, none, t, n);
    lemma_joined(node.appends_for(ascending(crew())), node.appends_for(none), t, n);
    lemma_joined(
        node.appends_for(ascending(crew())) + node.appends_for(none),
        node.appends_for(none),
        t,
        n,
    );
}

proof fn lemma_applied(node: NodeView, t: int, n: int)
    requires
        kept(node, t, n),
    ensures
        step_kept(node.applied(), t, n),
        node.applied().0.id == node.id,
{
    reveal(NodeView::applied);
}

proof fn lemma_advanced(node: NodeView, t: int, n: int)
    requires
        kept(node, t, n),
    ensures
        step_kept(node.advanced(), t, n),
        node.advanced().0.id == node.id,
{
    reveal(NodeView::advanced);
    let target = node.commit_target(node.last_index().0 as int);
    lemma_applied(NodeView { commit_index: LogIndex(target as u64), ..node }, t, n);
}

proof fn lemma_became_leader(node: NodeView, t: int, n: int)
    requires
        kept(node, t, n),
        n < u64::MAX - 16,
    ensures
        step_kept(node.became_leader(), t, n + 1),
{
    reveal(NodeView::became_leader);
    reveal(NodeView::resumed);
    let won = node.elected();
    assert(kept(won, t, n + 1)) by {
        assert forall|i: int| 0 <= i < won.log.len() implies (#[trigger] won.log[i]).index.0 == i
            + 1 && !config_kind(won.log[i].kind) by {
            if i < node.log.len() {
                assert(won.log[i] == node.log[i]);
            }
        }
    }
    lemma_advanced(won, t, n + 1);
    let advanced = won.advanced();
    lemma_broadcast(advanced.0, t, n + 1);
    let persist = seq![EffectView::PersistEntries(seq![won.log.last()])];
    assert(all_carried(persist, t, n + 1));
    lemma_joined(persist, advanced.1, t, n + 1);
    lemma_joined(persist + advanced.1, advanced.0.broadcast(), t, n + 1);
}

proof fn lemma_election(node: NodeView, t: int, n: int)
    requires
        kept(node, t, n),
        t < u64::MAX - 16,
        n < u64::MAX - 16,
    ensures
        step_kept(node.election_started(), t + 1, n + 1),
{
    reveal(NodeView::election_started);
    lemma_crew();
    let next = node.candidate();
    assert(kept(next, t + 1, n));
    let persist = seq![EffectView::PersistHard(next.hard_state)];
    assert(all_carried(persist, t + 1, n + 1));
    if next.roster.quorum(next.votes) {
        lemma_became_leader(next, t + 1, n);
        lemma_joined(persist, next.became_leader().1, t + 1, n + 1);
    } else {
        let kind = KindView::VoteReq {
            last_index: next.last_index(),
            last_term: next.last_term(),
        };
        lemma_requests(next, ascending(crew()), next.hard_state.term, kind, t + 1, n + 1);
        lemma_joined(
            persist,
            next.requests_for(ascending(crew()), next.hard_state.term, kind),
            t + 1,
            n + 1,
        );
    }
}

proof fn lemma_pre_vote(node: NodeView, now: Time, t: int, n: int)
    requires
        kept(node, t, n),
        t < u64::MAX - 16,
        n < u64::MAX - 16,
    ensures
        step_kept(node.pre_vote_started(now), t + 1, n + 1),
{
    reveal(NodeView::pre_vote_started);
    lemma_crew();
    let next = NodeView {
        role: crate::raft_types::Role::Candidate,
        pre_votes: set![node.id],
        votes: Set::empty(),
        ..node
    }.election_reset(now);
    assert(kept(next, t, n));
    if next.roster.quorum(next.pre_votes) {
        lemma_election(next, t, n);
    } else {
        lemma_requests(
            next,
            ascending(crew()),
            Term((next.hard_state.term.0 + 1) as u64),
            KindView::PreVoteReq { last_index: next.last_index(), last_term: next.last_term() },
            t + 1,
            n + 1,
        );
    }
}

/// A timer of a member raises its term and lengthens its log by at most one.
pub proof fn lemma_timer_kept(node: NodeView, now: Time, timer: TimerKind, t: int, n: int)
    requires
        kept(node, t, n),
        t < u64::MAX - 16,
        n < u64::MAX - 16,
    ensures
        step_kept(node.timer_fired(now, timer), t + 1, n + 1),
{
    lemma_broadcast(node, t + 1, n + 1);
    lemma_joined(node.broadcast(), node.nudge(), t + 1, n + 1);
    lemma_pre_vote(node, now, t, n);
}

/// A proposal lengthens a member's log by at most one.
pub proof fn lemma_proposal_kept(node: NodeView, payload: Seq<u8>, t: int, n: int)
    requires
        kept(node, t, n),
        t < u64::MAX - 16,
        n < u64::MAX - 16,
        node.proposed(payload, EntryKind::App) is Ok,
    ensures
        step_kept(node.proposed(payload, EntryKind::App)->Ok_0, t + 1, n + 1),
{
    reveal(NodeView::entry_offered);
    let entry = EntryView {
        term: node.hard_state.term,
        index: LogIndex((node.last_index().0 + 1) as u64),
        kind: EntryKind::App,
        payload,
    };
    let longer = NodeView { log: node.log.push(entry), ..node };
    assert(kept(longer, t + 1, n + 1)) by {
        assert forall|i: int| 0 <= i < longer.log.len() implies (#[trigger] longer.log[i]).index.0
            == i + 1 && !config_kind(longer.log[i].kind) by {
            if i < node.log.len() {
                assert(longer.log[i] == node.log[i]);
            }
        }
    }
    lemma_advanced(longer, t + 1, n + 1);
    let advanced = longer.advanced();
    lemma_broadcast(advanced.0, t + 1, n + 1);
    let persist = seq![EffectView::PersistEntries(seq![entry])];
    assert(all_carried(persist, t + 1, n + 1));
    lemma_joined(persist, advanced.1, t + 1, n + 1);
    lemma_joined(persist + advanced.1, advanced.0.broadcast(), t + 1, n + 1);
}

proof fn lemma_replayed(node: NodeView, log: Seq<EntryView>, i: int)
    requires
        0 <= i <= log.len(),
        forall|k: int| 0 <= k < log.len() ==> !config_kind((#[trigger] log[k]).kind),
    ensures
        node.replayed_from(log, i) == node,
    decreases log.len() - i,
{
    if i < log.len() {
        lemma_replayed(node, log, i + 1);
    }
}

proof fn lemma_truncated(node: NodeView, index: LogIndex, t: int, n: int)
    requires
        kept(node, t, n),
        0 < index.0 <= node.log.len(),
    ensures
        kept(node.truncated(index), t, n),
        node.truncated(index).id == node.id,
        node.truncated(index).log == node.log.subrange(0, index.0 - 1),
{
    reveal(NodeView::rebuilt);
    let cut = NodeView { log: node.log.subrange(0, index.0 - 1), ..node };
    assert forall|k: int| 0 <= k < cut.log.len() implies (#[trigger] cut.log[k]).index.0 == k + 1
        && !config_kind(cut.log[k].kind) by {
        assert(cut.log[k] == node.log[k]);
    }
    let base = NodeView { roster: cut.base, retiring_peers: Map::empty(), ..cut };
    lemma_replayed(base, cut.log, 0);
}

proof fn lemma_absorbed(
    node: NodeView,
    from: NodeId,
    request: AppendView,
    i: int,
    effects: Seq<EffectView>,
    appended: Seq<EntryView>,
    t: int,
    n: int,
)
    requires
        kept(node, t, n),
        crew().contains(from),
        from != node.id,
        0 <= i,
        n < u64::MAX - 16,
        forall|k: int| 0 <= k < request.entries.len() ==> plain_entry(#[trigger] request.entries[k], n),
        all_carried(effects, t, n),
    ensures
        match node.absorbed(from, request, i, effects, appended) {
            Absorbed::Done { state, effects, appended } => state.id == node.id && kept(state, t, n)
                && all_carried(effects, t, n),
            Absorbed::Stopped { state, effects } => kept(state, t, n) && all_carried(effects, t, n),
        },
    decreases request.entries.len() - i,
{
    if i < request.entries.len() {
        let entry = request.entries[i];
        assert(plain_entry(entry, n));
        let held = node.holds(entry.index);
        if held && node.entry(entry.index).term == entry.term {
            lemma_absorbed(node, from, request, i + 1, effects, appended, t, n);
        } else if held && entry.index.0 <= node.commit_index.0 {
            lemma_pushed(
                effects,
                EffectView::Trace { name: "committed_conflict_rejected", index: entry.index },
                t,
                n,
            );
        } else {
            let state = if held {
                node.truncated(entry.index)
            } else {
                node
            };
            if held {
                lemma_truncated(node, entry.index, t, n);
                lemma_pushed(effects, EffectView::TruncateSuffix(entry.index), t, n);
            }
            let so_far = if held {
                effects.push(EffectView::TruncateSuffix(entry.index))
            } else {
                effects
            };
            let due = LogIndex(bumped(state.last_index().0));
            if entry.index != due {
                let gap = EffectView::Trace { name: "append_gap_rejected", index: entry.index };
                lemma_pushed(so_far, gap, t, n);
                lemma_pushed(
                    so_far.push(gap),
                    state.append_answer(
                        from,
                        request.read_round,
                        false,
                        state.last_index(),
                        None,
                        due,
                    ),
                    t,
                    n,
                );
            } else {
                let longer = NodeView { log: state.log.push(entry), ..state };
                assert(kept(longer, t, n)) by {
                    assert forall|k: int| 0 <= k < longer.log.len() implies (
                    #[trigger] longer.log[k]).index.0 == k + 1 && !config_kind(
                        longer.log[k].kind,
                    ) by {
                        if k < state.log.len() {
                            assert(longer.log[k] == state.log[k]);
                        }
                    }
                }
                lemma_absorbed(longer, from, request, i + 1, so_far, appended.push(entry), t, n);
            }
        }
    }
}

proof fn lemma_append_asked(node: NodeView, message: MessageView, request: AppendView, now: Time, t: int, n: int)
    requires
        kept(node, t, n),
        crew().contains(message.from),
        message.from != node.id,
        n < u64::MAX - 16,
        forall|k: int| 0 <= k < request.entries.len() ==> plain_entry(#[trigger] request.entries[k], n),
    ensures
        step_kept(node.append_asked(message.from, message.term, request, now), t, n),
{
    reveal(NodeView::append_asked);
    let none = Seq::<EffectView>::empty();
    assert(all_carried(none, t, n));
    let state = NodeView {
        role: node.resting_role(),
        leader_id: Some(message.from),
        ..node
    }.election_reset(now);
    assert(kept(state, t, n));
    lemma_absorbed(state, message.from, request, 0, none, Seq::empty(), t, n);
    match state.absorbed(message.from, request, 0, Seq::empty(), Seq::empty()) {
        Absorbed::Stopped { state, effects } => {},
        Absorbed::Done { state, effects, appended } => {
            let persisted = if appended.len() > 0 {
                effects.push(EffectView::PersistEntries(appended))
            } else {
                effects
            };
            lemma_pushed(effects, EffectView::PersistEntries(appended), t, n);
            let moved = NodeView {
                commit_index: LogIndex(
                    crate::raft_model::smaller(request.leader_commit.0, state.last_index().0),
                ),
                ..state
            };
            lemma_applied(moved, t, n);
            lemma_joined(persisted, moved.applied().1, t, n);
            lemma_joined(persisted, none, t, n);
            let last = if request.leader_commit.0 > state.commit_index.0 {
                moved.applied()
            } else {
                (state, none)
            };
            lemma_pushed(
                persisted + last.1,
                last.0.append_answer(
                    message.from,
                    request.read_round,
                    true,
                    last.0.last_index(),
                    None,
                    LogIndex(0),
                ),
                t,
                n,
            );
        },
    }
}

proof fn lemma_answered(node: NodeView, peer: NodeId, response: AppendResponse, t: int, n: int)
    requires
        kept(node, t, n),
        crew().contains(peer),
        peer != node.id,
        n < u64::MAX - 16,
    ensures
        step_kept(node.answered(peer, response), t, n),
{
    reveal(NodeView::answered);
    if response.success {
        let matched = node.matched(peer, response.match_index);
        assert(kept(matched, t, n));
        lemma_advanced(matched, t, n);
        let advanced = matched.advanced();
        let counted = advanced.0.read_counted(peer, response.read_round);
        let released = counted.read_released();
        let state = released.0;
        assert(kept(state, t, n));
        lemma_append_for(state, peer, t, n);
        assert(all_carried(released.1, t, n));
        lemma_joined(advanced.1, released.1, t, n);
        let handover = state.handover(peer, response.match_index);
        assert(all_carried(handover, t, n));
        lemma_joined(advanced.1 + released.1, handover, t, n);
        let none = Seq::<EffectView>::empty();
        lemma_pushed(none, state.append_for(peer), t, n);
        assert(none.push(state.append_for(peer)) =~= seq![state.append_for(peer)]);
        lemma_joined(advanced.1 + released.1 + handover, seq![state.append_for(peer)], t, n);
        lemma_joined(advanced.1 + released.1 + handover, none, t, n);
    } else {
        let state = NodeView {
            next_index: node.next_index.insert(
                peer,
                LogIndex(crate::raft_model::larger(response.conflict_index.0, 1)),
            ),
            ..node
        };
        assert(kept(state, t, n));
        lemma_append_for(state, peer, t, n);
    }
}

proof fn lemma_taken(node: NodeView, message: MessageView, now: Time, t: int, n: int)
    requires
        kept(node, t, n),
        carried(message, t, n),
        message.to == node.id,
        message.term.0 > node.hard_state.term.0 ==> message.kind is PreVoteReq
            || message.kind is PreVoteResp,
        message.kind is PreVoteResp || message.kind is VoteResp ==> n < u64::MAX - 17,
        t < u64::MAX - 17,
        n < u64::MAX - 17,
        message.kind is PreVoteResp && message.term.0 == node.hard_state.term.0 + 1 ==> node.hard_state.term.0 < t,
    ensures
        step_kept(node.taken(message, now), t, n + 1),
{
    reveal(NodeView::taken);
    reveal(NodeView::append_answered);
    match message.kind {
        KindView::PreVoteResp { granted } => {
            let counted = NodeView { pre_votes: node.pre_votes.insert(message.from), ..node };
            if node.hard_state.term.0 < t {
                assert(kept(counted, t - 1, n));
                lemma_election(counted, t - 1, n);
            }
            assert(kept(counted, t, n + 1));
        },
        KindView::VoteResp { granted } => {
            let counted = NodeView { votes: node.votes.insert(message.from), ..node };
            assert(kept(counted, t, n));
            lemma_became_leader(counted, t, n);
        },
        KindView::AppendReq(request) => {
            assert forall|k: int| 0 <= k < request.entries.len() implies plain_entry(
                #[trigger] request.entries[k],
                n + 1,
            ) by {
                assert(plain_entry(request.entries[k], n));
            }
            assert(kept(node, t, n + 1));
            lemma_append_asked(node, message, request, now, t, n + 1);
        },
        KindView::AppendResp(response) => {
            let heard = NodeView {
                last_contact: node.last_contact.insert(message.from, now),
                ..node
            };
            assert(kept(heard, t, n + 1));
            assert(kept(node, t, n + 1));
            lemma_answered(heard, message.from, response, t, n + 1);
            lemma_answered(node, message.from, response, t, n + 1);
        },
        _ => {
            assert(kept(node, t, n + 1));
        },
    }
}

/// A message raises a member's term and lengthens its log by at most one.
pub proof fn lemma_message_kept(node: NodeView, message: MessageView, now: Time, t: int, n: int)
    requires
        kept(node, t, n),
        carried(message, t, n),
        message.to == node.id,
        0 <= t < u64::MAX - 20,
        0 <= n < u64::MAX - 20,
    ensures
        step_kept(node.received(message, now), t + 1, n + 1),
{
    reveal(NodeView::received);
    lemma_carried_longer(message, t, n, t + 1, n);
    if node.adopts_term(message) {
        let adopted = node.term_adopted(message.term);
        assert(kept(adopted, t + 1, n));
        lemma_taken(adopted, message, now, t + 1, n);
        let persist = seq![EffectView::PersistHard(adopted.hard_state)];
        assert(all_carried(persist, t + 1, n + 1));
        lemma_joined(persist, adopted.taken(message, now).1, t + 1, n + 1);
    } else {
        assert(kept(node, t + 1, n));
        lemma_taken(node, message, now, t + 1, n);
    }
}

/// Wider bounds hold what narrower ones hold.
pub proof fn lemma_carried_longer(message: MessageView, t: int, n: int, t2: int, n2: int)
    requires
        carried(message, t, n),
        t <= t2,
        n <= n2,
    ensures
        carried(message, t2, n2),
{
    if let KindView::AppendReq(request) = message.kind {
        assert forall|i: int| 0 <= i < request.entries.len() implies plain_entry(
            #[trigger] request.entries[i],
            n2,
        ) by {
            assert(plain_entry(request.entries[i], n));
        }
    }
}

} // verus!
