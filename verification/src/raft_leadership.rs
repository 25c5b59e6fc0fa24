//! How long a node leads: a leader that is heard stays, one that is not steps
//! down, and nobody disturbs a leader that is heard of.
use vstd::prelude::*;

use crate::ids::{LogIndex, NodeId, Term, Time};
use crate::membership::TransferResult;
use crate::node_set::{ascending, lemma_ascending_set};
use crate::raft_model::{larger, Absorbed, NodeView, RosterView};
use crate::raft_types::{
    known_version, AppendResponse, AppendView, EffectView, EntryKind, EntryView, HardState,
    KindView, MessageView, Role,
};

verus! {

/// Whether some members decide for all: more than half of the voters, and in a
/// joint configuration more than half of both sides.
pub open spec fn decides(roster: RosterView, members: Set<NodeId>) -> bool {
    match roster.joint {
        None => 2 * members.intersect(roster.voters).len() > roster.voters.len(),
        Some((before, after)) => 2 * members.intersect(before).len() > before.len() && 2
            * members.intersect(after).len() > after.len(),
    }
}

/// What happens to a node.
pub enum NodeEvent {
    Message { message: MessageView, now: Time },
    Tick { now: Time },
    Proposal { payload: Seq<u8> },
}

/// The state after an event.
pub open spec fn after_event(node: NodeView, event: NodeEvent) -> NodeView {
    match event {
        NodeEvent::Message { message, now } => node.received(message, now).0,
        NodeEvent::Tick { now } => node.ticked(now).0,
        NodeEvent::Proposal { payload } => match node.proposed(payload, EntryKind::App) {
            Ok(step) => step.0,
            Err(_) => node,
        },
    }
}

/// The state after events.
pub open spec fn after_events(node: NodeView, events: Seq<NodeEvent>) -> NodeView
    decreases events.len(),
{
    if events.len() == 0 {
        node
    } else {
        after_event(after_events(node, events.drop_last()), events.last())
    }
}

/// Whether a voter confirms to a leader that it follows: it answers an append of
/// the leader's term with success. The last word of a voter that retires counts
/// for nothing.
pub open spec fn confirms(leader: NodeView, message: MessageView) -> bool {
    &&& known_version(message.proto_version)
    &&& message.term == leader.hard_state.term
    &&& leader.roster.voters.contains(message.from)
    &&& message.kind matches KindView::AppendResp(response) && response.success && !(
    leader.retiring_peers.dom().contains(message.from) && response.match_index.0
        >= leader.retiring_peers[message.from].0)
}

/// The voters that confirmed in the course of events.
pub open spec fn confirmed(node: NodeView, events: Seq<NodeEvent>) -> Set<NodeId>
    decreases events.len(),
{
    if events.len() == 0 {
        Set::empty()
    } else {
        let before = after_events(node, events.drop_last());
        let so_far = confirmed(node, events.drop_last());
        match events.last() {
            NodeEvent::Message { message, .. } => if confirms(before, message) {
                so_far.insert(message.from)
            } else {
                so_far
            },
            _ => so_far,
        }
    }
}

/// Whether a node leads one term through events, none of which is a tick as late
/// as `until`.
pub open spec fn leads_through(node: NodeView, events: Seq<NodeEvent>, until: Time) -> bool {
    &&& forall|k: int|
        0 <= k <= events.len() ==> {
            let state = #[trigger] after_events(node, events.take(k));
            state.role is Leader && state.hard_state.term == node.hard_state.term
        }
    &&& forall|k: int|
        0 <= k < events.len() ==> ((#[trigger] events[k]) matches NodeEvent::Tick { now } ==> now.0
            < until.0)
}

/// What the check of a leader rests on.
spec fn same_watch(a: NodeView, b: NodeView) -> bool {
    &&& a.heard_quorum == b.heard_quorum
    &&& a.quorum_deadline == b.quorum_deadline
    &&& a.config == b.config
    &&& a.id == b.id
    &&& a.hard_state == b.hard_state
}

proof fn lemma_advanced_watch(node: NodeView)
    ensures
        same_watch(node, node.advanced().0),
        node.advanced().0.role == node.role,
        node.advanced().0.roster == node.roster,
        node.advanced().0.transfer == node.transfer,
        node.advanced().0.election_deadline == node.election_deadline,
{
    reveal(NodeView::advanced);
    reveal(NodeView::applied);
}

proof fn lemma_configured_watch(node: NodeView, entry: EntryView)
    ensures
        node.configured(entry) matches Ok(next) ==> same_watch(node, next) && next.transfer
            == node.transfer && (next.role is Leader ==> node.role is Leader)
            && next.election_deadline == node.election_deadline && next.leader_id == node.leader_id,
{
    reveal(NodeView::configured);
}

proof fn lemma_finished_watch(node: NodeView, result: TransferResult, at: Time)
    ensures
        node.transfer_finished(result, at) matches Ok(step) ==> same_watch(node, step.0)
            && step.0.election_deadline == node.election_deadline,
{
    reveal(NodeView::transfer_finished);
    reveal(NodeView::config_appended);
    reveal(NodeView::configured);
}

proof fn lemma_resumed_watch(node: NodeView)
    ensures
        same_watch(node, node.resumed().0),
{
    reveal(NodeView::resumed);
    reveal(NodeView::config_appended);
    reveal(NodeView::configured);
    reveal(NodeView::transfer_finished);
}

spec fn absorbed_state(absorbed: Absorbed) -> NodeView {
    match absorbed {
        Absorbed::Done { state, .. } => state,
        Absorbed::Stopped { state, .. } => state,
    }
}

/// What an append leaves alone.
spec fn rests(before: NodeView, after: NodeView) -> bool {
    &&& after.role is Leader ==> before.role is Leader
    &&& after.election_deadline == before.election_deadline
    &&& after.hard_state == before.hard_state
    &&& after.config == before.config
    &&& after.id == before.id
    &&& after.transfer == before.transfer
    &&& after.leader_id == before.leader_id
}

proof fn lemma_replayed_rests(node: NodeView, log: Seq<EntryView>, i: int)
    ensures
        rests(node, node.replayed_from(log, i)),
        node.replayed_from(log, i).role == node.role,
    decreases log.len() - i,
{
    if 0 <= i < log.len() {
        if let Some(envelope) = crate::envelope::envelope_of(log[i].payload) {
            lemma_replayed_rests(node.replayed_one(envelope.operation, log[i].index), log, i + 1);
        }
        lemma_replayed_rests(node, log, i + 1);
    }
}

proof fn lemma_truncated_rests(node: NodeView, index: LogIndex)
    ensures
        rests(node, node.truncated(index)),
{
    reveal(NodeView::rebuilt);
    let cut = NodeView {
        log: node.log.subrange(0, index.0 - node.snapshot_index.0 - 1),
        ..node
    };
    let bare = NodeView { roster: cut.base, retiring_peers: Map::empty(), ..cut };
    lemma_replayed_rests(bare, cut.log, 0);
}

proof fn lemma_absorbed_rests(
    node: NodeView,
    from: NodeId,
    request: AppendView,
    i: int,
    effects: Seq<EffectView>,
    appended: Seq<EntryView>,
)
    ensures
        rests(node, absorbed_state(node.absorbed(from, request, i, effects, appended))),
    decreases request.entries.len() - i,
{
    if 0 <= i < request.entries.len() {
        let entry = request.entries[i];
        let held = node.holds(entry.index);
        if held && node.entry(entry.index).term == entry.term {
            lemma_absorbed_rests(node, from, request, i + 1, effects, appended);
        } else if !(held && entry.index.0 <= node.commit_index.0) {
            let state = if held {
                node.truncated(entry.index)
            } else {
                node
            };
            let so_far = if held {
                effects.push(EffectView::TruncateSuffix(entry.index))
            } else {
                effects
            };
            if held {
                lemma_truncated_rests(node, entry.index);
            }
            let plain = NodeView { log: state.log.push(entry), ..state };
            lemma_absorbed_rests(plain, from, request, i + 1, so_far, appended.push(entry));
            if let Ok(projected) = state.configured(entry) {
                lemma_configured_watch(state, entry);
                let next = NodeView { log: projected.log.push(entry), ..projected };
                lemma_absorbed_rests(next, from, request, i + 1, so_far, appended.push(entry));
            }
        }
    }
}

/// An append of this term or a later one finds a node that does not lead, and puts
/// its election off.
pub(crate) proof fn lemma_append_rests(
    node: NodeView,
    from: NodeId,
    term: Term,
    request: AppendView,
    now: Time,
)
    requires
        term.0 >= node.hard_state.term.0,
    ensures
        ({
            let after = node.append_asked(from, term, request, now).0;
            let reset = node.election_reset(now);
            &&& after.role !is Leader
            &&& after.election_deadline == reset.election_deadline
            &&& after.hard_state == node.hard_state
            &&& after.config == node.config
            &&& after.id == node.id
            &&& after.transfer == node.transfer
            &&& after.leader_id == Some(from)
        }),
{
    reveal(NodeView::append_asked);
    reveal(NodeView::applied);
    let state = NodeView { role: node.resting_role(), leader_id: Some(from), ..node }.election_reset(
        now,
    );
    lemma_absorbed_rests(state, from, request, 0, Seq::empty(), Seq::empty());
}

proof fn lemma_answered_watch(node: NodeView, peer: NodeId, response: AppendResponse)
    ensures
        ({
            let after = node.answered(peer, response).0;
            &&& after.quorum_deadline == node.quorum_deadline
            &&& after.config == node.config
            &&& after.id == node.id
            &&& after.heard_quorum == if response.success && node.roster.voters.contains(peer) {
                node.heard_quorum.insert(peer)
            } else {
                node.heard_quorum
            }
        }),
{
    reveal(NodeView::answered);
    lemma_advanced_watch(node.matched(peer, response.match_index));
}

proof fn lemma_taken_grows(node: NodeView, message: MessageView, now: Time)
    requires
        message.term == node.hard_state.term,
        node.leader_id is None,
    ensures
        node.taken(message, now).0.hard_state.term == node.hard_state.term,
{
    reveal(NodeView::taken);
    match message.kind {
        KindView::AppendReq(request) => {
            lemma_append_rests(node, message.from, message.term, request, now);
        },
        KindView::AppendResp(response) => {
            reveal(NodeView::append_answered);
            reveal(NodeView::answered);
            lemma_advanced_watch(node.matched(message.from, response.match_index));
            let heard = NodeView {
                last_contact: node.last_contact.insert(message.from, now),
                ..node
            };
            lemma_advanced_watch(heard.matched(message.from, response.match_index));
        },
        KindView::PreVoteResp { .. } => {},
        KindView::VoteResp { .. } => {
            let counted = NodeView { votes: node.votes.insert(message.from), ..node };
            reveal(NodeView::became_leader);
            lemma_advanced_watch(counted.elected());
            lemma_resumed_watch(counted.elected().advanced().0);
        },
        _ => {},
    }
}

proof fn lemma_received_watch(node: NodeView, message: MessageView, now: Time)
    requires
        node.role is Leader,
        node.received(message, now).0.role is Leader,
        node.received(message, now).0.hard_state.term == node.hard_state.term,
        node.hard_state.term.0 < u64::MAX,
    ensures
        ({
            let after = node.received(message, now).0;
            &&& after.quorum_deadline == node.quorum_deadline
            &&& after.config == node.config
            &&& after.id == node.id
            &&& after.heard_quorum == if confirms(node, message) {
                node.heard_quorum.insert(message.from)
            } else {
                node.heard_quorum
            }
        }),
{
    reveal(NodeView::received);
    reveal(NodeView::taken);
    if node.adopts_term(message) {
        let adopted = node.term_adopted(message.term);
        lemma_taken_grows(adopted, message, now);
    } else if known_version(message.proto_version) {
        match message.kind {
            KindView::AppendReq(request) => {
                if message.term.0 >= node.hard_state.term.0 {
                    lemma_append_rests(node, message.from, message.term, request, now);
                } else {
                    reveal(NodeView::append_asked);
                }
            },
            KindView::AppendResp(response) => {
                reveal(NodeView::append_answered);
                lemma_answered_watch(node, message.from, response);
                let heard = NodeView {
                    last_contact: node.last_contact.insert(message.from, now),
                    ..node
                };
                lemma_answered_watch(heard, message.from, response);
            },
            KindView::TimeoutNow { intent_index } => {
                if node.campaign_valid(message, intent_index) {
                    reveal(NodeView::election_started);
                    reveal(NodeView::became_leader);
                    let next = node.candidate();
                    lemma_advanced_watch(next.elected());
                    lemma_resumed_watch(next.elected().advanced().0);
                    assert(node.election_started().0.hard_state.term.0 == node.hard_state.term.0 + 1);
                }
            },
            _ => {},
        }
    }
}

proof fn lemma_event_watch(node: NodeView, event: NodeEvent, until: Time)
    requires
        node.role is Leader,
        after_event(node, event).role is Leader,
        after_event(node, event).hard_state.term == node.hard_state.term,
        node.hard_state.term.0 < u64::MAX,
        node.quorum_deadline == until,
        until.0 != 0,
        event matches NodeEvent::Tick { now } ==> now.0 < until.0,
    ensures
        ({
            let after = after_event(node, event);
            &&& after.quorum_deadline == node.quorum_deadline
            &&& after.config == node.config
            &&& after.id == node.id
            &&& after.heard_quorum == match event {
                NodeEvent::Message { message, .. } => if confirms(node, message) {
                    node.heard_quorum.insert(message.from)
                } else {
                    node.heard_quorum
                },
                _ => node.heard_quorum,
            }
        }),
{
    match event {
        NodeEvent::Message { message, now } => {
            lemma_received_watch(node, message, now);
        },
        NodeEvent::Tick { now } => {
            reveal(NodeView::ticked);
            reveal(NodeView::beat);
            lemma_finished_watch(node, TransferResult::Timeout, now);
        },
        NodeEvent::Proposal { payload } => {
            reveal(NodeView::entry_offered);
            let entry = EntryView {
                term: node.hard_state.term,
                index: LogIndex((node.last_index().0 + 1) as u64),
                kind: EntryKind::App,
                payload,
            };
            lemma_advanced_watch(NodeView { log: node.log.push(entry), ..node });
        },
    }
}

proof fn lemma_events_watch(node: NodeView, events: Seq<NodeEvent>, until: Time)
    requires
        leads_through(node, events, until),
        node.hard_state.term.0 < u64::MAX,
        node.quorum_deadline == until,
        until.0 != 0,
    ensures
        ({
            let after = after_events(node, events);
            &&& after.role is Leader
            &&& after.hard_state.term == node.hard_state.term
            &&& after.quorum_deadline == until
            &&& after.config == node.config
            &&& after.id == node.id
            &&& after.heard_quorum == node.heard_quorum.union(confirmed(node, events))
        }),
    decreases events.len(),
{
    assert(events.take(events.len() as int) =~= events);
    assert(after_events(node, events.take(events.len() as int)).role is Leader);
    if events.len() == 0 {
        assert(node.heard_quorum.union(Set::empty()) =~= node.heard_quorum);
    } else {
        let front = events.drop_last();
        assert forall|k: int| 0 <= k <= front.len() implies {
            let state = #[trigger] after_events(node, front.take(k));
            state.role is Leader && state.hard_state.term == node.hard_state.term
        } by {
            assert(front.take(k) =~= events.take(k));
            assert(after_events(node, events.take(k)).role is Leader);
        }
        assert forall|k: int| 0 <= k < front.len() implies ((
        #[trigger] front[k]) matches NodeEvent::Tick { now } ==> now.0 < until.0) by {
            assert(front[k] == events[k]);
        }
        lemma_events_watch(node, front, until);
        let before = after_events(node, front);
        let last = events.len() - 1;
        assert(events[last] == events.last());
        lemma_event_watch(before, events.last(), until);
        assert(after_events(node, events).heard_quorum =~= node.heard_quorum.union(
            confirmed(node, events),
        ));
    }
}

/// A leader that is heard stays, and one that is not steps down. From the tick at
/// which a leader begins to listen, whatever messages, proposals and earlier ticks
/// come, the tick that ends the check leaves it leading its term exactly where the
/// voters that confirmed it in between, with itself, decide; otherwise it follows,
/// in the same term, and knows no leader.
pub proof fn law_heard_leaders_stay(
    leader: NodeView,
    start: Time,
    events: Seq<NodeEvent>,
    end: Time,
)
    requires
        leader.role is Leader,
        leader.hard_state.term.0 < u64::MAX,
        leader.transfer is None,
        leader.quorum_deadline == Time(0) || start.0 >= leader.quorum_deadline.0,
        leader.ticked(start).0.role is Leader,
        start.0 + leader.config.election_min.0 <= u64::MAX,
        start.0 + leader.config.election_min.0 > 0,
        leads_through(
            leader.ticked(start).0,
            events,
            Time((start.0 + leader.config.election_min.0) as u64),
        ),
        end.0 >= start.0 + leader.config.election_min.0,
        after_events(leader.ticked(start).0, events).transfer is None,
    ensures
        ({
            let begun = leader.ticked(start).0;
            let watched = after_events(begun, events);
            let ended = watched.ticked(end);
            let heard = confirmed(begun, events).insert(leader.id);
            &&& ended.0.hard_state.term == leader.hard_state.term
            &&& decides(watched.roster, heard) ==> ended.0.role is Leader
            &&& !decides(watched.roster, heard) ==> {
                &&& ended.0.role is Follower
                &&& ended.0.leader_id is None
                &&& forall|i: int| 0 <= i < ended.1.len() ==> !((#[trigger] ended.1[i]) is Send)
            }
        }),
{
    let until = Time((start.0 + leader.config.election_min.0) as u64);
    let begun = leader.ticked(start).0;
    assert(begun.heard_quorum == set![leader.id] && begun.quorum_deadline == until && begun.id
        == leader.id && begun.config == leader.config && begun.hard_state == leader.hard_state) by {
        reveal(NodeView::ticked);
        reveal(NodeView::beat);
    }
    lemma_events_watch(begun, events, until);
    let watched = after_events(begun, events);
    let heard = confirmed(begun, events).insert(leader.id);
    assert(set![leader.id].union(confirmed(begun, events)) =~= heard);
    reveal(NodeView::ticked);
    reveal(NodeView::beat);
}

/// Whoever wins an election leads at the next tick still, whenever that comes.
pub proof fn law_new_leaders_outlast_their_first_tick(
    node: NodeView,
    message: MessageView,
    now: Time,
    tick: Time,
)
    requires
        node.role !is Leader,
        node.hard_state.term.0 < u64::MAX,
        message.term.0 < u64::MAX,
        node.received(message, now).0.role is Leader,
        node.received(message, now).0.transfer is None,
    ensures
        ({
            let leader = node.received(message, now).0;
            &&& leader.ticked(tick).0.role is Leader
            &&& leader.ticked(tick).0.hard_state == leader.hard_state
        }),
{
    let base = if node.adopts_term(message) {
        node.term_adopted(message.term)
    } else {
        node
    };
    reveal(NodeView::received);
    lemma_taken_new(base, message, now);
    reveal(NodeView::ticked);
    reveal(NodeView::beat);
}

proof fn lemma_became_watch(node: NodeView)
    ensures
        node.became_leader().0.quorum_deadline == Time(0),
{
    reveal(NodeView::became_leader);
    lemma_advanced_watch(node.elected());
    lemma_resumed_watch(node.elected().advanced().0);
}

proof fn lemma_taken_new(node: NodeView, message: MessageView, now: Time)
    requires
        node.role !is Leader,
        node.taken(message, now).0.role is Leader,
    ensures
        node.taken(message, now).0.quorum_deadline == Time(0),
{
    reveal(NodeView::taken);
    match message.kind {
        KindView::PreVoteResp { .. } => {
            let counted = NodeView { pre_votes: node.pre_votes.insert(message.from), ..node };
            reveal(NodeView::election_started);
            lemma_became_watch(counted.candidate());
        },
        KindView::VoteResp { .. } => {
            lemma_became_watch(NodeView { votes: node.votes.insert(message.from), ..node });
        },
        KindView::AppendReq(request) => {
            if message.term.0 >= node.hard_state.term.0 {
                lemma_append_rests(node, message.from, message.term, request, now);
            } else {
                reveal(NodeView::append_asked);
            }
        },
        KindView::AppendResp(response) => {
            reveal(NodeView::append_answered);
        },
        KindView::TimeoutNow { .. } => {
            reveal(NodeView::election_started);
            lemma_became_watch(node.candidate());
        },
        _ => {},
    }
}

/// Whether an effect sends a request of a kind to a member.
pub open spec fn sends_to(effect: EffectView, to: NodeId, term: Term, kind: KindView) -> bool {
    effect matches EffectView::Send(message) && message.to == to && message.term == term
        && message.kind == kind
}

proof fn lemma_drawn(node: NodeView)
    requires
        node.config.election_min.0 < u64::MAX - 1,
        node.config.election_max.0 < u64::MAX,
    ensures
        ({
            let low = node.config.election_min.0;
            let high = larger(node.config.election_max.0, (low + 1) as u64);
            low <= node.rng.drawn(low, (high + 1) as u64) <= high
        }),
{
    let low = node.config.election_min.0;
    let high = larger(node.config.election_max.0, (low + 1) as u64);
    let span = (high + 1 - low) as u64;
    assert(node.rng.word() % span < span);
}

/// A node that hears of its leader leaves it alone: once an append of its term or a
/// later one came, whatever came of it, the node is in that term, knows the leader,
/// and no tick before the shortest election time makes it do anything.
pub proof fn law_heartbeats_put_elections_off(
    node: NodeView,
    message: MessageView,
    now: Time,
    tick: Time,
)
    requires
        message.kind is AppendReq,
        known_version(message.proto_version),
        message.term.0 >= node.hard_state.term.0,
        node.config.election_min.0 < u64::MAX - 1,
        node.config.election_max.0 < u64::MAX,
        tick.0 < now.0 + node.config.election_min.0 <= u64::MAX,
    ensures
        ({
            let after = node.received(message, now).0;
            &&& after.role !is Leader
            &&& after.hard_state.term == message.term
            &&& after.leader_id == Some(message.from)
            &&& after.ticked(tick) == (after, Seq::<EffectView>::empty())
        }),
{
    reveal(NodeView::received);
    reveal(NodeView::taken);
    let base = if node.adopts_term(message) {
        node.term_adopted(message.term)
    } else {
        node
    };
    if let KindView::AppendReq(request) = message.kind {
        lemma_append_rests(base, message.from, message.term, request, now);
    }
    lemma_drawn(base);
    reveal(NodeView::ticked);
    reveal(NodeView::beat);
}

pub(crate) proof fn lemma_requests_cover(
    node: NodeView,
    peers: Seq<NodeId>,
    term: Term,
    kind: KindView,
    peer: NodeId,
)
    requires
        peers.contains(peer),
        peer != node.id,
    ensures
        exists|i: int|
            0 <= i < node.requests_for(peers, term, kind).len() && sends_to(
                #[trigger] node.requests_for(peers, term, kind)[i],
                peer,
                term,
                kind,
            ),
    decreases peers.len(),
{
    let all = node.requests_for(peers, term, kind);
    let head = node.requests_for(peers.drop_last(), term, kind);
    if peers.last() == peer {
        assert(sends_to(all[all.len() - 1], peer, term, kind));
    } else {
        let k = choose|k: int| 0 <= k < peers.len() && peers[k] == peer;
        assert(peers.drop_last()[k] == peer);
        lemma_requests_cover(node, peers.drop_last(), term, kind, peer);
        let i = choose|i: int|
            0 <= i < head.len() && sends_to(#[trigger] head[i], peer, term, kind);
        assert(all[i] == head[i]);
    }
}

/// A voter that hears of no leader for the longest election time asks whether it
/// could win: every other voter, for the next term, with where its own log ends. It
/// binds itself to nothing by that: its term and its vote stay.
pub proof fn law_silence_starts_elections(node: NodeView, tick: Time, voter: NodeId)
    requires
        node.role !is Leader,
        node.roster.voters.contains(node.id),
        node.roster.voters.finite(),
        node.hard_state.term.0 < u64::MAX,
        tick.0 >= node.election_deadline.0,
        !decides(node.roster, set![node.id]),
        node.roster.voters.contains(voter),
        voter != node.id,
    ensures
        ({
            let step = node.ticked(tick);
            &&& step.0.hard_state == node.hard_state
            &&& step.0.role is Candidate
            &&& exists|i: int|
                0 <= i < step.1.len() && sends_to(
                    #[trigger] step.1[i],
                    voter,
                    Term((node.hard_state.term.0 + 1) as u64),
                    KindView::PreVoteReq {
                        last_index: node.last_index(),
                        last_term: node.last_term(),
                    },
                )
        }),
{
    reveal(NodeView::ticked);
    reveal(NodeView::beat);
    reveal(NodeView::pre_vote_started);
    lemma_ascending_set(node.roster.voters);
    assert(ascending(node.roster.voters).to_set().contains(voter));
    let next = NodeView {
        role: Role::Candidate,
        pre_votes: set![node.id],
        votes: Set::empty(),
        ..node
    }.election_reset(tick);
    lemma_requests_cover(
        next,
        ascending(node.roster.voters),
        Term((node.hard_state.term.0 + 1) as u64),
        KindView::PreVoteReq { last_index: node.last_index(), last_term: node.last_term() },
        voter,
    );
    assert(next.last_index() == node.last_index() && next.last_term() == node.last_term());
    assert(!next.roster.quorum(next.pre_votes));
    let term = Term((node.hard_state.term.0 + 1) as u64);
    let kind = KindView::PreVoteReq {
        last_index: node.last_index(),
        last_term: node.last_term(),
    };
    let requests = next.requests_for(ascending(node.roster.voters), term, kind);
    assert(node.ticked(tick).0 == next);
    assert(node.ticked(tick).1 == requests);
    let i = choose|i: int|
        0 <= i < requests.len() && sends_to(#[trigger] requests[i], voter, term, kind);
    assert(sends_to(node.ticked(tick).1[i], voter, term, kind));
}

/// The longest wait for a leader: after an append, a tick as late as the longest
/// election time finds the election due.
pub proof fn law_elections_come_due(node: NodeView, message: MessageView, now: Time, tick: Time)
    requires
        message.kind is AppendReq,
        known_version(message.proto_version),
        message.term.0 >= node.hard_state.term.0,
        node.config.election_min.0 < u64::MAX - 1,
        node.config.election_max.0 < u64::MAX,
        tick.0 >= now.0 + node.config.election_max.0,
        tick.0 > now.0 + node.config.election_min.0,
    ensures
        tick.0 >= node.received(message, now).0.election_deadline.0,
{
    reveal(NodeView::received);
    reveal(NodeView::taken);
    let base = if node.adopts_term(message) {
        node.term_adopted(message.term)
    } else {
        node
    };
    if let KindView::AppendReq(request) = message.kind {
        lemma_append_rests(base, message.from, message.term, request, now);
    }
    lemma_drawn(base);
}

/// Enough pre-votes start the election: a candidate that more of the voters decide
/// for moves to the next term, votes for itself there, and asks every other voter
/// for its vote. Fewer change nothing but the tally.
pub proof fn law_enough_pre_votes_start_the_election(
    node: NodeView,
    message: MessageView,
    now: Time,
    voter: NodeId,
)
    requires
        node.role is Candidate || node.role is Follower,
        node.roster.voters.contains(node.id),
        node.roster.voters.finite(),
        node.hard_state.term.0 < u64::MAX,
        known_version(message.proto_version),
        message.kind == (KindView::PreVoteResp { granted: true }),
        message.term.0 == node.hard_state.term.0 + 1,
        !decides(node.roster, set![node.id]),
        node.roster.voters.contains(voter),
        voter != node.id,
    ensures
        ({
            let step = node.received(message, now);
            let tally = node.pre_votes.insert(message.from);
            &&& decides(node.roster, tally) ==> {
                &&& step.0.hard_state.term == message.term
                &&& step.0.hard_state.voted_for == Some(node.id)
                &&& step.0.role is Candidate
                &&& exists|i: int|
                    0 <= i < step.1.len() && sends_to(
                        #[trigger] step.1[i],
                        voter,
                        message.term,
                        KindView::VoteReq {
                            last_index: node.last_index(),
                            last_term: node.last_term(),
                        },
                    )
            }
            &&& !decides(node.roster, tally) ==> step.0 == (NodeView { pre_votes: tally, ..node })
                && step.1.len() == 0
        }),
{
    reveal(NodeView::received);
    reveal(NodeView::taken);
    reveal(NodeView::election_started);
    let counted = NodeView { pre_votes: node.pre_votes.insert(message.from), ..node };
    if decides(node.roster, counted.pre_votes) {
        let next = counted.candidate();
        let peers = ascending(next.roster.voters);
        let kind = KindView::VoteReq { last_index: next.last_index(), last_term: next.last_term() };
        lemma_ascending_set(node.roster.voters);
        assert(peers.to_set().contains(voter));
        lemma_requests_cover(next, peers, next.hard_state.term, kind, voter);
        let requests = next.requests_for(peers, next.hard_state.term, kind);
        let i = choose|i: int|
            0 <= i < requests.len() && sends_to(
                #[trigger] requests[i],
                voter,
                next.hard_state.term,
                kind,
            );
        let all = seq![EffectView::PersistHard(next.hard_state)] + requests;
        assert(all[i + 1] == requests[i]);
        assert(node.received(message, now).1 == all);
    }
}

/// Enough votes elect: a candidate leads its term from the vote on with which the
/// voters decide for it, and not before.
pub proof fn law_enough_votes_elect(node: NodeView, message: MessageView, now: Time)
    requires
        node.role is Candidate,
        node.roster.joint is None,
        node.transfer is None,
        known_version(message.proto_version),
        message.kind == (KindView::VoteResp { granted: true }),
        message.term == node.hard_state.term,
    ensures
        ({
            let after = node.received(message, now).0;
            &&& after.hard_state == node.hard_state
            &&& decides(node.roster, node.votes.insert(message.from)) ==> after.role is Leader
                && after.leader_id == Some(node.id)
            &&& !decides(node.roster, node.votes.insert(message.from)) ==> after.role is Candidate
        }),
{
    reveal(NodeView::received);
    reveal(NodeView::taken);
    let counted = NodeView { votes: node.votes.insert(message.from), ..node };
    lemma_became_watch(counted);
    reveal(NodeView::became_leader);
    reveal(NodeView::resumed);
    reveal(NodeView::advanced);
    reveal(NodeView::applied);
    reveal(NodeView::config_appended);
    reveal(NodeView::configured);
    reveal(NodeView::transfer_finished);
}

/// Whether a log that ends with `index` and `term` goes as far as a node's own: its
/// last entry is of a later term, or of the same term and no earlier.
pub open spec fn goes_as_far(node: NodeView, index: LogIndex, term: Term) -> bool {
    let own_term = if node.log.len() == 0 {
        node.snapshot_term
    } else {
        node.log[node.log.len() - 1].term
    };
    own_term.0 < term.0 || (own_term == term && node.snapshot_index.0 + node.log.len() <= index.0)
}

/// A voter gives its vote in a term to the first voter that asks for it with a log
/// that goes as far as its own, and to nobody else: the answer says so, and the
/// vote is what the voter goes on with.
pub proof fn law_votes_go_to_logs_that_go_as_far(
    node: NodeView,
    message: MessageView,
    now: Time,
    last_index: LogIndex,
    last_term: Term,
)
    requires
        node.snapshot_index.0 + node.log.len() <= u64::MAX,
        known_version(message.proto_version),
        message.kind == (KindView::VoteReq { last_index, last_term }),
        node.role is Learner ==> !node.roster.voters.contains(node.id),
    ensures
        ({
            let step = node.received(message, now);
            let later = message.term.0 > node.hard_state.term.0;
            let free = later || (message.term == node.hard_state.term && (
            node.hard_state.voted_for is None || node.hard_state.voted_for == Some(message.from)));
            let may_vote = if later {
                node.roster.voters.contains(node.id)
            } else {
                node.role !is Learner
            };
            let granted = free && may_vote && node.roster.voters.contains(message.from)
                && goes_as_far(node, last_index, last_term);
            &&& step.1.last() matches EffectView::Send(answer)
            &&& answer.to == message.from && answer.kind == (KindView::VoteResp { granted })
            &&& granted ==> step.0.hard_state == (HardState {
                term: message.term,
                voted_for: Some(message.from),
            })
            &&& !granted && !later ==> step.0.hard_state == node.hard_state
            &&& !granted && later ==> step.0.hard_state == (HardState {
                term: message.term,
                voted_for: None,
            })
        }),
{
    reveal(NodeView::received);
    reveal(NodeView::taken);
}

pub(crate) proof fn lemma_appends_cover(node: NodeView, peers: Seq<NodeId>, peer: NodeId)
    requires
        peers.contains(peer),
        peer != node.id,
    ensures
        node.appends_for(peers).contains(node.append_for(peer)),
    decreases peers.len(),
{
    let all = node.appends_for(peers);
    let head = node.appends_for(peers.drop_last());
    if peers.last() == peer {
        assert(all[all.len() - 1] == node.append_for(peer));
    } else {
        let k = choose|k: int| 0 <= k < peers.len() && peers[k] == peer;
        assert(peers.drop_last()[k] == peer);
        lemma_appends_cover(node, peers.drop_last(), peer);
        let i = choose|i: int| 0 <= i < head.len() && head[i] == node.append_for(peer);
        assert(all[i] == head[i]);
    }
}

pub(crate) proof fn lemma_broadcast_covers(node: NodeView, peer: NodeId)
    requires
        node.roster.voters.finite(),
        node.roster.learners.finite(),
        node.retiring_peers.dom().finite(),
        node.roster.voters.contains(peer) || node.roster.learners.contains(peer)
            || node.retiring_peers.dom().contains(peer),
        peer != node.id,
    ensures
        node.broadcast().contains(node.append_for(peer)),
{
    reveal(NodeView::broadcast);
    let voters = ascending(node.roster.voters);
    let learners = ascending(node.roster.learners);
    let retiring = ascending(node.retiring_peers.dom());
    lemma_ascending_set(node.roster.voters);
    lemma_ascending_set(node.roster.learners);
    lemma_ascending_set(node.retiring_peers.dom());
    let a = node.appends_for(voters);
    let b = node.appends_for(learners);
    let c = node.appends_for(retiring);
    let due = node.append_for(peer);
    let all = a + b + c;
    if node.roster.voters.contains(peer) {
        assert(voters.to_set().contains(peer));
        lemma_appends_cover(node, voters, peer);
        let i = choose|i: int| 0 <= i < a.len() && a[i] == due;
        assert(all[i] == due);
    } else if node.roster.learners.contains(peer) {
        assert(learners.to_set().contains(peer));
        lemma_appends_cover(node, learners, peer);
        let i = choose|i: int| 0 <= i < b.len() && b[i] == due;
        assert(all[a.len() + i] == due);
    } else {
        assert(retiring.to_set().contains(peer));
        lemma_appends_cover(node, retiring, peer);
        let i = choose|i: int| 0 <= i < c.len() && c[i] == due;
        assert(all[a.len() + b.len() + i] == due);
    }
}

/// A leader is heard of: at the tick at which its heartbeat is due it sends an
/// append of its term to every other voter, learner and retiring peer, and the next
/// heartbeat is due an interval later.
pub proof fn law_heartbeats_reach_everyone(leader: NodeView, now: Time, peer: NodeId)
    requires
        leader.role is Leader,
        leader.transfer is None,
        now.0 >= leader.heartbeat_deadline.0,
        leader.ticked(now).0.role is Leader,
        leader.roster.voters.finite(),
        leader.roster.learners.finite(),
        leader.retiring_peers.dom().finite(),
        leader.roster.voters.contains(peer) || leader.roster.learners.contains(peer)
            || leader.retiring_peers.dom().contains(peer),
        peer != leader.id,
        now.0 + leader.config.heartbeat.0 <= u64::MAX,
    ensures
        ({
            let step = leader.ticked(now);
            &&& exists|i: int|
                0 <= i < step.1.len() && ((#[trigger] step.1[i]) matches EffectView::Send(message)
                    && message.to == peer && message.from == leader.id && message.term
                    == leader.hard_state.term && message.kind is AppendReq)
            &&& step.0.heartbeat_deadline.0 == now.0 + leader.config.heartbeat.0
        }),
{
    reveal(NodeView::ticked);
    reveal(NodeView::beat);
    let watched = if leader.quorum_deadline == Time(0) || now.0 >= leader.quorum_deadline.0 {
        leader.quorum_restarted(now)
    } else {
        leader
    };
    let next = NodeView { heartbeat_deadline: now.later(watched.config.heartbeat), ..watched };
    lemma_broadcast_covers(next, peer);
    let sent = next.broadcast();
    let i = choose|i: int| 0 <= i < sent.len() && sent[i] == next.append_for(peer);
    let step = leader.ticked(now);
    assert(step.1[i] == sent[i]);
    reveal(NodeView::append_for);
}

/// A node that is no learner would vote, in a later term than its own, for whoever has a
/// log that goes as far as its own; it says so to the one that asks, in the term that was
/// asked for, and does nothing else.
pub proof fn law_pre_votes_go_to_logs_that_go_as_far(
    node: NodeView,
    message: MessageView,
    now: Time,
    last_index: LogIndex,
    last_term: Term,
)
    requires
        node.snapshot_index.0 + node.log.len() <= u64::MAX,
        known_version(message.proto_version),
        message.kind == (KindView::PreVoteReq { last_index, last_term }),
    ensures
        ({
            let step = node.received(message, now);
            let granted = message.term.0 > node.hard_state.term.0 && node.role !is Learner
                && goes_as_far(node, last_index, last_term);
            &&& step.0 == node
            &&& step.1.len() == 1
            &&& step.1[0] matches EffectView::Send(answer)
            &&& answer.from == node.id && answer.to == message.from && answer.term == message.term
            &&& answer.kind == (KindView::PreVoteResp { granted })
        }),
{
    reveal(NodeView::received);
    reveal(NodeView::taken);
}

} // verus!
