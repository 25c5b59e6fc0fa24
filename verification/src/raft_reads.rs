//! That a read which a quorum confirms sees everything that was committed
//! before it was asked for.
use vstd::prelude::*;

use crate::ids::{NodeId, Term};
use crate::raft_agreement::{
    agreement_holds, backers, begun, chosen, covers, goes_on, grown, law_committed_entries_agree,
    lemma_ack, lemma_agreement_on, lemma_ballot, lemma_begun, lemma_chosen_on, lemma_commit,
    lemma_counted, lemma_grown_chain, lemma_grown_same, lemma_lead, lemma_leaders_hold_the_chosen,
    lemma_log, lemma_message, lemma_one_leader, lemma_possible_moves, lemma_shorter, lemma_sorted,
    lemma_took, lemma_vote, moves, own_ballot, plain_cluster, plain_run, plainly_possible,
    recorded, safe, start_of, Ack, HistoryView,
};
use crate::raft_laws::law_quorums_meet;
use crate::raft_logs::{law_requests_are_honest, took_whole, whole_log};
use crate::raft_model::{more_than_half, RosterView, Step};
use crate::raft_safety::{moved, Ballot, ClusterView};
use crate::raft_types::{EffectView, EntryKind, EntryView, KindView, MessageView};

verus! {

/// Whether a node leads a term.
pub open spec fn leads(cluster: ClusterView, id: NodeId, term: Term) -> bool {
    &&& cluster.nodes.dom().contains(id)
    &&& cluster.nodes[id].role is Leader
    &&& cluster.nodes[id].hard_state.term == term
}

/// Whether a past goes on by a transition.
pub open spec fn linked(h: HistoryView, next: HistoryView, voters: Set<NodeId>) -> bool {
    exists|id: NodeId, heard: Option<MessageView>, step: Step| #[trigger]
        moves(h, voters, id, heard, step) && next == recorded(h, id, heard, step)
}

/// Whether these are the pasts of a run, moment by moment.
pub open spec fn tells_of(
    pasts: Seq<HistoryView>,
    run: Seq<ClusterView>,
    voters: Set<NodeId>,
) -> bool {
    &&& pasts.len() == run.len()
    &&& forall|n: int|
        0 <= n < run.len() ==> (#[trigger] pasts[n]).cluster == run[n] && agreement_holds(
            pasts[n],
            voters,
        )
    &&& forall|n: int| 0 <= n < run.len() - 1 ==> #[trigger] linked_at(pasts, n, voters)
    &&& pasts[0].logs.dom() == Set::<Term>::empty()
}

pub open spec fn linked_at(pasts: Seq<HistoryView>, n: int, voters: Set<NodeId>) -> bool {
    linked(pasts[n], pasts[n + 1], voters)
}

/// The pasts of a run up to a moment.
proof fn lemma_pasts(
    run: Seq<ClusterView>,
    voters: Set<NodeId>,
    n: int,
) -> (pasts: Seq<HistoryView>)
    requires
        plain_run(run, voters),
        0 < n <= run.len(),
    ensures
        tells_of(pasts, run.take(n), voters),
    decreases n,
{
    if n == 1 {
        assert(plain_cluster(run[0], voters));
        let h = lemma_begun(run[0], voters);
        let pasts = seq![h];
        pasts
    } else {
        let early = lemma_pasts(run, voters, n - 1);
        let h = early[n - 2];
        assert(h.cluster == run.take(n - 1)[n - 2]);
        assert(goes_on(run, n - 2));
        let (id, heard, step) = choose|id: NodeId, heard: Option<MessageView>, step: Step|
            #[trigger] plainly_possible(run[n - 2], id, heard, step) && run[n - 1] == moved(
                run[n - 2],
                id,
                step,
            );
        assert(plain_cluster(run[n - 2], voters));
        assert(plain_cluster(run[n - 1], voters));
        lemma_possible_moves(h, voters, id, heard, step);
        lemma_agreement_on(h, voters, id, heard, step);
        let next = recorded(h, id, heard, step);
        let pasts = early.push(next);
        assert forall|m: int| 0 <= m < n implies (#[trigger] pasts[m]).cluster == run.take(n)[m]
            && agreement_holds(pasts[m], voters) by {
            if m < n - 1 {
                assert(pasts[m] == early[m]);
                assert(early[m].cluster == run.take(n - 1)[m]);
            }
        }
        assert forall|m: int| 0 <= m < n - 1 implies #[trigger] linked_at(pasts, m, voters) by {
            if m < n - 2 {
                assert(linked_at(early, m, voters));
                assert(pasts[m] == early[m] && pasts[m + 1] == early[m + 1]);
            } else {
                assert(moves(h, voters, id, heard, step));
                assert(pasts[m] == h && pasts[m + 1] == next);
            }
        }
        pasts
    }
}

proof fn lemma_link(
    pasts: Seq<HistoryView>,
    run: Seq<ClusterView>,
    voters: Set<NodeId>,
    n: int,
) -> (link: (NodeId, Option<MessageView>, Step))
    requires
        tells_of(pasts, run, voters),
        0 <= n < run.len() - 1,
    ensures
        moves(pasts[n], voters, link.0, link.1, link.2),
        pasts[n + 1] == recorded(pasts[n], link.0, link.1, link.2),
        grown(pasts[n], pasts[n + 1]),
        pasts[n].cluster == run[n],
        pasts[n + 1].cluster == run[n + 1],
        agreement_holds(pasts[n], voters),
        agreement_holds(pasts[n + 1], voters),
{
    assert(linked_at(pasts, n, voters));
    let h = pasts[n];
    let (id, heard, step) = choose|id: NodeId, heard: Option<MessageView>, step: Step| #[trigger]
        moves(h, voters, id, heard, step) && pasts[n + 1] == recorded(h, id, heard, step);
    assert(agreement_holds(pasts[n], voters));
    assert(pasts[n].cluster == run[n]);
    assert(pasts[n + 1].cluster == run[n + 1]);
    lemma_agreement_on(h, voters, id, heard, step);
    (id, heard, step)
}

proof fn lemma_grown_over(
    pasts: Seq<HistoryView>,
    run: Seq<ClusterView>,
    voters: Set<NodeId>,
    i: int,
    j: int,
)
    requires
        tells_of(pasts, run, voters),
        0 <= i <= j < run.len(),
    ensures
        grown(pasts[i], pasts[j]),
    decreases j,
{
    if i == j {
        lemma_grown_same(pasts[i]);
    } else {
        lemma_grown_over(pasts, run, voters, i, j - 1);
        let link = lemma_link(pasts, run, voters, j - 1);
        lemma_grown_chain(pasts[i], pasts[j - 1], pasts[j]);
    }
}

/// A term that has a log was led.
proof fn lemma_was_led(
    pasts: Seq<HistoryView>,
    run: Seq<ClusterView>,
    voters: Set<NodeId>,
    n: int,
    term: Term,
) -> (m: int)
    requires
        tells_of(pasts, run, voters),
        0 <= n < run.len(),
        pasts[n].logs.dom().contains(term),
    ensures
        0 <= m <= n,
        leads(run[m], pasts[n].leaders[term], term),
    decreases n,
{
    if n == 0 {
        assert(false);
        0
    } else {
        let (id, heard, step) = lemma_link(pasts, run, voters, n - 1);
        if step.0.role is Leader && step.0.hard_state.term == term {
            n
        } else {
            lemma_was_led(pasts, run, voters, n - 1, term)
        }
    }
}

/// Whether a leader has committed as much, or it was chosen in another term.
pub open spec fn accounted(
    h: HistoryView,
    voters: Set<NodeId>,
    leader: NodeId,
    term: Term,
    commit: int,
) -> bool {
    ||| commit == 0
    ||| commit <= h.cluster.nodes[leader].commit_index.0
    ||| exists|t: Term, k: int| #[trigger] chosen(h, voters, t, k) && t != term && commit <= k
}

/// What the messages of a cluster say of a leader: none is ahead of what it has
/// committed or of its round.
pub open spec fn follows(
    h: HistoryView,
    voters: Set<NodeId>,
    leader: NodeId,
    term: Term,
    message: MessageView,
) -> bool {
    let node = h.cluster.nodes[leader];
    match message.kind {
        KindView::AppendReq(request) => {
            &&& accounted(h, voters, leader, term, request.leader_commit.0 as int)
            &&& message.term == term ==> request.read_round <= node.read_round
        },
        KindView::AppendResp(response) => response.success && message.term == term && message.to
            == leader ==> response.read_round <= node.read_round,
        _ => true,
    }
}

/// Whether a node leads a term, and nobody is ahead of it.
#[verifier::opaque]
pub open spec fn watched(
    h: HistoryView,
    voters: Set<NodeId>,
    leader: NodeId,
    term: Term,
) -> bool {
    &&& leads(h.cluster, leader, term)
    &&& forall|id: NodeId| #[trigger]
        h.cluster.nodes.dom().contains(id) ==> accounted(
            h,
            voters,
            leader,
            term,
            h.cluster.nodes[id].commit_index.0 as int,
        )
    &&& forall|message: MessageView| #[trigger]
        h.cluster.sent.contains(message) ==> follows(h, voters, leader, term, message)
}

/// What is committed was chosen.
proof fn lemma_safe_accounted(
    h: HistoryView,
    next: HistoryView,
    voters: Set<NodeId>,
    leader: NodeId,
    term: Term,
    log: Seq<EntryView>,
    commit: int,
    at: Term,
)
    requires
        safe(h, voters, log, commit, at),
        !h.logs.dom().contains(term),
        grown(h, next),
        voters.finite(),
    ensures
        accounted(next, voters, leader, term, commit),
{
    if commit != 0 {
        let (t, k) = choose|t: Term, k: int| #[trigger]
            chosen(h, voters, t, k) && commit <= k && t.0 <= at.0 && log.take(commit)
                == h.logs[t].take(commit);
        lemma_chosen_on(h, next, voters, t, k);
        assert(chosen(next, voters, t, k));
    }
}

/// When a node comes to lead a term that had no leader, nobody is ahead of it.
proof fn lemma_watch_begins(
    h: HistoryView,
    voters: Set<NodeId>,
    id: NodeId,
    heard: Option<MessageView>,
    step: Step,
)
    requires
        agreement_holds(h, voters),
        moves(h, voters, id, heard, step),
        step.0.role is Leader,
        !h.logs.dom().contains(step.0.hard_state.term),
    ensures
        watched(recorded(h, id, heard, step), voters, id, step.0.hard_state.term),
{
    let after = step.0;
    let term = after.hard_state.term;
    let next = recorded(h, id, heard, step);
    lemma_agreement_on(h, voters, id, heard, step);
    assert forall|who: NodeId| #[trigger] next.cluster.nodes.dom().contains(who) implies accounted(
        next,
        voters,
        id,
        term,
        next.cluster.nodes[who].commit_index.0 as int,
    ) by {
        if who != id {
            let node = h.cluster.nodes[who];
            lemma_commit(h, voters, who);
            lemma_safe_accounted(
                h,
                next,
                voters,
                id,
                term,
                node.log,
                node.commit_index.0 as int,
                node.hard_state.term,
            );
        }
    }
    assert forall|message: MessageView| #[trigger] next.cluster.sent.contains(message) implies
        follows(next, voters, id, term, message) by {
        if h.cluster.sent.contains(message) {
            lemma_message(h, voters, message);
            if let KindView::AppendReq(request) = message.kind {
                lemma_safe_accounted(
                    h,
                    next,
                    voters,
                    id,
                    term,
                    h.logs[message.term],
                    request.leader_commit.0 as int,
                    message.term,
                );
            }
            if let KindView::AppendResp(response) = message.kind {
                if response.success {
                    let len = response.match_index.0 as int;
                    lemma_ack(h, Ack { voter: message.from, term: message.term, len });
                }
            }
        } else {
            let i = choose|i: int|
                0 <= i < step.1.len() && #[trigger] step.1[i] == EffectView::Send(message);
            assert(step.1[i] == EffectView::Send(message));
        }
    }
    reveal(watched);
}

proof fn lemma_accounted_on(
    h: HistoryView,
    next: HistoryView,
    voters: Set<NodeId>,
    leader: NodeId,
    term: Term,
    commit: int,
    less: int,
)
    requires
        accounted(h, voters, leader, term, commit),
        0 <= less <= commit,
        grown(h, next),
        voters.finite(),
        h.cluster.nodes[leader].commit_index.0 <= next.cluster.nodes[leader].commit_index.0,
    ensures
        accounted(next, voters, leader, term, less),
{
    if commit != 0 && commit > h.cluster.nodes[leader].commit_index.0 {
        let (t, k) = choose|t: Term, k: int| #[trigger]
            chosen(h, voters, t, k) && t != term && commit <= k;
        lemma_chosen_on(h, next, voters, t, k);
        assert(chosen(next, voters, t, k));
    }
}

/// Nobody gets ahead of a leader while it leads.
proof fn lemma_watch_on(
    h: HistoryView,
    voters: Set<NodeId>,
    id: NodeId,
    heard: Option<MessageView>,
    step: Step,
    leader: NodeId,
    term: Term,
)
    requires
        agreement_holds(h, voters),
        moves(h, voters, id, heard, step),
        watched(h, voters, leader, term),
        leads(recorded(h, id, heard, step).cluster, leader, term),
    ensures
        watched(recorded(h, id, heard, step), voters, leader, term),
        h.cluster.nodes[leader].commit_index.0 <= recorded(
            h,
            id,
            heard,
            step,
        ).cluster.nodes[leader].commit_index.0,
        h.cluster.nodes[leader].read_round <= recorded(
            h,
            id,
            heard,
            step,
        ).cluster.nodes[leader].read_round,
{
    let before = h.cluster.nodes[id];
    let after = step.0;
    let next = recorded(h, id, heard, step);
    lemma_agreement_on(h, voters, id, heard, step);
    reveal(watched);
    lemma_lead(h, leader);
    lemma_lead(next, leader);
    if id == leader {
        if took_whole(before, heard, after) {
            lemma_took(h, voters, id, heard, step);
            assert(false);
        }
    } else if after.role is Leader {
        lemma_lead(next, id);
        assert(after.hard_state.term != term);
    }
    let index = after.commit_index.0 as int;
    assert(accounted(next, voters, leader, term, index)) by {
        if id != leader {
            if index <= before.commit_index.0 {
                assert(h.cluster.nodes.dom().contains(id));
                lemma_accounted_on(
                    h,
                    next,
                    voters,
                    leader,
                    term,
                    before.commit_index.0 as int,
                    index,
                );
            } else if after.role is Leader && 0 < index <= after.log.len() && after.log[index
                - 1].term == after.hard_state.term && before.roster.quorum(
                after.replicated(index),
            ) {
                lemma_counted(h, voters, id, heard, step, index);
                assert(chosen(next, voters, after.hard_state.term, index));
            } else {
                let message = heard->0;
                let request = message.kind->AppendReq_0;
                assert(h.cluster.sent.contains(message));
                lemma_accounted_on(
                    h,
                    next,
                    voters,
                    leader,
                    term,
                    request.leader_commit.0 as int,
                    index,
                );
            }
        }
    }
    assert forall|who: NodeId| #[trigger] next.cluster.nodes.dom().contains(who) implies accounted(
        next,
        voters,
        leader,
        term,
        next.cluster.nodes[who].commit_index.0 as int,
    ) by {
        if who != id {
            let commit = h.cluster.nodes[who].commit_index.0 as int;
            assert(h.cluster.nodes.dom().contains(who));
            lemma_accounted_on(h, next, voters, leader, term, commit, commit);
        }
    }
    assert forall|message: MessageView| #[trigger] next.cluster.sent.contains(message) implies
        follows(next, voters, leader, term, message) by {
        if h.cluster.sent.contains(message) {
            assert(follows(h, voters, leader, term, message));
            if let KindView::AppendReq(request) = message.kind {
                let commit = request.leader_commit.0 as int;
                lemma_accounted_on(h, next, voters, leader, term, commit, commit);
            }
        } else {
            let i = choose|i: int|
                0 <= i < step.1.len() && #[trigger] step.1[i] == EffectView::Send(message);
            assert(step.1[i] == EffectView::Send(message));
            if let KindView::AppendResp(response) = message.kind {
                if response.success && message.term == term && message.to == leader {
                    assert(h.cluster.sent.contains(heard->0));
                    assert(follows(h, voters, leader, term, heard->0));
                }
            }
        }
    }
}

/// Whether a node leads a term from a moment on up to another, and never did
/// before.
pub open spec fn leads_from(
    run: Seq<ClusterView>,
    leader: NodeId,
    term: Term,
    won: int,
    upto: int,
) -> bool {
    &&& 0 <= won <= upto < run.len()
    &&& forall|m: int| won <= m <= upto ==> leads(#[trigger] run[m], leader, term)
    &&& forall|m: int| 0 <= m < won ==> !leads(#[trigger] run[m], leader, term)
}

/// Before a node comes to lead a term, nobody led it.
proof fn lemma_unled(
    pasts: Seq<HistoryView>,
    run: Seq<ClusterView>,
    voters: Set<NodeId>,
    leader: NodeId,
    term: Term,
    won: int,
    upto: int,
    n: int,
)
    requires
        plain_run(run, voters),
        tells_of(pasts, run, voters),
        leads_from(run, leader, term, won, upto),
        0 <= n < won,
    ensures
        !pasts[n].logs.dom().contains(term),
{
    if pasts[n].logs.dom().contains(term) {
        let m = lemma_was_led(pasts, run, voters, n, term);
        let other = pasts[n].leaders[term];
        assert(leads(run[won], leader, term));
        lemma_one_leader(run, voters, m, other, won, leader);
        assert(!leads(run[m], leader, term));
    }
}

/// While a node leads, nobody gets ahead of it.
proof fn lemma_watch(
    pasts: Seq<HistoryView>,
    run: Seq<ClusterView>,
    voters: Set<NodeId>,
    leader: NodeId,
    term: Term,
    won: int,
    upto: int,
    n: int,
)
    requires
        plain_run(run, voters),
        tells_of(pasts, run, voters),
        leads_from(run, leader, term, won, upto),
        won <= n <= upto,
    ensures
        watched(pasts[n], voters, leader, term),
    decreases n,
{
    assert(leads(run[n], leader, term));
    if n == 0 {
        assert(begun(run[0]));
        assert(false);
    } else {
        let (id, heard, step) = lemma_link(pasts, run, voters, n - 1);
        if n == won {
            assert(!leads(run[n - 1], leader, term));
            lemma_unled(pasts, run, voters, leader, term, won, upto, n - 1);
            assert(id == leader);
            lemma_watch_begins(pasts[n - 1], voters, id, heard, step);
        } else {
            lemma_watch(pasts, run, voters, leader, term, won, upto, n - 1);
            lemma_watch_on(pasts[n - 1], voters, id, heard, step, leader, term);
        }
    }
}

/// What a leader has committed and its round never fall while it leads.
proof fn lemma_leader_rises(
    pasts: Seq<HistoryView>,
    run: Seq<ClusterView>,
    voters: Set<NodeId>,
    leader: NodeId,
    term: Term,
    won: int,
    upto: int,
    n: int,
    later: int,
)
    requires
        plain_run(run, voters),
        tells_of(pasts, run, voters),
        leads_from(run, leader, term, won, upto),
        won <= n <= later <= upto,
    ensures
        run[n].nodes[leader].commit_index.0 <= run[later].nodes[leader].commit_index.0,
        run[n].nodes[leader].read_round <= run[later].nodes[leader].read_round,
    decreases later,
{
    if n < later {
        lemma_leader_rises(
            pasts,
            run,
            voters,
            leader,
            term,
            won,
            upto,
            n,
            later - 1,
        );
        let (id, heard, step) = lemma_link(pasts, run, voters, later - 1);
        lemma_watch(pasts, run, voters, leader, term, won, upto, later - 1);
        assert(leads(run[later], leader, term));
        lemma_watch_on(pasts[later - 1], voters, id, heard, step, leader, term);
    }
}

/// Whether those who confirm a round of a leader, and the answers that do, were
/// in no later term when the round began.
#[verifier::opaque]
pub open spec fn timely(
    asked: ClusterView,
    cluster: ClusterView,
    leader: NodeId,
    term: Term,
    round: u64,
) -> bool {
    &&& forall|id: NodeId| #[trigger]
        cluster.nodes.dom().contains(id) ==> asked.nodes.dom().contains(id)
            && asked.nodes[id].hard_state.term.0 <= cluster.nodes[id].hard_state.term.0
    &&& forall|message: MessageView| #[trigger]
        cluster.sent.contains(message) && message.term == term && message.to == leader && (
        message.kind matches KindView::AppendResp(response) && response.success
            && response.read_round == round) ==> was_within(asked, message.from, term)
    &&& forall|peer: NodeId| #[trigger]
        cluster.nodes[leader].read_acks.contains(peer) && peer != leader ==> was_within(
            asked,
            peer,
            term,
        )
}

pub open spec fn was_within(asked: ClusterView, peer: NodeId, term: Term) -> bool {
    asked.nodes.dom().contains(peer) && asked.nodes[peer].hard_state.term.0 <= term.0
}

proof fn lemma_timely_on(
    asked: ClusterView,
    h: HistoryView,
    voters: Set<NodeId>,
    id: NodeId,
    heard: Option<MessageView>,
    step: Step,
    leader: NodeId,
    term: Term,
    round: u64,
)
    requires
        moves(h, voters, id, heard, step),
        timely(asked, h.cluster, leader, term, round),
        leads(h.cluster, leader, term),
        leads(recorded(h, id, heard, step).cluster, leader, term),
        recorded(h, id, heard, step).cluster.nodes[leader].read_round == round,
    ensures
        timely(asked, recorded(h, id, heard, step).cluster, leader, term, round),
{
    let before = h.cluster.nodes[id];
    let after = step.0;
    let next = recorded(h, id, heard, step).cluster;
    reveal(timely);
    assert(h.cluster.nodes.dom().contains(id));
    assert forall|message: MessageView| #[trigger]
        next.sent.contains(message) && message.term == term && message.to == leader && (
        message.kind matches KindView::AppendResp(response) && response.success
            && response.read_round == round) implies was_within(asked, message.from, term) by {
        if !h.cluster.sent.contains(message) {
            let i = choose|i: int|
                0 <= i < step.1.len() && #[trigger] step.1[i] == EffectView::Send(message);
            assert(step.1[i] == EffectView::Send(message));
        }
    }
    assert forall|peer: NodeId| #[trigger]
        next.nodes[leader].read_acks.contains(peer) && peer != leader implies was_within(
        asked,
        peer,
        term,
    ) by {
        if id == leader {
            assert(after.read_acks.contains(peer));
            if !before.read_acks.contains(peer) && heard is Some {
                assert(h.cluster.sent.contains(heard->0));
            }
        } else {
            assert(h.cluster.nodes[leader].read_acks.contains(peer));
        }
    }
}

/// Whether a read is asked of a leader at a moment of a run.
pub open spec fn asks_at(run: Seq<ClusterView>, i: int, leader: NodeId) -> bool {
    &&& run[i].nodes.dom().contains(leader)
    &&& run[i].nodes[leader].read_asked() matches Ok(step) && run[i + 1] == moved(
        run[i],
        leader,
        step,
    )
}

proof fn lemma_asked(
    pasts: Seq<HistoryView>,
    run: Seq<ClusterView>,
    voters: Set<NodeId>,
    leader: NodeId,
    term: Term,
    won: int,
    upto: int,
    i: int,
)
    requires
        plain_run(run, voters),
        tells_of(pasts, run, voters),
        leads_from(run, leader, term, won, upto),
        won <= i < upto,
        asks_at(run, i, leader),
        run[i].nodes[leader].read_round < u64::MAX,
    ensures
        run[i + 1].nodes[leader].read_round == run[i].nodes[leader].read_round + 1,
        timely(run[i], run[i + 1], leader, term, run[i + 1].nodes[leader].read_round),
{
    let node = run[i].nodes[leader];
    let step = node.read_asked()->Ok_0;
    assert(plain_cluster(run[i], voters));
    law_requests_are_honest(node, Seq::empty(), EntryKind::App);
    lemma_watch(pasts, run, voters, leader, term, won, upto, i);
    assert(pasts[i].cluster == run[i]);
    let round = run[i + 1].nodes[leader].read_round;
    reveal(watched);
    reveal(timely);
    assert forall|message: MessageView| #[trigger]
        run[i + 1].sent.contains(message) && message.term == term && message.to == leader && (
        message.kind matches KindView::AppendResp(response) && response.success
            && response.read_round == round) implies was_within(run[i], message.from, term) by {
        if run[i].sent.contains(message) {
            assert(follows(pasts[i], voters, leader, term, message));
        } else {
            let k = choose|k: int|
                0 <= k < step.1.len() && #[trigger] step.1[k] == EffectView::Send(message);
            assert(step.1[k] == EffectView::Send(message));
        }
    }
}

proof fn lemma_timely(
    pasts: Seq<HistoryView>,
    run: Seq<ClusterView>,
    voters: Set<NodeId>,
    leader: NodeId,
    term: Term,
    won: int,
    upto: int,
    i: int,
    n: int,
)
    requires
        plain_run(run, voters),
        tells_of(pasts, run, voters),
        leads_from(run, leader, term, won, upto),
        won <= i < n <= upto,
        asks_at(run, i, leader),
        run[i].nodes[leader].read_round < u64::MAX,
        run[n].nodes[leader].read_round == run[i + 1].nodes[leader].read_round,
    ensures
        timely(run[i], run[n], leader, term, run[n].nodes[leader].read_round),
    decreases n,
{
    if n == i + 1 {
        lemma_asked(pasts, run, voters, leader, term, won, upto, i);
    } else {
        lemma_leader_rises(pasts, run, voters, leader, term, won, upto, i + 1, n - 1);
        lemma_leader_rises(pasts, run, voters, leader, term, won, upto, n - 1, n);
        lemma_timely(pasts, run, voters, leader, term, won, upto, i, n - 1);
        let (id, heard, step) = lemma_link(pasts, run, voters, n - 1);
        assert(leads(run[n - 1], leader, term));
        assert(leads(run[n], leader, term));
        lemma_timely_on(
            run[i],
            pasts[n - 1],
            voters,
            id,
            heard,
            step,
            leader,
            term,
            run[n].nodes[leader].read_round,
        );
    }
}

/// A quorum that was in no later term rules out that a later term had a leader.
proof fn lemma_no_later_leader(
    h: HistoryView,
    voters: Set<NodeId>,
    leader: NodeId,
    term: Term,
    acks: Set<NodeId>,
    later: Term,
)
    requires
        agreement_holds(h, voters),
        voters.finite(),
        leads(h.cluster, leader, term),
        more_than_half(acks, voters),
        forall|peer: NodeId| #[trigger]
            acks.contains(peer) && peer != leader ==> was_within(h.cluster, peer, term),
        h.logs.dom().contains(later),
    ensures
        later.0 <= term.0,
{
    if later.0 > term.0 {
        lemma_log(h, voters, later);
        let winner = h.leaders[later];
        let votes = backers(h, later, winner);
        let roster = RosterView {
            voters,
            learners: Set::empty(),
            joint: None,
            joint_enter_index: None,
            addresses: Map::empty(),
            active_features: 0,
        };
        law_quorums_meet(roster, votes, acks);
        let voter = choose|voter: NodeId| #[trigger]
            roster.voters.contains(voter) && votes.contains(voter) && acks.contains(voter);
        let ballot = Ballot { voter, term: later, candidate: winner };
        lemma_vote(h, ballot);
        lemma_ballot(h.cluster, voters, ballot);
        assert(false);
    }
}

/// A leader that has committed an entry of its term has committed everything
/// that was chosen in earlier terms.
proof fn lemma_earlier_committed(
    h: HistoryView,
    voters: Set<NodeId>,
    leader: NodeId,
    term: Term,
    earlier: Term,
    len: int,
)
    requires
        agreement_holds(h, voters),
        voters.finite(),
        leads(h.cluster, leader, term),
        whole_log(h.cluster.nodes[leader]),
        h.cluster.nodes[leader].term_committed(),
        chosen(h, voters, earlier, len),
        earlier.0 < term.0,
    ensures
        len < h.cluster.nodes[leader].commit_index.0,
{
    let node = h.cluster.nodes[leader];
    lemma_lead(h, leader);
    lemma_log(h, voters, term);
    let log = h.logs[term];
    let start = start_of(h, term);
    let first = start.len() as int;
    lemma_sorted(log, 0, log.len() - 1);
    lemma_leaders_hold_the_chosen(h, voters, earlier, len, term);
    lemma_shorter(log, h.logs[earlier], len, len);
    if len > first {
        lemma_sorted(log, first, len - 1);
        assert(false);
    }
    let x = choose|x: int|
        0 <= x < node.log.len() && (#[trigger] node.log[x]).term == node.hard_state.term
            && node.log[x].index.0 <= node.commit_index.0;
    if x < first {
        lemma_vote(h, own_ballot(term, leader));
        assert(log.take(first)[x] == start[x]);
        lemma_sorted(start, x, first - 1);
        assert(false);
    }
}

/// A read that a quorum confirms sees everything that was committed before it
/// was asked for: whatever any node had committed by then is among what the
/// leader had committed when it fixed the index of the read. The leader has led
/// its term since it won it, the round of the read is its last one, and rounds
/// have not run out.
pub proof fn law_confirmed_reads_miss_nothing(
    run: Seq<ClusterView>,
    voters: Set<NodeId>,
    leader: NodeId,
    term: Term,
    won: int,
    asked: int,
    now: int,
    before: int,
    id: NodeId,
)
    requires
        plain_run(run, voters),
        leads_from(run, leader, term, won, now),
        won <= asked < now,
        asks_at(run, asked, leader),
        run[asked].nodes[leader].read_round < u64::MAX,
        run[now].nodes[leader].read_round == run[asked + 1].nodes[leader].read_round,
        run[now].nodes[leader].roster.quorum(run[now].nodes[leader].read_acks),
        0 <= before <= asked,
        run[before].nodes.dom().contains(id),
    ensures
        ({
            let index = run[before].nodes[id].commit_index.0 as int;
            &&& index <= run[asked].nodes[leader].commit_index.0
            &&& covers(run[asked].nodes[leader].log, run[before].nodes[id].log, index)
        }),
{
    let pasts = lemma_pasts(run, voters, run.len() as int);
    assert(run.take(run.len() as int) =~= run);
    lemma_timely(pasts, run, voters, leader, term, won, now, asked, now);
    let h = pasts[asked];
    assert(h.cluster == run[asked]);
    assert(plain_cluster(run[asked], voters));
    assert(plain_cluster(run[now], voters));
    assert(leads(run[asked], leader, term));
    assert(leads(run[now], leader, term));
    let acks = run[now].nodes[leader].read_acks;
    assert(more_than_half(acks, voters));
    assert forall|peer: NodeId| #[trigger]
        acks.contains(peer) && peer != leader implies was_within(run[asked], peer, term) by {
        reveal(timely);
        assert(run[now].nodes[leader].read_acks.contains(peer));
    }
    let index = run[before].nodes[id].commit_index.0 as int;
    lemma_grown_over(pasts, run, voters, before, asked);
    let early = pasts[before];
    assert(early.cluster == run[before]);
    let own = if before >= won {
        run[before].nodes[leader].commit_index.0 as int
    } else {
        0
    };
    if before >= won {
        lemma_watch(pasts, run, voters, leader, term, won, now, before);
        lemma_leader_rises(
            pasts,
            run,
            voters,
            leader,
            term,
            won,
            now,
            before,
            asked,
        );
        reveal(watched);
        assert(accounted(early, voters, leader, term, index));
    } else {
        lemma_unled(pasts, run, voters, leader, term, won, now, before);
        lemma_commit(early, voters, id);
        lemma_grown_same(early);
        let node = run[before].nodes[id];
        lemma_safe_accounted(
            early,
            early,
            voters,
            leader,
            term,
            node.log,
            index,
            node.hard_state.term,
        );
        if index != 0 {
            let (t, k) = choose|t: Term, k: int| #[trigger]
                chosen(early, voters, t, k) && index <= k && t.0 <= node.hard_state.term.0
                    && node.log.take(index) == early.logs[t].take(index);
            assert(chosen(early, voters, t, k) && t != term && index <= k);
        }
    }
    if index > own {
        let (t, k) = choose|t: Term, k: int| #[trigger]
            chosen(early, voters, t, k) && t != term && index <= k;
        lemma_chosen_on(early, h, voters, t, k);
        lemma_no_later_leader(h, voters, leader, term, acks, t);
        lemma_earlier_committed(h, voters, leader, term, t, k);
    }
    law_committed_entries_agree(
        run,
        voters,
        before,
        id,
        asked,
        leader,
        index,
    );
}

} // verus!
