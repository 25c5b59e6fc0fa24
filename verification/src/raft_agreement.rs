//! That a cluster of Raft nodes agrees: what one node has committed, every
//! other node that commits as much has too, and every later leader holds.
use vstd::prelude::*;

use crate::ids::{LogIndex, NodeId, Term, Time};
use crate::membership::{EnvelopeView, OperationView};
use crate::raft_laws::law_quorums_meet;
use crate::raft_logs::{
    agrees, far_enough, grows, honest, index_before, law_messages_are_taken_honestly,
    law_changes_are_honest, law_entering_is_honest, law_requests_are_honest,
    law_resuming_is_honest, law_time_is_honest, leads_as_learner, leaves_none, log_term, parts, plain, refuses,
    runs_on, spliced, takes, tells, took_some, took_whole, whole_log,
};
use crate::raft_model::{more_than_half, NodeView, RosterView, Step};
use crate::raft_safety::{
    casts, elections_hold, fair, law_changes_leave_elections_alone, law_messages_are_answered_fairly,
    law_requests_leave_elections_alone, law_time_is_fair, lemma_elections_hold_on,
    lemma_more_supporters, moved, steady, supporters, Ballot, ClusterView,
};
use crate::raft_types::{
    EffectView, EntryKind, EntryView, KindView, MessageView, RaftError, TimerKind,
};

verus! {

/// How long a log of a run may get.
pub const LOG_LIMIT: u64 = 0x7fff_ffff_ffff_ff00;

/// That a node has agreed to the first entries of the log of a term's leader.
pub struct Ack {
    pub voter: NodeId,
    pub term: Term,
    pub len: int,
}

/// A cluster with its past: the log of the leader of each term, the log that
/// each voter had when it voted while its term had no leader, and what each
/// node agreed to.
pub struct HistoryView {
    pub cluster: ClusterView,
    pub logs: Map<Term, Seq<EntryView>>,
    pub leaders: Map<Term, NodeId>,
    pub seen: Map<Ballot, Seq<EntryView>>,
    pub acks: Set<Ack>,
}

/// What a node agrees to in a transition.
pub open spec fn agreed(
    before: NodeView,
    heard: Option<MessageView>,
    after: NodeView,
    ack: Ack,
) -> bool {
    &&& ack.voter == after.id
    &&& ack.term == after.hard_state.term
    &&& 0 <= ack.len <= after.log.len()
    &&& after.role is Leader || took_whole(before, heard, after)
}

/// The past after a transition of a node.
pub open spec fn recorded(
    h: HistoryView,
    id: NodeId,
    heard: Option<MessageView>,
    step: Step,
) -> HistoryView {
    let before = h.cluster.nodes[id];
    let after = step.0;
    let term = after.hard_state.term;
    HistoryView {
        cluster: moved(h.cluster, id, step),
        logs: if after.role is Leader {
            h.logs.insert(term, after.log)
        } else {
            h.logs
        },
        leaders: if after.role is Leader {
            h.leaders.insert(term, id)
        } else {
            h.leaders
        },
        seen: match after.hard_state.voted_for {
            Some(candidate) => if after.hard_state != before.hard_state
                && !h.logs.dom().contains(term) {
                h.seen.insert(Ballot { voter: id, term, candidate }, before.log)
            } else {
                h.seen
            },
            None => h.seen,
        },
        acks: Set::new(
            |ack: Ack| h.acks.contains(ack) || agreed(before, heard, after, ack),
        ),
    }
}

/// The terms of a log never fall, and none is zero.
#[verifier::opaque]
pub open spec fn sorted(log: Seq<EntryView>) -> bool {
    &&& forall|i: int, j: int|
        0 <= i <= j < log.len() ==> (#[trigger] log[i]).term.0 <= (#[trigger] log[j]).term.0
    &&& forall|i: int| 0 <= i < log.len() ==> (#[trigger] log[i]).term.0 > 0
}

/// Every entry of a log comes, with all before it, from the leader of its term.
#[verifier::opaque]
pub open spec fn rooted(h: HistoryView, log: Seq<EntryView>) -> bool {
    forall|i: int|
        0 <= i < log.len() ==> rooted_at(h, #[trigger] log[i].term, log, i)
}

pub open spec fn rooted_at(h: HistoryView, term: Term, log: Seq<EntryView>, i: int) -> bool {
    &&& h.logs.dom().contains(term)
    &&& i < h.logs[term].len()
    &&& log.take(i + 1) == h.logs[term].take(i + 1)
}

/// Whether a log begins with the first entries of another.
pub open spec fn covers(log: Seq<EntryView>, other: Seq<EntryView>, len: int) -> bool {
    log.len() >= len && log.take(len) == other.take(len)
}

/// The term of the last entry.
pub open spec fn end_term(log: Seq<EntryView>) -> Term {
    log_term(log, log.len() as int)
}

#[verifier::opaque]
pub open spec fn nodes_hold(h: HistoryView) -> bool {
    forall|id: NodeId| #[trigger]
        h.cluster.nodes.dom().contains(id) ==> node_holds(h, h.cluster.nodes[id])
}

pub open spec fn node_holds(h: HistoryView, node: NodeView) -> bool {
    &&& sorted(node.log)
    &&& rooted(h, node.log)
    &&& end_term(node.log).0 <= node.hard_state.term.0
}

pub open spec fn own_ballot(term: Term, candidate: NodeId) -> Ballot {
    Ballot { voter: candidate, term, candidate }
}

/// The log that the leader of a term campaigned with.
pub open spec fn start_of(h: HistoryView, term: Term) -> Seq<EntryView> {
    h.seen[own_ballot(term, h.leaders[term])]
}

/// Those who voted for a candidate while its term had no leader.
pub open spec fn backers(h: HistoryView, term: Term, candidate: NodeId) -> Set<NodeId> {
    Set::new(|voter: NodeId| h.seen.dom().contains(Ballot { voter, term, candidate }))
}

/// What is true of the log of a term's leader: it was elected by a quorum, and
/// its log is what it campaigned with and entries of its own term behind it.
pub open spec fn log_holds(h: HistoryView, voters: Set<NodeId>, term: Term) -> bool {
    let log = h.logs[term];
    let leader = h.leaders[term];
    let start = start_of(h, term);
    &&& h.leaders.dom().contains(term)
    &&& h.cluster.nodes.dom().contains(leader)
    &&& term.0 <= h.cluster.nodes[leader].hard_state.term.0
    &&& more_than_half(backers(h, term, leader), voters)
    &&& log.len() > 0
    &&& end_term(log) == term
    &&& sorted(log)
    &&& rooted(h, log)
    &&& forall|i: int| 0 <= i < log.len() ==> (#[trigger] log[i]).index.0 == i + 1
    &&& log.len() <= LOG_LIMIT
    &&& h.seen.dom().contains(own_ballot(term, leader))
    &&& start.len() < log.len()
    &&& log.take(start.len() as int) == start
    &&& log[start.len() as int].term == term
}

#[verifier::opaque]
pub open spec fn logs_hold(h: HistoryView, voters: Set<NodeId>) -> bool {
    forall|term: Term| #[trigger] h.logs.dom().contains(term) ==> log_holds(h, voters, term)
}

/// A node that leads its term, or has led it, has the log of the term.
#[verifier::opaque]
pub open spec fn leads_hold(h: HistoryView) -> bool {
    forall|id: NodeId| #[trigger]
        h.cluster.nodes.dom().contains(id) ==> {
            let node = h.cluster.nodes[id];
            let term = node.hard_state.term;
            &&& node.role is Leader ==> h.logs.dom().contains(term) && h.leaders[term] == id
            &&& h.logs.dom().contains(term) && h.leaders[term] == id ==> node.log == h.logs[term]
        }
}

/// Whether the first entries of a log are beyond change: a quorum has agreed to
/// them, or more, under the leader of one term.
pub open spec fn chosen(h: HistoryView, voters: Set<NodeId>, term: Term, len: int) -> bool {
    &&& h.logs.dom().contains(term)
    &&& 0 < len <= h.logs[term].len()
    &&& h.logs[term][len - 1].term == term
    &&& more_than_half(ackers(h, term, len), voters)
}

pub open spec fn ackers(h: HistoryView, term: Term, len: int) -> Set<NodeId> {
    Set::new(|voter: NodeId| h.acks.contains(Ack { voter, term, len }))
}

/// Whether the first entries of a log may be committed in a term.
pub open spec fn safe(
    h: HistoryView,
    voters: Set<NodeId>,
    log: Seq<EntryView>,
    len: int,
    term: Term,
) -> bool {
    len == 0 || (0 < len <= log.len() && exists|t: Term, k: int| #[trigger]
        chosen(h, voters, t, k) && len <= k && t.0 <= term.0 && log.take(len)
            == h.logs[t].take(len))
}

/// Whether two logs have entries of different terms at a place.
pub open spec fn differs(a: Seq<EntryView>, b: Seq<EntryView>, m: int) -> bool {
    0 <= m < a.len() && m < b.len() && a[m].term != b[m].term
}

/// Whether a log has nothing but what the log of a term's leader has, or
/// differs from it no later than right behind its first `prev` entries.
pub open spec fn settled(h: HistoryView, term: Term, log: Seq<EntryView>, prev: int) -> bool {
    ||| covers(h.logs[term], log, log.len() as int)
    ||| exists|m: int| #[trigger] differs(h.logs[term], log, m) && m <= prev
}

/// Whether a leader that resumes replication to a peer behind `prev` entries
/// finds everything that the peer has and the leader lacks.
pub open spec fn aimed(h: HistoryView, term: Term, peer: NodeId, prev: int) -> bool {
    let node = h.cluster.nodes[peer];
    ||| prev >= start_of(h, term).len()
    ||| h.cluster.nodes.dom().contains(peer) && node.hard_state.term.0 >= term.0
        && (node.hard_state.term == term ==> settled(h, term, node.log, prev))
}

/// Where a refusal asks its leader to resume.
pub open spec fn resumed_at(conflict: int) -> int {
    if conflict > 0 {
        conflict - 1
    } else {
        0
    }
}

/// What is true of a refusal: while its sender stays in the term, the leader of
/// the term can resume where it points.
pub open spec fn refusal_holds(h: HistoryView, term: Term, peer: NodeId, conflict: int) -> bool {
    let node = h.cluster.nodes[peer];
    &&& h.cluster.nodes.dom().contains(peer)
    &&& node.hard_state.term.0 >= term.0
    &&& node.hard_state.term == term ==> if h.logs.dom().contains(term) {
        settled(h, term, node.log, resumed_at(conflict))
    } else {
        conflict >= node.log.len()
    }
}

/// What is true of a message that was sent.
pub open spec fn message_holds(h: HistoryView, voters: Set<NodeId>, message: MessageView) -> bool {
    match message.kind {
        KindView::AppendReq(request) => {
            let log = h.logs[message.term];
            let prev = request.prev_index.0 as int;
            let end = prev + request.entries.len();
            &&& h.logs.dom().contains(message.term)
            &&& h.leaders[message.term] == message.from
            &&& {
                ||| request.prev_term.0 == 0 && prev > start_of(h, message.term).len()
                    && request.entries.len() == 0
                ||| end <= log.len() && request.prev_term == log_term(log, prev) && request.entries
                    == log.subrange(prev, end) && (request.entries.len() == 0 ==> request.prev_term
                    == message.term)
            }
            &&& aimed(h, message.term, message.to, prev)
            &&& request.leader_commit.0 <= log.len() && safe(
                h,
                voters,
                log,
                request.leader_commit.0 as int,
                message.term,
            )
        },
        KindView::AppendResp(response) => if response.success {
            h.acks.contains(
                Ack {
                    voter: message.from,
                    term: message.term,
                    len: response.match_index.0 as int,
                },
            )
        } else {
            refusal_holds(h, message.term, message.from, response.conflict_index.0 as int)
        },
        KindView::VoteReq { last_index, last_term } => {
            let ballot = own_ballot(message.term, message.from);
            if h.seen.dom().contains(ballot) {
                last_index.0 == h.seen[ballot].len() && last_term == end_term(h.seen[ballot])
            } else {
                h.logs.dom().contains(message.term)
            }
        },
        _ => true,
    }
}

#[verifier::opaque]
pub open spec fn sent_holds(h: HistoryView, voters: Set<NodeId>) -> bool {
    forall|message: MessageView| #[trigger]
        h.cluster.sent.contains(message) ==> message_holds(h, voters, message)
}

/// What is true of a vote: the voter's log came from leaders, and the
/// candidate campaigned with a log as far at least.
pub open spec fn vote_holds(h: HistoryView, ballot: Ballot) -> bool {
    let log = h.seen[ballot];
    let own = own_ballot(ballot.term, ballot.candidate);
    let start = h.seen[own];
    &&& sorted(log)
    &&& rooted(h, log)
    &&& h.seen.dom().contains(own)
    &&& end_term(start).0 < ballot.term.0
    &&& far_enough(LogIndex(start.len() as u64), end_term(start), log)
    &&& start.len() <= u64::MAX
}

#[verifier::opaque]
pub open spec fn votes_hold(h: HistoryView) -> bool {
    &&& forall|ballot: Ballot| #[trigger]
        h.cluster.ballots.contains(ballot) && !h.logs.dom().contains(ballot.term)
            ==> h.seen.dom().contains(ballot)
    &&& forall|ballot: Ballot| #[trigger]
        h.seen.dom().contains(ballot) ==> h.cluster.ballots.contains(ballot) && vote_holds(
            h,
            ballot,
        )
    &&& forall|id: NodeId| #[trigger]
        h.cluster.nodes.dom().contains(id) ==> vote_recorded(h, id)
}

/// A vote that a node remembers was cast, and a node that voted for itself
/// keeps the log that it campaigned with until its term has a leader.
pub open spec fn vote_recorded(h: HistoryView, id: NodeId) -> bool {
    let node = h.cluster.nodes[id];
    let term = node.hard_state.term;
    &&& node.hard_state.voted_for matches Some(candidate) ==> h.cluster.ballots.contains(
        Ballot { voter: id, term, candidate },
    )
    &&& node.hard_state.voted_for == Some(id) && !h.logs.dom().contains(term) ==> node.log
        == h.seen[own_ballot(term, id)]
}

/// Whether a log has what a node once agreed to, or lost it to a later leader,
/// of a term up to a given one, that did not have it either.
pub open spec fn kept_or_lost(h: HistoryView, log: Seq<EntryView>, ack: Ack, upto: int) -> bool {
    ||| covers(log, h.logs[ack.term], ack.len)
    ||| exists|later: Term| #[trigger]
        h.logs.dom().contains(later) && ack.term.0 < later.0 <= upto && !covers(
            h.logs[later],
            h.logs[ack.term],
            ack.len,
        )
}

pub open spec fn ack_holds(h: HistoryView, ack: Ack) -> bool {
    let node = h.cluster.nodes[ack.voter];
    &&& h.cluster.nodes.dom().contains(ack.voter)
    &&& h.logs.dom().contains(ack.term)
    &&& 0 <= ack.len <= h.logs[ack.term].len()
    &&& ack.term.0 <= node.hard_state.term.0
    &&& kept_or_lost(h, node.log, ack, node.hard_state.term.0 as int)
    &&& ack.term == node.hard_state.term ==> covers(
        h.logs[ack.term],
        node.log,
        node.log.len() as int,
    )
}

/// The agreement to fewer entries.
pub open spec fn lesser(ack: Ack, len: int) -> Ack {
    Ack { voter: ack.voter, term: ack.term, len }
}

#[verifier::opaque]
pub open spec fn acks_hold(h: HistoryView) -> bool {
    &&& forall|ack: Ack| #[trigger] h.acks.contains(ack) ==> ack_holds(h, ack)
    &&& forall|ack: Ack, len: int|
        #![trigger h.acks.contains(ack), h.acks.contains(lesser(ack, len))]
        h.acks.contains(ack) && 0 <= len <= ack.len ==> h.acks.contains(lesser(ack, len))
    &&& forall|ballot: Ballot, ack: Ack|
        #![trigger h.seen.dom().contains(ballot), h.acks.contains(ack)]
        h.seen.dom().contains(ballot) && h.acks.contains(ack) && ballot.voter == ack.voter
            && ack.term.0 < ballot.term.0 ==> kept_or_lost(
            h,
            h.seen[ballot],
            ack,
            ballot.term.0 - 1,
        )
}

#[verifier::opaque]
pub open spec fn credits_hold(h: HistoryView, voters: Set<NodeId>) -> bool {
    forall|id: NodeId, peer: NodeId|
        #![trigger h.cluster.nodes[id].match_index.dom().contains(peer)]
        h.cluster.nodes.dom().contains(id) && h.cluster.nodes[id].role is Leader
            && h.cluster.nodes[id].match_index.dom().contains(peer) && voters.contains(peer) && peer
            != id ==> h.cluster.nodes[id].match_index[peer].0 == 0 || h.acks.contains(
            Ack {
                voter: peer,
                term: h.cluster.nodes[id].hard_state.term,
                len: h.cluster.nodes[id].match_index[peer].0 as int,
            },
        )
}

#[verifier::opaque]
pub open spec fn commits_hold(h: HistoryView, voters: Set<NodeId>) -> bool {
    forall|id: NodeId| #[trigger]
        h.cluster.nodes.dom().contains(id) ==> safe(
            h,
            voters,
            h.cluster.nodes[id].log,
            h.cluster.nodes[id].commit_index.0 as int,
            h.cluster.nodes[id].hard_state.term,
        )
}

#[verifier::opaque]
pub open spec fn aims_hold(h: HistoryView) -> bool {
    forall|id: NodeId, peer: NodeId|
        #![trigger h.cluster.nodes[id].next_index.dom().contains(peer)]
        h.cluster.nodes.dom().contains(id) && h.cluster.nodes[id].role is Leader
            && h.cluster.nodes[id].next_index.dom().contains(peer)
            && h.cluster.nodes[id].followers().contains(peer) ==> aimed(
            h,
            h.cluster.nodes[id].hard_state.term,
            peer,
            index_before(h.cluster.nodes[id].next_index[peer].0) as int,
        )
}

/// What every cluster of a run keeps, with its past.
pub open spec fn agreement_holds(h: HistoryView, voters: Set<NodeId>) -> bool {
    &&& elections_hold(h.cluster, voters)
    &&& nodes_hold(h)
    &&& logs_hold(h, voters)
    &&& leads_hold(h)
    &&& sent_holds(h, voters)
    &&& votes_hold(h)
    &&& acks_hold(h)
    &&& credits_hold(h, voters)
    &&& aims_hold(h)
    &&& commits_hold(h, voters)
}

proof fn lemma_rooted(h: HistoryView, log: Seq<EntryView>, i: int)
    requires
        rooted(h, log),
        0 <= i < log.len(),
    ensures
        rooted_at(h, log[i].term, log, i),
{
    reveal(rooted);
}

/// Of two entries of a log, the later has no lower term.
pub proof fn lemma_sorted(log: Seq<EntryView>, i: int, j: int)
    requires
        sorted(log),
        0 <= i <= j < log.len(),
    ensures
        0 < log[i].term.0 <= log[j].term.0,
{
    reveal(sorted);
}

/// What is true of the log of a term's leader.
pub proof fn lemma_log(h: HistoryView, voters: Set<NodeId>, term: Term)
    requires
        logs_hold(h, voters),
        h.logs.dom().contains(term),
    ensures
        log_holds(h, voters, term),
{
    reveal(logs_hold);
}

/// What is true of a recorded vote.
pub proof fn lemma_vote(h: HistoryView, ballot: Ballot)
    requires
        votes_hold(h),
        h.seen.dom().contains(ballot) || (h.cluster.ballots.contains(ballot)
            && !h.logs.dom().contains(ballot.term)),
    ensures
        h.cluster.ballots.contains(ballot),
        h.seen.dom().contains(ballot),
        vote_holds(h, ballot),
{
    reveal(votes_hold);
    if h.cluster.ballots.contains(ballot) {
        assert(h.seen.dom().contains(ballot));
    } else {
        assert(h.seen.dom().contains(ballot));
    }
}

/// What is true of an agreement.
pub proof fn lemma_ack(h: HistoryView, ack: Ack)
    requires
        acks_hold(h),
        h.acks.contains(ack),
    ensures
        ack_holds(h, ack),
{
    reveal(acks_hold);
}

proof fn lemma_seen_ack(h: HistoryView, ballot: Ballot, ack: Ack)
    requires
        acks_hold(h),
        h.seen.dom().contains(ballot),
        h.acks.contains(ack),
        ballot.voter == ack.voter,
        ack.term.0 < ballot.term.0,
    ensures
        kept_or_lost(h, h.seen[ballot], ack, ballot.term.0 - 1),
{
    reveal(acks_hold);
}

/// Two logs that hold an entry of the same term at the same place hold the same
/// entries up to it.
proof fn lemma_matching(h: HistoryView, a: Seq<EntryView>, b: Seq<EntryView>, len: int)
    requires
        rooted(h, a),
        rooted(h, b),
        0 <= len <= a.len(),
        len <= b.len(),
        log_term(a, len) == log_term(b, len),
    ensures
        a.take(len) == b.take(len),
{
    if len > 0 {
        lemma_rooted(h, a, len - 1);
        lemma_rooted(h, b, len - 1);
    } else {
        assert(a.take(0) =~= b.take(0));
    }
}

/// Logs that share their first entries share fewer of them.
pub proof fn lemma_shorter(a: Seq<EntryView>, b: Seq<EntryView>, len: int, less: int)
    requires
        0 <= less <= len <= a.len(),
        len <= b.len(),
        a.take(len) == b.take(len),
    ensures
        a.take(less) == b.take(less),
        forall|i: int| 0 <= i < len ==> a[i] == b[i],
{
    assert forall|i: int| 0 <= i < len implies a[i] == b[i] by {
        assert(a.take(len)[i] == b.take(len)[i]);
    }
    assert(a.take(less) =~= b.take(less));
}

/// A log that is as far as one that has what was chosen has it too, if every
/// leader between has it.
proof fn lemma_far_logs_cover(
    h: HistoryView,
    voters: Set<NodeId>,
    term: Term,
    len: int,
    start: Seq<EntryView>,
    theirs: Seq<EntryView>,
)
    requires
        logs_hold(h, voters),
        h.logs.dom().contains(term),
        0 < len <= h.logs[term].len(),
        h.logs[term][len - 1].term == term,
        sorted(start),
        rooted(h, start),
        sorted(theirs),
        rooted(h, theirs),
        start.len() <= u64::MAX,
        far_enough(LogIndex(start.len() as u64), end_term(start), theirs),
        covers(theirs, h.logs[term], len),
        end_term(start).0 > term.0 ==> covers(h.logs[end_term(start)], h.logs[term], len),
    ensures
        covers(start, h.logs[term], len),
{
    let first = h.logs[term];
    lemma_log(h, voters, term);
    lemma_shorter(theirs, first, len, len);
    lemma_sorted(theirs, len - 1, theirs.len() - 1);
    let end = end_term(start);
    assert(term.0 <= end_term(theirs).0);
    assert(start.len() > 0);
    lemma_rooted(h, start, start.len() - 1);
    let whole = h.logs[end];
    assert(start.take(start.len() as int) =~= start);
    assert(start == whole.take(start.len() as int));
    if end == end_term(theirs) {
        lemma_rooted(h, theirs, theirs.len() - 1);
        assert(theirs.take(theirs.len() as int) =~= theirs);
        lemma_shorter(start, whole, start.len() as int, len);
        lemma_shorter(theirs, whole, theirs.len() as int, len);
    } else {
        lemma_shorter(whole, first, len, len);
        if start.len() <= len {
            let i = start.len() - 1;
            lemma_sorted(first, i, len - 1);
            lemma_shorter(start, whole, start.len() as int, i);
            assert(false);
        }
        lemma_shorter(start, whole, start.len() as int, len);
    }
}

/// What is chosen in a term, the leader of every later term holds.
pub proof fn lemma_leaders_hold_the_chosen(
    h: HistoryView,
    voters: Set<NodeId>,
    term: Term,
    len: int,
    later: Term,
)
    requires
        logs_hold(h, voters),
        votes_hold(h),
        acks_hold(h),
        voters.finite(),
        chosen(h, voters, term, len),
        h.logs.dom().contains(later),
        term.0 < later.0,
    ensures
        covers(h.logs[later], h.logs[term], len),
    decreases later.0,
{
    let leader = h.leaders[later];
    lemma_log(h, voters, later);
    lemma_log(h, voters, term);
    let roster = RosterView {
        voters,
        learners: Set::empty(),
        joint: None,
        joint_enter_index: None,
        addresses: Map::empty(),
        active_features: 0,
    };
    let votes = backers(h, later, leader);
    let acks = ackers(h, term, len);
    law_quorums_meet(roster, votes, acks);
    let voter = choose|voter: NodeId| #[trigger]
        roster.voters.contains(voter) && votes.contains(voter) && acks.contains(voter);
    let ballot = Ballot { voter, term: later, candidate: leader };
    let ack = Ack { voter, term, len };
    lemma_vote(h, ballot);
    lemma_ack(h, ack);
    lemma_seen_ack(h, ballot, ack);
    let theirs = h.seen[ballot];
    let own = own_ballot(later, leader);
    let start = h.seen[own];
    lemma_vote(h, own);
    if !covers(theirs, h.logs[term], len) {
        let between = choose|between: Term| #[trigger]
            h.logs.dom().contains(between) && ack.term.0 < between.0 <= ballot.term.0 - 1
                && !covers(h.logs[between], h.logs[ack.term], ack.len);
        lemma_leaders_hold_the_chosen(h, voters, term, len, between);
        assert(false);
    }
    if end_term(start).0 > term.0 {
        lemma_rooted(h, start, start.len() - 1);
        lemma_leaders_hold_the_chosen(h, voters, term, len, end_term(start));
    }
    lemma_far_logs_cover(h, voters, term, len, start, theirs);
    let log = h.logs[later];
    assert(log.take(len) =~= log.take(start.len() as int).take(len));
}

/// What two nodes may commit agrees.
proof fn lemma_safe_agree(
    h: HistoryView,
    voters: Set<NodeId>,
    a: Seq<EntryView>,
    ca: int,
    ta: Term,
    b: Seq<EntryView>,
    cb: int,
    tb: Term,
    len: int,
)
    requires
        logs_hold(h, voters),
        votes_hold(h),
        acks_hold(h),
        voters.finite(),
        safe(h, voters, a, ca, ta),
        safe(h, voters, b, cb, tb),
        0 <= len <= ca,
        len <= cb,
    ensures
        len <= a.len(),
        len <= b.len(),
        a.take(len) == b.take(len),
{
    if len > 0 {
        let (tx, kx) = choose|t: Term, k: int| #[trigger]
            chosen(h, voters, t, k) && ca <= k && t.0 <= ta.0 && a.take(ca) == h.logs[t].take(ca);
        let (ty, ky) = choose|t: Term, k: int| #[trigger]
            chosen(h, voters, t, k) && cb <= k && t.0 <= tb.0 && b.take(cb) == h.logs[t].take(cb);
        let x = h.logs[tx];
        let y = h.logs[ty];
        lemma_shorter(a, x, ca, len);
        lemma_shorter(b, y, cb, len);
        if tx.0 < ty.0 {
            lemma_leaders_hold_the_chosen(h, voters, tx, kx, ty);
            lemma_shorter(y, x, kx, len);
        } else if ty.0 < tx.0 {
            lemma_leaders_hold_the_chosen(h, voters, ty, ky, tx);
            lemma_shorter(x, y, ky, len);
        }
    } else {
        assert(a.take(0) =~= b.take(0));
    }
}

/// Whether a leader remembers nothing of a member that it did not have before.
pub open spec fn joins_afresh(before: NodeView, after: NodeView) -> bool {
    after.role is Leader ==> forall|peer: NodeId| #[trigger]
        after.next_index.dom().contains(peer) && after.followers().contains(peer)
            ==> before.followers().contains(peer)
}

/// Whether a node of a cluster makes a transition that deals fairly with votes
/// and honestly with logs.
pub open spec fn moves(
    h: HistoryView,
    voters: Set<NodeId>,
    id: NodeId,
    heard: Option<MessageView>,
    step: Step,
) -> bool {
    let before = h.cluster.nodes[id];
    &&& h.cluster.nodes.dom().contains(id)
    &&& steady(h.cluster, voters)
    &&& voters.finite()
    &&& whole_log(before)
    &&& joins_afresh(before, step.0)
    &&& fair(before, heard, step)
    &&& honest(before, heard, step)
    &&& step.0.log.len() <= LOG_LIMIT
    &&& heard matches Some(message) ==> h.cluster.sent.contains(message) && message.to == id
        && message.from != id
}

/// A voter is in the term of its vote at least.
pub proof fn lemma_ballot(cluster: ClusterView, voters: Set<NodeId>, ballot: Ballot)
    requires
        elections_hold(cluster, voters),
        cluster.ballots.contains(ballot),
    ensures
        cluster.nodes.dom().contains(ballot.voter),
        ballot.term.0 <= cluster.nodes[ballot.voter].hard_state.term.0,
        ballot.term == cluster.nodes[ballot.voter].hard_state.term
            ==> cluster.nodes[ballot.voter].hard_state.voted_for == Some(ballot.candidate),
{
    reveal(elections_hold);
}

proof fn lemma_one_ballot(cluster: ClusterView, voters: Set<NodeId>, a: Ballot, b: Ballot)
    requires
        elections_hold(cluster, voters),
        cluster.ballots.contains(a),
        cluster.ballots.contains(b),
        a.voter == b.voter,
        a.term == b.term,
    ensures
        a.candidate == b.candidate,
{
    reveal(elections_hold);
}

/// Two candidates that a quorum each voted for in a term are the same.
proof fn lemma_one_winner(
    cluster: ClusterView,
    voters: Set<NodeId>,
    term: Term,
    a: NodeId,
    b: NodeId,
)
    requires
        elections_hold(cluster, voters),
        voters.finite(),
        more_than_half(supporters(cluster, term, a), voters),
        more_than_half(supporters(cluster, term, b), voters),
    ensures
        a == b,
{
    let roster = RosterView {
        voters,
        learners: Set::empty(),
        joint: None,
        joint_enter_index: None,
        addresses: Map::empty(),
        active_features: 0,
    };
    let x = supporters(cluster, term, a);
    let y = supporters(cluster, term, b);
    law_quorums_meet(roster, x, y);
    let voter = choose|voter: NodeId| #[trigger]
        roster.voters.contains(voter) && x.contains(voter) && y.contains(voter);
    lemma_one_ballot(
        cluster,
        voters,
        Ballot { voter, term, candidate: a },
        Ballot { voter, term, candidate: b },
    );
}

/// What is true of a leader of its term.
pub proof fn lemma_lead(h: HistoryView, id: NodeId)
    requires
        leads_hold(h),
        h.cluster.nodes.dom().contains(id),
    ensures
        ({
            let node = h.cluster.nodes[id];
            let term = node.hard_state.term;
            &&& node.role is Leader ==> h.logs.dom().contains(term) && h.leaders[term] == id
            &&& h.logs.dom().contains(term) && h.leaders[term] == id ==> node.log == h.logs[term]
        }),
{
    reveal(leads_hold);
}

/// Who supported a winner.
proof fn lemma_some_supporter(votes: Set<NodeId>, voters: Set<NodeId>) -> (voter: NodeId)
    requires
        more_than_half(votes, voters),
        voters.finite(),
    ensures
        votes.contains(voter),
{
    let both = votes.intersect(voters);
    if both =~= Set::empty() {
        assert(false);
    }
    let voter = choose|voter: NodeId| both.contains(voter);
    assert(both.contains(voter)) by {
        if forall|voter: NodeId| !both.contains(voter) {
            assert(both =~= Set::empty());
        }
    }
    voter
}

/// A node that leads after a transition led its term before with the log of
/// the term, or wins it with the log that it campaigned with.
proof fn lemma_leading(
    h: HistoryView,
    voters: Set<NodeId>,
    id: NodeId,
    heard: Option<MessageView>,
    step: Step,
)
    requires
        agreement_holds(h, voters),
        moves(h, voters, id, heard, step),
        step.0.role is Leader,
    ensures
        ({
            let before = h.cluster.nodes[id];
            let after = step.0;
            let term = after.hard_state.term;
            let next = recorded(h, id, heard, step);
            let own = own_ballot(term, id);
            &&& term.0 > 0
            &&& grows(before, after)
            &&& h.logs.dom().contains(term) ==> h.leaders[term] == id && before.hard_state.term
                == term && before.log == h.logs[term]
            &&& !h.logs.dom().contains(term) ==> next.seen.dom().contains(own) && next.seen[own]
                == before.log && after.log.len() > before.log.len() && before.hard_state.term.0
                <= term.0
            &&& more_than_half(backers(next, term, id), voters) || h.logs.dom().contains(term)
        }),
{
    let before = h.cluster.nodes[id];
    let after = step.0;
    let term = after.hard_state.term;
    let next = recorded(h, id, heard, step);
    let own = own_ballot(term, id);
    lemma_elections_hold_on(h.cluster, id, heard, step, voters);
    assert(next.cluster.nodes[id] == after);
    assert(more_than_half(supporters(next.cluster, term, id), voters)) by {
        reveal(elections_hold);
        assert(next.cluster.nodes.dom().contains(id));
    }
    lemma_lead(h, id);
    if h.logs.dom().contains(term) {
        lemma_log(h, voters, term);
        let leader = h.leaders[term];
        assert forall|voter: NodeId| backers(h, term, leader).contains(voter) implies supporters(
            next.cluster,
            term,
            leader,
        ).contains(voter) by {
            lemma_vote(h, Ballot { voter, term, candidate: leader });
        }
        lemma_more_supporters(
            backers(h, term, leader),
            supporters(next.cluster, term, leader),
            voters,
        );
        lemma_one_winner(next.cluster, voters, term, leader, id);
        lemma_sorted(h.logs[term], 0, h.logs[term].len() - 1);
    } else {
        let voter = lemma_some_supporter(supporters(next.cluster, term, id), voters);
        let ballot = Ballot { voter, term, candidate: id };
        assert(next.cluster.ballots.contains(ballot));
        if voter != id {
            assert(h.cluster.ballots.contains(ballot));
            lemma_vote(h, ballot);
            lemma_vote(h, own);
        }
        assert(next.cluster.ballots.contains(own));
        lemma_ballot(next.cluster, voters, own);
        assert(after.hard_state.voted_for == Some(id));
        if h.cluster.ballots.contains(own) {
            lemma_vote(h, own);
            lemma_ballot(h.cluster, voters, own);
            assert(before.hard_state == after.hard_state);
            assert(vote_recorded(h, id)) by {
                reveal(votes_hold);
            }
        } else {
            if before.hard_state == after.hard_state {
                assert(vote_recorded(h, id)) by {
                    reveal(votes_hold);
                }
                assert(false);
            }
        }
        assert forall|voter: NodeId|
            supporters(next.cluster, term, id).contains(voter) implies backers(
            next,
            term,
            id,
        ).contains(voter) by {
            let ballot = Ballot { voter, term, candidate: id };
            if h.cluster.ballots.contains(ballot) {
                lemma_vote(h, ballot);
            }
        }
        lemma_more_supporters(
            supporters(next.cluster, term, id),
            backers(next, term, id),
            voters,
        );
    }
}

/// Whether the past of a cluster only grew: logs of leaders by entries of their
/// own term at their end, and votes and agreements by new ones.
pub open spec fn grown(h: HistoryView, next: HistoryView) -> bool {
    &&& forall|term: Term| #[trigger]
        h.logs.dom().contains(term) ==> next.logs.dom().contains(term) && next.leaders[term]
            == h.leaders[term] && log_grown(term, h.logs[term], next.logs[term])
    &&& forall|ballot: Ballot| #[trigger]
        h.seen.dom().contains(ballot) ==> next.seen.dom().contains(ballot) && next.seen[ballot]
            == h.seen[ballot]
    &&& forall|ack: Ack| #[trigger] h.acks.contains(ack) ==> next.acks.contains(ack)
    &&& forall|ballot: Ballot| #[trigger]
        h.cluster.ballots.contains(ballot) ==> next.cluster.ballots.contains(ballot)
}

pub open spec fn log_grown(term: Term, log: Seq<EntryView>, next: Seq<EntryView>) -> bool {
    &&& log.len() <= next.len()
    &&& next.take(log.len() as int) == log
    &&& forall|i: int| log.len() <= i < next.len() ==> (#[trigger] next[i]).term == term
}

proof fn lemma_grown(
    h: HistoryView,
    voters: Set<NodeId>,
    id: NodeId,
    heard: Option<MessageView>,
    step: Step,
)
    requires
        agreement_holds(h, voters),
        moves(h, voters, id, heard, step),
    ensures
        grown(h, recorded(h, id, heard, step)),
{
    let before = h.cluster.nodes[id];
    let after = step.0;
    let term = after.hard_state.term;
    let next = recorded(h, id, heard, step);
    if after.role is Leader {
        lemma_leading(h, voters, id, heard, step);
    }
    assert forall|t: Term| #[trigger] h.logs.dom().contains(t) implies next.logs.dom().contains(t)
        && next.leaders[t] == h.leaders[t] && log_grown(t, h.logs[t], next.logs[t]) by {
        if !(after.role is Leader && t == term) {
            assert(h.logs[t].take(h.logs[t].len() as int) =~= h.logs[t]);
        }
    }
    assert forall|ballot: Ballot| #[trigger] h.seen.dom().contains(ballot) implies
        next.seen.dom().contains(ballot) && next.seen[ballot] == h.seen[ballot] by {
        lemma_vote(h, ballot);
        lemma_ballot(h.cluster, voters, ballot);
    }
}

/// What a log held, it holds as it grows.
proof fn lemma_log_grown_prefix(term: Term, log: Seq<EntryView>, next: Seq<EntryView>, len: int)
    requires
        log_grown(term, log, next),
        0 <= len <= log.len(),
    ensures
        next.take(len) == log.take(len),
        forall|i: int| 0 <= i < log.len() ==> next[i] == log[i],
{
    assert(log.take(log.len() as int) =~= log);
    lemma_shorter(next, log, log.len() as int, len);
}

proof fn lemma_rooted_on(h: HistoryView, next: HistoryView, log: Seq<EntryView>)
    requires
        grown(h, next),
        rooted(h, log),
    ensures
        rooted(next, log),
{
    reveal(rooted);
    assert forall|i: int| 0 <= i < log.len() implies rooted_at(
        next,
        #[trigger] log[i].term,
        log,
        i,
    ) by {
        let term = log[i].term;
        assert(rooted_at(h, term, log, i));
        lemma_log_grown_prefix(term, h.logs[term], next.logs[term], i + 1);
    }
}

/// A leader's log that lacks what another has of earlier terms never gets it.
proof fn lemma_lacking_on(
    h: HistoryView,
    next: HistoryView,
    voters: Set<NodeId>,
    term: Term,
    len: int,
    later: Term,
)
    requires
        grown(h, next),
        logs_hold(h, voters),
        h.logs.dom().contains(term),
        h.logs.dom().contains(later),
        term.0 < later.0,
        0 <= len <= h.logs[term].len(),
        !covers(h.logs[later], h.logs[term], len),
    ensures
        !covers(next.logs[later], next.logs[term], len),
{
    let a = h.logs[term];
    let b = h.logs[later];
    let c = next.logs[later];
    lemma_log_grown_prefix(term, a, next.logs[term], len);
    if covers(c, next.logs[term], len) {
        if len <= b.len() {
            lemma_log_grown_prefix(later, b, c, len);
        } else {
            let i = b.len() as int;
            lemma_log(h, voters, term);
            lemma_sorted(a, i, a.len() - 1);
            assert(c.take(len)[i] == a.take(len)[i]);
        }
        assert(false);
    }
}

proof fn lemma_kept_on(
    h: HistoryView,
    next: HistoryView,
    voters: Set<NodeId>,
    log: Seq<EntryView>,
    ack: Ack,
    upto: int,
)
    requires
        grown(h, next),
        logs_hold(h, voters),
        h.logs.dom().contains(ack.term),
        0 <= ack.len <= h.logs[ack.term].len(),
        kept_or_lost(h, log, ack, upto),
    ensures
        kept_or_lost(next, log, ack, upto),
{
    lemma_log_grown_prefix(ack.term, h.logs[ack.term], next.logs[ack.term], ack.len);
    if !covers(log, h.logs[ack.term], ack.len) {
        let later = choose|later: Term| #[trigger]
            h.logs.dom().contains(later) && ack.term.0 < later.0 <= upto && !covers(
                h.logs[later],
                h.logs[ack.term],
                ack.len,
            );
        lemma_lacking_on(h, next, voters, ack.term, ack.len, later);
        assert(next.logs.dom().contains(later));
    }
}

/// What is chosen stays so.
pub proof fn lemma_chosen_on(
    h: HistoryView,
    next: HistoryView,
    voters: Set<NodeId>,
    term: Term,
    len: int,
)
    requires
        grown(h, next),
        voters.finite(),
        chosen(h, voters, term, len),
    ensures
        chosen(next, voters, term, len),
        next.logs[term].take(len) == h.logs[term].take(len),
{
    lemma_log_grown_prefix(term, h.logs[term], next.logs[term], len);
    lemma_more_supporters(ackers(h, term, len), ackers(next, term, len), voters);
}

proof fn lemma_safe_on(
    h: HistoryView,
    next: HistoryView,
    voters: Set<NodeId>,
    log: Seq<EntryView>,
    len: int,
    term: Term,
    longer: Seq<EntryView>,
    lesser: int,
    later: Term,
)
    requires
        grown(h, next),
        voters.finite(),
        safe(h, voters, log, len, term),
        0 <= lesser <= len,
        term.0 <= later.0,
        lesser <= longer.len(),
        longer.take(lesser) == log.take(lesser),
    ensures
        safe(next, voters, longer, lesser, later),
{
    if lesser > 0 {
        let (t, k) = choose|t: Term, k: int| #[trigger]
            chosen(h, voters, t, k) && len <= k && t.0 <= term.0 && log.take(len)
                == h.logs[t].take(len);
        lemma_chosen_on(h, next, voters, t, k);
        lemma_shorter(log, h.logs[t], len, lesser);
        lemma_log_grown_prefix(t, h.logs[t], next.logs[t], lesser);
        assert(chosen(next, voters, t, k));
    }
}

/// What is true of a message that was sent.
pub proof fn lemma_message(h: HistoryView, voters: Set<NodeId>, message: MessageView)
    requires
        sent_holds(h, voters),
        h.cluster.sent.contains(message),
    ensures
        message_holds(h, voters, message),
{
    reveal(sent_holds);
}

proof fn lemma_node(h: HistoryView, id: NodeId)
    requires
        nodes_hold(h),
        h.cluster.nodes.dom().contains(id),
    ensures
        node_holds(h, h.cluster.nodes[id]),
{
    reveal(nodes_hold);
}

/// A log of leaders' entries of terms up to a leader's own is settled where the
/// leader's own entries begin, and at its own end.
proof fn lemma_settled(
    h: HistoryView,
    voters: Set<NodeId>,
    term: Term,
    log: Seq<EntryView>,
    prev: int,
)
    requires
        logs_hold(h, voters),
        h.logs.dom().contains(term),
        sorted(log),
        rooted(h, log),
        end_term(log).0 <= term.0,
        prev >= start_of(h, term).len() || prev >= log.len() - 1,
    ensures
        settled(h, term, log, prev),
{
    let theirs = h.logs[term];
    let start = start_of(h, term).len() as int;
    lemma_log(h, voters, term);
    let n = log.len() as int;
    if n == 0 {
        assert(theirs.take(0) =~= log.take(0));
    } else if n <= start {
        if theirs[n - 1].term == log[n - 1].term {
            lemma_matching(h, theirs, log, n);
        } else {
            assert(differs(theirs, log, n - 1));
        }
    } else if log[start].term == term {
        lemma_sorted(log, start, n - 1);
        lemma_rooted(h, log, n - 1);
    } else {
        assert(differs(theirs, log, start));
    }
}

/// A node that has taken a whole append of its term holds a beginning of the
/// log of the term's leader, and nothing else.
pub proof fn lemma_took(
    h: HistoryView,
    voters: Set<NodeId>,
    id: NodeId,
    heard: Option<MessageView>,
    step: Step,
)
    requires
        agreement_holds(h, voters),
        moves(h, voters, id, heard, step),
        took_whole(h.cluster.nodes[id], heard, step.0),
    ensures
        ({
            let before = h.cluster.nodes[id];
            let after = step.0;
            let term = after.hard_state.term;
            let log = h.logs[term];
            &&& h.logs.dom().contains(term)
            &&& h.leaders[term] != id
            &&& 0 < after.log.len() <= log.len()
            &&& after.log == log.take(after.log.len() as int)
            &&& after.log.take(after.log.len() as int) == after.log
            &&& after.log == before.log || exists|cut: int|
                0 <= cut <= before.log.len() && cut < after.log.len() && #[trigger]
                before.log.take(cut) == log.take(cut) && (cut < before.log.len()
                    ==> before.log[cut].term != log[cut].term)
        }),
{
    let before = h.cluster.nodes[id];
    let after = step.0;
    let term = after.hard_state.term;
    let message = heard->0;
    let request = message.kind->AppendReq_0;
    lemma_message(h, voters, message);
    lemma_log(h, voters, term);
    lemma_node(h, id);
    let log = h.logs[term];
    let prev = request.prev_index.0 as int;
    let end = prev + request.entries.len();
    let old = before.log;
    assert(before.term_at(request.prev_index) == Some(request.prev_term));
    assert(prev <= old.len() && request.prev_term == log_term(old, prev));
    if request.prev_term.0 == 0 && prev > 0 {
        lemma_sorted(old, prev - 1, prev - 1);
        assert(false);
    }
    assert(request.entries == log.subrange(prev, end));
    lemma_sorted(log, 0, log.len() - 1);
    if prev >= start_of(h, term).len() {
        lemma_settled(h, voters, term, old, prev);
    }
    assert(settled(h, term, old, prev));
    lemma_matching(h, old, log, prev);
    lemma_shorter(old, log, prev, prev);
    if after.log == old && agrees(old, request, request.entries.len() as int) {
        if request.entries.len() > 0 {
            assert(old[prev + 0].term == request.entries[0].term);
        }
        if !covers(log, old, old.len() as int) {
            let m = choose|m: int| #[trigger] differs(log, old, m) && m <= prev;
            assert(m == prev);
            if request.entries.len() == 0 {
                lemma_sorted(old, prev - 1, prev);
                lemma_sorted(old, prev, old.len() - 1);
                lemma_sorted(log, prev - 1, prev);
                lemma_sorted(log, prev, log.len() - 1);
            }
            assert(false);
        }
        assert(old.take(old.len() as int) =~= old);
    } else {
        let cut = choose|cut: int|
            cut <= request.entries.len() && #[trigger] parts(old, request, cut) && after.log
                == spliced(old, request, cut, request.entries.len() as int);
        let at = prev + cut;
        assert(log_term(old, at) == log_term(log, at)) by {
            if cut > 0 {
                assert(old[prev + (cut - 1)].term == request.entries[cut - 1].term);
            }
        }
        lemma_matching(h, old, log, at);
        assert(after.log =~= log.take(end));
        assert(old.take(at) == log.take(at));
    }
    assert(after.log.take(after.log.len() as int) =~= after.log);
}

/// Where the log of a node that does not lead changes, an append of its term has
/// cut it off where it parts from the log of the term's leader, and what stands
/// behind that is the leader's.
proof fn lemma_replaced(
    h: HistoryView,
    voters: Set<NodeId>,
    id: NodeId,
    heard: Option<MessageView>,
    step: Step,
)
    requires
        agreement_holds(h, voters),
        moves(h, voters, id, heard, step),
        step.0.role !is Leader,
        step.0.log != h.cluster.nodes[id].log,
    ensures
        ({
            let before = h.cluster.nodes[id];
            let after = step.0;
            let term = after.hard_state.term;
            let log = h.logs[term];
            &&& h.logs.dom().contains(term)
            &&& h.leaders[term] != id
            &&& after.log.len() <= log.len()
            &&& after.log == log.take(after.log.len() as int)
            &&& after.log.take(after.log.len() as int) == after.log
            &&& exists|cut: int|
                0 <= cut <= before.log.len() && cut <= after.log.len() && #[trigger]
                before.log.take(cut) == log.take(cut) && (cut < before.log.len()
                    ==> before.log[cut].term != log[cut].term)
        }),
{
    let before = h.cluster.nodes[id];
    let after = step.0;
    let term = after.hard_state.term;
    if crate::raft_logs::grows(before, after) {
        assert(after.log.take(before.log.len() as int) =~= after.log);
        assert(false);
    }
    assert(took_some(before, heard, after));
    let message = heard->0;
    let request = message.kind->AppendReq_0;
    lemma_message(h, voters, message);
    lemma_log(h, voters, term);
    lemma_node(h, id);
    let log = h.logs[term];
    let prev = request.prev_index.0 as int;
    let end = prev + request.entries.len();
    let old = before.log;
    let i = choose|i: int|
        0 <= i <= request.entries.len() && #[trigger] takes(old, request, i, after.log);
    let cut = choose|cut: int|
        cut <= i && #[trigger] parts(old, request, cut) && after.log == spliced(
            old,
            request,
            cut,
            i,
        );
    assert(request.entries.len() > 0);
    assert(request.entries == log.subrange(prev, end));
    assert(prev <= old.len() && request.prev_term == log_term(old, prev));
    let at = prev + cut;
    assert(log_term(old, at) == log_term(log, at)) by {
        if cut > 0 {
            assert(old[prev + (cut - 1)].term == request.entries[cut - 1].term);
        }
    }
    lemma_matching(h, old, log, at);
    assert(after.log =~= log.take(prev + i));
    assert(old.take(at) == log.take(at));
    assert(after.log.take(after.log.len() as int) =~= after.log);
}

proof fn lemma_node_on(
    h: HistoryView,
    voters: Set<NodeId>,
    id: NodeId,
    heard: Option<MessageView>,
    step: Step,
)
    requires
        agreement_holds(h, voters),
        moves(h, voters, id, heard, step),
    ensures
        node_holds(recorded(h, id, heard, step), step.0),
{
    let before = h.cluster.nodes[id];
    let after = step.0;
    let term = after.hard_state.term;
    let next = recorded(h, id, heard, step);
    lemma_grown(h, voters, id, heard, step);
    lemma_node(h, id);
    if after.role is Leader {
        lemma_leading(h, voters, id, heard, step);
        lemma_rooted_on(h, next, before.log);
        let n = before.log.len() as int;
        assert forall|i: int| 0 <= i < n implies after.log[i] == before.log[i] by {
            assert(after.log.take(n)[i] == before.log[i]);
        }
        reveal(sorted);
        reveal(rooted);
        assert forall|i: int, j: int| 0 <= i <= j < after.log.len() implies (
        #[trigger] after.log[i]).term.0 <= (#[trigger] after.log[j]).term.0 by {
            if i < n {
                assert(before.log[i].term.0 <= before.log[n - 1].term.0);
                if j < n {
                    assert(before.log[i].term.0 <= before.log[j].term.0);
                }
            }
        }
        assert forall|i: int| 0 <= i < after.log.len() implies rooted_at(
            next,
            #[trigger] after.log[i].term,
            after.log,
            i,
        ) by {
            if i < n {
                assert(rooted_at(next, before.log[i].term, before.log, i));
                assert(after.log.take(i + 1) =~= before.log.take(i + 1));
            }
        }
    } else if after.log != before.log {
        lemma_replaced(h, voters, id, heard, step);
        lemma_log(h, voters, term);
        let log = h.logs[term];
        lemma_rooted_on(h, next, log);
        reveal(sorted);
        reveal(rooted);
        assert forall|i: int| 0 <= i < after.log.len() implies rooted_at(
            next,
            #[trigger] after.log[i].term,
            after.log,
            i,
        ) by {
            assert(after.log[i] == log[i]);
            assert(rooted_at(next, log[i].term, log, i));
            assert(after.log.take(i + 1) =~= log.take(i + 1));
        }
        assert forall|i: int, j: int| 0 <= i <= j < after.log.len() implies (
        #[trigger] after.log[i]).term.0 <= (#[trigger] after.log[j]).term.0 by {
            assert(log[i].term.0 <= log[j].term.0);
        }
        assert forall|i: int| 0 <= i < after.log.len() implies (#[trigger] after.log[i]).term.0
            > 0 by {
            assert(log[i].term.0 > 0);
        }
        let n = after.log.len() as int;
        if n > 0 {
            assert(after.log[n - 1] == log[n - 1]);
            assert(log[n - 1].term.0 <= log[log.len() - 1].term.0);
        }
    } else {
        lemma_rooted_on(h, next, before.log);
    }
}

proof fn lemma_nodes_on(
    h: HistoryView,
    voters: Set<NodeId>,
    id: NodeId,
    heard: Option<MessageView>,
    step: Step,
)
    requires
        agreement_holds(h, voters),
        moves(h, voters, id, heard, step),
    ensures
        nodes_hold(recorded(h, id, heard, step)),
{
    let next = recorded(h, id, heard, step);
    lemma_grown(h, voters, id, heard, step);
    lemma_node_on(h, voters, id, heard, step);
    reveal(nodes_hold);
    assert forall|who: NodeId| #[trigger] next.cluster.nodes.dom().contains(who) implies node_holds(
        next,
        next.cluster.nodes[who],
    ) by {
        if who != id {
            assert(node_holds(h, h.cluster.nodes[who]));
            lemma_rooted_on(h, next, h.cluster.nodes[who].log);
        }
    }
}

proof fn lemma_logs_on(
    h: HistoryView,
    voters: Set<NodeId>,
    id: NodeId,
    heard: Option<MessageView>,
    step: Step,
)
    requires
        agreement_holds(h, voters),
        moves(h, voters, id, heard, step),
    ensures
        logs_hold(recorded(h, id, heard, step), voters),
{
    let before = h.cluster.nodes[id];
    let after = step.0;
    let term = after.hard_state.term;
    let next = recorded(h, id, heard, step);
    lemma_grown(h, voters, id, heard, step);
    lemma_node_on(h, voters, id, heard, step);
    if after.role is Leader {
        lemma_leading(h, voters, id, heard, step);
    }
    assert forall|t: Term| #[trigger] next.logs.dom().contains(t) implies log_holds(
        next,
        voters,
        t,
    ) by {
        if after.role is Leader && t == term {
            let n = before.log.len() as int;
            if h.logs.dom().contains(t) {
                lemma_log(h, voters, t);
                let own = own_ballot(t, id);
                let start = h.seen[own];
                assert(h.seen.dom().contains(own));
                assert(next.seen[own] == start);
                lemma_more_supporters(backers(h, t, id), backers(next, t, id), voters);
                assert(after.log.take(start.len() as int) =~= before.log.take(start.len() as int))
                    by {
                    assert(after.log.take(n).take(start.len() as int) =~= after.log.take(
                        start.len() as int,
                    ));
                }
                assert(after.log.take(n)[start.len() as int] == before.log[start.len() as int]);
                if after.log.len() == n {
                    assert(after.log =~= before.log);
                }
            }
        } else {
            lemma_log(h, voters, t);
            lemma_rooted_on(h, next, h.logs[t]);
            let leader = h.leaders[t];
            lemma_more_supporters(backers(h, t, leader), backers(next, t, leader), voters);
            assert(h.seen.dom().contains(own_ballot(t, leader)));
        }
    }
    reveal(logs_hold);
}

proof fn lemma_leads_on(
    h: HistoryView,
    voters: Set<NodeId>,
    id: NodeId,
    heard: Option<MessageView>,
    step: Step,
)
    requires
        agreement_holds(h, voters),
        moves(h, voters, id, heard, step),
    ensures
        leads_hold(recorded(h, id, heard, step)),
{
    let before = h.cluster.nodes[id];
    let after = step.0;
    let next = recorded(h, id, heard, step);
    if after.role is Leader {
        lemma_leading(h, voters, id, heard, step);
    }
    assert forall|who: NodeId| #[trigger] next.cluster.nodes.dom().contains(who) implies ({
        let node = next.cluster.nodes[who];
        let term = node.hard_state.term;
        &&& node.role is Leader ==> next.logs.dom().contains(term) && next.leaders[term] == who
        &&& next.logs.dom().contains(term) && next.leaders[term] == who ==> node.log
            == next.logs[term]
    }) by {
        if who != id {
            lemma_lead(h, who);
        } else if after.role !is Leader {
            let term = after.hard_state.term;
            if h.logs.dom().contains(term) && h.leaders[term] == id {
                lemma_log(h, voters, term);
                lemma_lead(h, id);
                if after.log != before.log {
                    lemma_replaced(h, voters, id, heard, step);
                }
            }
        }
    }
    reveal(leads_hold);
}

proof fn lemma_votes_on(
    h: HistoryView,
    voters: Set<NodeId>,
    id: NodeId,
    heard: Option<MessageView>,
    step: Step,
)
    requires
        agreement_holds(h, voters),
        moves(h, voters, id, heard, step),
    ensures
        votes_hold(recorded(h, id, heard, step)),
{
    let before = h.cluster.nodes[id];
    let after = step.0;
    let term = after.hard_state.term;
    let next = recorded(h, id, heard, step);
    lemma_grown(h, voters, id, heard, step);
    lemma_node(h, id);
    assert(vote_recorded(h, id)) by {
        reveal(votes_hold);
    }
    assert forall|ballot: Ballot| #[trigger]
        next.cluster.ballots.contains(ballot) && !next.logs.dom().contains(
            ballot.term,
        ) implies next.seen.dom().contains(ballot) by {
        if h.cluster.ballots.contains(ballot) {
            lemma_vote(h, ballot);
        }
    }
    assert forall|ballot: Ballot| #[trigger] next.seen.dom().contains(ballot) implies
        next.cluster.ballots.contains(ballot) && vote_holds(next, ballot) by {
        if h.seen.dom().contains(ballot) {
            lemma_vote(h, ballot);
            let own = own_ballot(ballot.term, ballot.candidate);
            assert(h.seen.dom().contains(own));
            lemma_rooted_on(h, next, h.seen[ballot]);
        } else {
            let candidate = ballot.candidate;
            lemma_rooted_on(h, next, before.log);
            if candidate != id {
                let message = heard->0;
                lemma_message(h, voters, message);
                let own = own_ballot(term, candidate);
                lemma_vote(h, own);
            }
        }
    }
    assert forall|who: NodeId| #[trigger] next.cluster.nodes.dom().contains(who) implies
        vote_recorded(next, who) by {
        if who != id {
            assert(vote_recorded(h, who)) by {
                reveal(votes_hold);
            }
            let node = h.cluster.nodes[who];
            if node.hard_state.voted_for == Some(who) && !h.logs.dom().contains(
                node.hard_state.term,
            ) {
                lemma_vote(h, own_ballot(node.hard_state.term, who));
            }
        } else {
            if after.hard_state.voted_for == Some(id) && !next.logs.dom().contains(term) {
                if after.log != before.log {
                    lemma_replaced(h, voters, id, heard, step);
                }
                if after.hard_state == before.hard_state {
                    lemma_vote(h, own_ballot(term, id));
                }
            }
            if let Some(candidate) = after.hard_state.voted_for {
                assert(casts(after, Ballot { voter: id, term, candidate }));
            }
        }
    }
    reveal(votes_hold);
}

/// An append of the term's leader leaves alone what its taker shares with that
/// leader.
proof fn lemma_took_keeps(
    h: HistoryView,
    voters: Set<NodeId>,
    id: NodeId,
    heard: Option<MessageView>,
    step: Step,
    len: int,
)
    requires
        agreement_holds(h, voters),
        moves(h, voters, id, heard, step),
        step.0.role !is Leader,
        0 <= len <= h.cluster.nodes[id].log.len(),
        covers(h.logs[step.0.hard_state.term], h.cluster.nodes[id].log, len),
    ensures
        step.0.log.len() >= len,
        step.0.log.take(len) == h.cluster.nodes[id].log.take(len),
{
    let before = h.cluster.nodes[id];
    let after = step.0;
    let log = h.logs[after.hard_state.term];
    if after.log != before.log {
        lemma_replaced(h, voters, id, heard, step);
        let cut = choose|cut: int|
            0 <= cut <= before.log.len() && cut <= after.log.len() && #[trigger] before.log.take(
                cut,
            ) == log.take(cut) && (cut < before.log.len() ==> before.log[cut].term
                != log[cut].term);
        if cut < len {
            assert(log.take(len)[cut] == before.log.take(len)[cut]);
            assert(false);
        }
        assert(after.log.take(len) =~= log.take(len));
    }
}

/// What a node agreed to stays with it, or a later leader took it away.
proof fn lemma_ack_on(
    h: HistoryView,
    voters: Set<NodeId>,
    id: NodeId,
    heard: Option<MessageView>,
    step: Step,
    ack: Ack,
)
    requires
        agreement_holds(h, voters),
        moves(h, voters, id, heard, step),
        h.acks.contains(ack),
        ack.voter == id,
    ensures
        kept_or_lost(h, step.0.log, ack, step.0.hard_state.term.0 as int),
{
    let before = h.cluster.nodes[id];
    let after = step.0;
    let term = after.hard_state.term;
    lemma_ack(h, ack);
    lemma_node(h, id);
    if after.role is Leader {
        lemma_leading(h, voters, id, heard, step);
        let n = before.log.len() as int;
        if covers(before.log, h.logs[ack.term], ack.len) {
            assert(after.log.take(ack.len) =~= after.log.take(n).take(ack.len));
        }
    } else if after.log != before.log {
        lemma_replaced(h, voters, id, heard, step);
        if covers(before.log, h.logs[ack.term], ack.len) {
            if covers(h.logs[term], h.logs[ack.term], ack.len) {
                lemma_took_keeps(h, voters, id, heard, step, ack.len);
            } else {
                assert(ack.term.0 < term.0);
                assert(h.logs.dom().contains(term));
            }
        }
    }
}

/// A node that had nothing but what the leader of its term has keeps to that.
proof fn lemma_whole_on(
    h: HistoryView,
    voters: Set<NodeId>,
    id: NodeId,
    heard: Option<MessageView>,
    step: Step,
)
    requires
        agreement_holds(h, voters),
        moves(h, voters, id, heard, step),
        h.logs.dom().contains(step.0.hard_state.term),
        covers(
            h.logs[step.0.hard_state.term],
            h.cluster.nodes[id].log,
            h.cluster.nodes[id].log.len() as int,
        ),
    ensures
        covers(
            recorded(h, id, heard, step).logs[step.0.hard_state.term],
            step.0.log,
            step.0.log.len() as int,
        ),
{
    let before = h.cluster.nodes[id];
    let after = step.0;
    let term = after.hard_state.term;
    let next = recorded(h, id, heard, step);
    lemma_grown(h, voters, id, heard, step);
    if after.role !is Leader {
        if after.log != before.log {
            lemma_replaced(h, voters, id, heard, step);
        }
        lemma_log_grown_prefix(term, h.logs[term], next.logs[term], after.log.len() as int);
    }
}

/// Where a log was settled in its node's term, it stays so.
proof fn lemma_settled_on(
    h: HistoryView,
    voters: Set<NodeId>,
    id: NodeId,
    heard: Option<MessageView>,
    step: Step,
    peer: NodeId,
    prev: int,
)
    requires
        agreement_holds(h, voters),
        moves(h, voters, id, heard, step),
        h.cluster.nodes.dom().contains(peer),
        h.logs.dom().contains(h.cluster.nodes[peer].hard_state.term),
        settled(h, h.cluster.nodes[peer].hard_state.term, h.cluster.nodes[peer].log, prev),
        recorded(h, id, heard, step).cluster.nodes[peer].hard_state.term
            == h.cluster.nodes[peer].hard_state.term,
    ensures
        settled(
            recorded(h, id, heard, step),
            h.cluster.nodes[peer].hard_state.term,
            recorded(h, id, heard, step).cluster.nodes[peer].log,
            prev,
        ),
{
    let node = h.cluster.nodes[peer];
    let term = node.hard_state.term;
    let next = recorded(h, id, heard, step);
    let log = next.cluster.nodes[peer].log;
    lemma_grown(h, voters, id, heard, step);
    lemma_log_grown_prefix(term, h.logs[term], next.logs[term], h.logs[term].len() as int);
    if peer == id && step.0.role is Leader {
        assert(covers(next.logs[term], log, log.len() as int));
    } else if log != node.log {
        lemma_replaced(h, voters, id, heard, step);
        lemma_log_grown_prefix(term, h.logs[term], next.logs[term], log.len() as int);
    } else {
        if covers(h.logs[term], log, log.len() as int) {
            lemma_log_grown_prefix(term, h.logs[term], next.logs[term], log.len() as int);
        } else {
            let m = choose|m: int| #[trigger] differs(h.logs[term], log, m) && m <= prev;
            assert(differs(next.logs[term], log, m));
        }
    }
}

proof fn lemma_aimed_on(
    h: HistoryView,
    voters: Set<NodeId>,
    id: NodeId,
    heard: Option<MessageView>,
    step: Step,
    term: Term,
    peer: NodeId,
    prev: int,
)
    requires
        agreement_holds(h, voters),
        moves(h, voters, id, heard, step),
        h.logs.dom().contains(term),
        aimed(h, term, peer, prev),
    ensures
        aimed(recorded(h, id, heard, step), term, peer, prev),
{
    let next = recorded(h, id, heard, step);
    lemma_grown(h, voters, id, heard, step);
    lemma_log(h, voters, term);
    assert(start_of(next, term) == start_of(h, term));
    if prev < start_of(h, term).len() && next.cluster.nodes[peer].hard_state.term == term {
        lemma_settled_on(h, voters, id, heard, step, peer, prev);
    }
}

proof fn lemma_refusal_on(
    h: HistoryView,
    voters: Set<NodeId>,
    id: NodeId,
    heard: Option<MessageView>,
    step: Step,
    term: Term,
    peer: NodeId,
    conflict: int,
)
    requires
        agreement_holds(h, voters),
        moves(h, voters, id, heard, step),
        refusal_holds(h, term, peer, conflict),
    ensures
        refusal_holds(recorded(h, id, heard, step), term, peer, conflict),
{
    let next = recorded(h, id, heard, step);
    let node = h.cluster.nodes[peer];
    let after = next.cluster.nodes[peer];
    lemma_grown(h, voters, id, heard, step);
    if after.hard_state.term == term {
        if h.logs.dom().contains(term) {
            lemma_settled_on(h, voters, id, heard, step, peer, resumed_at(conflict));
        } else if peer == id && step.0.role is Leader {
            assert(covers(next.logs[term], after.log, after.log.len() as int));
        } else {
            if peer == id && step.0.log != node.log {
                lemma_replaced(h, voters, id, heard, step);
            }
            if next.logs.dom().contains(term) {
                lemma_nodes_on(h, voters, id, heard, step);
                lemma_logs_on(h, voters, id, heard, step);
                lemma_node(next, peer);
                lemma_settled(next, voters, term, after.log, resumed_at(conflict));
            }
        }
    }
}

/// A refusal is true when it is sent.
proof fn lemma_refused(
    h: HistoryView,
    voters: Set<NodeId>,
    id: NodeId,
    heard: Option<MessageView>,
    step: Step,
    conflict: int,
)
    requires
        agreement_holds(h, voters),
        moves(h, voters, id, heard, step),
        refuses(h.cluster.nodes[id], heard, step.0, conflict),
    ensures
        refusal_holds(recorded(h, id, heard, step), step.0.hard_state.term, id, conflict),
{
    let before = h.cluster.nodes[id];
    let after = step.0;
    let term = after.hard_state.term;
    let next = recorded(h, id, heard, step);
    let message = heard->0;
    let request = message.kind->AppendReq_0;
    let prev = request.prev_index.0 as int;
    lemma_grown(h, voters, id, heard, step);
    lemma_nodes_on(h, voters, id, heard, step);
    lemma_logs_on(h, voters, id, heard, step);
    lemma_node(next, id);
    lemma_message(h, voters, message);
    if message.term == term {
        lemma_log_grown_prefix(term, h.logs[term], next.logs[term], h.logs[term].len() as int);
        lemma_log(h, voters, term);
        assert(start_of(next, term) == start_of(h, term));
    }
    if next.logs.dom().contains(term) {
        if conflict >= after.log.len() {
            lemma_settled(next, voters, term, after.log, resumed_at(conflict));
        } else if request.prev_term.0 == 0 && prev > start_of(h, term).len() {
            lemma_settled(next, voters, term, after.log, resumed_at(conflict));
        } else {
            assert(differs(next.logs[term], after.log, prev - 1));
        }
    }
}

proof fn lemma_aims_on(
    h: HistoryView,
    voters: Set<NodeId>,
    id: NodeId,
    heard: Option<MessageView>,
    step: Step,
)
    requires
        agreement_holds(h, voters),
        moves(h, voters, id, heard, step),
    ensures
        aims_hold(recorded(h, id, heard, step)),
{
    let before = h.cluster.nodes[id];
    let after = step.0;
    let next = recorded(h, id, heard, step);
    assert forall|who: NodeId, peer: NodeId|
        #![trigger next.cluster.nodes[who].next_index.dom().contains(peer)]
        next.cluster.nodes.dom().contains(who) && next.cluster.nodes[who].role is Leader
            && next.cluster.nodes[who].next_index.dom().contains(peer)
            && next.cluster.nodes[who].followers().contains(peer) implies aimed(
        next,
        next.cluster.nodes[who].hard_state.term,
        peer,
        index_before(next.cluster.nodes[who].next_index[peer].0) as int,
    ) by {
        if who != id || before.role is Leader && before.hard_state.term == after.hard_state.term
            && before.next_index.dom().contains(peer) && before.next_index[peer]
            == after.next_index[peer] {
            let node = h.cluster.nodes[who];
            lemma_lead(h, who);
            assert(h.cluster.nodes[who].next_index.dom().contains(peer));
            let prev = index_before(node.next_index[peer].0) as int;
            assert(aimed(h, node.hard_state.term, peer, prev)) by {
                reveal(aims_hold);
            }
            lemma_aimed_on(h, voters, id, heard, step, node.hard_state.term, peer, prev);
        } else {
            lemma_own_aim(h, voters, id, heard, step, peer);
        }
    }
    reveal(aims_hold);
}

/// Where a leader newly resumes replication to a peer, it finds everything.
proof fn lemma_own_aim(
    h: HistoryView,
    voters: Set<NodeId>,
    id: NodeId,
    heard: Option<MessageView>,
    step: Step,
    peer: NodeId,
)
    requires
        agreement_holds(h, voters),
        moves(h, voters, id, heard, step),
        step.0.role is Leader,
        step.0.next_index.dom().contains(peer),
        step.0.followers().contains(peer),
        !(h.cluster.nodes[id].role is Leader && h.cluster.nodes[id].hard_state.term
            == step.0.hard_state.term && h.cluster.nodes[id].next_index.dom().contains(peer)
            && h.cluster.nodes[id].next_index[peer] == step.0.next_index[peer]),
    ensures
        aimed(
            recorded(h, id, heard, step),
            step.0.hard_state.term,
            peer,
            index_before(step.0.next_index[peer].0) as int,
        ),
{
    let before = h.cluster.nodes[id];
    let after = step.0;
    let term = after.hard_state.term;
    let next = recorded(h, id, heard, step);
    let to = after.next_index[peer].0;
    let prev = index_before(to) as int;
    lemma_grown(h, voters, id, heard, step);
    lemma_leading(h, voters, id, heard, step);
    if to > before.log.len() + 1 {
        if h.logs.dom().contains(term) {
            lemma_log(h, voters, term);
            assert(start_of(next, term) == start_of(h, term));
        }
    } else {
        let message = heard->0;
        let response = message.kind->AppendResp_0;
        lemma_message(h, voters, message);
        if response.success {
            lemma_ack(
                h,
                Ack { voter: peer, term, len: response.match_index.0 as int },
            );
            assert(aimed(h, term, peer, prev));
            lemma_aimed_on(h, voters, id, heard, step, term, peer, prev);
        } else {
            let conflict = response.conflict_index.0 as int;
            lemma_refusal_on(h, voters, id, heard, step, term, peer, conflict);
        }
    }
}

proof fn lemma_acks_on(
    h: HistoryView,
    voters: Set<NodeId>,
    id: NodeId,
    heard: Option<MessageView>,
    step: Step,
)
    requires
        agreement_holds(h, voters),
        moves(h, voters, id, heard, step),
    ensures
        acks_hold(recorded(h, id, heard, step)),
{
    let before = h.cluster.nodes[id];
    let after = step.0;
    let term = after.hard_state.term;
    let next = recorded(h, id, heard, step);
    lemma_grown(h, voters, id, heard, step);
    assert forall|ack: Ack| #[trigger] next.acks.contains(ack) implies ack_holds(next, ack) by {
        if h.acks.contains(ack) {
            lemma_ack(h, ack);
            if ack.voter == id {
                lemma_ack_on(h, voters, id, heard, step, ack);
                lemma_kept_on(h, next, voters, after.log, ack, term.0 as int);
                if ack.term == term {
                    lemma_whole_on(h, voters, id, heard, step);
                }
            } else {
                let node = h.cluster.nodes[ack.voter];
                lemma_kept_on(h, next, voters, node.log, ack, node.hard_state.term.0 as int);
                if ack.term == node.hard_state.term {
                    lemma_log_grown_prefix(
                        ack.term,
                        h.logs[ack.term],
                        next.logs[ack.term],
                        node.log.len() as int,
                    );
                }
            }
        } else {
            if after.role !is Leader {
                lemma_took(h, voters, id, heard, step);
                lemma_shorter(
                    after.log,
                    h.logs[term],
                    after.log.len() as int,
                    ack.len,
                );
            }
            assert(covers(after.log, next.logs[term], ack.len));
            assert(covers(next.logs[term], after.log, after.log.len() as int));
        }
    }
    assert forall|ack: Ack, len: int|
        #![trigger next.acks.contains(ack), next.acks.contains(lesser(ack, len))]
        next.acks.contains(ack) && 0 <= len <= ack.len implies next.acks.contains(
        lesser(ack, len),
    ) by {
        if h.acks.contains(ack) {
            assert(h.acks.contains(lesser(ack, len))) by {
                reveal(acks_hold);
            }
        }
    }
    assert forall|ballot: Ballot, ack: Ack|
        #![trigger next.seen.dom().contains(ballot), next.acks.contains(ack)]
        next.seen.dom().contains(ballot) && next.acks.contains(ack) && ballot.voter == ack.voter
            && ack.term.0 < ballot.term.0 implies kept_or_lost(
        next,
        next.seen[ballot],
        ack,
        ballot.term.0 - 1,
    ) by {
        if h.seen.dom().contains(ballot) {
            lemma_vote(h, ballot);
            lemma_ballot(h.cluster, voters, ballot);
            if h.acks.contains(ack) {
                lemma_ack(h, ack);
                lemma_seen_ack(h, ballot, ack);
                lemma_kept_on(h, next, voters, h.seen[ballot], ack, ballot.term.0 - 1);
            }
        } else {
            lemma_ack(h, ack);
            assert(kept_or_lost(h, before.log, ack, ballot.term.0 - 1));
            lemma_kept_on(h, next, voters, before.log, ack, ballot.term.0 - 1);
        }
    }
    reveal(acks_hold);
}

proof fn lemma_credits_on(
    h: HistoryView,
    voters: Set<NodeId>,
    id: NodeId,
    heard: Option<MessageView>,
    step: Step,
)
    requires
        agreement_holds(h, voters),
        moves(h, voters, id, heard, step),
    ensures
        credits_hold(recorded(h, id, heard, step), voters),
{
    let before = h.cluster.nodes[id];
    let after = step.0;
    let next = recorded(h, id, heard, step);
    lemma_grown(h, voters, id, heard, step);
    reveal(credits_hold);
    assert forall|who: NodeId, peer: NodeId|
        #![trigger next.cluster.nodes[who].match_index.dom().contains(peer)]
        next.cluster.nodes.dom().contains(who) && next.cluster.nodes[who].role is Leader
            && next.cluster.nodes[who].match_index.dom().contains(peer) && voters.contains(peer)
            && peer != who implies next.cluster.nodes[who].match_index[peer].0 == 0
        || next.acks.contains(
        Ack {
            voter: peer,
            term: next.cluster.nodes[who].hard_state.term,
            len: next.cluster.nodes[who].match_index[peer].0 as int,
        },
    ) by {
        if who != id {
            assert(h.cluster.nodes[who].match_index.dom().contains(peer));
        } else {
            assert(after.match_index.dom().contains(peer));
            let credit = after.match_index[peer];
            if credit.0 == 0 {
            } else if before.role is Leader && before.hard_state.term == after.hard_state.term
                && before.match_index.dom().contains(peer) && before.match_index[peer] == credit {
                assert(h.cluster.nodes[id].match_index.dom().contains(peer));
            } else {
                lemma_message(h, voters, heard->0);
            }
        }
    }
}

/// What may be committed in a term, the leader of the term holds.
proof fn lemma_safe_with_leader(
    h: HistoryView,
    voters: Set<NodeId>,
    log: Seq<EntryView>,
    len: int,
    term: Term,
    later: Term,
)
    requires
        agreement_holds(h, voters),
        voters.finite(),
        safe(h, voters, log, len, term),
        h.logs.dom().contains(later),
        term.0 <= later.0,
    ensures
        covers(h.logs[later], log, len),
{
    if len > 0 {
        let (t, k) = choose|t: Term, k: int| #[trigger]
            chosen(h, voters, t, k) && len <= k && t.0 <= term.0 && log.take(len)
                == h.logs[t].take(len);
        if t.0 < later.0 {
            lemma_leaders_hold_the_chosen(h, voters, t, k, later);
            lemma_shorter(h.logs[later], h.logs[t], k, len);
        }
    } else {
        assert(h.logs[later].take(0) =~= log.take(0));
    }
}

/// What a node has committed is beyond change.
pub proof fn lemma_commit(h: HistoryView, voters: Set<NodeId>, id: NodeId)
    requires
        commits_hold(h, voters),
        h.cluster.nodes.dom().contains(id),
    ensures
        safe(
            h,
            voters,
            h.cluster.nodes[id].log,
            h.cluster.nodes[id].commit_index.0 as int,
            h.cluster.nodes[id].hard_state.term,
        ),
{
    reveal(commits_hold);
}

/// What a leader counts as held by a quorum is beyond change.
pub proof fn lemma_counted(
    h: HistoryView,
    voters: Set<NodeId>,
    id: NodeId,
    heard: Option<MessageView>,
    step: Step,
    index: int,
)
    requires
        agreement_holds(h, voters),
        moves(h, voters, id, heard, step),
        step.0.role is Leader,
        0 < index <= step.0.log.len(),
        step.0.log[index - 1].term == step.0.hard_state.term,
        more_than_half(step.0.replicated(index), voters),
    ensures
        chosen(recorded(h, id, heard, step), voters, step.0.hard_state.term, index),
{
    let after = step.0;
    let term = after.hard_state.term;
    let next = recorded(h, id, heard, step);
    lemma_credits_on(h, voters, id, heard, step);
    lemma_acks_on(h, voters, id, heard, step);
    let held = after.replicated(index).intersect(voters);
    let all = ackers(next, term, index);
    assert forall|voter: NodeId| held.contains(voter) implies all.contains(voter) by {
        if voter == id {
            assert(agreed(
                h.cluster.nodes[id],
                heard,
                after,
                Ack { voter, term, len: index },
            ));
        } else {
            assert(next.cluster.nodes[id].match_index.dom().contains(voter));
            reveal(credits_hold);
            let ack = Ack { voter, term, len: after.match_index[voter].0 as int };
            assert(next.acks.contains(ack));
            reveal(acks_hold);
            assert(next.acks.contains(lesser(ack, index)));
        }
    }
    assert(held.intersect(voters) =~= held);
    lemma_more_supporters(held, all, voters);
}

proof fn lemma_commits_on(
    h: HistoryView,
    voters: Set<NodeId>,
    id: NodeId,
    heard: Option<MessageView>,
    step: Step,
)
    requires
        agreement_holds(h, voters),
        moves(h, voters, id, heard, step),
    ensures
        commits_hold(recorded(h, id, heard, step), voters),
{
    let before = h.cluster.nodes[id];
    let after = step.0;
    let term = after.hard_state.term;
    let next = recorded(h, id, heard, step);
    let index = after.commit_index.0 as int;
    lemma_grown(h, voters, id, heard, step);
    lemma_commit(h, voters, id);
    assert(safe(next, voters, after.log, index, term)) by {
        if index <= before.commit_index.0 {
            let was = before.commit_index.0 as int;
            if after.role is Leader {
                lemma_leading(h, voters, id, heard, step);
                let n = before.log.len() as int;
                assert(after.log.take(index) =~= after.log.take(n).take(index));
            } else if after.log != before.log {
                lemma_replaced(h, voters, id, heard, step);
                lemma_safe_with_leader(
                    h,
                    voters,
                    before.log,
                    was,
                    before.hard_state.term,
                    term,
                );
                lemma_took_keeps(h, voters, id, heard, step, was);
                lemma_shorter(after.log, before.log, was, index);
            }
            lemma_safe_on(
                h,
                next,
                voters,
                before.log,
                was,
                before.hard_state.term,
                after.log,
                index,
                term,
            );
        } else if after.role is Leader && 0 < index <= after.log.len() && after.log[index - 1].term
            == term && before.roster.quorum(after.replicated(index)) {
            lemma_counted(h, voters, id, heard, step, index);
            assert(chosen(next, voters, term, index));
        } else {
            lemma_took(h, voters, id, heard, step);
            let message = heard->0;
            let request = message.kind->AppendReq_0;
            lemma_message(h, voters, message);
            lemma_shorter(after.log, h.logs[term], after.log.len() as int, index);
            lemma_safe_on(
                h,
                next,
                voters,
                h.logs[term],
                request.leader_commit.0 as int,
                term,
                after.log,
                index,
                term,
            );
        }
    }
    reveal(commits_hold);
    assert forall|who: NodeId| #[trigger] next.cluster.nodes.dom().contains(who) implies safe(
        next,
        voters,
        next.cluster.nodes[who].log,
        next.cluster.nodes[who].commit_index.0 as int,
        next.cluster.nodes[who].hard_state.term,
    ) by {
        if who != id {
            let node = h.cluster.nodes[who];
            assert(h.cluster.nodes.dom().contains(who));
            let len = node.commit_index.0 as int;
            lemma_safe_on(
                h,
                next,
                voters,
                node.log,
                len,
                node.hard_state.term,
                node.log,
                len,
                node.hard_state.term,
            );
        }
    }
}

proof fn lemma_sent_on(
    h: HistoryView,
    voters: Set<NodeId>,
    id: NodeId,
    heard: Option<MessageView>,
    step: Step,
)
    requires
        agreement_holds(h, voters),
        moves(h, voters, id, heard, step),
    ensures
        sent_holds(recorded(h, id, heard, step), voters),
{
    let before = h.cluster.nodes[id];
    let after = step.0;
    let term = after.hard_state.term;
    let next = recorded(h, id, heard, step);
    lemma_grown(h, voters, id, heard, step);
    lemma_commits_on(h, voters, id, heard, step);
    lemma_logs_on(h, voters, id, heard, step);
    lemma_aims_on(h, voters, id, heard, step);
    assert forall|message: MessageView| #[trigger] next.cluster.sent.contains(message) implies
        message_holds(next, voters, message) by {
        if h.cluster.sent.contains(message) {
            lemma_message(h, voters, message);
            if let KindView::AppendReq(request) = message.kind {
                let t = message.term;
                let log = h.logs[t];
                let more = next.logs[t];
                assert(h.logs.dom().contains(t));
                lemma_log_grown_prefix(t, log, more, log.len() as int);
                let prev = request.prev_index.0 as int;
                let end = prev + request.entries.len();
                if end <= log.len() {
                    assert(more.subrange(prev, end) =~= log.subrange(prev, end));
                }
                lemma_log(h, voters, t);
                lemma_aimed_on(h, voters, id, heard, step, t, message.to, prev);
                let commit = request.leader_commit.0 as int;
                lemma_log_grown_prefix(t, log, more, commit);
                lemma_safe_on(h, next, voters, log, commit, t, more, commit, t);
            }
            if let KindView::AppendResp(response) = message.kind {
                if !response.success {
                    lemma_refusal_on(
                        h,
                        voters,
                        id,
                        heard,
                        step,
                        message.term,
                        message.from,
                        response.conflict_index.0 as int,
                    );
                }
            }
        } else {
            let i = choose|i: int|
                0 <= i < step.1.len() && #[trigger] step.1[i] == EffectView::Send(message);
            assert(tells(before, heard, after, message));
            match message.kind {
                KindView::AppendReq(request) => {
                    assert(next.logs.dom().contains(term));
                    lemma_log(next, voters, term);
                    assert(next.cluster.nodes.dom().contains(id));
                    lemma_commit(next, voters, id);
                    if after.next_index.dom().contains(message.to) {
                        assert(next.cluster.nodes[id].next_index.dom().contains(message.to));
                        reveal(aims_hold);
                    }
                },
                KindView::AppendResp(response) => {
                    if response.success {
                        assert(agreed(
                            before,
                            heard,
                            after,
                            Ack { voter: id, term, len: response.match_index.0 as int },
                        ));
                    } else {
                        lemma_refused(
                            h,
                            voters,
                            id,
                            heard,
                            step,
                            response.conflict_index.0 as int,
                        );
                    }
                },
                KindView::VoteReq { .. } => {
                    let own = own_ballot(term, id);
                    if h.seen.dom().contains(own) {
                        lemma_vote(h, own);
                        lemma_ballot(h.cluster, voters, own);
                    }
                },
                _ => {},
            }
        }
    }
    reveal(sent_holds);
}

/// Fair and honest transitions keep agreement.
pub proof fn lemma_agreement_on(
    h: HistoryView,
    voters: Set<NodeId>,
    id: NodeId,
    heard: Option<MessageView>,
    step: Step,
)
    requires
        agreement_holds(h, voters),
        moves(h, voters, id, heard, step),
    ensures
        agreement_holds(recorded(h, id, heard, step), voters),
        grown(h, recorded(h, id, heard, step)),
{
    lemma_elections_hold_on(h.cluster, id, heard, step, voters);
    lemma_grown(h, voters, id, heard, step);
    lemma_nodes_on(h, voters, id, heard, step);
    lemma_logs_on(h, voters, id, heard, step);
    lemma_leads_on(h, voters, id, heard, step);
    lemma_sent_on(h, voters, id, heard, step);
    lemma_votes_on(h, voters, id, heard, step);
    lemma_acks_on(h, voters, id, heard, step);
    lemma_credits_on(h, voters, id, heard, step);
    lemma_aims_on(h, voters, id, heard, step);
    lemma_commits_on(h, voters, id, heard, step);
}

/// Whether these voters decide in the configuration of every node, and every
/// node has a log that is whole and room for what follows.
pub open spec fn plain_cluster(cluster: ClusterView, voters: Set<NodeId>) -> bool {
    &&& steady(cluster, voters)
    &&& forall|id: NodeId| #[trigger]
        cluster.nodes.dom().contains(id) ==> plain(cluster.nodes[id])
            && cluster.nodes[id].log.len() <= LOG_LIMIT
}

/// Whether a node starts over with its durable state: its vote and its log are
/// what they were, and it may have forgotten how much of the log is committed.
pub open spec fn restarts_whole(before: NodeView, step: Step) -> bool {
    &&& step.0.id == before.id
    &&& step.0.hard_state == before.hard_state
    &&& step.0.log == before.log
    &&& step.0.commit_index.0 <= before.commit_index.0
    &&& step.0.votes == Set::<NodeId>::empty()
    &&& step.0.role !is Leader
    &&& whole_log(step.0)
    &&& step.1.len() == 0
}

/// Whether a node can make a transition in a cluster: a message that another
/// node sent to it arrives, time passes, a client proposes or reads, it resumes
/// replication to a member or arms its election timer, it appends a change of
/// the configuration or applies one, or it restarts. A leader knows nothing yet
/// of a member that it takes, and no leader leaves a joint configuration.
pub open spec fn plainly_possible(
    cluster: ClusterView,
    id: NodeId,
    heard: Option<MessageView>,
    step: Step,
) -> bool {
    let node = cluster.nodes[id];
    &&& cluster.nodes.dom().contains(id)
    &&& node.hard_state.term.0 < u64::MAX
    &&& joins_afresh(node, step.0)
    &&& takes_append(heard) || leaves_none(node, step.0)
    &&& match heard {
        Some(message) => cluster.sent.contains(message) && message.to == id && message.from != id
            && message.term.0 < u64::MAX && exists|now: Time|
            step == #[trigger] node.received(message, now),
        None => {
            ||| exists|now: Time| step == #[trigger] node.ticked(now)
            ||| exists|now: Time, timer: TimerKind| step == #[trigger] node.timer_fired(now, timer)
            ||| exists|payload: Seq<u8>, kind: EntryKind| #[trigger]
                node.proposed(payload, kind) == Ok::<Step, RaftError>(step)
            ||| node.read_asked() == Ok::<Step, RaftError>(step)
            ||| exists|peer: NodeId|
                node.role is Leader && node.followers().contains(peer) && step == (
                    node,
                    seq![#[trigger] node.append_for(peer)],
                )
            ||| exists|now: Time|
                step == (#[trigger] node.election_reset(now), Seq::<EffectView>::empty())
            ||| exists|envelope: EnvelopeView|
                node.role is Leader && envelope.operation !is LeaveJoint
                    && #[trigger] node.config_appended(envelope) == Ok::<Step, RaftError>(step)
            ||| exists|new_voters: Set<NodeId>| #[trigger]
                node.joint_proposed(new_voters) == Ok::<Step, RaftError>(step)
            ||| exists|entry: EntryView|
                !leads_as_learner(node) && #[trigger] node.config_applied(entry) == Ok::<
                    Step,
                    RaftError,
                >(step)
            ||| restarts_whole(node, step)
        },
    }
}

/// Whether what a node heard is an append.
pub open spec fn takes_append(heard: Option<MessageView>) -> bool {
    heard matches Some(message) && message.kind is AppendReq
}

/// A cluster whose nodes start for the first time.
pub open spec fn begun(cluster: ClusterView) -> bool {
    &&& cluster.sent == Set::<MessageView>::empty()
    &&& cluster.ballots == Set::<Ballot>::empty()
    &&& forall|id: NodeId| #[trigger]
        cluster.nodes.dom().contains(id) ==> {
            let node = cluster.nodes[id];
            &&& node.role !is Leader
            &&& node.votes == Set::<NodeId>::empty()
            &&& node.hard_state.voted_for is None
            &&& node.log.len() == 0
            &&& node.commit_index.0 == 0
        }
}

/// Whether a run goes on from a cluster by a transition of one of its nodes.
pub open spec fn goes_on(run: Seq<ClusterView>, i: int) -> bool {
    exists|id: NodeId, heard: Option<MessageView>, step: Step| #[trigger]
        plainly_possible(run[i], id, heard, step) && run[i + 1] == moved(run[i], id, step)
}

/// A run of a cluster from its beginning.
pub open spec fn plain_run(run: Seq<ClusterView>, voters: Set<NodeId>) -> bool {
    &&& run.len() > 0
    &&& voters.finite()
    &&& begun(run[0])
    &&& forall|i: int| 0 <= i < run.len() ==> plain_cluster(#[trigger] run[i], voters)
    &&& forall|i: int| 0 <= i < run.len() - 1 ==> #[trigger] goes_on(run, i)
}

/// What a node hears of an append was true of its leader's log.
proof fn lemma_heard_well(
    h: HistoryView,
    voters: Set<NodeId>,
    message: MessageView,
)
    requires
        agreement_holds(h, voters),
        h.cluster.sent.contains(message),
    ensures
        message.kind matches KindView::AppendReq(request) ==> runs_on(request)
            && request.entries.len() <= LOG_LIMIT,
        message.kind matches KindView::AppendResp(response) ==> response.success
            ==> response.match_index.0 <= LOG_LIMIT,
{
    lemma_message(h, voters, message);
    if let KindView::AppendReq(request) = message.kind {
        lemma_log(h, voters, message.term);
        let log = h.logs[message.term];
        let prev = request.prev_index.0 as int;
        if request.entries.len() > 0 {
            assert forall|k: int| 0 <= k < request.entries.len() implies (
            #[trigger] request.entries[k]).index.0 == request.prev_index.0 + 1 + k by {
                assert(request.entries[k] == log[prev + k]);
            }
        }
    }
    if let KindView::AppendResp(response) = message.kind {
        if response.success {
            let term = message.term;
            lemma_ack(
                h,
                Ack { voter: message.from, term, len: response.match_index.0 as int },
            );
            lemma_log(h, voters, term);
        }
    }
}

/// Whatever a node of a run does, it does fairly and honestly.
pub proof fn lemma_possible_moves(
    h: HistoryView,
    voters: Set<NodeId>,
    id: NodeId,
    heard: Option<MessageView>,
    step: Step,
)
    requires
        agreement_holds(h, voters),
        voters.finite(),
        plain_cluster(h.cluster, voters),
        plain_cluster(moved(h.cluster, id, step), voters),
        plainly_possible(h.cluster, id, heard, step),
    ensures
        moves(h, voters, id, heard, step),
{
    let node = h.cluster.nodes[id];
    let next = moved(h.cluster, id, step);
    assert(next.nodes.dom().contains(id));
    assert(next.nodes[id] == step.0);
    match heard {
        Some(message) => {
            lemma_heard_well(h, voters, message);
            let now = choose|now: Time| step == #[trigger] node.received(message, now);
            law_messages_are_answered_fairly(node, message, now);
            law_messages_are_taken_honestly(node, message, now);
        },
        None => {
            if exists|now: Time| step == #[trigger] node.ticked(now) {
                let now = choose|now: Time| step == #[trigger] node.ticked(now);
                law_time_is_fair(node, now, TimerKind::Election);
                law_time_is_honest(node, now, TimerKind::Election);
            } else if exists|now: Time, timer: TimerKind|
                step == #[trigger] node.timer_fired(now, timer) {
                let (now, timer) = choose|now: Time, timer: TimerKind|
                    step == #[trigger] node.timer_fired(now, timer);
                law_time_is_fair(node, now, timer);
                law_time_is_honest(node, now, timer);
            } else if exists|payload: Seq<u8>, kind: EntryKind| #[trigger]
                node.proposed(payload, kind) == Ok::<Step, RaftError>(step) {
                let (payload, kind) = choose|payload: Seq<u8>, kind: EntryKind| #[trigger]
                    node.proposed(payload, kind) == Ok::<Step, RaftError>(step);
                lemma_request_fair(node, payload, kind);
                law_requests_are_honest(node, payload, kind);
            } else if node.read_asked() == Ok::<Step, RaftError>(step) {
                lemma_request_fair(node, Seq::empty(), EntryKind::App);
                law_requests_are_honest(node, Seq::empty(), EntryKind::App);
            } else if exists|peer: NodeId|
                node.role is Leader && node.followers().contains(peer) && step == (
                    node,
                    seq![#[trigger] node.append_for(peer)],
                ) {
                let peer = choose|peer: NodeId|
                    node.role is Leader && node.followers().contains(peer) && step == (
                        node,
                        seq![#[trigger] node.append_for(peer)],
                    );
                law_resuming_is_honest(node, peer, Time(0));
                reveal(NodeView::append_for);
            } else if exists|now: Time|
                step == (#[trigger] node.election_reset(now), Seq::<EffectView>::empty()) {
                let now = choose|now: Time|
                    step == (#[trigger] node.election_reset(now), Seq::<EffectView>::empty());
                law_resuming_is_honest(node, NodeId(0), now);
            } else if exists|envelope: EnvelopeView|
                node.role is Leader && envelope.operation !is LeaveJoint
                    && #[trigger] node.config_appended(envelope) == Ok::<Step, RaftError>(step) {
                let envelope = choose|envelope: EnvelopeView|
                    node.role is Leader && envelope.operation !is LeaveJoint
                        && #[trigger] node.config_appended(envelope) == Ok::<Step, RaftError>(step);
                law_changes_leave_elections_alone(node, envelope, Set::empty(), arbitrary());
                law_changes_are_honest(node, envelope, arbitrary());
            } else if exists|new_voters: Set<NodeId>| #[trigger]
                node.joint_proposed(new_voters) == Ok::<Step, RaftError>(step) {
                let new_voters = choose|new_voters: Set<NodeId>| #[trigger]
                    node.joint_proposed(new_voters) == Ok::<Step, RaftError>(step);
                law_changes_leave_elections_alone(node, arbitrary(), new_voters, arbitrary());
                law_entering_is_honest(node, new_voters);
            } else if exists|entry: EntryView|
                !leads_as_learner(node) && #[trigger] node.config_applied(entry) == Ok::<
                    Step,
                    RaftError,
                >(step) {
                let entry = choose|entry: EntryView|
                    !leads_as_learner(node) && #[trigger] node.config_applied(entry) == Ok::<
                        Step,
                        RaftError,
                    >(step);
                law_changes_leave_elections_alone(node, arbitrary(), Set::empty(), entry);
                law_changes_are_honest(node, arbitrary(), entry);
            } else {
                assert(node.log.take(node.log.len() as int) =~= node.log);
            }
        },
    }
}

proof fn lemma_request_fair(node: NodeView, payload: Seq<u8>, kind: EntryKind)
    ensures
        node.proposed(payload, kind) matches Ok(step) ==> fair(node, None, step),
        node.read_asked() matches Ok(step) ==> fair(node, None, step),
{
    law_requests_leave_elections_alone(
        node,
        payload,
        kind,
        EnvelopeView {
            admin_session: None,
            leader_time: Time(0),
            operation: OperationView::ActivateFeature { feature: 0 },
        },
        LogIndex(0),
        Term(0),
    );
}

/// The past of a cluster that has none.
pub proof fn lemma_begun(cluster: ClusterView, voters: Set<NodeId>) -> (h: HistoryView)
    requires
        begun(cluster),
        steady(cluster, voters),
    ensures
        h.cluster == cluster,
        agreement_holds(h, voters),
        h.logs.dom() == Set::<Term>::empty(),
{
    let h = HistoryView {
        cluster,
        logs: Map::empty(),
        leaders: Map::empty(),
        seen: Map::empty(),
        acks: Set::empty(),
    };
    assert(h.logs.dom() =~= Set::<Term>::empty());
    reveal(elections_hold);
    reveal(nodes_hold);
    reveal(logs_hold);
    reveal(leads_hold);
    reveal(sent_holds);
    reveal(votes_hold);
    reveal(acks_hold);
    reveal(credits_hold);
    reveal(aims_hold);
    reveal(commits_hold);
    reveal(sorted);
    reveal(rooted);
    assert forall|id: NodeId, voter: NodeId|
        #![trigger cluster.nodes[id].votes.contains(voter)]
        cluster.nodes.dom().contains(id) && cluster.nodes[id].votes.contains(
            voter,
        ) implies cluster.ballots.contains(
        Ballot { voter, term: cluster.nodes[id].hard_state.term, candidate: id },
    ) by {
        assert(cluster.nodes[id].votes == Set::<NodeId>::empty());
    }
    h
}

/// The past of a past is past.
pub proof fn lemma_grown_chain(a: HistoryView, b: HistoryView, c: HistoryView)
    requires
        grown(a, b),
        grown(b, c),
    ensures
        grown(a, c),
{
    assert forall|term: Term| #[trigger] a.logs.dom().contains(term) implies c.logs.dom().contains(
        term,
    ) && c.leaders[term] == a.leaders[term] && log_grown(term, a.logs[term], c.logs[term]) by {
        let x = a.logs[term];
        let y = b.logs[term];
        let z = c.logs[term];
        assert(b.logs.dom().contains(term));
        lemma_log_grown_prefix(term, y, z, x.len() as int);
        assert forall|i: int| x.len() <= i < z.len() implies (#[trigger] z[i]).term == term by {
            if i < y.len() {
                assert(z[i] == y[i]);
            }
        }
    }
}

/// The pasts of a run at two of its moments.
proof fn lemma_histories(
    run: Seq<ClusterView>,
    voters: Set<NodeId>,
    i: int,
    j: int,
) -> (both: (HistoryView, HistoryView))
    requires
        plain_run(run, voters),
        0 <= i <= j < run.len(),
    ensures
        both.0.cluster == run[i],
        both.1.cluster == run[j],
        agreement_holds(both.0, voters),
        agreement_holds(both.1, voters),
        grown(both.0, both.1),
    decreases j,
{
    if j == 0 {
        assert(plain_cluster(run[0], voters));
        let h = lemma_begun(run[0], voters);
        lemma_grown_same(h);
        (h, h)
    } else {
        let back = if i < j {
            i
        } else {
            j - 1
        };
        let (early, late) = lemma_histories(run, voters, back, j - 1);
        assert(goes_on(run, j - 1));
        let (id, heard, step) = choose|id: NodeId, heard: Option<MessageView>, step: Step|
            #[trigger] plainly_possible(run[j - 1], id, heard, step) && run[j] == moved(
                run[j - 1],
                id,
                step,
            );
        assert(plain_cluster(run[j - 1], voters));
        assert(plain_cluster(run[j], voters));
        lemma_possible_moves(late, voters, id, heard, step);
        lemma_agreement_on(late, voters, id, heard, step);
        let next = recorded(late, id, heard, step);
        if i < j {
            lemma_grown_chain(early, late, next);
            (early, next)
        } else {
            lemma_grown_same(next);
            (next, next)
        }
    }
}

/// Nothing need happen.
pub proof fn lemma_grown_same(h: HistoryView)
    ensures
        grown(h, h),
{
    assert forall|term: Term| #[trigger] h.logs.dom().contains(term) implies log_grown(
        term,
        h.logs[term],
        h.logs[term],
    ) by {
        assert(h.logs[term].take(h.logs[term].len() as int) =~= h.logs[term]);
    }
}

/// Two nodes that lead the same term, at whatever moments of a run, are one.
pub proof fn lemma_one_leader(
    run: Seq<ClusterView>,
    voters: Set<NodeId>,
    i: int,
    a: NodeId,
    j: int,
    b: NodeId,
)
    requires
        plain_run(run, voters),
        0 <= i <= j < run.len(),
        run[i].nodes.dom().contains(a),
        run[j].nodes.dom().contains(b),
        run[i].nodes[a].role is Leader,
        run[j].nodes[b].role is Leader,
        run[i].nodes[a].hard_state.term == run[j].nodes[b].hard_state.term,
    ensures
        a == b,
{
    let (early, late) = lemma_histories(run, voters, i, j);
    lemma_lead(early, a);
    lemma_lead(late, b);
}

/// What is committed is never replaced: two nodes that have committed as much,
/// at whatever moments of a run, have committed the same entries. So a node
/// keeps what it has committed, and no two nodes differ in it. Messages may be
/// delayed, repeated, reordered or lost, nodes may restart with their durable
/// state, learners may come and go, leadership may be handed over, features may
/// be activated, and joint configurations may be entered. The same voters decide
/// all along, alone or as a side of the joint configurations, of which none is
/// left; no learner returns to a leader that remembers it, and no log is
/// compacted.
pub proof fn law_committed_entries_agree(
    run: Seq<ClusterView>,
    voters: Set<NodeId>,
    i: int,
    a: NodeId,
    j: int,
    b: NodeId,
    len: int,
)
    requires
        plain_run(run, voters),
        0 <= i < run.len(),
        0 <= j < run.len(),
        run[i].nodes.dom().contains(a),
        run[j].nodes.dom().contains(b),
        0 <= len <= run[i].nodes[a].commit_index.0,
        len <= run[j].nodes[b].commit_index.0,
    ensures
        len <= run[i].nodes[a].log.len(),
        len <= run[j].nodes[b].log.len(),
        run[i].nodes[a].log.take(len) == run[j].nodes[b].log.take(len),
{
    if i <= j {
        lemma_later_commit(run, voters, i, a, j, b, len);
    } else {
        lemma_later_commit(run, voters, j, b, i, a, len);
    }
}

proof fn lemma_later_commit(
    run: Seq<ClusterView>,
    voters: Set<NodeId>,
    i: int,
    a: NodeId,
    j: int,
    b: NodeId,
    len: int,
)
    requires
        plain_run(run, voters),
        0 <= i <= j < run.len(),
        run[i].nodes.dom().contains(a),
        run[j].nodes.dom().contains(b),
        0 <= len <= run[i].nodes[a].commit_index.0,
        len <= run[j].nodes[b].commit_index.0,
    ensures
        len <= run[i].nodes[a].log.len(),
        len <= run[j].nodes[b].log.len(),
        run[i].nodes[a].log.take(len) == run[j].nodes[b].log.take(len),
{
    let (early, late) = lemma_histories(run, voters, i, j);
    let x = run[i].nodes[a];
    let y = run[j].nodes[b];
    let cx = x.commit_index.0 as int;
    let cy = y.commit_index.0 as int;
    lemma_commit(early, voters, a);
    lemma_commit(late, voters, b);
    lemma_safe_on(
        early,
        late,
        voters,
        x.log,
        cx,
        x.hard_state.term,
        x.log,
        cx,
        x.hard_state.term,
    );
    lemma_safe_agree(
        late,
        voters,
        x.log,
        cx,
        x.hard_state.term,
        y.log,
        cy,
        y.hard_state.term,
        len,
    );
}

/// No committed entry is lost: once a node has committed some entries, the
/// leader of every term from its own on holds them, then and later.
pub proof fn law_leaders_hold_what_is_committed(
    run: Seq<ClusterView>,
    voters: Set<NodeId>,
    i: int,
    a: NodeId,
    j: int,
    leader: NodeId,
)
    requires
        plain_run(run, voters),
        0 <= i <= j < run.len(),
        run[i].nodes.dom().contains(a),
        run[j].nodes.dom().contains(leader),
        run[j].nodes[leader].role is Leader,
        run[i].nodes[a].hard_state.term.0 <= run[j].nodes[leader].hard_state.term.0,
    ensures
        covers(
            run[j].nodes[leader].log,
            run[i].nodes[a].log,
            run[i].nodes[a].commit_index.0 as int,
        ),
{
    let (early, late) = lemma_histories(run, voters, i, j);
    let x = run[i].nodes[a];
    let cx = x.commit_index.0 as int;
    let term = run[j].nodes[leader].hard_state.term;
    lemma_commit(early, voters, a);
    lemma_safe_on(
        early,
        late,
        voters,
        x.log,
        cx,
        x.hard_state.term,
        x.log,
        cx,
        x.hard_state.term,
    );
    lemma_lead(late, leader);
    lemma_safe_with_leader(late, voters, x.log, cx, x.hard_state.term, term);
}

/// Two logs, at whatever moments of a run, that hold an entry of the same term
/// at the same index hold the same entries up to it.
pub proof fn law_logs_match(
    run: Seq<ClusterView>,
    voters: Set<NodeId>,
    i: int,
    a: NodeId,
    j: int,
    b: NodeId,
    index: int,
)
    requires
        plain_run(run, voters),
        0 <= i <= j < run.len(),
        run[i].nodes.dom().contains(a),
        run[j].nodes.dom().contains(b),
        0 < index <= run[i].nodes[a].log.len(),
        index <= run[j].nodes[b].log.len(),
        run[i].nodes[a].log[index - 1].term == run[j].nodes[b].log[index - 1].term,
    ensures
        run[i].nodes[a].log.take(index) == run[j].nodes[b].log.take(index),
{
    let (early, late) = lemma_histories(run, voters, i, j);
    lemma_node(early, a);
    lemma_node(late, b);
    lemma_rooted_on(early, late, run[i].nodes[a].log);
    lemma_matching(late, run[i].nodes[a].log, run[j].nodes[b].log, index);
}

} // verus!
