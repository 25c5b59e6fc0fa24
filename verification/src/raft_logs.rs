//! What a transition of a Raft node does to its log, and what it tells others
//! of it.
use vstd::prelude::*;

use crate::envelope::{envelope_bytes, envelope_of, law_envelope_reads_back};
use crate::ids::{LogIndex, NodeId, Term, Time};
use crate::membership::{EnvelopeView, OperationView, TransferResult};
use crate::node_set::{ascending, lemma_ascending_set};
use crate::raft_laws::{lemma_commit_target, lemma_configured, lemma_rebuilt};
use crate::raft_model::{bumped, larger, smaller, Absorbed, LeadershipTransfer, NodeView, Step};
use crate::raft_types::{
    config_kind, AppendResponse, AppendView, EffectView, EntryKind, EntryView, KindView,
    MessageView, Role, TimerKind,
};

verus! {

/// The term of the entry at an index of a log that begins at its first entry.
pub open spec fn log_term(log: Seq<EntryView>, index: int) -> Term {
    if 0 < index <= log.len() {
        log[index - 1].term
    } else {
        Term(0)
    }
}

/// Whether an append carries a piece of a log behind the entry that it builds
/// on: an empty one only at the end of the log. One that builds on an entry
/// beyond the log carries nothing and names no term.
pub open spec fn carries(log: Seq<EntryView>, request: AppendView) -> bool {
    let prev = request.prev_index.0 as int;
    let end = prev + request.entries.len();
    &&& request.prev_term == log_term(log, prev)
    &&& if prev <= log.len() {
        &&& end <= log.len()
        &&& request.entries == log.subrange(prev, end)
        &&& request.entries.len() == 0 ==> prev == log.len()
    } else {
        request.entries.len() == 0
    }
}

/// The index before one, where there is one.
pub open spec fn index_before(index: u64) -> u64 {
    if index == 0 {
        0
    } else {
        (index - 1) as u64
    }
}

/// Whether what a transition sends about logs is true of the node: an append
/// carries a piece of its log from where its peer is due, an agreement covers
/// its whole log and answers an append that it took, a refusal points to where
/// it differs, and a candidate shows the end of its log.
pub open spec fn tells(
    before: NodeView,
    heard: Option<MessageView>,
    after: NodeView,
    message: MessageView,
) -> bool {
    &&& message.from == after.id
    &&& match message.kind {
        KindView::AppendReq(request) => {
            &&& after.followers().contains(message.to)
            &&& message.term == after.hard_state.term
            &&& after.role is Leader
            &&& carries(after.log, request)
            &&& request.prev_index.0 == index_before(after.next_for(message.to).0)
            &&& request.leader_commit == after.commit_index
            &&& request.read_round == after.read_round
        },
        KindView::AppendResp(response) => {
            &&& message.term == after.hard_state.term
            &&& answers(heard, message.to, response.read_round)
            &&& if response.success {
                response.match_index.0 == after.log.len() && took_whole(before, heard, after)
            } else {
                refuses(before, heard, after, response.conflict_index.0 as int)
            }
        },
        KindView::VoteReq { last_index, last_term } => {
            &&& message.term == after.hard_state.term
            &&& before.hard_state.term.0 < after.hard_state.term.0
            &&& after.hard_state.voted_for == Some(after.id)
            &&& after.log == before.log
            &&& last_index.0 == before.log.len()
            &&& last_term == log_term(before.log, before.log.len() as int)
        },
        _ => true,
    }
}

/// Whether an answer goes to where an append came from, with its round.
pub open spec fn answers(heard: Option<MessageView>, to: NodeId, read_round: u64) -> bool {
    heard matches Some(message) && message.from == to && (message.kind matches KindView::AppendReq(
        request,
    ) && request.read_round == read_round)
}

/// Whether a node refuses an append and says where to resume: at its last entry
/// if the append is of an older term, behind its log if that is too short, or
/// at the entry that differs.
pub open spec fn refuses(
    before: NodeView,
    heard: Option<MessageView>,
    after: NodeView,
    conflict: int,
) -> bool {
    &&& after.log == before.log
    &&& heard matches Some(message) && (message.kind matches KindView::AppendReq(request) && {
        let prev = request.prev_index.0 as int;
        ||| message.term.0 < after.hard_state.term.0 && conflict == after.log.len()
        ||| message.term == after.hard_state.term && prev > after.log.len() && conflict
            == after.log.len() + 1
        ||| message.term == after.hard_state.term && 0 < prev <= after.log.len() && conflict == prev
            && request.prev_term != log_term(after.log, prev)
    })
}

/// Whether a node has taken every entry of an append of its term.
pub open spec fn took_whole(before: NodeView, heard: Option<MessageView>, after: NodeView) -> bool {
    heard matches Some(message) && message.term == after.hard_state.term && (message.kind matches
        KindView::AppendReq(request) && before.term_at(request.prev_index) == Some(
        request.prev_term,
    ) && takes(before.log, request, request.entries.len() as int, after.log))
}

/// Whether a node has taken the first entries of an append of its term, be it
/// all of them or none.
pub open spec fn took_some(before: NodeView, heard: Option<MessageView>, after: NodeView) -> bool {
    heard matches Some(message) && message.term == after.hard_state.term && (message.kind matches
        KindView::AppendReq(request) && before.term_at(request.prev_index) == Some(
        request.prev_term,
    ) && takes_some(before.log, request, after.log))
}

/// Whether the first `i` entries of an append are in a log.
pub open spec fn agrees(log: Seq<EntryView>, request: AppendView, i: int) -> bool {
    &&& request.prev_index.0 + i <= log.len()
    &&& forall|k: int|
        0 <= k < i ==> #[trigger] log[request.prev_index.0 + k].term == request.entries[k].term
}

/// A log cut off where it parts from an append, with the entries up to `i` of
/// the append behind it.
pub open spec fn spliced(log: Seq<EntryView>, request: AppendView, cut: int, i: int) -> Seq<
    EntryView,
> {
    log.take(request.prev_index.0 + cut) + request.entries.subrange(cut, i)
}

/// Whether a log and an append part at an entry of the append: everything
/// before it agrees, and the log ends there or has another term.
pub open spec fn parts(log: Seq<EntryView>, request: AppendView, cut: int) -> bool {
    &&& 0 <= cut < request.entries.len()
    &&& agrees(log, request, cut)
    &&& request.prev_index.0 + cut < log.len() ==> log[request.prev_index.0 + cut].term
        != request.entries[cut].term
}

/// Whether a log becomes another by taking the first `i` entries of an append.
pub open spec fn takes(
    log: Seq<EntryView>,
    request: AppendView,
    i: int,
    after: Seq<EntryView>,
) -> bool {
    ||| after == log && agrees(log, request, i)
    ||| exists|cut: int|
        cut <= i && #[trigger] parts(log, request, cut) && after == spliced(log, request, cut, i)
}

/// Whether a log becomes another by taking the first entries of an append.
pub open spec fn takes_some(
    log: Seq<EntryView>,
    request: AppendView,
    after: Seq<EntryView>,
) -> bool {
    exists|i: int| 0 <= i <= request.entries.len() && #[trigger] takes(log, request, i, after)
}

/// Whether the entries of an append run on from the entry that it builds on,
/// if there is one.
pub open spec fn runs_on(request: AppendView) -> bool {
    &&& request.prev_index.0 == 0 ==> request.prev_term.0 == 0
    &&& forall|k: int|
        0 <= k < request.entries.len() ==> (#[trigger] request.entries[k]).index.0
            == request.prev_index.0 + 1 + k
}

/// A log with entries of the node's own term behind it.
pub open spec fn grows(before: NodeView, after: NodeView) -> bool {
    &&& before.log.len() <= after.log.len()
    &&& after.log.take(before.log.len() as int) == before.log
    &&& forall|i: int|
        before.log.len() <= i < after.log.len() ==> (#[trigger] after.log[i]).term
            == after.hard_state.term
    &&& after.log.len() > before.log.len() ==> after.role is Leader
}

spec fn absorbed_state(absorbed: Absorbed) -> NodeView {
    match absorbed {
        Absorbed::Done { state, .. } => state,
        Absorbed::Stopped { state, .. } => state,
    }
}

/// Whether nothing among some effects is sent.
pub open spec fn no_sends(effects: Seq<EffectView>) -> bool {
    forall|i: int| 0 <= i < effects.len() ==> (#[trigger] effects[i]) !is Send
}

/// Whether a log is whole: it begins at its first entry and runs on from it.
pub open spec fn whole_log(node: NodeView) -> bool {
    &&& node.snapshot_index.0 == 0
    &&& node.snapshot_term.0 == 0
    &&& forall|i: int| 0 <= i < node.log.len() ==> (#[trigger] node.log[i]).index.0 == i + 1
    &&& node.log.len() < u64::MAX - 3
}

proof fn lemma_takes_next(
    log: Seq<EntryView>,
    request: AppendView,
    cut: int,
    i: int,
)
    requires
        parts(log, request, cut),
        cut <= i < request.entries.len(),
    ensures
        spliced(log, request, cut, i).push(request.entries[i]) == spliced(
            log,
            request,
            cut,
            i + 1,
        ),
        spliced(log, request, cut, i).len() == request.prev_index.0 + i,
{
    assert(spliced(log, request, cut, i).push(request.entries[i]) =~= spliced(
        log,
        request,
        cut,
        i + 1,
    ));
}

/// An append is taken entry by entry: all of it, or what stands before an entry
/// that contradicts what is committed or changes the configuration in a way that
/// is refused.
proof fn lemma_absorbed(
    log: Seq<EntryView>,
    node: NodeView,
    from: NodeId,
    request: AppendView,
    i: int,
    effects: Seq<EffectView>,
    appended: Seq<EntryView>,
)
    requires
        whole_log(node),
        runs_on(request),
        no_sends(effects),
        0 <= i <= request.entries.len(),
        takes(log, request, i, node.log),
        node.log.len() + request.entries.len() - i < u64::MAX - 3,
        log.len() < u64::MAX - 3,
        request.prev_index.0 <= log.len(),
    ensures
        ({
            let absorbed = node.absorbed(from, request, i, effects, appended);
            let next = absorbed_state(absorbed);
            &&& takes_some(log, request, next.log)
            &&& absorbed is Done ==> takes(log, request, request.entries.len() as int, next.log)
            &&& next.commit_index == node.commit_index
            &&& whole_log(next)
            &&& next.id == node.id
            &&& next.hard_state == node.hard_state
            &&& next.role is Leader ==> node.role is Leader
            &&& match absorbed {
                Absorbed::Done { effects, .. } => no_sends(effects),
                Absorbed::Stopped { effects, .. } => no_sends(effects),
            }
        }),
    decreases request.entries.len() - i,
{
    if i < request.entries.len() {
        let entry = request.entries[i];
        let held = node.holds(entry.index);
        let here = request.prev_index.0 + i;
        assert(entry.index.0 == here + 1);
        let kept = node.log == log && agrees(log, request, i);
        if !kept {
            let cut = choose|cut: int|
                cut <= i && #[trigger] parts(log, request, cut) && node.log == spliced(
                    log,
                    request,
                    cut,
                    i,
                );
            lemma_takes_next(log, request, cut, i);
            assert(!held);
        }
        if held && node.entry(entry.index).term == entry.term {
            assert(agrees(log, request, i + 1));
            assert(takes(log, request, i + 1, node.log));
            lemma_absorbed(log, node, from, request, i + 1, effects, appended);
        } else if held && entry.index.0 <= node.commit_index.0 {
            assert(takes(log, request, i, node.log));
        } else {
            let short = NodeView {
                log: node.log.subrange(0, entry.index.0 - node.snapshot_index.0 - 1),
                ..node
            };
            let state = if held {
                node.truncated(entry.index)
            } else {
                node
            };
            let so_far = if held {
                effects.push(EffectView::TruncateSuffix(entry.index))
            } else {
                effects
            };
            if held {
                lemma_rebuilt(short);
                lemma_rebuilt_role(short);
                assert(parts(log, request, i));
                assert(state.log =~= spliced(log, request, i, i));
                assert(takes(log, request, i, state.log));
            }
            assert(takes(log, request, i, state.log));
            assert(state.log.len() == here) by {
                if kept && !held {
                    assert(node.log.len() == here);
                }
            }
            let cut = if kept {
                i
            } else {
                choose|cut: int|
                    cut <= i && #[trigger] parts(log, request, cut) && node.log == spliced(
                        log,
                        request,
                        cut,
                        i,
                    )
            };
            assert(parts(log, request, cut));
            assert(state.log =~= spliced(log, request, cut, i));
            lemma_takes_next(log, request, cut, i);
            assert(takes(log, request, i + 1, state.log.push(entry)));
            if !config_kind(entry.kind) {
                let next = NodeView { log: state.log.push(entry), ..state };
                lemma_absorbed(log, next, from, request, i + 1, so_far, appended.push(entry));
            } else if let Ok(projected) = state.configured(entry) {
                lemma_configured(state, entry);
                lemma_configured_role(state, entry);
                let next = NodeView { log: projected.log.push(entry), ..projected };
                lemma_absorbed(log, next, from, request, i + 1, so_far, appended.push(entry));
            }
        }
    }
}

proof fn lemma_configured_role(node: NodeView, entry: EntryView)
    ensures
        node.configured(entry) matches Ok(next) ==> (next.role is Leader ==> node.role is Leader),
{
    reveal(NodeView::configured);
}

/// Whether a log is as far as one that ends like this at least.
pub open spec fn far_enough(last_index: LogIndex, last_term: Term, log: Seq<EntryView>) -> bool {
    let end = log_term(log, log.len() as int);
    last_term.0 > end.0 || (last_term == end && last_index.0 >= log.len())
}

/// Whether a commit index moves on only by counting or by following: a leader
/// counts a quorum for an entry of its term; a follower has taken a whole
/// append and follows what the leader has committed of it.
pub open spec fn commits(before: NodeView, heard: Option<MessageView>, after: NodeView) -> bool {
    let index = after.commit_index.0 as int;
    ||| after.commit_index.0 <= before.commit_index.0 && (after.role is Leader ==> after.commit_index
        == before.commit_index)
    ||| after.role is Leader && before.commit_index.0 < index && 0 < index <= after.log.len() && after.log[index - 1].term
        == after.hard_state.term && before.roster.quorum(after.replicated(index))
    ||| took_whole(before, heard, after) && (heard->0.kind matches KindView::AppendReq(request)
        && index <= request.leader_commit.0 && index <= after.log.len())
}

/// Whether a leader credits its peers only with what they told it.
pub open spec fn credits(before: NodeView, heard: Option<MessageView>, after: NodeView) -> bool {
    after.role is Leader ==> forall|peer: NodeId| #[trigger]
        after.match_index.dom().contains(peer) && before.roster.voters.contains(peer) && peer
            != after.id ==> {
            let credit = after.match_index[peer];
            ||| credit.0 == 0
            ||| before.role is Leader && before.hard_state.term == after.hard_state.term
                && before.match_index.dom().contains(peer) && before.match_index[peer] == credit
            ||| heard matches Some(message) && message.from == peer && message.term
                == after.hard_state.term && (message.kind matches KindView::AppendResp(response)
                && response.success && response.match_index == credit)
        }
}

/// Whether a leader resumes replication to a peer behind its own log when it is
/// elected, where the peer agreed, or where the peer pointed to.
pub open spec fn aims(before: NodeView, heard: Option<MessageView>, after: NodeView) -> bool {
    after.role is Leader ==> forall|peer: NodeId| #[trigger]
        after.next_index.dom().contains(peer) && before.followers().contains(peer) ==> {
            let next = after.next_index[peer];
            ||| next.0 > before.log.len() + 1
            ||| before.role is Leader && before.hard_state.term == after.hard_state.term
                && before.next_index.dom().contains(peer) && before.next_index[peer] == next
            ||| heard matches Some(message) && message.from == peer && message.term
                == after.hard_state.term && (message.kind matches KindView::AppendResp(response)
                && (if response.success {
                next.0 == response.match_index.0 + 1
            } else {
                next.0 == larger(response.conflict_index.0, 1)
            }))
        }
}

/// Whether a leader counts for a read only those who confirm its present round,
/// and begins a round with nobody but itself.
pub open spec fn confirms(before: NodeView, heard: Option<MessageView>, after: NodeView) -> bool {
    after.role is Leader && before.role is Leader && before.hard_state.term
        == after.hard_state.term ==> {
        ||| after.read_round == before.read_round && forall|peer: NodeId| #[trigger]
            after.read_acks.contains(peer) ==> before.read_acks.contains(peer) || confirmed(
                heard,
                peer,
                after,
            )
        ||| heard is None && after.read_round == bumped(before.read_round) && forall|peer: NodeId|
         #[trigger]
            after.read_acks.contains(peer) ==> peer == after.id
    }
}

/// Whether a peer agrees to an append of a leader's present round.
pub open spec fn confirmed(heard: Option<MessageView>, peer: NodeId, leader: NodeView) -> bool {
    heard matches Some(message) && message.from == peer && message.term == leader.hard_state.term
        && (message.kind matches KindView::AppendResp(response) && response.success
        && response.read_round == leader.read_round)
}

/// Whether a vote that a transition casts goes to the node itself, in a new
/// term, or to one that asked for it and whose log is far enough.
pub open spec fn votes_well(before: NodeView, heard: Option<MessageView>, after: NodeView) -> bool {
    after.hard_state.voted_for matches Some(candidate) ==> {
        ||| after.hard_state == before.hard_state
        ||| candidate == after.id && before.hard_state.term.0 < after.hard_state.term.0
        ||| heard matches Some(message) && message.from == candidate && message.term
            == after.hard_state.term && after.log == before.log && (message.kind matches
            KindView::VoteReq { last_index, last_term } && far_enough(
            last_index,
            last_term,
            before.log,
        ))
    }
}

/// Whether what a log becomes is the node's own doing as a leader, or comes
/// from an append of its term.
pub open spec fn logs_well(before: NodeView, heard: Option<MessageView>, after: NodeView) -> bool {
    ||| grows(before, after)
    ||| after.role !is Leader && took_some(before, heard, after)
}

/// Whether everything that a transition sends is true of the node.
pub open spec fn tells_all(
    before: NodeView,
    heard: Option<MessageView>,
    after: NodeView,
    effects: Seq<EffectView>,
) -> bool {
    forall|i: int|
        0 <= i < effects.len() ==> ((#[trigger] effects[i]) matches EffectView::Send(message)
            ==> tells(before, heard, after, message))
}

/// Whether a node that comes to lead a term has an entry of that term.
pub open spec fn leads_well(before: NodeView, after: NodeView) -> bool {
    after.role is Leader && !(before.role is Leader && before.hard_state.term
        == after.hard_state.term) ==> grows(before, after) && after.log.len() > before.log.len()
}

/// Whether a transition deals honestly with logs.
pub open spec fn honest(before: NodeView, heard: Option<MessageView>, step: Step) -> bool {
    let after = step.0;
    &&& whole_log(after)
    &&& logs_well(before, heard, after)
    &&& leads_well(before, after)
    &&& commits(before, heard, after)
    &&& credits(before, heard, after)
    &&& aims(before, heard, after)
    &&& confirms(before, heard, after)
    &&& votes_well(before, heard, after)
    &&& tells_all(before, heard, after, step.1)
}

proof fn lemma_tells_joined(
    before: NodeView,
    heard: Option<MessageView>,
    after: NodeView,
    a: Seq<EffectView>,
    b: Seq<EffectView>,
)
    requires
        tells_all(before, heard, after, a),
        tells_all(before, heard, after, b),
    ensures
        tells_all(before, heard, after, a + b),
{
    assert forall|i: int| 0 <= i < (a + b).len() implies ((#[trigger] (a
        + b)[i]) matches EffectView::Send(message) ==> tells(before, heard, after, message)) by {
        if i < a.len() {
            assert((a + b)[i] == a[i]);
        } else {
            assert((a + b)[i] == b[i - a.len()]);
        }
    }
}

proof fn lemma_tells_pushed(
    before: NodeView,
    heard: Option<MessageView>,
    after: NodeView,
    a: Seq<EffectView>,
    effect: EffectView,
)
    requires
        tells_all(before, heard, after, a),
        effect matches EffectView::Send(message) ==> tells(before, heard, after, message),
    ensures
        tells_all(before, heard, after, a.push(effect)),
{
    assert forall|i: int| 0 <= i < a.push(effect).len() implies ((#[trigger] a.push(
        effect,
    )[i]) matches EffectView::Send(message) ==> tells(before, heard, after, message)) by {
        if i < a.len() {
            assert(a.push(effect)[i] == a[i]);
        }
    }
}

/// Whether no joint configuration is left.
pub open spec fn leaves_none(before: NodeView, after: NodeView) -> bool {
    before.roster.joint is Some ==> after.roster.joint is Some
}

/// Whether a leader can put entries into an append, and nobody is on the way
/// out.
pub open spec fn settled_members(node: NodeView) -> bool {
    &&& node.config.max_entries_per_append > 0
    &&& node.roster.voters.finite()
    &&& node.roster.learners.finite()
    &&& node.retiring_peers.dom() == Set::<NodeId>::empty()
}

/// What the messages of a leader depend on.
pub open spec fn same_voice(node: NodeView, after: NodeView) -> bool {
    &&& after.id == node.id
    &&& after.role == node.role
    &&& after.hard_state == node.hard_state
    &&& after.log == node.log
    &&& after.commit_index == node.commit_index
    &&& after.next_index == node.next_index
    &&& after.snapshot_index == node.snapshot_index
    &&& after.read_round == node.read_round
    &&& after.roster == node.roster
}

proof fn lemma_append_for(
    before: NodeView,
    heard: Option<MessageView>,
    after: NodeView,
    node: NodeView,
    peer: NodeId,
)
    requires
        whole_log(node),
        settled_members(node),
        node.role is Leader,
        same_voice(node, after),
        node.followers().contains(peer),
    ensures
        node.append_for(peer) matches EffectView::Send(message) ==> tells(
            before,
            heard,
            after,
            message,
        ),
{
    reveal(NodeView::append_for);
    let next = node.next_for(peer);
    let prev: u64 = if next.0 == 0 {
        0
    } else {
        (next.0 - 1) as u64
    };
    let batch = node.batch_from(next);
    if prev <= node.log.len() {
        assert(batch =~= node.log.subrange(prev as int, prev + batch.len()));
        if prev < node.log.len() {
            assert(batch.len() > 0);
        }
    } else {
        assert(batch.len() == 0);
    }
}

proof fn lemma_appends(
    before: NodeView,
    heard: Option<MessageView>,
    after: NodeView,
    node: NodeView,
    peers: Seq<NodeId>,
)
    requires
        whole_log(node),
        settled_members(node),
        node.role is Leader,
        same_voice(node, after),
        forall|i: int|
            0 <= i < peers.len() ==> node.roster.has(#[trigger] peers[i]),
    ensures
        tells_all(before, heard, after, node.appends_for(peers)),
    decreases peers.len(),
{
    if peers.len() > 0 {
        assert forall|i: int| 0 <= i < peers.drop_last().len() implies node.roster.has(
            #[trigger] peers.drop_last()[i],
        ) by {
            assert(peers.drop_last()[i] == peers[i]);
        }
        lemma_appends(before, heard, after, node, peers.drop_last());
        if peers.last() != node.id {
            lemma_append_for(before, heard, after, node, peers.last());
            lemma_tells_pushed(
                before,
                heard,
                after,
                node.appends_for(peers.drop_last()),
                node.append_for(peers.last()),
            );
        }
    }
}

proof fn lemma_members(members: Set<NodeId>)
    requires
        members.finite(),
    ensures
        forall|i: int|
            0 <= i < ascending(members).len() ==> members.contains(#[trigger] ascending(members)[i]),
{
    lemma_ascending_set(members);
    assert forall|i: int| 0 <= i < ascending(members).len() implies members.contains(
        #[trigger] ascending(members)[i],
    ) by {
        assert(ascending(members).to_set().contains(ascending(members)[i]));
    }
}

proof fn lemma_broadcast(
    before: NodeView,
    heard: Option<MessageView>,
    after: NodeView,
    node: NodeView,
)
    requires
        whole_log(node),
        settled_members(node),
        node.role is Leader,
        same_voice(node, after),
    ensures
        tells_all(before, heard, after, node.broadcast()),
{
    reveal(NodeView::broadcast);
    let voters = ascending(node.roster.voters);
    let learners = ascending(node.roster.learners);
    let retiring = ascending(node.retiring_peers.dom());
    lemma_members(node.roster.voters);
    lemma_members(node.roster.learners);
    lemma_members(node.retiring_peers.dom());
    lemma_appends(before, heard, after, node, voters);
    lemma_appends(before, heard, after, node, learners);
    lemma_appends(before, heard, after, node, retiring);
    lemma_tells_joined(
        before,
        heard,
        after,
        node.appends_for(voters),
        node.appends_for(learners),
    );
    lemma_tells_joined(
        before,
        heard,
        after,
        node.appends_for(voters) + node.appends_for(learners),
        node.appends_for(retiring),
    );
}

/// What counting does: the commit index stays, or moves to an entry of the
/// node's term that a quorum holds.
proof fn lemma_advanced(node: NodeView)
    requires
        node.commit_index.0 <= node.log.len(),
        whole_log(node),
    ensures
        ({
            let after = node.advanced().0;
            let index = after.commit_index.0 as int;
            &&& after == (NodeView {
                commit_index: after.commit_index,
                applied_index: after.applied_index,
                ..node
            })
            &&& after.commit_index == node.commit_index || (node.commit_index.0 < index
                <= node.log.len() && node.log[index - 1].term == node.hard_state.term
                && node.roster.quorum(node.replicated(index)))
            &&& forall|i: int|
                0 <= i < node.advanced().1.len() ==> (#[trigger] node.advanced().1[i]) !is Send
        }),
{
    reveal(NodeView::advanced);
    reveal(NodeView::applied);
    lemma_commit_target(node, node.last_index().0 as int);
}

/// A leader that ends a transfer appends an entry of its term and tells
/// everyone the truth about it.
proof fn lemma_config_appended(
    before: NodeView,
    heard: Option<MessageView>,
    node: NodeView,
    envelope: EnvelopeView,
)
    requires
        whole_log(node),
        settled_members(node),
        node.role is Leader,
        node.log.len() + 1 < u64::MAX - 3,
        envelope.operation is FinishLeaderTransfer,
    ensures
        node.config_appended(envelope) matches Ok(step) ==> {
            &&& step.0.log == node.log.push(node.config_entry(envelope))
            &&& step.0.commit_index == node.commit_index
            &&& step.0.match_index == node.match_index
            &&& step.0.next_index == node.next_index
            &&& step.0.read_round == node.read_round
            &&& step.0.read_acks == node.read_acks
            &&& step.0.hard_state == node.hard_state
            &&& step.0.id == node.id
            &&& step.0.role is Leader
            &&& step.0.roster == node.roster
            &&& whole_log(step.0)
            &&& tells_all(before, heard, step.0, step.1)
        },
{
    reveal(NodeView::config_appended);
    reveal(NodeView::configured);
    let leaving = node.leaving(envelope.operation);
    let entry = node.config_entry(envelope);
    if let Ok(projected) = node.configured(entry) {
        law_envelope_reads_back(envelope);
        assert(projected == node);
        let next = NodeView {
            log: projected.log.push(entry),
            retiring_peers: projected.retired(leaving, entry.index),
            ..projected
        };
        assert(whole_log(next));
        assert(next.retiring_peers.dom() =~= Set::<NodeId>::empty());
        assert(leaving =~= Set::<NodeId>::empty());
        lemma_members(leaving);
        lemma_broadcast(before, heard, next, next);
        lemma_appends(before, heard, next, next, ascending(leaving));
        let persist = seq![EffectView::PersistEntries(seq![entry])];
        assert(tells_all(before, heard, next, persist));
        lemma_tells_joined(before, heard, next, persist, next.broadcast());
        lemma_tells_joined(
            before,
            heard,
            next,
            persist + next.broadcast(),
            next.appends_for(ascending(leaving)),
        );
    }
}

/// A node whose log is whole and whose members are settled.
pub open spec fn plain(node: NodeView) -> bool {
    &&& whole_log(node)
    &&& settled_members(node)
    &&& node.commit_index.0 <= node.log.len()
    &&& node.log.len() + 2 < u64::MAX - 3
}

proof fn lemma_transfer_finished(
    before: NodeView,
    heard: Option<MessageView>,
    node: NodeView,
    result: TransferResult,
    at: Time,
)
    requires
        whole_log(node),
        settled_members(node),
        node.role is Leader,
        node.log.len() + 1 < u64::MAX - 3,
    ensures
        node.transfer_finished(result, at) matches Ok(step) ==> {
            &&& step.0.log.len() == node.log.len() + 1
            &&& step.0.log.take(node.log.len() as int) == node.log
            &&& step.0.log.last().term == node.hard_state.term
            &&& step.0.commit_index == node.commit_index
            &&& step.0.match_index == node.match_index
            &&& step.0.next_index == node.next_index
            &&& step.0.read_round == node.read_round
            &&& step.0.read_acks == node.read_acks
            &&& step.0.hard_state == node.hard_state
            &&& step.0.id == node.id
            &&& step.0.role is Leader
            &&& whole_log(step.0)
            &&& tells_all(before, heard, step.0, step.1)
        },
{
    reveal(NodeView::transfer_finished);
    if let Some(transfer) = node.transfer {
        let marked = NodeView {
            transfer: Some(LeadershipTransfer { finishing: true, ..transfer }),
            ..node
        };
        let envelope = EnvelopeView {
            admin_session: transfer.admin_session,
            leader_time: at,
            operation: OperationView::FinishLeaderTransfer {
                intent_index: transfer.intent_index,
                result,
            },
        };
        lemma_config_appended(before, heard, marked, envelope);
        let entry = marked.config_entry(envelope);
        assert(node.log.push(entry).take(node.log.len() as int) =~= node.log);
    }
}

/// A new leader that resumes what the cluster had begun appends at most one
/// entry of its term and tells everyone the truth.
proof fn lemma_resumed(before: NodeView, heard: Option<MessageView>, node: NodeView)
    requires
        whole_log(node),
        settled_members(node),
        node.role is Leader,
        node.log.len() + 1 < u64::MAX - 3,
        leaves_none(node, node.resumed().0),
    ensures
        ({
            let step = node.resumed();
            &&& node.log.len() <= step.0.log.len() <= node.log.len() + 1
            &&& step.0.log.take(node.log.len() as int) == node.log
            &&& step.0.log.len() > node.log.len() ==> step.0.log.last().term
                == node.hard_state.term
            &&& step.0.commit_index == node.commit_index
            &&& step.0.match_index == node.match_index
            &&& step.0.next_index == node.next_index
            &&& step.0.read_round == node.read_round
            &&& step.0.read_acks == node.read_acks
            &&& step.0.hard_state == node.hard_state
            &&& step.0.id == node.id
            &&& step.0.role is Leader
            &&& whole_log(step.0)
            &&& tells_all(before, heard, step.0, step.1)
        }),
{
    reveal(NodeView::resumed);
    assert(node.log.take(node.log.len() as int) =~= node.log);
    lemma_broadcast(before, heard, node, node);
    if let Some(enter) = node.resumable_enter() {
        let envelope = EnvelopeView {
            admin_session: enter.admin_session,
            leader_time: enter.leader_time,
            operation: OperationView::LeaveJoint { enter_index: node.roster.joint_enter_index->0 },
        };
        law_envelope_reads_back(envelope);
        assert(node.config_appended(envelope) is Err) by {
            reveal(NodeView::config_appended);
            reveal(NodeView::configured);
        }
    }
    if let Some(transfer) = node.transfer {
        lemma_transfer_finished(
            before,
            heard,
            node,
            if node.id == transfer.target {
                TransferResult::Success
            } else {
                TransferResult::Superseded
            },
            transfer.deadline,
        );
    }
}

/// A node that wins an election.
proof fn lemma_became_leader(before: NodeView, heard: Option<MessageView>, node: NodeView)
    requires
        plain(node),
        before.log == node.log,
        before.commit_index == node.commit_index,
        before.roster == node.roster,
        before.id == node.id,
        before.read_round == node.read_round,
        before.read_acks == node.read_acks,
        leaves_none(node, node.became_leader().0),
    ensures
        ({
            let step = node.became_leader();
            let after = step.0;
            &&& whole_log(after)
            &&& after.role is Leader
            &&& after.id == node.id
            &&& after.hard_state == node.hard_state
            &&& grows(before, after)
            &&& after.log.len() > before.log.len()
            &&& commits(before, heard, after)
            &&& credits(before, heard, after)
            &&& aims(before, heard, after)
            &&& confirms(before, heard, after)
            &&& tells_all(before, heard, after, step.1)
        }),
{
    reveal(NodeView::became_leader);
    let won = node.elected();
    assert(whole_log(won));
    lemma_advanced(won);
    let advanced = won.advanced();
    lemma_resumed(before, heard, advanced.0);
    let resumed = advanced.0.resumed();
    let after = resumed.0;
    assert(after.log.take(won.log.len() as int) == won.log);
    assert(after.log.take(before.log.len() as int) =~= before.log) by {
        assert forall|i: int| 0 <= i < before.log.len() implies after.log[i] == before.log[i] by {
            assert(after.log.take(won.log.len() as int)[i] == won.log[i]);
        }
    }
    assert forall|i: int| before.log.len() <= i < after.log.len() implies (
    #[trigger] after.log[i]).term == after.hard_state.term by {
        if i < won.log.len() {
            assert(after.log.take(won.log.len() as int)[i] == won.log[i]);
        }
    }
    let index = after.commit_index.0 as int;
    if after.commit_index != before.commit_index {
        assert(after.log.take(won.log.len() as int)[index - 1] == won.log[index - 1]);
        assert(after.replicated(index) =~= won.replicated(index));
    }
    assert(credits(before, heard, after)) by {
        assert forall|peer: NodeId| #[trigger]
            after.match_index.dom().contains(peer) && before.roster.voters.contains(peer) && peer
                != after.id implies after.match_index[peer].0 == 0 by {
            assert(node.followers().contains(peer));
        }
    }
    assert(aims(before, heard, after)) by {
        assert forall|peer: NodeId| #[trigger]
            after.next_index.dom().contains(peer) && before.followers().contains(
                peer,
            ) implies after.next_index[peer].0 > before.log.len() + 1 by {
            assert(node.followers().contains(peer));
        }
    }
    let persist = seq![EffectView::PersistEntries(seq![won.log.last()])];
    assert(tells_all(before, heard, after, persist));
    assert(tells_all(before, heard, after, advanced.1));
    lemma_tells_joined(before, heard, after, persist, advanced.1);
    lemma_tells_joined(before, heard, after, persist + advanced.1, resumed.1);
}

/// Whether a node is as it was but for its elections and clocks.
pub open spec fn same_logs(before: NodeView, node: NodeView) -> bool {
    &&& node.id == before.id
    &&& node.log == before.log
    &&& node.commit_index == before.commit_index
    &&& node.roster == before.roster
    &&& node.match_index == before.match_index
    &&& node.next_index == before.next_index
    &&& node.read_round == before.read_round
    &&& node.read_acks == before.read_acks
    &&& node.config == before.config
    &&& node.snapshot_index == before.snapshot_index
    &&& node.snapshot_term == before.snapshot_term
}

proof fn lemma_requests(
    before: NodeView,
    heard: Option<MessageView>,
    after: NodeView,
    node: NodeView,
    peers: Seq<NodeId>,
    term: Term,
    kind: KindView,
)
    requires
        node.id == after.id,
        kind is PreVoteReq || (kind is VoteReq && forall|to: NodeId|
            tells(
                before,
                heard,
                after,
                (MessageView {
                    proto_version: crate::raft_types::PROTOCOL_VERSION,
                    from: node.id,
                    to,
                    term,
                    kind,
                }),
            )),
    ensures
        tells_all(before, heard, after, node.requests_for(peers, term, kind)),
    decreases peers.len(),
{
    if peers.len() > 0 {
        lemma_requests(before, heard, after, node, peers.drop_last(), term, kind);
        if peers.last() != node.id {
            let message = MessageView {
                proto_version: crate::raft_types::PROTOCOL_VERSION,
                from: node.id,
                to: peers.last(),
                term,
                kind,
            };
            assert(tells(before, heard, after, message));
            lemma_tells_pushed(
                before,
                heard,
                after,
                node.requests_for(peers.drop_last(), term, kind),
                EffectView::Send(message),
            );
        }
    }
}

proof fn lemma_kept_log(log: Seq<EntryView>)
    ensures
        log.take(log.len() as int) == log,
{
    assert(log.take(log.len() as int) =~= log);
}

proof fn lemma_election_started(before: NodeView, heard: Option<MessageView>, node: NodeView)
    requires
        plain(node),
        same_logs(before, node),
        before.hard_state == node.hard_state,
        node.hard_state.term.0 < u64::MAX,
        leaves_none(node, node.election_started().0),
    ensures
        honest(before, heard, node.election_started()),
{
    reveal(NodeView::election_started);
    lemma_kept_log(before.log);
    if node.voting() {
        let next = node.candidate();
        let persist = seq![EffectView::PersistHard(next.hard_state)];
        if next.roster.quorum(next.votes) {
            lemma_became_leader(before, heard, next);
            let won = next.became_leader();
            assert(tells_all(before, heard, won.0, persist));
            lemma_tells_joined(before, heard, won.0, persist, won.1);
        } else {
            let kind = KindView::VoteReq {
                last_index: next.last_index(),
                last_term: next.last_term(),
            };
            let peers = ascending(next.roster.voters);
            lemma_requests(before, heard, next, next, peers, next.hard_state.term, kind);
            assert(tells_all(before, heard, next, persist));
            lemma_tells_joined(
                before,
                heard,
                next,
                persist,
                next.requests_for(peers, next.hard_state.term, kind),
            );
        }
    }
}

proof fn lemma_pre_vote_started(before: NodeView, heard: Option<MessageView>, node: NodeView, now: Time)
    requires
        plain(node),
        same_logs(before, node),
        before.hard_state == node.hard_state,
        node.hard_state.term.0 < u64::MAX,
        leaves_none(node, node.pre_vote_started(now).0),
    ensures
        honest(before, heard, node.pre_vote_started(now)),
{
    reveal(NodeView::pre_vote_started);
    lemma_kept_log(before.log);
    if node.voting() {
        let next = NodeView {
            role: Role::Candidate,
            pre_votes: set![node.id],
            votes: Set::empty(),
            ..node
        }.election_reset(now);
        if next.roster.quorum(next.pre_votes) {
            lemma_election_started(before, heard, next);
        } else {
            lemma_requests(
                before,
                heard,
                next,
                next,
                ascending(next.roster.voters),
                Term((next.hard_state.term.0 + 1) as u64),
                KindView::PreVoteReq {
                    last_index: next.last_index(),
                    last_term: next.last_term(),
                },
            );
        }
    }
}

proof fn lemma_replayed_role(node: NodeView, log: Seq<EntryView>, i: int)
    ensures
        node.replayed_from(log, i).role == node.role,
    decreases log.len() - i,
{
    if i < 0 || i >= log.len() {
    } else if !config_kind(log[i].kind) {
        lemma_replayed_role(node, log, i + 1);
    } else {
        match envelope_of(log[i].payload) {
            None => {},
            Some(envelope) => {
                lemma_replayed_role(node.replayed_one(envelope.operation, log[i].index), log, i + 1);
            },
        }
    }
}

proof fn lemma_rebuilt_role(node: NodeView)
    ensures
        node.rebuilt().role is Leader ==> node.role is Leader,
{
    reveal(NodeView::rebuilt);
    lemma_replayed_role(
        NodeView { roster: node.base, retiring_peers: Map::empty(), ..node },
        node.log,
        0,
    );
}

proof fn lemma_append_asked(
    before: NodeView,
    node: NodeView,
    message: MessageView,
    request: AppendView,
    now: Time,
)
    requires
        plain(node),
        same_logs(before, node),
        before.hard_state == node.hard_state || node.hard_state.voted_for is None,
        message.kind == KindView::AppendReq(request),
        message.term.0 <= node.hard_state.term.0,
        runs_on(request),
        node.log.len() + request.entries.len() < u64::MAX - 3,
        node.role is Leader ==> before.role is Leader && before.hard_state == node.hard_state,
    ensures
        honest(
            before,
            Some(message),
            node.append_asked(message.from, message.term, request, now),
        ),
{
    reveal(NodeView::append_asked);
    reveal(NodeView::applied);
    lemma_kept_log(before.log);
    let heard = Some(message);
    let from = message.from;
    if message.term.0 < node.hard_state.term.0 {
    } else {
        let state = NodeView {
            role: node.resting_role(),
            leader_id: Some(from),
            ..node
        }.election_reset(now);
        if state.term_at(request.prev_index) == Some(request.prev_term) {
            assert(before.term_at(request.prev_index) == Some(request.prev_term));
            assert(request.prev_index.0 <= state.log.len());
            assert(agrees(state.log, request, 0));
            assert(takes(state.log, request, 0, state.log));
            lemma_absorbed(state.log, state, from, request, 0, Seq::empty(), Seq::empty());
            let absorbed = state.absorbed(from, request, 0, Seq::empty(), Seq::empty());
            let next = absorbed_state(absorbed);
            let step = node.append_asked(from, message.term, request, now);
            let after = step.0;
            if let Absorbed::Done { state: done, effects, appended } = absorbed {
                let persisted = if appended.len() > 0 {
                    effects.push(EffectView::PersistEntries(appended))
                } else {
                    effects
                };
                lemma_tells_pushed(
                    before,
                    heard,
                    after,
                    effects,
                    EffectView::PersistEntries(appended),
                );
                let moved = NodeView {
                    commit_index: LogIndex(
                        smaller(request.leader_commit.0, done.last_index().0),
                    ),
                    ..done
                };
                let applied: Step = if request.leader_commit.0 > done.commit_index.0 {
                    moved.applied()
                } else {
                    (done, Seq::empty())
                };
                assert(after == applied.0);
                assert(took_whole(before, heard, after));
                assert(tells_all(before, heard, after, applied.1));
                lemma_tells_joined(before, heard, after, persisted, applied.1);
                lemma_tells_pushed(
                    before,
                    heard,
                    after,
                    persisted + applied.1,
                    after.append_answer(
                        from,
                        request.read_round,
                        true,
                        after.last_index(),
                        None,
                        LogIndex(0),
                    ),
                );
            }
        }
    }
}

proof fn lemma_answered(
    before: NodeView,
    node: NodeView,
    message: MessageView,
    response: AppendResponse,
)
    requires
        plain(node),
        same_logs(before, node),
        before.hard_state == node.hard_state,
        before.role is Leader,
        node.role is Leader,
        message.kind == KindView::AppendResp(response),
        message.term == node.hard_state.term,
        node.followers().contains(message.from),
        response.success ==> response.match_index.0 < u64::MAX,
    ensures
        honest(before, Some(message), node.answered(message.from, response)),
{
    reveal(NodeView::answered);
    lemma_kept_log(before.log);
    let heard = Some(message);
    let peer = message.from;
    let step = node.answered(peer, response);
    let after = step.0;
    if response.success {
        let matched = node.matched(peer, response.match_index);
        lemma_advanced(matched);
        let advanced = matched.advanced();
        let released = advanced.0.read_counted(peer, response.read_round).read_released();
        let state = released.0;
        assert(after == state);
        assert(after.replicated(after.commit_index.0 as int) =~= matched.replicated(
            after.commit_index.0 as int,
        ));
        lemma_append_for(before, heard, after, state, peer);
        let more = if state.next_index.dom().contains(peer) && state.next_index[peer].0
            <= state.last_index().0 {
            seq![state.append_for(peer)]
        } else {
            Seq::empty()
        };
        let handover = state.handover(peer, response.match_index);
        assert(tells_all(before, heard, after, advanced.1));
        assert(tells_all(before, heard, after, released.1));
        assert(tells_all(before, heard, after, handover));
        assert(tells_all(before, heard, after, more));
        lemma_tells_joined(before, heard, after, advanced.1, released.1);
        lemma_tells_joined(before, heard, after, advanced.1 + released.1, handover);
        lemma_tells_joined(before, heard, after, advanced.1 + released.1 + handover, more);
    } else {
        lemma_append_for(before, heard, after, after, peer);
    }
}

proof fn lemma_taken(before: NodeView, node: NodeView, message: MessageView, now: Time)
    requires
        plain(node),
        same_logs(before, node),
        before == node || (node.hard_state.voted_for is None && node.role !is Leader && node.role
            !is Candidate && node.leader_id is None && message.term == node.hard_state.term
            && before.hard_state.term.0 < node.hard_state.term.0 && message.kind
            !is PreVoteResp && message.kind !is PreVoteReq),
        node.hard_state.term.0 < u64::MAX,
        message.term.0 <= node.hard_state.term.0 || message.kind is PreVoteReq || message.kind
            is PreVoteResp,
        message.from != node.id,
        message.kind matches KindView::AppendReq(request) ==> runs_on(request) && node.log.len()
            + request.entries.len() < u64::MAX - 3,
        message.kind matches KindView::AppendResp(response) ==> response.success
            ==> response.match_index.0 < u64::MAX,
        message.kind is AppendReq || leaves_none(node, node.taken(message, now).0),
    ensures
        honest(before, Some(message), node.taken(message, now)),
{
    reveal(NodeView::taken);
    lemma_kept_log(before.log);
    match message.kind {
        KindView::PreVoteResp { granted } => {
            let counted = NodeView { pre_votes: node.pre_votes.insert(message.from), ..node };
            if node.taken(message, now) == counted.election_started() {
                lemma_election_started(before, Some(message), counted);
            }
        },
        KindView::VoteResp { granted } => {
            let counted = NodeView { votes: node.votes.insert(message.from), ..node };
            if node.taken(message, now) == counted.became_leader() {
                lemma_became_leader(before, Some(message), counted);
            }
        },
        KindView::AppendReq(request) => {
            lemma_append_asked(before, node, message, request, now);
        },
        KindView::AppendResp(response) => {
            reveal(NodeView::append_answered);
            if node.role is Leader && message.term == node.hard_state.term && node.roster.has(
                message.from,
            ) {
                lemma_answered(before, node, message, response);
                lemma_answered(
                    before,
                    NodeView {
                        last_contact: node.last_contact.insert(message.from, now),
                        ..node
                    },
                    message,
                    response,
                );
            }
        },
        KindView::TimeoutNow { intent_index } => {
            if node.campaign_valid(message, intent_index) {
                lemma_election_started(before, Some(message), node);
            }
        },
        _ => {},
    }
}

/// A message makes a node deal honestly with its log: what it appends, takes,
/// commits, credits to others and tells them is as it should be.
pub proof fn law_messages_are_taken_honestly(node: NodeView, message: MessageView, now: Time)
    requires
        plain(node),
        node.hard_state.term.0 < u64::MAX,
        message.term.0 < u64::MAX,
        message.from != node.id,
        message.kind matches KindView::AppendReq(request) ==> runs_on(request) && node.log.len()
            + request.entries.len() < u64::MAX - 3,
        message.kind matches KindView::AppendResp(response) ==> response.success
            ==> response.match_index.0 < u64::MAX,
        message.kind is AppendReq || leaves_none(node, node.received(message, now).0),
    ensures
        honest(node, Some(message), node.received(message, now)),
{
    reveal(NodeView::received);
    lemma_kept_log(node.log);
    if !crate::raft_types::known_version(message.proto_version) {
    } else if node.adopts_term(message) {
        let adopted = node.term_adopted(message.term);
        lemma_taken(node, adopted, message, now);
        let taken = adopted.taken(message, now);
        let persist = seq![EffectView::PersistHard(adopted.hard_state)];
        assert(tells_all(node, Some(message), taken.0, persist));
        lemma_tells_joined(node, Some(message), taken.0, persist, taken.1);
    } else {
        lemma_taken(node, node, message, now);
    }
}

proof fn lemma_beat(before: NodeView, node: NodeView, now: Time)
    requires
        plain(node),
        same_logs(before, node),
        before.hard_state == node.hard_state,
        before.role == node.role,
        node.hard_state.term.0 < u64::MAX,
        leaves_none(node, node.beat(now).0),
    ensures
        honest(before, None, node.beat(now)),
{
    reveal(NodeView::beat);
    lemma_kept_log(before.log);
    if node.role is Leader && now.0 >= node.heartbeat_deadline.0 {
        let next = NodeView { heartbeat_deadline: now.later(node.config.heartbeat), ..node };
        lemma_broadcast(before, None, next, next);
        assert(tells_all(before, None, next, next.nudge()));
        lemma_tells_joined(before, None, next, next.broadcast(), next.nudge());
        let step = node.beat(now);
        assert(step.1 == (next.broadcast() + next.nudge()).push(step.1.last()));
        lemma_tells_pushed(before, None, next, next.broadcast() + next.nudge(), step.1.last());
    } else if node.beat(now) == node.pre_vote_started(now) {
        lemma_pre_vote_started(before, None, node, now);
    }
}

/// Time makes a node deal honestly with its log.
pub proof fn law_time_is_honest(node: NodeView, now: Time, timer: TimerKind)
    requires
        plain(node),
        node.hard_state.term.0 < u64::MAX,
    ensures
        leaves_none(node, node.ticked(now).0) ==> honest(node, None, node.ticked(now)),
        leaves_none(node, node.timer_fired(now, timer).0) ==> honest(
            node,
            None,
            node.timer_fired(now, timer),
        ),
{
    reveal(NodeView::ticked);
    lemma_kept_log(node.log);
    if leaves_none(node, node.quorum_restarted(now).beat(now).0) {
        lemma_beat(node, node.quorum_restarted(now), now);
    }
    if leaves_none(node, node.beat(now).0) {
        lemma_beat(node, node, now);
    }
    if leaves_none(node, node.pre_vote_started(now).0) {
        lemma_pre_vote_started(node, None, node, now);
    }
    if node.role is Leader {
        lemma_transfer_finished(node, None, node, TransferResult::Timeout, now);
        lemma_broadcast(node, None, node, node);
        assert(tells_all(node, None, node, node.nudge()));
        lemma_tells_joined(node, None, node, node.broadcast(), node.nudge());
    }
}

/// Proposals and reads make a node deal honestly with its log.
pub proof fn law_requests_are_honest(node: NodeView, payload: Seq<u8>, kind: EntryKind)
    requires
        plain(node),
    ensures
        node.proposed(payload, kind) matches Ok(step) ==> honest(node, None, step),
        node.read_asked() matches Ok(step) ==> honest(node, None, step),
{
    lemma_kept_log(node.log);
    if let Ok(step) = node.proposed(payload, kind) {
        let entry = EntryView {
            term: node.hard_state.term,
            index: LogIndex((node.last_index().0 + 1) as u64),
            kind,
            payload,
        };
        reveal(NodeView::entry_offered);
        let pushed = NodeView { log: node.log.push(entry), ..node };
        assert(whole_log(pushed));
        lemma_advanced(pushed);
        let advanced = pushed.advanced();
        let after = advanced.0;
        let persist = seq![EffectView::PersistEntries(seq![entry])];
        lemma_broadcast(node, None, after, after);
        assert(tells_all(node, None, after, persist));
        assert(tells_all(node, None, after, advanced.1));
        lemma_tells_joined(node, None, after, persist, advanced.1);
        lemma_tells_joined(node, None, after, persist + advanced.1, after.broadcast());
        assert(after.log.take(node.log.len() as int) =~= node.log);
        assert(after.replicated(after.commit_index.0 as int) =~= pushed.replicated(
            after.commit_index.0 as int,
        ));
    }
    if let Ok(step) = node.read_asked() {
        let fixed = NodeView {
            read_round: bumped(node.read_round),
            read_acks: set![node.id],
            read_index: Some(node.commit_index),
            ..node
        };
        let after = step.0;
        let barrier = seq![EffectView::ReadBarrier { index: node.commit_index }];
        lemma_broadcast(node, None, after, fixed);
        assert(tells_all(node, None, after, barrier));
        assert(tells_all(node, None, after, fixed.read_released().1));
        lemma_tells_joined(node, None, after, barrier, fixed.broadcast());
        lemma_tells_joined(
            node,
            None,
            after,
            barrier + fixed.broadcast(),
            fixed.read_released().1,
        );
    }
}

/// Whether a leader is one of its own learners.
pub open spec fn leads_as_learner(node: NodeView) -> bool {
    node.role is Leader && node.roster.learners.contains(node.id)
}

/// Changes of the configuration that leave the members settled make a leader
/// deal honestly with its log, and so does applying a change.
pub proof fn law_changes_are_honest(node: NodeView, envelope: EnvelopeView, entry: EntryView)
    requires
        plain(node),
    ensures
        node.config_appended(envelope) matches Ok(step) ==> node.role is Leader
            && envelope.operation !is LeaveJoint && leaves_none(node, step.0) && settled_members(
            step.0,
        ) ==> honest(node, None, step),
        node.config_applied(entry) matches Ok(step) ==> !leads_as_learner(node) ==> honest(
            node,
            None,
            step,
        ),
{
    lemma_kept_log(node.log);
    if let Ok(step) = node.config_appended(envelope) {
        if node.role is Leader && envelope.operation !is LeaveJoint && leaves_none(node, step.0)
            && settled_members(step.0) {
            lemma_change_appended(node, envelope);
        }
    }
    reveal(NodeView::config_applied);
    if let Some(found) = envelope_of(entry.payload) {
        if let OperationView::AddLearner { id, .. } = found.operation {
            if node.role is Leader && node.followers().contains(id) {
                lemma_append_for(node, None, node, node, id);
            }
        }
        if let OperationView::BeginLeaderTransfer { target } = found.operation {
            let begun = NodeView {
                transfer: Some(
                    LeadershipTransfer {
                        intent_index: entry.index,
                        target,
                        deadline: found.leader_time.later(node.config.leader_transfer_timeout),
                        finishing: false,
                        admin_session: found.admin_session,
                    },
                ),
                ..node
            };
            if node.role is Leader {
                lemma_transfer_finished(
                    node,
                    None,
                    begun,
                    TransferResult::Success,
                    found.leader_time,
                );
            }
        }
    }
}

proof fn lemma_change_appended(node: NodeView, envelope: EnvelopeView)
    requires
        plain(node),
        node.role is Leader,
        node.config_appended(envelope) is Ok,
        envelope.operation !is LeaveJoint,
        leaves_none(node, node.config_appended(envelope)->Ok_0.0),
        settled_members(node.config_appended(envelope)->Ok_0.0),
    ensures
        honest(node, None, node.config_appended(envelope)->Ok_0),
{
    reveal(NodeView::config_appended);
    reveal(NodeView::configured);
    lemma_kept_log(node.log);
    let step = node.config_appended(envelope)->Ok_0;
    let next = step.0;
    let leaving = node.leaving(envelope.operation);
    let entry = node.config_entry(envelope);
    lemma_configured(node, entry);
    assert(leaving =~= Set::<NodeId>::empty());
    lemma_members(leaving);
    assert(whole_log(next));
    assert(next.log.take(node.log.len() as int) =~= node.log);
    lemma_broadcast(node, None, next, next);
    lemma_appends(node, None, next, next, ascending(leaving));
    let persist = seq![EffectView::PersistEntries(seq![entry])];
    assert(tells_all(node, None, next, persist));
    lemma_tells_joined(node, None, next, persist, next.broadcast());
    lemma_tells_joined(
        node,
        None,
        next,
        persist + next.broadcast(),
        next.appends_for(ascending(leaving)),
    );
}

/// Entering a joint configuration makes a leader deal honestly with its log:
/// what the joint configuration commits, the old voters commit.
pub proof fn law_entering_is_honest(node: NodeView, new_voters: Set<NodeId>)
    requires
        plain(node),
    ensures
        node.joint_proposed(new_voters) matches Ok(step) ==> settled_members(step.0) ==> honest(
            node,
            None,
            step,
        ),
{
    lemma_kept_log(node.log);
    if let Ok(step) = node.joint_proposed(new_voters) {
        let envelope = NodeView::anonymous(Time(0), OperationView::EnterJoint { new_voters });
        let entry = EntryView {
            term: node.hard_state.term,
            index: LogIndex((node.last_index().0 + 1) as u64),
            kind: EntryKind::Config,
            payload: envelope_bytes(envelope),
        };
        lemma_configured(node, entry);
        if settled_members(step.0) {
            let projected = node.configured(entry)->Ok_0;
            assert(projected.role == node.role && projected.match_index == node.match_index
                && projected.next_index == node.next_index && projected.read_round
                == node.read_round && projected.read_acks == node.read_acks
                && projected.retiring_peers == node.retiring_peers) by {
                reveal(NodeView::configured);
            }
            reveal(NodeView::entry_offered);
            let pushed = NodeView { log: projected.log.push(entry), ..projected };
            assert(whole_log(pushed));
            lemma_advanced(pushed);
            let advanced = pushed.advanced();
            let after = advanced.0;
            let persist = seq![EffectView::PersistEntries(seq![entry])];
            lemma_broadcast(node, None, after, after);
            assert(tells_all(node, None, after, persist));
            assert(tells_all(node, None, after, advanced.1));
            lemma_tells_joined(node, None, after, persist, advanced.1);
            lemma_tells_joined(node, None, after, persist + advanced.1, after.broadcast());
            assert(after.log.take(node.log.len() as int) =~= node.log);
            let index = after.commit_index.0 as int;
            assert(after.replicated(index) =~= pushed.replicated(index));
            assert(projected.roster.quorum(after.replicated(index)) ==> node.roster.quorum(
                after.replicated(index),
            )) by {
                reveal(NodeView::configured);
            }
        }
    }
}

/// Resuming replication to a member, and arming the election timer, make a node
/// deal honestly with its log.
pub proof fn law_resuming_is_honest(node: NodeView, peer: NodeId, now: Time)
    requires
        plain(node),
    ensures
        node.role is Leader && node.followers().contains(peer) ==> honest(
            node,
            None,
            (node, seq![node.append_for(peer)]),
        ),
        honest(node, None, (node.election_reset(now), Seq::empty())),
{
    lemma_kept_log(node.log);
    if node.role is Leader && node.followers().contains(peer) {
        lemma_append_for(node, None, node, node, peer);
    }
}

} // verus!
