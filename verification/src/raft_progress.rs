//! How a log gets on: what a leader proposes, sends and commits, and what its
//! followers make of it.
use vstd::prelude::*;

use crate::envelope::envelope_of;
use crate::ids::{LogIndex, NodeId, Term, Time};
use crate::membership::{EnvelopeView, OperationView};
use crate::node_set::ascending;
use crate::raft_leadership::{decides, lemma_broadcast_covers};
use crate::raft_model::{bumped, Absorbed, NodeView, Step};
use crate::raft_types::{
    config_kind, known_version, AppendResponse, AppendView, EffectView, EntryKind, EntryView,
    KindView, MessageView, RaftError,
};

verus! {

/// Whether a node sends a message to a member among some effects.
pub open spec fn sent(effects: Seq<EffectView>, to: NodeId, term: Term, kind: KindView) -> bool {
    exists|i: int|
        0 <= i < effects.len() && ((#[trigger] effects[i]) matches EffectView::Send(message)
            && message.to == to && message.term == term && message.kind == kind)
}

/// Whether some effects hand entries to the host, to be applied: those that follow
/// the index `from`, up to `upto`, in order.
pub open spec fn hands_out(
    effects: Seq<EffectView>,
    node: NodeView,
    from: LogIndex,
    upto: LogIndex,
) -> bool {
    from.0 < upto.0 ==> exists|i: int|
        0 <= i < effects.len() && ((#[trigger] effects[i]) matches EffectView::Apply(entries)
            && entries.len() == upto.0 - from.0 && forall|k: int|
            0 <= k < entries.len() ==> (#[trigger] entries[k]) == node.log[from.0 + k
                - node.snapshot_index.0])
}

/// A leader takes what is proposed while nobody lags behind and no transfer is under
/// way, and nobody else takes anything. What it takes is the next entry of its log,
/// of its term, with the bytes that were proposed; it is persisted before anything
/// else, and every other member is due it.
pub proof fn law_proposals_join_the_log(
    node: NodeView,
    payload: Seq<u8>,
    kind: EntryKind,
    peer: NodeId,
)
    requires
        node.inv(),
        node.roster.voters.finite(),
        node.roster.learners.finite(),
        node.retiring_peers.dom().finite(),
    ensures
        node.role !is Leader ==> node.proposed(payload, kind) == Err::<Step, RaftError>(
            RaftError::NotLeader,
        ),
        node.role is Leader && node.transfer is None && node.config.pipeline_window > 0 && (forall|
            other: NodeId,
        | #[trigger]
            node.next_index.dom().contains(other) ==> node.next_index[other].0 > node.snapshot_index.0
                + node.log.len()) ==> node.proposed(payload, kind) is Ok,
        node.proposed(payload, kind) matches Ok(step) ==> {
            let entry = EntryView {
                term: node.hard_state.term,
                index: LogIndex((node.snapshot_index.0 + node.log.len() + 1) as u64),
                kind,
                payload,
            };
            &&& step.0.log == node.log.push(entry)
            &&& step.0.hard_state == node.hard_state
            &&& step.1[0] == EffectView::PersistEntries(seq![entry])
            &&& node.roster.has(peer) && peer != node.id ==> exists|i: int|
                0 <= i < step.1.len() && ((#[trigger] step.1[i]) matches EffectView::Send(message)
                    && message.to == peer && message.kind is AppendReq)
        },
{
    reveal(NodeView::entry_offered);
    if node.role is Leader && node.transfer is None && node.config.pipeline_window > 0 && (forall|
        other: NodeId,
    | #[trigger]
        node.next_index.dom().contains(other) ==> node.next_index[other].0 > node.snapshot_index.0
            + node.log.len()) {
        let lagging = node.next_index.dom().filter(
            |peer: NodeId| node.next_index[peer].0 <= node.last_index().0,
        );
        assert(lagging =~= Set::empty());
        assert(node.outstanding() == 0);
        let limit = if node.roster.voters.len() > 0 {
            node.roster.voters.len()
        } else {
            1
        };
        assert(node.config.pipeline_window * limit > 0) by (nonlinear_arith)
            requires
                node.config.pipeline_window > 0,
                limit > 0,
        ;
    }
    if let Ok(step) = node.proposed(payload, kind) {
        let entry = EntryView {
            term: node.hard_state.term,
            index: LogIndex((node.last_index().0 + 1) as u64),
            kind,
            payload,
        };
        let offered = NodeView { log: node.log.push(entry), ..node };
        lemma_advanced_frame(offered);
        let advanced = offered.advanced();
        let head = seq![EffectView::PersistEntries(seq![entry])] + advanced.1;
        let calls = advanced.0.broadcast();
        assert(step.1 == head + calls);
        assert(step.1[0] == head[0]);
        if node.roster.has(peer) && peer != node.id {
            lemma_broadcast_covers(advanced.0, peer);
            let i = choose|i: int| 0 <= i < calls.len() && calls[i] == advanced.0.append_for(peer);
            reveal(NodeView::append_for);
            assert(step.1[head.len() + i] == calls[i]);
        }
    }
}

proof fn lemma_advanced_frame(node: NodeView)
    ensures
        ({
            let after = node.advanced().0;
            &&& after.log == node.log
            &&& after.hard_state == node.hard_state
            &&& after.roster == node.roster
            &&& after.retiring_peers == node.retiring_peers
            &&& after.id == node.id
            &&& after.role == node.role
            &&& after.transfer == node.transfer
            &&& after.match_index == node.match_index
            &&& after.next_index == node.next_index
            &&& after.snapshot_index == node.snapshot_index
            &&& after.snapshot_term == node.snapshot_term
            &&& after.config == node.config
            &&& after.read_index == node.read_index
            &&& after.read_acks == node.read_acks
            &&& after.read_round == node.read_round
        }),
{
    reveal(NodeView::advanced);
    reveal(NodeView::applied);
}

/// An append carries what its receiver lacks: from the index that the receiver is
/// due on, the entries of the leader's log in order, as many as one append may carry
/// and no more than there are; with the index and the term of the entry before them,
/// and how far the leader committed.
pub proof fn law_appends_carry_what_is_due(leader: NodeView, peer: NodeId)
    requires
        leader.inv(),
        leader.next_index.dom().contains(peer),
        leader.snapshot_index.0 < leader.next_index[peer].0 <= leader.snapshot_index.0
            + leader.log.len() + 1,
    ensures
        leader.append_for(peer) matches EffectView::Send(message) && {
            let next = leader.next_index[peer].0;
            let before = next - leader.snapshot_index.0 - 1;
            let left = leader.log.len() - before;
            &&& message.to == peer && message.from == leader.id && message.term
                == leader.hard_state.term
            &&& message.kind matches KindView::AppendReq(request)
            &&& request.prev_index.0 == next - 1
            &&& before > 0 ==> request.prev_term == leader.log[before - 1].term
            &&& before == 0 && leader.snapshot_index.0 > 0 ==> request.prev_term
                == leader.snapshot_term
            &&& request.entries.len() == if left <= leader.config.max_entries_per_append {
                left
            } else {
                leader.config.max_entries_per_append as int
            }
            &&& forall|k: int|
                0 <= k < request.entries.len() ==> (#[trigger] request.entries[k])
                    == leader.log[before + k]
            &&& request.leader_commit == leader.commit_index
            &&& request.read_round == leader.read_round
        },
{
    reveal(NodeView::append_for);
    let next = leader.next_index[peer].0;
    let before = next - leader.snapshot_index.0 - 1;
    if before > 0 {
        let prev = LogIndex((next - 1) as u64);
        assert(leader.holds(prev));
        assert(leader.entry(prev) == leader.log[before - 1]);
    }
}

/// Whether the entries of an append run on from the one before them.
pub open spec fn runs_on(request: AppendView) -> bool {
    forall|k: int|
        0 <= k < request.entries.len() ==> (#[trigger] request.entries[k]).index.0
            == request.prev_index.0 + 1 + k
}

proof fn lemma_replayed_log(node: NodeView, log: Seq<EntryView>, i: int)
    ensures
        node.replayed_from(log, i).log == node.log,
        node.replayed_from(log, i).snapshot_index == node.snapshot_index,
        node.replayed_from(log, i).commit_index == node.commit_index,
        node.replayed_from(log, i).applied_index == node.applied_index,
        node.replayed_from(log, i).hard_state == node.hard_state,
        node.replayed_from(log, i).id == node.id,
    decreases log.len() - i,
{
    if 0 <= i < log.len() {
        if let Some(envelope) = crate::envelope::envelope_of(log[i].payload) {
            lemma_replayed_log(node.replayed_one(envelope.operation, log[i].index), log, i + 1);
        }
        lemma_replayed_log(node, log, i + 1);
    }
}

proof fn lemma_truncated_log(node: NodeView, index: LogIndex)
    ensures
        ({
            let after = node.truncated(index);
            &&& after.log == node.log.subrange(0, index.0 - node.snapshot_index.0 - 1)
            &&& after.snapshot_index == node.snapshot_index
            &&& after.commit_index == node.commit_index
            &&& after.applied_index == node.applied_index
            &&& after.hard_state == node.hard_state
            &&& after.id == node.id
        }),
{
    reveal(NodeView::rebuilt);
    let cut = NodeView {
        log: node.log.subrange(0, index.0 - node.snapshot_index.0 - 1),
        ..node
    };
    lemma_replayed_log(
        NodeView { roster: cut.base, retiring_peers: Map::empty(), ..cut },
        cut.log,
        0,
    );
}

spec fn absorbed_state(absorbed: Absorbed) -> NodeView {
    match absorbed {
        Absorbed::Done { state, .. } => state,
        Absorbed::Stopped { state, .. } => state,
    }
}

/// Whether every index of a log is where it belongs.
spec fn placed(node: NodeView) -> bool {
    forall|i: int|
        0 <= i < node.log.len() ==> (#[trigger] node.log[i]).index.0 == node.snapshot_index.0 + 1
            + i
}

/// Whether a log holds the entries of an append up to position `i`, by their terms.
spec fn holds_upto(node: NodeView, request: AppendView, i: int) -> bool {
    let base = request.prev_index.0 - node.snapshot_index.0;
    &&& 0 <= base
    &&& base + i <= node.log.len()
    &&& forall|k: int|
        0 <= k < i ==> node.log[base + k].term == (#[trigger] request.entries[k]).term
}

/// Whether an entry of a log was there before, or came with an append.
spec fn stems_from(node: NodeView, request: AppendView, entry: EntryView, j: int) -> bool {
    let base = request.prev_index.0 - node.snapshot_index.0;
    ||| j < node.log.len() && entry == node.log[j]
    ||| base <= j < base + request.entries.len() && entry == request.entries[j - base]
}

/// What comes of taking the entries of an append from position `i` on, where the
/// log holds those before.
spec fn takes(node: NodeView, request: AppendView, i: int, absorbed: Absorbed) -> bool {
    absorbed matches Absorbed::Done { state, .. } && {
        let base = request.prev_index.0 - node.snapshot_index.0;
        &&& placed(state)
        &&& holds_upto(state, request, request.entries.len() as int)
        &&& state.snapshot_index == node.snapshot_index
        &&& state.commit_index == node.commit_index
        &&& state.applied_index == node.applied_index
        &&& state.hard_state == node.hard_state
        &&& state.id == node.id
        &&& forall|j: int|
            0 <= j < base + i ==> (#[trigger] state.log[j]) == node.log[j]
        &&& node.commit_index.0 <= state.snapshot_index.0 + state.log.len()
        &&& state.snapshot_index.0 + state.log.len() < u64::MAX
        &&& forall|j: int|
            0 <= j < state.log.len() ==> stems_from(node, request, #[trigger] state.log[j], j)
        &&& forall|j: int|
            0 <= j < node.commit_index.0 - node.snapshot_index.0 ==> (#[trigger] state.log[j])
                == node.log[j]
    }
}

proof fn lemma_absorbed_takes(
    node: NodeView,
    from: NodeId,
    request: AppendView,
    i: int,
    effects: Seq<EffectView>,
    appended: Seq<EntryView>,
)
    requires
        placed(node),
        runs_on(request),
        0 <= i <= request.entries.len(),
        request.prev_index.0 >= node.snapshot_index.0,
        request.prev_index.0 + request.entries.len() < u64::MAX,
        node.snapshot_index.0 + node.log.len() < u64::MAX,
        holds_upto(node, request, i),
        forall|k: int|
            0 <= k < request.entries.len() ==> !config_kind((#[trigger] request.entries[k]).kind),
        forall|k: int|
            i <= k < request.entries.len() && node.holds((#[trigger] request.entries[k]).index)
                && request.entries[k].index.0 <= node.commit_index.0 ==> node.entry(
                request.entries[k].index,
            ).term == request.entries[k].term,
        node.commit_index.0 <= node.snapshot_index.0 + node.log.len(),
    ensures
        takes(node, request, i, node.absorbed(from, request, i, effects, appended)),
    decreases request.entries.len() - i,
{
    if i < request.entries.len() {
        let entry = request.entries[i];
        let base = request.prev_index.0 - node.snapshot_index.0;
        let held = node.holds(entry.index);
        assert(entry.index.0 == request.prev_index.0 + 1 + i);
        if held && node.entry(entry.index).term == entry.term {
            assert(node.entry(entry.index) == node.log[base + i]);
            assert(holds_upto(node, request, i + 1));
            lemma_absorbed_takes(node, from, request, i + 1, effects, appended);
            assert(node.absorbed(from, request, i, effects, appended) == node.absorbed(
                from,
                request,
                i + 1,
                effects,
                appended,
            ));
            assert(takes(node, request, i, node.absorbed(from, request, i, effects, appended)));
        } else {
            let state = if held {
                node.truncated(entry.index)
            } else {
                node
            };
            let so_far = if held {
                effects.push(EffectView::TruncateSuffix(entry.index))
            } else {
                effects
            };
            if held {
                lemma_truncated_log(node, entry.index);
                assert(entry.index.0 > node.commit_index.0);
            }
            assert(state.log.len() == base + i);
            let next = NodeView { log: state.log.push(entry), ..state };
            assert(placed(next));
            assert(holds_upto(next, request, i + 1));
            assert forall|k: int| i + 1 <= k < request.entries.len() && next.holds(
                (#[trigger] request.entries[k]).index,
            ) implies false by {}
            lemma_absorbed_takes(next, from, request, i + 1, so_far, appended.push(entry));
            assert(next.commit_index == node.commit_index);
            assert forall|j: int| 0 <= j < base + i implies #[trigger] next.log[j]
                == node.log[j] by {}
            assert(next.log[base + i] == entry);
            let done = absorbed_state(
                next.absorbed(from, request, i + 1, so_far, appended.push(entry)),
            );
            assert(node.absorbed(from, request, i, effects, appended) == next.absorbed(
                from,
                request,
                i + 1,
                so_far,
                appended.push(entry),
            ));
            assert forall|j: int| 0 <= j < base + i implies (#[trigger] done.log[j])
                == node.log[j] by {
                assert(done.log[j] == next.log[j]);
            }
            assert forall|j: int| 0 <= j < done.log.len() implies stems_from(
                node,
                request,
                #[trigger] done.log[j],
                j,
            ) by {
                if j < base + i {
                    assert(done.log[j] == next.log[j]);
                } else if j == base + i {
                    assert(done.log[j] == next.log[j]);
                    assert(next.log[j] == request.entries[i]);
                    assert(j - base == i);
                } else {
                    assert(j >= next.log.len());
                    assert(stems_from(next, request, done.log[j], j));
                }
            }
            assert forall|j: int| 0 <= j < node.commit_index.0 - node.snapshot_index.0 implies (
            #[trigger] done.log[j]) == node.log[j] by {
                assert(done.log[j] == next.log[j]);
            }
            assert(takes(node, request, i, node.absorbed(from, request, i, effects, appended)));
        }
    } else {
        assert(takes(node, request, i, node.absorbed(from, request, i, effects, appended)));
    }
}

/// A follower takes what a leader sends it: where its log holds the entry before,
/// it ends up with every entry that was sent and keeps what came before them; it
/// answers with how far its log goes; it commits as far as the leader did and its
/// log goes, and hands what became committed to the host, in order. Where its log
/// does not hold the entry before, nothing of it changes, and the leader hears that
/// it failed.
pub proof fn law_followers_take_what_is_sent(
    node: NodeView,
    message: MessageView,
    request: AppendView,
    now: Time,
)
    requires
        node.inv(),
        known_version(message.proto_version),
        message.kind == KindView::AppendReq(request),
        message.term.0 >= node.hard_state.term.0,
        runs_on(request),
        request.prev_index.0 >= node.snapshot_index.0,
        request.prev_index.0 + request.entries.len() < u64::MAX,
        forall|k: int|
            0 <= k < request.entries.len() ==> !config_kind((#[trigger] request.entries[k]).kind),
        forall|k: int|
            0 <= k < request.entries.len() && node.holds((#[trigger] request.entries[k]).index)
                && request.entries[k].index.0 <= node.commit_index.0 ==> node.entry(
                request.entries[k].index,
            ).term == request.entries[k].term,
    ensures
        ({
            let step = node.received(message, now);
            let after = step.0;
            let base = request.prev_index.0 - node.snapshot_index.0;
            let matches = (request.prev_index.0 == 0 && request.prev_term == Term(0)) || (
            request.prev_index.0 != 0 && base == 0 && request.prev_term == node.snapshot_term) || (0
                < base <= node.log.len() && request.prev_term == node.log[base - 1].term);
            let end = after.snapshot_index.0 + after.log.len();
            &&& matches ==> {
                &&& base + request.entries.len() <= after.log.len()
                &&& forall|k: int|
                    0 <= k < request.entries.len() ==> after.log[base + k].term == (
                    #[trigger] request.entries[k]).term
                &&& forall|k: int|
                    0 <= k < request.entries.len() && base + k >= node.log.len()
                        ==> after.log[base + k] == #[trigger] request.entries[k]
                &&& forall|j: int| 0 <= j < base ==> (#[trigger] after.log[j]) == node.log[j]
                &&& sent(
                    step.1,
                    message.from,
                    message.term,
                    KindView::AppendResp(
                        AppendResponse {
                            success: true,
                            match_index: LogIndex(end as u64),
                            conflict_term: None,
                            conflict_index: LogIndex(0),
                            read_round: request.read_round,
                        },
                    ),
                )
                &&& after.commit_index.0 == if request.leader_commit.0 <= node.commit_index.0 {
                    node.commit_index.0 as int
                } else if request.leader_commit.0 <= end {
                    request.leader_commit.0 as int
                } else {
                    end as int
                }
                &&& request.leader_commit.0 > node.commit_index.0 ==> after.applied_index
                    == after.commit_index && hands_out(
                    step.1,
                    after,
                    node.applied_index,
                    after.commit_index,
                )
            }
            &&& !matches ==> {
                &&& after.log == node.log && after.commit_index == node.commit_index
                &&& step.1.last() matches EffectView::Send(answer)
                &&& answer.to == message.from
                &&& answer.kind matches KindView::AppendResp(response) && !response.success
                    && response.conflict_index.0 > 0 && response.conflict_index.0 <= if
                request.prev_index.0 > node.snapshot_index.0 + node.log.len() {
                    node.snapshot_index.0 + node.log.len() + 1
                } else {
                    request.prev_index.0 + 1
                }
            }
        }),
{
    reveal(NodeView::received);
    reveal(NodeView::taken);
    reveal(NodeView::append_asked);
    reveal(NodeView::applied);
    let adopted = if node.adopts_term(message) {
        node.term_adopted(message.term)
    } else {
        node
    };
    let state = NodeView {
        role: adopted.resting_role(),
        leader_id: Some(message.from),
        ..adopted
    }.election_reset(now);
    let base = request.prev_index.0 - node.snapshot_index.0;
    if 0 < base <= node.log.len() {
        assert(state.holds(request.prev_index));
        assert(state.entry(request.prev_index) == node.log[base - 1]);
    }
    let matches = state.term_at(request.prev_index) == Some(request.prev_term);
    let step = node.received(message, now);
    if matches {
        assert(holds_upto(state, request, 0));
        assert(placed(state));
        assert forall|k: int| 0 <= k < request.entries.len() && state.holds(
            (#[trigger] request.entries[k]).index,
        ) && request.entries[k].index.0 <= state.commit_index.0 implies state.entry(
            request.entries[k].index,
        ).term == request.entries[k].term by {
            assert(node.holds(request.entries[k].index));
        }
        lemma_absorbed_takes(state, message.from, request, 0, Seq::empty(), Seq::empty());
        if let Absorbed::Done { state: done, effects, appended } = state.absorbed(
            message.from,
            request,
            0,
            Seq::empty(),
            Seq::empty(),
        ) {
            let settled = done.append_settled(message.from, request, effects, appended);
            let last = settled.1.len() - 1;
            assert(step.0 == settled.0);
            let shift = step.1.len() - settled.1.len();
            assert(step.1[shift + last] == settled.1[last]);
            assert(done.last_index().0 == done.snapshot_index.0 + done.log.len());
            let persisted = if appended.len() > 0 {
                effects.push(EffectView::PersistEntries(appended))
            } else {
                effects
            };
            if request.leader_commit.0 > done.commit_index.0 && done.applied_index.0
                < settled.0.commit_index.0 {
                let at = persisted.len() as int;
                let handed = done.log.subrange(
                    done.applied_index.0 - done.snapshot_index.0,
                    settled.0.commit_index.0 - done.snapshot_index.0,
                );
                assert(settled.1[at] == EffectView::Apply(handed));
                assert(step.1[shift + at] == settled.1[at]);
            }
        }
    }
}

/// A leader counts what its followers hold: an answer that an append succeeded says
/// how far its sender's log goes, and what more than half of the voters hold with
/// the leader, of the leader's own term, is committed then, and handed to the host
/// in order.
pub proof fn law_answers_commit(
    leader: NodeView,
    message: MessageView,
    response: AppendResponse,
    now: Time,
    index: u64,
)
    requires
        leader.inv(),
        leader.role is Leader,
        known_version(message.proto_version),
        message.kind == KindView::AppendResp(response),
        message.term == leader.hard_state.term,
        response.success,
        response.match_index.0 < u64::MAX,
        leader.roster.has(message.from),
        !leader.retiring_peers.dom().contains(message.from),
        leader.snapshot_index.0 < index <= leader.snapshot_index.0 + leader.log.len(),
        leader.log[index - leader.snapshot_index.0 - 1].term == leader.hard_state.term,
    ensures
        ({
            let step = leader.received(message, now);
            let after = step.0;
            let holders = Set::new(
                |member: NodeId|
                    member == leader.id || (member == message.from && response.match_index.0
                        >= index) || (member != message.from && leader.match_index.dom().contains(
                        member,
                    ) && leader.match_index[member].0 >= index),
            );
            &&& after.match_index.dom().contains(message.from)
                && after.match_index[message.from] == response.match_index
            &&& after.next_index.dom().contains(message.from)
                && after.next_index[message.from].0 == response.match_index.0 + 1
            &&& after.last_contact.dom().contains(message.from)
                && after.last_contact[message.from] == now
            &&& decides(leader.roster, holders) ==> after.commit_index.0 >= index
            &&& !decides(leader.roster, holders) && leader.commit_index.0 < index
                ==> after.commit_index.0 != index
            &&& after.commit_index.0 > leader.commit_index.0 ==> after.applied_index
                == after.commit_index && hands_out(
                step.1,
                after,
                leader.applied_index,
                after.commit_index,
            )
            &&& after.log == leader.log
        }),
{
    reveal(NodeView::received);
    reveal(NodeView::taken);
    reveal(NodeView::append_answered);
    reveal(NodeView::answered);
    let heard = NodeView { last_contact: leader.last_contact.insert(message.from, now), ..leader };
    let matched = heard.matched(message.from, response.match_index);
    lemma_advanced_frame(matched);
    let holders = Set::new(
        |member: NodeId|
            member == leader.id || (member == message.from && response.match_index.0 >= index) || (
            member != message.from && leader.match_index.dom().contains(member)
                && leader.match_index[member].0 >= index),
    );
    assert(matched.replicated(index as int) =~= holders);
    assert(matched.holds(LogIndex(index)));
    assert(matched.entry(LogIndex(index)) == leader.log[index - leader.snapshot_index.0 - 1]);
    assert(matched.committable(index as int) == decides(leader.roster, holders));
    lemma_target(matched, matched.last_index().0 as int, index as int);
    reveal(NodeView::advanced);
    reveal(NodeView::applied);
    let advanced = matched.advanced();
    let step = leader.received(message, now);
    if advanced.0.commit_index.0 > leader.commit_index.0 {
        assert(advanced.1.len() == 1);
        assert(step.1[0] == advanced.1[0]);
    }
}

proof fn lemma_target(node: NodeView, upto: int, index: int)
    requires
        index <= upto,
    ensures
        node.committable(index) ==> node.commit_target(upto) >= index || index
            <= node.commit_index.0,
        !node.committable(index) && node.commit_index.0 < index ==> node.commit_target(upto) != index,
        node.commit_target(upto) <= upto || node.commit_target(upto) == node.commit_index.0,
        node.commit_target(upto) >= node.commit_index.0,
    decreases upto,
{
    if upto > node.commit_index.0 && !node.committable(upto) {
        if index < upto {
            lemma_target(node, upto - 1, index);
        } else {
            lemma_target_bound(node, upto - 1);
        }
    }
}

proof fn lemma_target_bound(node: NodeView, upto: int)
    ensures
        node.commit_target(upto) <= upto || node.commit_target(upto) == node.commit_index.0,
        node.commit_target(upto) >= node.commit_index.0,
    decreases upto,
{
    if upto > node.commit_index.0 && !node.committable(upto) {
        lemma_target_bound(node, upto - 1);
    }
}

/// A leader goes back where a follower could not follow: from the index that the
/// follower names it sends again.
pub proof fn law_refused_appends_are_sent_again(
    leader: NodeView,
    message: MessageView,
    response: AppendResponse,
    now: Time,
)
    requires
        leader.role is Leader,
        known_version(message.proto_version),
        message.kind == KindView::AppendResp(response),
        message.term == leader.hard_state.term,
        !response.success,
        leader.roster.has(message.from),
    ensures
        ({
            let step = leader.received(message, now);
            let next = if response.conflict_index.0 == 0 {
                1
            } else {
                response.conflict_index.0
            };
            &&& step.0.next_index.dom().contains(message.from)
                && step.0.next_index[message.from].0 == next
            &&& step.1.len() == 1 && (step.1[0] matches EffectView::Send(again) && again.to
                == message.from && (again.kind matches KindView::AppendReq(request)
                && request.prev_index.0 == next - 1))
            &&& step.0.commit_index == leader.commit_index && step.0.match_index
                == leader.match_index && step.0.log == leader.log
        }),
{
    reveal(NodeView::received);
    reveal(NodeView::taken);
    reveal(NodeView::append_answered);
    reveal(NodeView::answered);
    reveal(NodeView::append_for);
}

/// A leader that committed in its term takes a read: it sees everything that is
/// committed when it is asked for, a fresh round of appends to every other member
/// asks whether the leader still leads, and nothing of the log changes. Alone it is
/// answered at once.
pub proof fn law_reads_see_what_is_committed(leader: NodeView, peer: NodeId)
    requires
        leader.role is Leader,
        leader.transfer is None,
        leader.roster.voters.finite(),
        leader.roster.learners.finite(),
        leader.retiring_peers.dom().finite(),
        leader.read_round < u64::MAX,
    ensures
        (exists|i: int|
            0 <= i < leader.log.len() && (#[trigger] leader.log[i]).term == leader.hard_state.term
                && leader.log[i].index.0 <= leader.commit_index.0) ==> leader.read_asked() is Ok,
        leader.read_asked() matches Ok(step) ==> {
            &&& step.1[0] == (EffectView::ReadBarrier { index: leader.commit_index })
            &&& step.0.read_round == leader.read_round + 1
            &&& step.0.log == leader.log && step.0.commit_index == leader.commit_index
            &&& leader.roster.has(peer) && peer != leader.id ==> exists|i: int|
                0 <= i < step.1.len() && ((#[trigger] step.1[i]) matches EffectView::Send(message)
                    && message.to == peer && (message.kind matches KindView::AppendReq(request)
                    && request.read_round == leader.read_round + 1))
            &&& decides(leader.roster, set![leader.id]) ==> step.1.last() == (
            EffectView::ReadBarrierReady { index: leader.commit_index })
            &&& !decides(leader.roster, set![leader.id]) ==> step.0.read_index == Some(
                leader.commit_index,
            ) && step.0.read_acks == set![leader.id] && forall|i: int|
                0 <= i < step.1.len() ==> !((#[trigger] step.1[i]) is ReadBarrierReady)
        },
{
    if let Ok(step) = leader.read_asked() {
        let fixed = NodeView {
            read_round: bumped(leader.read_round),
            read_acks: set![leader.id],
            read_index: Some(leader.commit_index),
            ..leader
        };
        let calls = fixed.broadcast();
        let head = seq![EffectView::ReadBarrier { index: leader.commit_index }] + calls;
        let released = fixed.read_released();
        assert(step.1 == head + released.1);
        assert(step.1[0] == head[0]);
        if leader.roster.has(peer) && peer != leader.id {
            lemma_broadcast_covers(fixed, peer);
            let i = choose|i: int| 0 <= i < calls.len() && calls[i] == fixed.append_for(peer);
            reveal(NodeView::append_for);
            assert(head[1 + i] == calls[i]);
            assert(step.1[1 + i] == calls[i]);
        }
        lemma_broadcast_sends(fixed);
        assert forall|i: int| 0 <= i < head.len() implies !((
        #[trigger] head[i]) is ReadBarrierReady) by {
            if i > 0 {
                assert(head[i] == calls[i - 1]);
            }
        }
        if decides(leader.roster, set![leader.id]) {
            assert(step.1.last() == released.1.last());
        } else {
            assert(step.1 =~= head);
        }
    }
}

proof fn lemma_appends_send(node: NodeView, peers: Seq<NodeId>)
    ensures
        forall|i: int|
            0 <= i < node.appends_for(peers).len() ==> (#[trigger] node.appends_for(peers)[i]) is Send,
    decreases peers.len(),
{
    reveal(NodeView::append_for);
    if peers.len() > 0 {
        lemma_appends_send(node, peers.drop_last());
        let head = node.appends_for(peers.drop_last());
        let all = node.appends_for(peers);
        assert forall|i: int| 0 <= i < all.len() implies (#[trigger] all[i]) is Send by {
            if i < head.len() {
                assert(all[i] == head[i]);
            }
        }
    }
}

proof fn lemma_broadcast_sends(node: NodeView)
    ensures
        forall|i: int| 0 <= i < node.broadcast().len() ==> (#[trigger] node.broadcast()[i]) is Send,
{
    reveal(NodeView::broadcast);
    let a = node.appends_for(ascending(node.roster.voters));
    let b = node.appends_for(ascending(node.roster.learners));
    let c = node.appends_for(ascending(node.retiring_peers.dom()));
    lemma_appends_send(node, ascending(node.roster.voters));
    lemma_appends_send(node, ascending(node.roster.learners));
    lemma_appends_send(node, ascending(node.retiring_peers.dom()));
    let all = node.broadcast();
    assert forall|i: int| 0 <= i < all.len() implies (#[trigger] all[i]) is Send by {
        if i < a.len() {
            assert(all[i] == a[i]);
        } else if i < a.len() + b.len() {
            assert(all[i] == b[i - a.len()]);
        } else {
            assert(all[i] == c[i - a.len() - b.len()]);
        }
    }
}

/// A waiting read is answered by the confirmation of the present round with which
/// the voters decide, at the index that it waits with, and by none before; an
/// answer of an earlier round confirms nothing.
pub proof fn law_confirmed_rounds_release_reads(
    leader: NodeView,
    message: MessageView,
    response: AppendResponse,
    now: Time,
    index: LogIndex,
)
    requires
        leader.role is Leader,
        known_version(message.proto_version),
        message.kind == KindView::AppendResp(response),
        message.term == leader.hard_state.term,
        response.success,
        leader.roster.has(message.from),
        !leader.retiring_peers.dom().contains(message.from),
        leader.read_index == Some(index),
    ensures
        ({
            let step = leader.received(message, now);
            let fresh = leader.roster.voters.contains(message.from) && response.read_round
                == leader.read_round;
            let acks = if fresh {
                leader.read_acks.insert(message.from)
            } else {
                leader.read_acks
            };
            let ready = EffectView::ReadBarrierReady { index };
            &&& decides(leader.roster, acks) ==> step.1.contains(ready) && step.0.read_index is None
            &&& !decides(leader.roster, acks) ==> step.0.read_index == Some(index)
                && step.0.read_acks == acks
        }),
{
    reveal(NodeView::received);
    reveal(NodeView::taken);
    reveal(NodeView::append_answered);
    reveal(NodeView::answered);
    let heard = NodeView { last_contact: leader.last_contact.insert(message.from, now), ..leader };
    let matched = heard.matched(message.from, response.match_index);
    lemma_advanced_frame(matched);
    let advanced = matched.advanced();
    let counted = advanced.0.read_counted(message.from, response.read_round);
    let released = counted.read_released();
    let step = leader.received(message, now);
    if decides(leader.roster, counted.read_acks) {
        let at = advanced.1.len() as int;
        assert(released.1[0] == (EffectView::ReadBarrierReady { index }));
        assert(step.1[at] == released.1[0]);
    }
}

/// Leadership passes on: once the target of a transfer answers that it holds the
/// committed intent, the leader tells it to campaign; and a voter that is told so by
/// its leader, with the intent applied, moves to the next term at once and votes for
/// itself.
pub proof fn law_transfers_pass_leadership_on(
    leader: NodeView,
    message: MessageView,
    response: AppendResponse,
    now: Time,
    intent: LogIndex,
)
    requires
        known_version(message.proto_version),
        leader.hard_state.term.0 < u64::MAX,
    ensures
        message.kind == KindView::AppendResp(response) && leader.role is Leader && message.term
            == leader.hard_state.term && response.success && leader.roster.has(message.from)
            && !leader.retiring_peers.dom().contains(message.from) && (leader.transfer matches Some(
            transfer,
        ) && transfer.target == message.from && !transfer.finishing && transfer.intent_index
            == intent) && leader.commit_index.0 >= intent.0 && response.match_index.0 >= intent.0
            ==> sent(
            leader.received(message, now).1,
            message.from,
            leader.hard_state.term,
            KindView::TimeoutNow { intent_index: intent },
        ),
        message.kind == (KindView::TimeoutNow { intent_index: intent }) && message.term
            == leader.hard_state.term && leader.leader_id == Some(message.from)
            && leader.roster.voters.contains(leader.id) && leader.applied_index.0 >= intent.0
            && intent.0 != 0 && (leader.transfer matches Some(transfer) && transfer.intent_index
            == intent && transfer.target == leader.id) ==> {
            let after = leader.received(message, now).0;
            &&& after.hard_state.term.0 == leader.hard_state.term.0 + 1
            &&& after.hard_state.voted_for == Some(leader.id)
        },
        message.kind == (KindView::TimeoutNow { intent_index: intent }) && message.term.0
            <= leader.hard_state.term.0 && !(leader.leader_id == Some(message.from)
            && leader.roster.voters.contains(leader.id) && leader.applied_index.0 >= intent.0 && (
        leader.transfer matches Some(transfer) && transfer.intent_index == intent
            && transfer.target == leader.id)) ==> leader.received(message, now).0 == leader,
{
    reveal(NodeView::received);
    reveal(NodeView::taken);
    if message.kind == KindView::AppendResp(response) {
        reveal(NodeView::append_answered);
        reveal(NodeView::answered);
        let heard = NodeView {
            last_contact: leader.last_contact.insert(message.from, now),
            ..leader
        };
        let matched = heard.matched(message.from, response.match_index);
        lemma_advanced_frame(matched);
        lemma_advanced_grows(matched);
        let advanced = matched.advanced();
        let counted = advanced.0.read_counted(message.from, response.read_round);
        let released = counted.read_released();
        let step = leader.received(message, now);
        let call = released.0.handover(message.from, response.match_index);
        if call.len() > 0 && leader.role is Leader && message.term == leader.hard_state.term
            && response.success && leader.roster.has(message.from)
            && !leader.retiring_peers.dom().contains(message.from) {
            let at = advanced.1.len() + released.1.len();
            assert(step.1[at as int] == call[0]);
        }
    }
    if message.kind == (KindView::TimeoutNow { intent_index: intent }) {
        reveal(NodeView::election_started);
        reveal(NodeView::became_leader);
        reveal(NodeView::resumed);
        reveal(NodeView::config_appended);
        reveal(NodeView::configured);
        reveal(NodeView::transfer_finished);
        lemma_advanced_frame(leader.candidate().elected());
    }
}

proof fn lemma_advanced_grows(node: NodeView)
    ensures
        node.advanced().0.commit_index.0 >= node.commit_index.0,
{
    reveal(NodeView::advanced);
    reveal(NodeView::applied);
    lemma_target_bound(node, node.last_index().0 as int);
}

/// A leader hands the question of a follower that would read to its host, and a follower
/// hands on the answer of its own leader: in the term of both, under the number of the
/// question and the hash of what is read. Anything else is dropped.
pub proof fn law_follower_reads_are_passed_on(node: NodeView, message: MessageView, now: Time)
    requires
        known_version(message.proto_version),
        message.term.0 <= node.hard_state.term.0,
    ensures
        ({
            let step = node.received(message, now);
            let current = message.proto_version == 3 && message.term == node.hard_state.term;
            match message.kind {
                KindView::FollowerReadRequest { request_id, command_hash } => {
                    &&& step.0 == node && step.1.len() == 1
                    &&& current && node.role is Leader && request_id != 0 ==> step.1[0] == (
                    EffectView::FollowerReadRequest {
                        from: message.from,
                        request_id,
                        command_hash,
                        at: now,
                    })
                    &&& !(current && node.role is Leader && request_id != 0) ==> step.1[0] is Trace
                },
                KindView::FollowerReadGrant { request_id, command_hash, read_index, read_time } => {
                    &&& step.0 == node && step.1.len() == 1
                    &&& current && node.leader_id == Some(message.from) && request_id != 0
                        ==> step.1[0] == (EffectView::FollowerReadGrant {
                        from: message.from,
                        term: message.term,
                        request_id,
                        command_hash,
                        read_index,
                        read_time,
                    })
                    &&& !(current && node.leader_id == Some(message.from) && request_id != 0)
                        ==> step.1[0] is Trace
                },
                _ => true,
            }
        }),
{
    reveal(NodeView::received);
    reveal(NodeView::taken);
}

/// A committed change takes effect once it is applied. A transfer to another voter begins
/// where none is under way: it is over at a timeout behind its leader's time, and a target
/// that holds the intent is told to campaign. The end of a transfer ends the one that it
/// names, and no other. A new learner is sent what it lacks.
pub proof fn law_applied_changes_take_effect(
    node: NodeView,
    entry: EntryView,
    envelope: EnvelopeView,
)
    requires
        config_kind(entry.kind),
        envelope_of(entry.payload) == Some(envelope),
    ensures
        ({
            let applied = node.config_applied(entry);
            match envelope.operation {
                OperationView::BeginLeaderTransfer { target } => {
                    &&& node.transfer is Some || !node.roster.voters.contains(target)
                        ==> applied is Err
                    &&& node.transfer is None && node.roster.voters.contains(target) && target
                        != node.id ==> (applied matches Ok(step) && {
                        &&& step.0.transfer matches Some(transfer)
                        &&& transfer.intent_index == entry.index
                        &&& transfer.target == target
                        &&& !transfer.finishing
                        &&& transfer.admin_session == envelope.admin_session
                        &&& envelope.leader_time.0 + node.config.leader_transfer_timeout.0
                            <= u64::MAX ==> transfer.deadline.0 == envelope.leader_time.0
                            + node.config.leader_transfer_timeout.0
                        &&& step.0.log == node.log && step.0.roster == node.roster && step.0.role
                            == node.role
                        &&& node.role is Leader && node.match_index.dom().contains(target)
                            && node.match_index[target].0 >= entry.index.0 ==> sent(
                            step.1,
                            target,
                            node.hard_state.term,
                            KindView::TimeoutNow { intent_index: entry.index },
                        )
                    })
                },
                OperationView::FinishLeaderTransfer { intent_index, .. } => {
                    let under_way = node.transfer matches Some(transfer) && transfer.intent_index
                        == intent_index;
                    &&& under_way ==> (applied matches Ok(step) && step.0 == (NodeView {
                        transfer: None,
                        ..node
                    }))
                    &&& !under_way ==> applied is Err
                },
                OperationView::AddLearner { id, .. } => applied matches Ok(step) && step.0 == node
                    && (node.role is Leader && node.roster.learners.contains(id) ==> exists|i: int|
                    0 <= i < step.1.len() && ((#[trigger] step.1[i]) matches EffectView::Send(
                        message,
                    ) && message.to == id && message.kind is AppendReq)),
                _ => true,
            }
        }),
{
    reveal(NodeView::config_applied);
    if let OperationView::BeginLeaderTransfer { target } = envelope.operation {
        if node.transfer is None && node.roster.voters.contains(target) && target != node.id {
            let step = node.config_applied(entry)->Ok_0;
            if node.role is Leader && node.match_index.dom().contains(target)
                && node.match_index[target].0 >= entry.index.0 {
                assert(step.1[0] matches EffectView::Send(message) && message.to == target);
            }
        }
    }
    if let OperationView::AddLearner { id, .. } = envelope.operation {
        reveal(NodeView::append_for);
        let step = node.config_applied(entry)->Ok_0;
        if node.role is Leader && node.roster.learners.contains(id) {
            assert(step.1[0] == node.append_for(id));
        }
    }
}

} // verus!
