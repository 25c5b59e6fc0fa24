//! That an exploration of three Raft nodes finds no two leaders of a term, no
//! two entries committed at an index and no logs that disagree.
use vstd::prelude::*;

use crate::ids::{LogIndex, NodeId, Term, Time};
use crate::model::{
    depth_bounded, explored_one, greater, known, lemma_initial, met, reported, search_end,
    search_start, searching, ModelConfig, ModelErrorView, SearchView,
};
use crate::model_bounds::{
    carried, crew, kept, lemma_crew, lemma_proposal_kept, lemma_timer_kept,
};
use crate::model_steps::{
    all_sound, at_index, checked, entries_noted, entry_noted, entry_slot, in_bounds_of,
    initial_state, law_steps_stay_sound, leader_noted, leader_slot, lemma_delivery,
    lemma_lost_sound, lemma_stepped_sound, message_moves, mismatch_from, mismatch_in,
    moves_of_messages, moves_of_nodes, node_moves, nodes_noted, routed, seat, sound, stepped,
    successors_of, ModelView, Notes, DEPTH_LIMIT, STEP_TIME,
};
use crate::raft_agreement::{
    begun, goes_on, law_committed_entries_agree, law_logs_match, lemma_one_leader, plain_cluster,
    plain_run, plainly_possible, LOG_LIMIT,
};
use crate::raft_laws::{law_proposals_never_undo, law_time_never_undoes};
use crate::raft_logs::plain;
use crate::raft_model::{bumped, NodeView, Step};
use crate::raft_safety::{moved, sends, ClusterView};
use crate::raft_types::{EffectView, EntryKind, EntryView, MessageView, TimerKind};
use crate::wire::le64;

verus! {

/// The nodes of a state by their names.
pub open spec fn seated(nodes: Seq<NodeView>) -> Map<NodeId, NodeView> {
    Map::new(|id: NodeId| crew().contains(id), |id: NodeId| nodes[seat(id)])
}

/// Whether a node led a term at a moment of a run.
pub open spec fn led_at(run: Seq<ClusterView>, j: int, term: u64, id: NodeId) -> bool {
    &&& 0 <= j < run.len()
    &&& run[j].nodes.dom().contains(id)
    &&& run[j].nodes[id].role is Leader
    &&& run[j].nodes[id].hard_state.term == Term(term)
}

/// Whether a node had committed an entry at a moment of a run.
pub open spec fn had_at(run: Seq<ClusterView>, j: int, id: NodeId, entry: EntryView) -> bool {
    let node = run[j].nodes[id];
    &&& 0 <= j < run.len()
    &&& run[j].nodes.dom().contains(id)
    &&& 0 < entry.index.0 <= node.commit_index.0
    &&& entry.index.0 <= node.log.len()
    &&& node.log[entry.index.0 - 1] == entry
}

/// Whether a node led a term in a run.
pub open spec fn led(run: Seq<ClusterView>, leader: (u64, NodeId)) -> bool {
    exists|j: int| #[trigger] led_at(run, j, leader.0, leader.1)
}

/// Whether an entry was committed in a run.
pub open spec fn had(run: Seq<ClusterView>, entry: EntryView) -> bool {
    exists|j: int, id: NodeId| #[trigger] had_at(run, j, id, entry)
}

/// Whether all that was seen of leaders and of committed entries happened in a
/// run.
pub open spec fn happened(run: Seq<ClusterView>, notes: Notes) -> bool {
    &&& forall|k: int| 0 <= k < notes.0.len() ==> led(run, #[trigger] notes.0[k])
    &&& forall|k: int| 0 <= k < notes.1.len() ==> had(run, #[trigger] notes.1[k])
}

/// Whether a run of the cluster ends in a state: its nodes are those of the
/// state, the messages on their way were sent, and what was seen of leaders and
/// of committed entries happened.
pub open spec fn ends_in(run: Seq<ClusterView>, state: ModelView) -> bool {
    &&& plain_run(run, crew())
    &&& run.last().nodes == seated(state.nodes)
    &&& forall|k: int|
        0 <= k < state.soup.len() ==> run.last().sent.contains(#[trigger] state.soup[k])
    &&& happened(run, (state.leaders_seen, state.committed))
}

/// Whether some run of the cluster ends in a state.
pub open spec fn reached(state: ModelView) -> bool {
    exists|run: Seq<ClusterView>| #[trigger] ends_in(run, state)
}

pub open spec fn all_reached(states: Seq<ModelView>) -> bool {
    forall|k: int| 0 <= k < states.len() ==> reached(#[trigger] states[k])
}

proof fn lemma_seated(nodes: Seq<NodeView>, id: NodeId)
    ensures
        seated(nodes).dom().contains(id) <==> 1 <= id.0 <= 3,
        1 <= id.0 <= 3 ==> seated(nodes)[id] == nodes[seat(id)],
{
    lemma_crew();
}

proof fn lemma_plain(nodes: Seq<NodeView>, cluster: ClusterView, soup: Seq<MessageView>, d: int)
    requires
        sound(
            (ModelView {
                nodes,
                soup,
                leaders_seen: Seq::empty(),
                committed: Seq::empty(),
            }),
            d,
        ),
        0 <= d <= DEPTH_LIMIT,
        cluster.nodes == seated(nodes),
    ensures
        plain_cluster(cluster, crew()),
{
    lemma_crew();
    assert forall|id: NodeId| #[trigger] cluster.nodes.dom().contains(id) implies ({
        let node = cluster.nodes[id];
        &&& node.id == id
        &&& node.roster.voters == crew()
        &&& node.roster.joint is None
        &&& plain(node)
        &&& node.log.len() <= LOG_LIMIT
        &&& node.roster.learners == Set::<NodeId>::empty()
    }) by {
        lemma_seated(nodes, id);
        let node = nodes[seat(id)];
        assert(node.inv() && kept(node, d, d) && node.id == NodeId((seat(id) + 1) as u64));
        assert(node.retiring_peers.dom() =~= Set::<NodeId>::empty());
    }
}

proof fn lemma_first()
    ensures
        reached(initial_state()),
{
    let state = initial_state();
    let cluster = ClusterView {
        nodes: seated(state.nodes),
        sent: Set::empty(),
        ballots: Set::empty(),
    };
    let run = seq![cluster];
    lemma_crew();
    lemma_initial();
    lemma_plain(state.nodes, cluster, state.soup, 0);
    assert forall|id: NodeId| #[trigger] cluster.nodes.dom().contains(id) implies ({
        let node = cluster.nodes[id];
        &&& node.role !is Leader
        &&& node.votes == Set::<NodeId>::empty()
        &&& node.hard_state.voted_for is None
        &&& node.log.len() == 0
        &&& node.commit_index.0 == 0
    }) by {
        lemma_seated(state.nodes, id);
        assert(seat(id) == 0 || seat(id) == 1 || seat(id) == 2);
    }
    assert(begun(cluster));
    assert(ends_in(run, state));
}

proof fn lemma_routed_sent(
    soup: Seq<MessageView>,
    effects: Seq<EffectView>,
    max_messages: usize,
    k: int,
)
    requires
        0 <= k < routed(soup, effects, max_messages).len(),
    ensures
        ({
            let message = routed(soup, effects, max_messages)[k];
            ||| soup.contains(message)
            ||| exists|i: int|
                0 <= i < effects.len() && #[trigger] effects[i] == EffectView::Send(message)
        }),
    decreases effects.len(),
{
    if effects.len() > 0 {
        let head = effects.drop_last();
        let before = routed(soup, head, max_messages);
        let message = routed(soup, effects, max_messages)[k];
        if k < before.len() {
            lemma_routed_sent(soup, head, max_messages, k);
            if !soup.contains(message) {
                let i = choose|i: int|
                    0 <= i < head.len() && #[trigger] head[i] == EffectView::Send(message);
                assert(effects[i] == EffectView::Send(message));
            }
        } else {
            assert(effects[effects.len() - 1] == EffectView::Send(message));
        }
    } else {
        assert(soup.contains(soup[k]));
    }
}

/// A step of one node leads from a state that was reached to one that is.
proof fn lemma_stepped_reached(
    state: ModelView,
    i: int,
    heard: Option<MessageView>,
    step: Step,
    config: ModelConfig,
    d: int,
    run: Seq<ClusterView>,
)
    requires
        ends_in(run, state),
        0 <= i < 3,
        state.nodes.len() == 3,
        0 <= d < DEPTH_LIMIT,
        plainly_possible(run.last(), NodeId((i + 1) as u64), heard, step),
        all_sound(stepped(state, i, step, config), d + 1),
    ensures
        all_reached(stepped(state, i, step, config)),
{
    let next = ModelView {
        nodes: state.nodes.update(i, step.0),
        soup: routed(state.soup, step.1, config.max_messages),
        ..state
    };
    let id = NodeId((i + 1) as u64);
    let last = run.last();
    let after = moved(last, id, step);
    let longer = run.push(after);
    if in_bounds_of(next, config) {
        assert(stepped(state, i, step, config)[0] == next);
        assert(sound(next, d + 1));
        assert(after.nodes =~= seated(next.nodes)) by {
            lemma_crew();
            assert forall|who: NodeId| after.nodes.dom().contains(who)
                <==> seated(next.nodes).dom().contains(who) by {
                lemma_seated(state.nodes, who);
                lemma_seated(next.nodes, who);
            }
            assert forall|who: NodeId| #[trigger] after.nodes.dom().contains(who) implies
                after.nodes[who] == seated(next.nodes)[who] by {
                lemma_seated(state.nodes, who);
                lemma_seated(next.nodes, who);
            }
        }
        assert(sound(
            (ModelView {
                nodes: next.nodes,
                soup: next.soup,
                leaders_seen: Seq::empty(),
                committed: Seq::empty(),
            }),
            d + 1,
        ));
        lemma_plain(next.nodes, after, next.soup, d + 1);
        assert forall|j: int| 0 <= j < longer.len() implies plain_cluster(
            #[trigger] longer[j],
            crew(),
        ) by {
            if j < run.len() {
                assert(longer[j] == run[j]);
            }
        }
        assert forall|j: int| 0 <= j < longer.len() - 1 implies #[trigger] goes_on(longer, j) by {
            assert(longer[j] == run[j]);
            if j < run.len() - 1 {
                assert(goes_on(run, j));
                assert(longer[j + 1] == run[j + 1]);
            } else {
                assert(plainly_possible(longer[j], id, heard, step));
                assert(longer[j + 1] == after);
            }
        }
        assert(longer[0] == run[0]);
        assert(plain_run(longer, crew()));
        assert forall|k: int| 0 <= k < next.soup.len() implies after.sent.contains(
            #[trigger] next.soup[k],
        ) by {
            lemma_routed_sent(state.soup, step.1, config.max_messages, k);
            let message = next.soup[k];
            if state.soup.contains(message) {
                let at = choose|at: int| 0 <= at < state.soup.len() && state.soup[at] == message;
                assert(last.sent.contains(state.soup[at]));
            } else {
                assert(sends(step, message));
            }
        }
        lemma_happened_later(run, longer, (state.leaders_seen, state.committed));
        assert(ends_in(longer, next));
    }
}

/// What was seen of a run, a longer one shows too.
proof fn lemma_happened_later(run: Seq<ClusterView>, longer: Seq<ClusterView>, notes: Notes)
    requires
        happened(run, notes),
        run.len() <= longer.len(),
        forall|j: int| 0 <= j < run.len() ==> #[trigger] longer[j] == run[j],
    ensures
        happened(longer, notes),
{
    assert forall|k: int| 0 <= k < notes.0.len() implies led(longer, #[trigger] notes.0[k]) by {
        let (term, id) = notes.0[k];
        assert(led(run, notes.0[k]));
        let j = choose|j: int| #[trigger] led_at(run, j, term, id);
        assert(longer[j] == run[j]);
        assert(led_at(longer, j, term, id));
    }
    assert forall|k: int| 0 <= k < notes.1.len() implies had(longer, #[trigger] notes.1[k]) by {
        let entry = notes.1[k];
        assert(had(run, entry));
        let (j, id) = choose|j: int, id: NodeId| #[trigger] had_at(run, j, id, entry);
        assert(longer[j] == run[j]);
        assert(had_at(longer, j, id, entry));
    }
}

proof fn lemma_joined_reached(a: Seq<ModelView>, b: Seq<ModelView>)
    requires
        all_reached(a),
        all_reached(b),
    ensures
        all_reached(a + b),
{
    assert forall|k: int| 0 <= k < (a + b).len() implies reached(#[trigger] (a + b)[k]) by {
        if k < a.len() {
            assert((a + b)[k] == a[k]);
        } else {
            assert((a + b)[k] == b[k - a.len()]);
        }
    }
}

/// Where a node goes by itself is reached.
proof fn lemma_node_moves_reached(
    state: ModelView,
    i: int,
    config: ModelConfig,
    d: int,
    run: Seq<ClusterView>,
)
    requires
        ends_in(run, state),
        sound(state, d),
        0 <= d < DEPTH_LIMIT,
        0 <= i < 3,
    ensures
        all_reached(node_moves(state, i, config)),
{
    let node = state.nodes[i];
    assert(node.inv() && kept(node, d, d));
    let id = NodeId((i + 1) as u64);
    let last = run.last();
    lemma_seated(state.nodes, id);
    assert(last.nodes[id] == node);
    let now = Time(STEP_TIME);
    let payload = le64(bumped(node.last_index().0));
    law_time_never_undoes(node, now, TimerKind::Election);
    law_time_never_undoes(node, now, TimerKind::Heartbeat);
    law_proposals_never_undo(node, payload, EntryKind::App);
    lemma_timer_kept(node, now, TimerKind::Election, d, d);
    lemma_timer_kept(node, now, TimerKind::Heartbeat, d, d);
    let none = Seq::<ModelView>::empty();
    assert(all_reached(none));
    let election = node.timer_fired(now, TimerKind::Election);
    let heartbeat = node.timer_fired(now, TimerKind::Heartbeat);
    lemma_stepped_sound(state, i, election, config, d);
    lemma_stepped_sound(state, i, heartbeat, config, d);
    assert(plainly_possible(last, id, None, election));
    assert(plainly_possible(last, id, None, heartbeat));
    lemma_stepped_reached(state, i, None, election, config, d, run);
    lemma_stepped_reached(state, i, None, heartbeat, config, d, run);
    if let Ok(step) = node.proposed(payload, EntryKind::App) {
        lemma_proposal_kept(node, payload, d, d);
        lemma_stepped_sound(state, i, step, config, d);
        assert(plainly_possible(last, id, None, step));
        lemma_stepped_reached(state, i, None, step, config, d, run);
    }
    let a = if node.hard_state.term.0 <= config.max_term {
        stepped(state, i, election, config)
    } else {
        none
    };
    let b = if node.role is Leader {
        stepped(state, i, heartbeat, config)
    } else {
        none
    };
    let c = if node.role is Leader && node.log.len() < config.max_log {
        match node.proposed(payload, EntryKind::App) {
            Ok(step) => stepped(state, i, step, config),
            Err(_) => none,
        }
    } else {
        none
    };
    lemma_joined_reached(a, b);
    lemma_joined_reached(a + b, c);
}

/// What becomes of a message is reached.
proof fn lemma_message_moves_reached(
    state: ModelView,
    k: int,
    config: ModelConfig,
    d: int,
    run: Seq<ClusterView>,
)
    requires
        ends_in(run, state),
        sound(state, d),
        0 <= d < DEPTH_LIMIT,
        0 <= k < state.soup.len(),
    ensures
        all_reached(message_moves(state, k, config)),
{
    let message = state.soup[k];
    let without = ModelView { soup: state.soup.remove(k), ..state };
    let at = seat(message.to);
    lemma_delivery(state, k, d);
    lemma_lost_sound(state, k, d);
    assert(carried(message, d, d));
    let last = run.last();
    let node = state.nodes[at];
    lemma_seated(state.nodes, message.to);
    assert(kept(node, d, d));
    let now = Time(STEP_TIME);
    let step = node.received(message, now);
    lemma_stepped_sound(without, at, step, config, d);
    lemma_stepped_sound(state, at, step, config, d);
    assert(last.sent.contains(message));
    assert forall|j: int| 0 <= j < without.soup.len() implies last.sent.contains(
        #[trigger] without.soup[j],
    ) by {
        let from = if j < k {
            j
        } else {
            j + 1
        };
        assert(without.soup[j] == state.soup[from]);
    }
    assert(ends_in(run, without));
    assert(message.to == NodeId((at + 1) as u64));
    assert(last.nodes[message.to] == node);
    assert(plainly_possible(last, message.to, Some(message), step));
    lemma_stepped_reached(without, at, Some(message), step, config, d, run);
    lemma_stepped_reached(state, at, Some(message), step, config, d, run);
    let lost = seq![without];
    assert(all_reached(lost));
    lemma_joined_reached(lost, stepped(without, at, step, config));
    let none = Seq::<ModelView>::empty();
    assert(all_reached(none));
    lemma_joined_reached(
        lost + stepped(without, at, step, config),
        stepped(state, at, step, config),
    );
    lemma_joined_reached(lost + stepped(without, at, step, config), none);
}

proof fn lemma_moves_reached(
    state: ModelView,
    n: int,
    m: int,
    config: ModelConfig,
    d: int,
    run: Seq<ClusterView>,
)
    requires
        ends_in(run, state),
        sound(state, d),
        0 <= d < DEPTH_LIMIT,
        0 <= n <= 3,
        0 <= m <= state.soup.len(),
    ensures
        all_reached(moves_of_nodes(state, n, config)),
        all_reached(moves_of_messages(state, m, config)),
    decreases n + m,
{
    if n > 0 {
        lemma_moves_reached(state, n - 1, m, config, d, run);
        lemma_node_moves_reached(state, n - 1, config, d, run);
        lemma_joined_reached(
            moves_of_nodes(state, n - 1, config),
            node_moves(state, n - 1, config),
        );
    }
    if m > 0 {
        lemma_moves_reached(state, n, m - 1, config, d, run);
        lemma_message_moves_reached(state, m - 1, config, d, run);
        lemma_joined_reached(
            moves_of_messages(state, m - 1, config),
            message_moves(state, m - 1, config),
        );
    }
}

/// Every state that one step leads to from a state that was reached is reached.
proof fn lemma_successors_reached(state: ModelView, config: ModelConfig, d: int)
    requires
        reached(state),
        sound(state, d),
        0 <= d < DEPTH_LIMIT,
    ensures
        all_reached(successors_of(state, config)),
{
    let run = choose|run: Seq<ClusterView>| #[trigger] ends_in(run, state);
    lemma_moves_reached(state, 3, state.soup.len() as int, config, d, run);
    lemma_joined_reached(
        moves_of_nodes(state, 3, config),
        moves_of_messages(state, state.soup.len() as int, config),
    );
}

proof fn lemma_leader_slot(leaders: Seq<(u64, NodeId)>, term: u64, k: int)
    requires
        0 <= k <= leaders.len(),
    ensures
        k <= leader_slot(leaders, term, k) <= leaders.len(),
    decreases leaders.len() - k,
{
    if k < leaders.len() && leaders[k].0 < term {
        lemma_leader_slot(leaders, term, k + 1);
    }
}

proof fn lemma_entry_slot(committed: Seq<EntryView>, index: LogIndex, k: int)
    requires
        0 <= k <= committed.len(),
    ensures
        k <= entry_slot(committed, index, k) <= committed.len(),
    decreases committed.len() - k,
{
    if k < committed.len() && committed[k].index.0 < index.0 {
        lemma_entry_slot(committed, index, k + 1);
    }
}

/// A leader is the only one that was seen to lead its term.
proof fn lemma_leader_noted(run: Seq<ClusterView>, notes: Notes, leader: (u64, NodeId))
    requires
        plain_run(run, crew()),
        happened(run, notes),
        led(run, leader),
    ensures
        leader_noted(notes.0, leader.0, leader.1) matches Ok(leaders) && happened(
            run,
            (leaders, notes.1),
        ),
{
    let (term, id) = leader;
    let k = leader_slot(notes.0, term, 0);
    lemma_leader_slot(notes.0, term, 0);
    if k < notes.0.len() && notes.0[k].0 == term {
        assert(led(run, notes.0[k]));
        let i = choose|i: int| #[trigger] led_at(run, i, term, notes.0[k].1);
        let j = choose|j: int| #[trigger] led_at(run, j, term, id);
        if i <= j {
            lemma_one_leader(run, crew(), i, notes.0[k].1, j, id);
        } else {
            lemma_one_leader(run, crew(), j, id, i, notes.0[k].1);
        }
    } else {
        let leaders = notes.0.insert(k, leader);
        assert forall|i: int| 0 <= i < leaders.len() implies led(run, #[trigger] leaders[i]) by {
            if i < k {
                assert(leaders[i] == notes.0[i]);
            } else if i > k {
                assert(leaders[i] == notes.0[i - 1]);
            }
        }
    }
}

/// A committed entry is the only one that was seen committed at its index.
proof fn lemma_entry_noted(run: Seq<ClusterView>, notes: Notes, entry: EntryView)
    requires
        plain_run(run, crew()),
        happened(run, notes),
        had(run, entry),
    ensures
        entry_noted(notes.1, entry) matches Some(committed) && happened(run, (notes.0, committed)),
{
    let k = entry_slot(notes.1, entry.index, 0);
    lemma_entry_slot(notes.1, entry.index, 0);
    if k < notes.1.len() && notes.1[k].index == entry.index {
        let other = notes.1[k];
        assert(had(run, other));
        let (i, a) = choose|i: int, a: NodeId| #[trigger] had_at(run, i, a, other);
        let (j, b) = choose|j: int, b: NodeId| #[trigger] had_at(run, j, b, entry);
        let len = entry.index.0 as int;
        law_committed_entries_agree(run, crew(), i, a, j, b, len);
        assert(run[i].nodes[a].log.take(len)[len - 1] == run[j].nodes[b].log.take(len)[len - 1]);
    } else {
        let committed = notes.1.insert(k, entry);
        assert forall|i: int| 0 <= i < committed.len() implies had(
            run,
            #[trigger] committed[i],
        ) by {
            if i < k {
                assert(committed[i] == notes.1[i]);
            } else if i > k {
                assert(committed[i] == notes.1[i - 1]);
            }
        }
    }
}

proof fn lemma_entries_noted(run: Seq<ClusterView>, notes: Notes, id: NodeId, i: int)
    requires
        plain_run(run, crew()),
        happened(run, notes),
        run.last().nodes.dom().contains(id),
        0 <= i,
    ensures
        entries_noted(notes.1, run.last().nodes[id], i) matches Ok(committed) && happened(
            run,
            (notes.0, committed),
        ),
    decreases run.last().nodes[id].log.len() - i,
{
    let node = run.last().nodes[id];
    if i < node.log.len() {
        assert(plain_cluster(run[run.len() - 1], crew()));
        let entry = node.log[i];
        assert(entry.index.0 == i + 1);
        if entry.index.0 > node.commit_index.0 {
            lemma_entries_noted(run, notes, id, i + 1);
        } else {
            assert(had_at(run, run.len() - 1, id, entry));
            lemma_entry_noted(run, notes, entry);
            let next = entry_noted(notes.1, entry)->0;
            lemma_entries_noted(run, (notes.0, next), id, i + 1);
        }
    }
}

proof fn lemma_nodes_noted(run: Seq<ClusterView>, notes: Notes, state: ModelView, i: int, d: int)
    requires
        plain_run(run, crew()),
        run.last().nodes == seated(state.nodes),
        sound(state, d),
        happened(run, notes),
        0 <= i <= 3,
    ensures
        nodes_noted(notes, state.nodes, i) matches Ok(next) && happened(run, next),
    decreases 3 - i,
{
    if i < 3 {
        let node = state.nodes[i];
        let id = NodeId((i + 1) as u64);
        lemma_seated(state.nodes, id);
        assert(node.id == id);
        let leader = (node.hard_state.term.0, node.id);
        if node.role is Leader {
            assert(led_at(run, run.len() - 1, leader.0, leader.1));
            lemma_leader_noted(run, notes, leader);
        }
        let leaders = if node.role is Leader {
            leader_noted(notes.0, leader.0, leader.1)->Ok_0
        } else {
            notes.0
        };
        lemma_entries_noted(run, (leaders, notes.1), id, 0);
        let committed = entries_noted(notes.1, node, 0)->Ok_0;
        lemma_nodes_noted(run, (leaders, committed), state, i + 1, d);
    }
}

proof fn lemma_matching(run: Seq<ClusterView>, a: NodeId, b: NodeId, k: int)
    requires
        plain_run(run, crew()),
        run.last().nodes.dom().contains(a),
        run.last().nodes.dom().contains(b),
        0 <= k,
    ensures
        mismatch_from(run.last().nodes[a], run.last().nodes[b], k) is None,
    decreases run.last().nodes[a].log.len() - k,
{
    let x = run.last().nodes[a];
    let y = run.last().nodes[b];
    if k < x.log.len() {
        if k < y.log.len() && y.log[k].term == x.log[k].term {
            let last = run.len() - 1;
            law_logs_match(run, crew(), last, a, last, b, k + 1);
        }
        lemma_matching(run, a, b, k + 1);
    }
}

proof fn lemma_no_mismatch(run: Seq<ClusterView>, state: ModelView, left: int, right: int, d: int)
    requires
        plain_run(run, crew()),
        run.last().nodes == seated(state.nodes),
        sound(state, d),
        0 <= left,
        0 <= right,
    ensures
        mismatch_in(state.nodes, left, right) is None,
    decreases 3 - left, 3 - right,
{
    if left < 3 {
        if right < 3 {
            let a = NodeId((left + 1) as u64);
            let b = NodeId((right + 1) as u64);
            lemma_seated(state.nodes, a);
            lemma_seated(state.nodes, b);
            lemma_matching(run, a, b, 0);
            lemma_no_mismatch(run, state, left, right + 1, d);
        } else {
            lemma_no_mismatch(run, state, left + 1, left + 2, d);
        }
    }
}

/// What the only thing wrong that an exploration can find looks like.
pub open spec fn behind(reason: Seq<char>) -> bool {
    exists|index: LogIndex|
        reason == #[trigger] at_index("leader completeness failed at index ", index)
}

/// A state that was reached is found to be safe, or to have a leader without an
/// entry that is committed.
proof fn lemma_checked(state: ModelView, d: int)
    requires
        reached(state),
        sound(state, d),
    ensures
        match checked(state) {
            Ok(next) => reached(next) && sound(next, d),
            Err(reason) => behind(reason),
        },
{
    let run = choose|run: Seq<ClusterView>| #[trigger] ends_in(run, state);
    let notes = (state.leaders_seen, state.committed);
    lemma_nodes_noted(run, notes, state, 0, d);
    lemma_no_mismatch(run, state, 0, 1, d);
    if let Ok(next) = checked(state) {
        assert(ends_in(run, next));
    }
}

/// Whether every state of an exploration was reached.
pub open spec fn searched(search: SearchView, config: ModelConfig) -> bool {
    searching(search, config) && all_reached(search.states)
}

proof fn lemma_met_reached(
    search: SearchView,
    found: Seq<ModelView>,
    k: int,
    depth: int,
    config: ModelConfig,
)
    requires
        searched(search, config),
        0 <= depth <= config.max_depth,
        depth <= search.states.len(),
        all_sound(found, depth),
        all_reached(found),
        0 <= k <= found.len(),
    ensures
        met(search, found, k, depth, config) matches Some(after) ==> searched(after, config)
            && after.explored == search.explored,
    decreases found.len() - k,
{
    if k < found.len() {
        let counted = SearchView { transitions: bumped(search.transitions), ..search };
        if known(search.states, found[k]) {
            lemma_met_reached(counted, found, k + 1, depth, config);
        } else if search.states.len() < config.max_states {
            let next = SearchView {
                states: search.states.push(found[k]),
                depths: search.depths.push(depth),
                ..counted
            };
            assert(sound(found[k], depth));
            assert(reached(found[k]));
            assert forall|j: int| 0 <= j < next.states.len() implies 0 <= #[trigger] next.depths[j]
                <= config.max_depth && next.depths[j] <= j && sound(next.states[j], next.depths[j]) by {
                if j < search.states.len() {
                    assert(next.depths[j] == search.depths[j]);
                    assert(next.states[j] == search.states[j]);
                }
            }
            assert forall|j: int| 0 <= j < next.states.len() implies reached(
                #[trigger] next.states[j],
            ) by {
                if j < search.states.len() {
                    assert(next.states[j] == search.states[j]);
                }
            }
            lemma_met_reached(next, found, k + 1, depth, config);
        }
    }
}

proof fn lemma_search(search: SearchView, config: ModelConfig)
    requires
        searched(search, config),
        depth_bounded(config),
    ensures
        search_end(search, config) matches Err(ModelErrorView::Invariant { reason, .. })
            ==> behind(reason),
    decreases config.max_states - search.explored,
{
    if search.explored < search.states.len() {
        let at = search.explored;
        let depth = search.depths[at];
        let state = search.states[at];
        assert(sound(state, depth));
        assert(reached(state));
        lemma_checked(state, depth);
        let begun = SearchView {
            explored: at + 1,
            deepest: greater(search.deepest, depth),
            ..search
        };
        if let Ok(noted) = checked(state) {
            if depth < config.max_depth {
                law_steps_stay_sound(noted, config, depth);
                lemma_successors_reached(noted, config, depth);
                let found = successors_of(noted, config);
                assert(searched(begun, config));
                lemma_met_reached(begun, found, 0, depth + 1, config);
            }
        }
        if let Ok(next) = explored_one(search, config) {
            assert(searched(next, config));
            lemma_search(next, config);
        }
    }
}

/// An exploration never finds two leaders of a term, two entries committed at an
/// index, or logs that disagree below an entry they share. The one thing that it
/// can report is a leader without a committed entry of an earlier term.
pub proof fn law_explorations_find_no_conflict(config: ModelConfig)
    requires
        depth_bounded(config),
    ensures
        reported(config) matches Err(ModelErrorView::Invariant { reason, .. }) ==> behind(reason),
{
    let start = search_start();
    lemma_initial();
    lemma_first();
    if config.max_states > 0 {
        assert(searched(start, config)) by {
            assert(start.states[0] == initial_state());
        }
        lemma_search(start, config);
    }
}

} // verus!
