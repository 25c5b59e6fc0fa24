//! The states of three Raft nodes and the messages between them: where one step
//! leads, what makes two states the same, and what makes a state unsafe.
use vstd::multiset::*;
use vstd::prelude::*;
use vstd::string::*;

use crate::ids::{Duration, LogIndex, NodeId, Seed, Term, Time};
use crate::model::ModelConfig;
use crate::model_bounds::{
    all_carried, carried, crew, kept, lemma_carried_longer, lemma_crew, lemma_message_kept,
    lemma_proposal_kept, lemma_timer_kept, step_kept,
};
use crate::node_map::same_indexes;
use crate::node_set::NodeSet;
use crate::prose::{append_number, number_text};
use crate::raft_membership::message_views;
use crate::raft_model::{bumped, NodeView, Step};
use crate::raft_node::{initial_view, sides_view, RaftNode};
use crate::raft_types::{
    copy_entries, effect_views, entry_views, same_entries, same_entry, same_message, same_prefix,
    EffectView, Entry, EntryKind, EntryView, HardState, Message, MessageView, RaftConfig,
    RaftEffect, Role, TimerKind, DEFAULT_LEADER_TRANSFER_TIMEOUT, MAX_ENTRIES_PER_APPEND,
    PIPELINE_WINDOW,
};
use crate::rng::Xoshiro256pp;
use crate::wire::{le64, write_u64};

verus! {

/// A state of the cluster: its nodes in ascending order, the messages on their
/// way, the leader that was seen in each term and the entry that was seen
/// committed at each index, both in ascending order.
pub struct ModelState {
    pub nodes: Vec<RaftNode>,
    pub soup: Vec<Message>,
    pub leaders_seen: Vec<(u64, NodeId)>,
    pub committed: Vec<Entry>,
}

#[verifier::ext_equal]
pub struct ModelView {
    pub nodes: Seq<NodeView>,
    pub soup: Seq<MessageView>,
    pub leaders_seen: Seq<(u64, NodeId)>,
    pub committed: Seq<EntryView>,
}

pub open spec fn node_views(nodes: Seq<RaftNode>) -> Seq<NodeView> {
    nodes.map_values(|node: RaftNode| node@)
}

impl View for ModelState {
    type V = ModelView;

    open spec fn view(&self) -> ModelView {
        ModelView {
            nodes: node_views(self.nodes@),
            soup: message_views(self.soup@),
            leaders_seen: self.leaders_seen@,
            committed: entry_views(self.committed@),
        }
    }
}

/// What is compared of a node.
#[verifier::ext_equal]
pub struct NodePrint {
    pub id: NodeId,
    pub role: Role,
    pub hard_state: HardState,
    pub log: Seq<EntryView>,
    pub commit_index: LogIndex,
    pub applied_index: LogIndex,
    pub next_index: Map<NodeId, LogIndex>,
    pub match_index: Map<NodeId, LogIndex>,
    pub votes: Set<NodeId>,
    pub pre_votes: Set<NodeId>,
    pub heard_quorum: Set<NodeId>,
    pub read_acks: Set<NodeId>,
    pub leader_id: Option<NodeId>,
    pub joint: Option<(Set<NodeId>, Set<NodeId>)>,
    pub read_round: u64,
    pub read_index: Option<LogIndex>,
    pub snapshot_index: LogIndex,
    pub snapshot_term: Term,
    pub election_deadline: Time,
    pub heartbeat_deadline: Time,
    pub rng: Xoshiro256pp,
}

pub open spec fn node_print(node: NodeView) -> NodePrint {
    NodePrint {
        id: node.id,
        role: node.role,
        hard_state: node.hard_state,
        log: node.log,
        commit_index: node.commit_index,
        applied_index: node.applied_index,
        next_index: node.next_index,
        match_index: node.match_index,
        votes: node.votes,
        pre_votes: node.pre_votes,
        heard_quorum: node.heard_quorum,
        read_acks: node.read_acks,
        leader_id: node.leader_id,
        joint: node.roster.joint,
        read_round: node.read_round,
        read_index: node.read_index,
        snapshot_index: node.snapshot_index,
        snapshot_term: node.snapshot_term,
        election_deadline: node.election_deadline,
        heartbeat_deadline: node.heartbeat_deadline,
        rng: node.rng,
    }
}

/// What tells one state from another: the order of messages does not.
#[verifier::ext_equal]
pub struct StatePrint {
    pub nodes: Seq<NodePrint>,
    pub messages: Multiset<MessageView>,
    pub leaders_seen: Seq<(u64, NodeId)>,
    pub committed: Seq<EntryView>,
}

pub open spec fn fingerprint(state: ModelView) -> StatePrint {
    StatePrint {
        nodes: state.nodes.map_values(|node: NodeView| node_print(node)),
        messages: state.soup.to_multiset(),
        leaders_seen: state.leaders_seen,
        committed: state.committed,
    }
}

/// The configuration of the nodes.
pub open spec fn model_raft_config() -> RaftConfig {
    RaftConfig {
        election_min: Duration(100_000_000),
        election_max: Duration(101_000_000),
        heartbeat: Duration(25_000_000),
        max_entries_per_append: MAX_ENTRIES_PER_APPEND,
        pipeline_window: PIPELINE_WINDOW,
        leader_transfer_timeout: Duration(DEFAULT_LEADER_TRANSFER_TIMEOUT),
    }
}

pub open spec fn model_node(id: u64) -> NodeView {
    initial_view(NodeId(id), crew(), Seed(id), model_raft_config())
}

/// The state in which nothing has happened.
pub open spec fn initial_state() -> ModelView {
    ModelView {
        nodes: seq![model_node(1), model_node(2), model_node(3)],
        soup: Seq::empty(),
        leaders_seen: Seq::empty(),
        committed: Seq::empty(),
    }
}

/// The time of every step.
pub const STEP_TIME: u64 = 1_000_000;

/// The messages on their way once some effects were routed: a message that is
/// on its way already, or for which there is no room, is left out.
pub open spec fn routed(
    soup: Seq<MessageView>,
    effects: Seq<EffectView>,
    max_messages: usize,
) -> Seq<MessageView>
    decreases effects.len(),
{
    if effects.len() == 0 {
        soup
    } else {
        let before = routed(soup, effects.drop_last(), max_messages);
        match effects.last() {
            EffectView::Send(message) => if before.len() < max_messages && !before.contains(
                message,
            ) {
                before.push(message)
            } else {
                before
            },
            _ => before,
        }
    }
}

pub open spec fn in_bounds_of(state: ModelView, config: ModelConfig) -> bool {
    &&& state.soup.len() <= config.max_messages
    &&& forall|i: int|
        0 <= i < state.nodes.len() ==> (#[trigger] state.nodes[i]).log.len() <= config.max_log
            && state.nodes[i].hard_state.term.0 <= config.max_term
}

/// The state once a node took a step, where it stays within the bounds.
pub open spec fn stepped(state: ModelView, i: int, step: Step, config: ModelConfig) -> Seq<
    ModelView,
> {
    let next = ModelView {
        nodes: state.nodes.update(i, step.0),
        soup: routed(state.soup, step.1, config.max_messages),
        ..state
    };
    if in_bounds_of(next, config) {
        seq![next]
    } else {
        Seq::empty()
    }
}

/// Where a node can go by itself: its election timer fires, and a leader beats
/// or takes a proposal.
pub open spec fn node_moves(state: ModelView, i: int, config: ModelConfig) -> Seq<ModelView> {
    let node = state.nodes[i];
    let election = if node.hard_state.term.0 <= config.max_term {
        stepped(state, i, node.timer_fired(Time(STEP_TIME), TimerKind::Election), config)
    } else {
        Seq::empty()
    };
    let heartbeat = if node.role is Leader {
        stepped(state, i, node.timer_fired(Time(STEP_TIME), TimerKind::Heartbeat), config)
    } else {
        Seq::empty()
    };
    let proposal = if node.role is Leader && node.log.len() < config.max_log {
        match node.proposed(le64(bumped(node.last_index().0)), EntryKind::App) {
            Ok(step) => stepped(state, i, step, config),
            Err(_) => Seq::empty(),
        }
    } else {
        Seq::empty()
    };
    election + heartbeat + proposal
}

/// The position of a node.
pub open spec fn seat(id: NodeId) -> int {
    id.0 - 1
}

/// What can become of a message: it is lost, delivered, or delivered and kept.
pub open spec fn message_moves(state: ModelView, k: int, config: ModelConfig) -> Seq<ModelView> {
    let message = state.soup[k];
    let without = ModelView { soup: state.soup.remove(k), ..state };
    let step = state.nodes[seat(message.to)].received(message, Time(STEP_TIME));
    seq![without] + stepped(without, seat(message.to), step, config) + if state.soup.len()
        < config.max_messages {
        stepped(state, seat(message.to), step, config)
    } else {
        Seq::empty()
    }
}

pub open spec fn moves_of_nodes(state: ModelView, n: int, config: ModelConfig) -> Seq<ModelView>
    decreases n,
{
    if n <= 0 {
        Seq::empty()
    } else {
        moves_of_nodes(state, n - 1, config) + node_moves(state, n - 1, config)
    }
}

pub open spec fn moves_of_messages(state: ModelView, n: int, config: ModelConfig) -> Seq<ModelView>
    decreases n,
{
    if n <= 0 {
        Seq::empty()
    } else {
        moves_of_messages(state, n - 1, config) + message_moves(state, n - 1, config)
    }
}

/// Every state that one step leads to.
pub open spec fn successors_of(state: ModelView, config: ModelConfig) -> Seq<ModelView> {
    moves_of_nodes(state, state.nodes.len() as int, config) + moves_of_messages(
        state,
        state.soup.len() as int,
        config,
    )
}

/// The first position from `k` on whose term is not below `term`.
pub open spec fn leader_slot(leaders: Seq<(u64, NodeId)>, term: u64, k: int) -> int
    decreases leaders.len() - k,
{
    if k < 0 || k >= leaders.len() || leaders[k].0 >= term {
        k
    } else {
        leader_slot(leaders, term, k + 1)
    }
}

/// The leaders once `id` was seen to lead `term`, or the other leader of it.
pub open spec fn leader_noted(leaders: Seq<(u64, NodeId)>, term: u64, id: NodeId) -> Result<
    Seq<(u64, NodeId)>,
    NodeId,
> {
    let k = leader_slot(leaders, term, 0);
    if k < leaders.len() && leaders[k].0 == term {
        if leaders[k].1 == id {
            Ok(leaders)
        } else {
            Err(leaders[k].1)
        }
    } else {
        Ok(leaders.insert(k, (term, id)))
    }
}

/// The first position from `k` on whose index is not below `index`.
pub open spec fn entry_slot(committed: Seq<EntryView>, index: LogIndex, k: int) -> int
    decreases committed.len() - k,
{
    if k < 0 || k >= committed.len() || committed[k].index.0 >= index.0 {
        k
    } else {
        entry_slot(committed, index, k + 1)
    }
}

/// The committed entries once `entry` was seen committed, or nothing where
/// another one is committed at its index.
pub open spec fn entry_noted(committed: Seq<EntryView>, entry: EntryView) -> Option<
    Seq<EntryView>,
> {
    let k = entry_slot(committed, entry.index, 0);
    if k < committed.len() && committed[k].index == entry.index {
        if committed[k] == entry {
            Some(committed)
        } else {
            None
        }
    } else {
        Some(committed.insert(k, entry))
    }
}

/// The committed entries once those of a node from position `i` on were noted,
/// or the index of the first conflict.
pub open spec fn entries_noted(committed: Seq<EntryView>, node: NodeView, i: int) -> Result<
    Seq<EntryView>,
    LogIndex,
>
    decreases node.log.len() - i,
{
    if i < 0 || i >= node.log.len() {
        Ok(committed)
    } else if node.log[i].index.0 > node.commit_index.0 {
        entries_noted(committed, node, i + 1)
    } else {
        match entry_noted(committed, node.log[i]) {
            None => Err(node.log[i].index),
            Some(next) => entries_noted(next, node, i + 1),
        }
    }
}

/// What was seen of leaders and of committed entries.
pub type Notes = (Seq<(u64, NodeId)>, Seq<EntryView>);

pub open spec fn two_leaders(term: u64, first: NodeId, second: NodeId) -> Seq<char> {
    "election safety: term "@ + number_text(term as nat) + " leaders n"@ + number_text(
        first.0 as nat,
    ) + " and n"@ + number_text(second.0 as nat)
}

pub open spec fn at_index(text: &str, index: LogIndex) -> Seq<char> {
    text@ + number_text(index.0 as nat)
}

/// What was seen once the nodes from position `i` on were noted.
pub open spec fn nodes_noted(notes: Notes, nodes: Seq<NodeView>, i: int) -> Result<
    Notes,
    Seq<char>,
>
    decreases nodes.len() - i,
{
    if i < 0 || i >= nodes.len() {
        Ok(notes)
    } else {
        let node = nodes[i];
        let leaders = if node.role is Leader {
            leader_noted(notes.0, node.hard_state.term.0, node.id)
        } else {
            Ok(notes.0)
        };
        match leaders {
            Err(other) => Err(two_leaders(node.hard_state.term.0, other, node.id)),
            Ok(leaders) => match entries_noted(notes.1, node, 0) {
                Err(index) => Err(
                    at_index("state-machine safety: conflicting committed index ", index),
                ),
                Ok(committed) => nodes_noted((leaders, committed), nodes, i + 1),
            },
        }
    }
}

/// The first entry from position `k` on that two logs have with the same term
/// though they differ up to it.
pub open spec fn mismatch_from(a: NodeView, b: NodeView, k: int) -> Option<LogIndex>
    decreases a.log.len() - k,
{
    if k < 0 || k >= a.log.len() {
        None
    } else if k < b.log.len() && b.log[k].term == a.log[k].term && a.log.take(k + 1)
        != b.log.take(k + 1) {
        Some(a.log[k].index)
    } else {
        mismatch_from(a, b, k + 1)
    }
}

/// The first such entry of two nodes from `left` and `right` on.
pub open spec fn mismatch_in(nodes: Seq<NodeView>, left: int, right: int) -> Option<LogIndex>
    decreases nodes.len() - left, nodes.len() - right,
{
    if left < 0 || left >= nodes.len() {
        None
    } else if right < 0 || right >= nodes.len() {
        mismatch_in(nodes, left + 1, left + 2)
    } else {
        match mismatch_from(nodes[left], nodes[right], 0) {
            Some(index) => Some(index),
            None => mismatch_in(nodes, left, right + 1),
        }
    }
}

/// Whether a log holds an entry at its place.
pub open spec fn in_place(log: Seq<EntryView>, entry: EntryView) -> bool {
    let at = if entry.index.0 == 0 {
        0
    } else {
        entry.index.0 - 1
    };
    at < log.len() && log[at] == entry
}

/// The first committed entry of an earlier term, from `k` on, that a leader
/// lacks.
pub open spec fn lacking_from(leader: NodeView, committed: Seq<EntryView>, k: int) -> Option<
    LogIndex,
>
    decreases committed.len() - k,
{
    if k < 0 || k >= committed.len() {
        None
    } else if committed[k].term.0 < leader.hard_state.term.0 && !in_place(
        leader.log,
        committed[k],
    ) {
        Some(committed[k].index)
    } else {
        lacking_from(leader, committed, k + 1)
    }
}

pub open spec fn lacking_in(nodes: Seq<NodeView>, committed: Seq<EntryView>, i: int) -> Option<
    LogIndex,
>
    decreases nodes.len() - i,
{
    if i < 0 || i >= nodes.len() {
        None
    } else if nodes[i].role is Leader {
        match lacking_from(nodes[i], committed, 0) {
            Some(index) => Some(index),
            None => lacking_in(nodes, committed, i + 1),
        }
    } else {
        lacking_in(nodes, committed, i + 1)
    }
}

/// The state with what was seen in it, or what is wrong with it: two leaders in
/// a term, two entries committed at an index, logs that disagree below an entry
/// they share, or a leader without a committed entry.
pub open spec fn checked(state: ModelView) -> Result<ModelView, Seq<char>> {
    match nodes_noted((state.leaders_seen, state.committed), state.nodes, 0) {
        Err(reason) => Err(reason),
        Ok(notes) => match mismatch_in(state.nodes, 0, 1) {
            Some(index) => Err(at_index("log matching failed at index ", index)),
            None => match lacking_in(state.nodes, notes.1, 0) {
                Some(index) => Err(at_index("leader completeness failed at index ", index)),
                None => Ok(
                    ModelView { leaders_seen: notes.0, committed: notes.1, ..state },
                ),
            },
        },
    }
}

/// Whether a state, `d` steps from the first one, is one that the nodes can
/// work on: their own invariants hold, and terms, logs and messages are within
/// what `d` steps can lead to.
pub open spec fn sound(state: ModelView, d: int) -> bool {
    &&& state.nodes.len() == 3
    &&& forall|i: int|
        0 <= i < 3 ==> (#[trigger] state.nodes[i]).inv() && kept(state.nodes[i], d, d)
            && state.nodes[i].id == NodeId((i + 1) as u64)
    &&& forall|k: int| 0 <= k < state.soup.len() ==> carried(#[trigger] state.soup[k], d, d)
}

proof fn lemma_views(state: &ModelState)
    ensures
        state@.nodes.len() == state.nodes@.len(),
        state@.soup.len() == state.soup@.len(),
        state@.committed.len() == state.committed@.len(),
        forall|i: int|
            0 <= i < state.nodes@.len() ==> #[trigger] state@.nodes[i] == state.nodes@[i]@,
        forall|i: int| 0 <= i < state.soup@.len() ==> #[trigger] state@.soup[i] == state.soup@[i]@,
        forall|i: int|
            0 <= i < state.committed@.len() ==> #[trigger] state@.committed[i]
                == state.committed@[i]@,
{
}

impl Clone for ModelState {
    fn clone(&self) -> (copy: Self)
        ensures
            copy@ == self@,
    {
        let mut nodes: Vec<RaftNode> = Vec::new();
        let mut i: usize = 0;
        while i < self.nodes.len()
            invariant
                i <= self.nodes@.len(),
                nodes@.len() == i,
                forall|k: int| 0 <= k < i ==> #[trigger] nodes@[k]@ == self.nodes@[k]@,
            decreases self.nodes@.len() - i,
        {
            nodes.push(self.nodes[i].clone());
            i += 1;
        }
        assert(node_views(nodes@) =~= node_views(self.nodes@));
        let mut soup: Vec<Message> = Vec::new();
        i = 0;
        while i < self.soup.len()
            invariant
                i <= self.soup@.len(),
                soup@.len() == i,
                forall|k: int| 0 <= k < i ==> #[trigger] soup@[k]@ == self.soup@[k]@,
            decreases self.soup@.len() - i,
        {
            soup.push(self.soup[i].clone());
            i += 1;
        }
        assert(message_views(soup@) =~= message_views(self.soup@));
        let mut leaders_seen: Vec<(u64, NodeId)> = Vec::new();
        i = 0;
        while i < self.leaders_seen.len()
            invariant
                i <= self.leaders_seen@.len(),
                leaders_seen@ == self.leaders_seen@.take(i as int),
            decreases self.leaders_seen@.len() - i,
        {
            leaders_seen.push(self.leaders_seen[i]);
            assert(leaders_seen@ =~= self.leaders_seen@.take(i as int + 1));
            i += 1;
        }
        assert(leaders_seen@ =~= self.leaders_seen@);
        ModelState {
            nodes,
            soup,
            leaders_seen,
            committed: copy_entries(self.committed.as_slice()),
        }
    }
}

fn holds_message(soup: &Vec<Message>, message: &Message) -> (r: bool)
    ensures
        r == message_views(soup@).contains(message@),
{
    let mut i: usize = 0;
    while i < soup.len()
        invariant
            i <= soup@.len(),
            forall|k: int| 0 <= k < i ==> message_views(soup@)[k] != message@,
        decreases soup@.len() - i,
    {
        assert(message_views(soup@)[i as int] == soup@[i as int]@);
        if same_message(&soup[i], message) {
            return true;
        }
        i += 1;
    }
    false
}

/// Routes the messages among some effects.
fn route(state: &mut ModelState, effects: &Vec<RaftEffect>, max_messages: usize)
    ensures
        final(state)@ == (ModelView {
            soup: routed(old(state)@.soup, effect_views(effects@), max_messages),
            ..old(state)@
        }),
{
    let ghost all = effect_views(effects@);
    let ghost before = state@;
    let mut i: usize = 0;
    assert(all.take(0) =~= Seq::<EffectView>::empty());
    while i < effects.len()
        invariant
            i <= effects@.len(),
            all == effect_views(effects@),
            state@ == (ModelView {
                soup: routed(before.soup, all.take(i as int), max_messages),
                ..before
            }),
        decreases effects@.len() - i,
    {
        let ghost here = all.take(i as int + 1);
        assert(here.drop_last() =~= all.take(i as int));
        assert(here.last() == effects@[i as int]@);
        match &effects[i] {
            RaftEffect::Send(message) => {
                if state.soup.len() < max_messages && !holds_message(&state.soup, message) {
                    let ghost soup = state.soup@;
                    let copy = message.clone();
                    state.soup.push(copy);
                    assert(message_views(state.soup@) =~= message_views(soup).push(message@));
                }
            },
            _ => {},
        }
        i += 1;
    }
    assert(all.take(i as int) =~= all);
}

/// Whether a state is within the bounds.
fn in_bounds(state: &ModelState, config: ModelConfig) -> (r: bool)
    ensures
        r == in_bounds_of(state@, config),
{
    proof {
        lemma_views(state);
    }
    if state.soup.len() > config.max_messages {
        return false;
    }
    let mut i: usize = 0;
    while i < state.nodes.len()
        invariant
            i <= state.nodes@.len(),
            state@.nodes.len() == state.nodes@.len(),
            state@.soup.len() == state.soup@.len(),
            state@.soup.len() <= config.max_messages,
            forall|k: int|
                0 <= k < i ==> (#[trigger] state@.nodes[k]).log.len() <= config.max_log
                    && state@.nodes[k].hard_state.term.0 <= config.max_term,
        decreases state.nodes@.len() - i,
    {
        assert(state@.nodes[i as int] == state.nodes@[i as int]@);
        assert(state@.nodes[i as int].log.len() == state.nodes@[i as int].log@.len());
        if state.nodes[i].log.len() > config.max_log || state.nodes[i].hard_state.term.0
            > config.max_term {
            return false;
        }
        i += 1;
    }
    true
}

pub open spec fn state_views(states: Seq<ModelState>) -> Seq<ModelView> {
    states.map_values(|state: ModelState| state@)
}

/// Whether every state can be worked on.
pub open spec fn all_sound(states: Seq<ModelView>, d: int) -> bool {
    forall|k: int| 0 <= k < states.len() ==> sound(#[trigger] states[k], d)
}

proof fn lemma_routed(soup: Seq<MessageView>, effects: Seq<EffectView>, max_messages: usize, d: int)
    requires
        forall|k: int| 0 <= k < soup.len() ==> carried(#[trigger] soup[k], d, d),
        all_carried(effects, d, d),
    ensures
        forall|k: int|
            0 <= k < routed(soup, effects, max_messages).len() ==> carried(
                #[trigger] routed(soup, effects, max_messages)[k],
                d,
                d,
            ),
    decreases effects.len(),
{
    if effects.len() > 0 {
        let head = effects.drop_last();
        assert forall|i: int| 0 <= i < head.len() implies ((
        #[trigger] head[i]) matches EffectView::Send(message) ==> carried(message, d, d)) by {
            assert(head[i] == effects[i]);
        }
        lemma_routed(soup, head, max_messages, d);
        assert(effects.last() == effects[effects.len() - 1]);
        let before = routed(soup, head, max_messages);
        assert forall|k: int| 0 <= k < routed(soup, effects, max_messages).len() implies carried(
            #[trigger] routed(soup, effects, max_messages)[k],
            d,
            d,
        ) by {
            if k < before.len() {
                assert(carried(before[k], d, d));
                assert(routed(soup, effects, max_messages)[k] == before[k]);
            }
        }
    }
}

/// A step of one node leaves the cluster sound.
/// A step that stays within the bounds leads to a state that can be worked on.
pub proof fn lemma_stepped_sound(state: ModelView, i: int, step: Step, config: ModelConfig, d: int)
    requires
        sound(state, d),
        0 <= i < 3,
        step.0.inv(),
        step.0.id == state.nodes[i].id,
        step_kept(step, d + 1, d + 1),
    ensures
        all_sound(stepped(state, i, step, config), d + 1),
{
    let next = ModelView {
        nodes: state.nodes.update(i, step.0),
        soup: routed(state.soup, step.1, config.max_messages),
        ..state
    };
    assert forall|k: int| 0 <= k < state.soup.len() implies carried(
        #[trigger] state.soup[k],
        d + 1,
        d + 1,
    ) by {
        lemma_carried_longer(state.soup[k], d, d, d + 1, d + 1);
    }
    lemma_routed(state.soup, step.1, config.max_messages, d + 1);
    assert forall|k: int| 0 <= k < 3 implies (#[trigger] next.nodes[k]).inv() && kept(
        next.nodes[k],
        d + 1,
        d + 1,
    ) && next.nodes[k].id == NodeId((k + 1) as u64) by {
        if k != i {
            assert(next.nodes[k] == state.nodes[k]);
        } else {
            assert(state.nodes[i].id == NodeId((i + 1) as u64));
        }
    }
    assert(sound(next, d + 1));
}

/// How many steps an exploration may be deep: terms and indexes stay far from
/// the end of their range.
pub const DEPTH_LIMIT: u64 = 0x7fff_ffff_ffff_ff00;

proof fn lemma_joined_sound(a: Seq<ModelView>, b: Seq<ModelView>, d: int)
    requires
        all_sound(a, d),
        all_sound(b, d),
    ensures
        all_sound(a + b, d),
{
    assert forall|k: int| 0 <= k < (a + b).len() implies sound(#[trigger] (a + b)[k], d) by {
        if k < a.len() {
            assert((a + b)[k] == a[k]);
        } else {
            assert((a + b)[k] == b[k - a.len()]);
        }
    }
}

proof fn lemma_node_moves_sound(state: ModelView, i: int, config: ModelConfig, d: int)
    requires
        sound(state, d),
        0 <= d < DEPTH_LIMIT,
        0 <= i < 3,
    ensures
        all_sound(node_moves(state, i, config), d + 1),
{
    let node = state.nodes[i];
    assert(node.inv() && kept(node, d, d));
    let now = Time(STEP_TIME);
    let payload = le64(bumped(node.last_index().0));
    crate::raft_laws::law_time_never_undoes(node, now, TimerKind::Election);
    crate::raft_laws::law_time_never_undoes(node, now, TimerKind::Heartbeat);
    crate::raft_laws::law_proposals_never_undo(node, payload, EntryKind::App);
    lemma_timer_kept(node, now, TimerKind::Election, d, d);
    lemma_timer_kept(node, now, TimerKind::Heartbeat, d, d);
    let none = Seq::<ModelView>::empty();
    assert(all_sound(none, d + 1));
    let election = node.timer_fired(now, TimerKind::Election);
    let heartbeat = node.timer_fired(now, TimerKind::Heartbeat);
    lemma_stepped_sound(state, i, election, config, d);
    lemma_stepped_sound(state, i, heartbeat, config, d);
    if let Ok(step) = node.proposed(payload, EntryKind::App) {
        lemma_proposal_kept(node, payload, d, d);
        lemma_stepped_sound(state, i, step, config, d);
    }
    let a = if node.hard_state.term.0 <= config.max_term {
        stepped(state, i, election, config)
    } else {
        none
    };
    let b = if node.role is Leader {
        stepped(state, i, heartbeat, config)
    } else {
        none
    };
    let c = if node.role is Leader && node.log.len() < config.max_log {
        match node.proposed(payload, EntryKind::App) {
            Ok(step) => stepped(state, i, step, config),
            Err(_) => none,
        }
    } else {
        none
    };
    lemma_joined_sound(a, b, d + 1);
    lemma_joined_sound(a + b, c, d + 1);
}

/// What a message needs of its recipient, and what it leaves behind.
pub proof fn lemma_delivery(state: ModelView, k: int, d: int)
    requires
        sound(state, d),
        0 <= d < DEPTH_LIMIT,
        0 <= k < state.soup.len(),
    ensures
        0 <= seat(state.soup[k].to) < 3,
        state.nodes[seat(state.soup[k].to)].inv(),
        state.nodes[seat(state.soup[k].to)].headroom(),
        state.nodes[seat(state.soup[k].to)].message_fits(state.soup[k]),
        ({
            let node = state.nodes[seat(state.soup[k].to)];
            let step = node.received(state.soup[k], Time(STEP_TIME));
            step.0.inv() && step.0.id == node.id && step_kept(step, d + 1, d + 1)
        }),
{
    lemma_crew();
    let message = state.soup[k];
    assert(carried(message, d, d));
    assert(crew().contains(message.to));
    let node = state.nodes[seat(message.to)];
    assert(node.inv() && kept(node, d, d));
    crate::raft_laws::law_messages_never_undo(node, message, Time(STEP_TIME));
    lemma_message_kept(node, message, Time(STEP_TIME), d, d);
}

/// So does the loss of a message.
pub proof fn lemma_lost_sound(state: ModelView, k: int, d: int)
    requires
        sound(state, d),
        0 <= k < state.soup.len(),
    ensures
        sound(ModelView { soup: state.soup.remove(k), ..state }, d),
        sound(ModelView { soup: state.soup.remove(k), ..state }, d + 1),
{
    let without = ModelView { soup: state.soup.remove(k), ..state };
    assert forall|j: int| 0 <= j < without.soup.len() implies carried(
        #[trigger] without.soup[j],
        d,
        d,
    ) && carried(without.soup[j], d + 1, d + 1) by {
        let from = if j < k {
            j
        } else {
            j + 1
        };
        assert(without.soup[j] == state.soup[from]);
        lemma_carried_longer(state.soup[from], d, d, d + 1, d + 1);
    }
    assert forall|i: int| 0 <= i < 3 implies (#[trigger] without.nodes[i]).inv() && kept(
        without.nodes[i],
        d + 1,
        d + 1,
    ) && without.nodes[i].id == NodeId((i + 1) as u64) by {
        assert(kept(state.nodes[i], d, d));
    }
}

proof fn lemma_message_moves_sound(state: ModelView, k: int, config: ModelConfig, d: int)
    requires
        sound(state, d),
        0 <= d < DEPTH_LIMIT,
        0 <= k < state.soup.len(),
    ensures
        all_sound(message_moves(state, k, config), d + 1),
{
    let message = state.soup[k];
    let without = ModelView { soup: state.soup.remove(k), ..state };
    let at = seat(message.to);
    lemma_delivery(state, k, d);
    lemma_lost_sound(state, k, d);
    let step = state.nodes[at].received(message, Time(STEP_TIME));
    lemma_stepped_sound(without, at, step, config, d);
    lemma_stepped_sound(state, at, step, config, d);
    let lost = seq![without];
    assert(all_sound(lost, d + 1));
    let none = Seq::<ModelView>::empty();
    lemma_joined_sound(lost, stepped(without, at, step, config), d + 1);
    lemma_joined_sound(
        lost + stepped(without, at, step, config),
        stepped(state, at, step, config),
        d + 1,
    );
    lemma_joined_sound(lost + stepped(without, at, step, config), none, d + 1);
}

proof fn lemma_moves_sound(state: ModelView, n: int, m: int, config: ModelConfig, d: int)
    requires
        sound(state, d),
        0 <= d < DEPTH_LIMIT,
        0 <= n <= 3,
        0 <= m <= state.soup.len(),
    ensures
        all_sound(moves_of_nodes(state, n, config), d + 1),
        all_sound(moves_of_messages(state, m, config), d + 1),
    decreases n + m,
{
    if n > 0 {
        lemma_moves_sound(state, n - 1, m, config, d);
        lemma_node_moves_sound(state, n - 1, config, d);
        lemma_joined_sound(
            moves_of_nodes(state, n - 1, config),
            node_moves(state, n - 1, config),
            d + 1,
        );
    }
    if m > 0 {
        lemma_moves_sound(state, n, m - 1, config, d);
        lemma_message_moves_sound(state, m - 1, config, d);
        lemma_joined_sound(
            moves_of_messages(state, m - 1, config),
            message_moves(state, m - 1, config),
            d + 1,
        );
    }
}

/// Whatever step is taken, every node keeps its own invariants, no message
/// leaves the cluster, and terms and logs grow by at most one.
pub proof fn law_steps_stay_sound(state: ModelView, config: ModelConfig, d: int)
    requires
        sound(state, d),
        0 <= d < DEPTH_LIMIT,
    ensures
        all_sound(successors_of(state, config), d + 1),
{
    lemma_moves_sound(state, 3, state.soup.len() as int, config, d);
    lemma_joined_sound(
        moves_of_nodes(state, 3, config),
        moves_of_messages(state, state.soup.len() as int, config),
        d + 1,
    );
}

/// Routes what a step asked for and keeps the state where it is within the
/// bounds.
fn settle(
    output: &mut Vec<ModelState>,
    state: ModelState,
    effects: Vec<RaftEffect>,
    config: ModelConfig,
)
    ensures
        ({
            let next = ModelView {
                soup: routed(state@.soup, effect_views(effects@), config.max_messages),
                ..state@
            };
            state_views(final(output)@) == state_views(old(output)@) + if in_bounds_of(
                next,
                config,
            ) {
                seq![next]
            } else {
                Seq::empty()
            }
        }),
{
    let ghost before = state_views(output@);
    let mut next = state;
    route(&mut next, &effects, config.max_messages);
    let ghost shown = next@;
    if in_bounds(&next, config) {
        output.push(next);
        assert(state_views(output@) =~= before + seq![shown]);
    } else {
        assert(before + Seq::<ModelView>::empty() =~= before);
    }
}

/// Puts a node that took a step back at its place.
fn reseat(state: &mut ModelState, i: usize, node: RaftNode)
    requires
        i < old(state)@.nodes.len(),
    ensures
        final(state)@ == (ModelView {
            nodes: old(state)@.nodes.update(i as int, node@),
            ..old(state)@
        }),
{
    let ghost before = state.nodes@;
    assert(node_views(before).len() == before.len());
    state.nodes.set(i, node);
    assert(node_views(state.nodes@) =~= node_views(before).update(i as int, node@));
}

/// Where a node can go by itself.
fn move_node(output: &mut Vec<ModelState>, state: &ModelState, i: usize, config: ModelConfig)
    requires
        i < state.nodes@.len(),
        state.nodes@[i as int]@.inv(),
        state.nodes@[i as int]@.headroom(),
    ensures
        state_views(final(output)@) == state_views(old(output)@) + node_moves(
            state@,
            i as int,
            config,
        ),
{
    let now = Time(STEP_TIME);
    let ghost start = state_views(output@);
    let ghost node = state@.nodes[i as int];
    assert(state@.nodes.len() == state.nodes@.len());
    assert(node == state.nodes@[i as int]@);
    assert(node.log.len() == state.nodes@[i as int].log@.len());
    let ghost none = Seq::<ModelView>::empty();
    let ghost a = if node.hard_state.term.0 <= config.max_term {
        stepped(state@, i as int, node.timer_fired(now, TimerKind::Election), config)
    } else {
        none
    };
    let ghost b = if node.role is Leader {
        stepped(state@, i as int, node.timer_fired(now, TimerKind::Heartbeat), config)
    } else {
        none
    };
    if state.nodes[i].hard_state.term.0 <= config.max_term {
        let mut next = state.clone();
        let mut moved = state.nodes[i].clone();
        let effects = moved.on_timer(now, TimerKind::Election);
        reseat(&mut next, i, moved);
        settle(output, next, effects, config);
    }
    assert(state_views(output@) =~= start + a);
    if state.nodes[i].role == Role::Leader {
        let mut next = state.clone();
        let mut moved = state.nodes[i].clone();
        let effects = moved.on_timer(now, TimerKind::Heartbeat);
        reseat(&mut next, i, moved);
        settle(output, next, effects, config);
        assert(state_views(output@) =~= start + a + b);
        if state.nodes[i].log.len() < config.max_log {
            let last: u64 = state.nodes[i].last_index().0;
            let mut payload: Vec<u8> = Vec::new();
            write_u64(
                if last < u64::MAX {
                    last + 1
                } else {
                    u64::MAX
                },
                &mut payload,
            );
            assert(payload@ =~= le64(bumped(node.last_index().0)));
            let mut moved = state.nodes[i].clone();
            match moved.propose(payload) {
                Ok(effects) => {
                    let mut next = state.clone();
                    reseat(&mut next, i, moved);
                    settle(output, next, effects, config);
                },
                Err(_) => {},
            }
        }
    }
    assert(state_views(output@) =~= start + node_moves(state@, i as int, config));
}

/// What can become of a message.
fn move_message(
    output: &mut Vec<ModelState>,
    state: &ModelState,
    k: usize,
    config: ModelConfig,
    Ghost(d): Ghost<int>,
)
    requires
        sound(state@, d),
        0 <= d < DEPTH_LIMIT,
        k < state.soup@.len(),
    ensures
        state_views(final(output)@) == state_views(old(output)@) + message_moves(
            state@,
            k as int,
            config,
        ),
{
    let now = Time(STEP_TIME);
    let ghost start = state_views(output@);
    proof {
        lemma_views(state);
        lemma_delivery(state@, k as int, d);
    }
    let ghost message = state@.soup[k as int];
    let ghost without = ModelView { soup: state@.soup.remove(k as int), ..state@ };
    let at: usize = (state.soup[k].to.0 - 1) as usize;
    assert(at == seat(message.to));
    let mut dropped = state.clone();
    assert(dropped@.soup.len() == dropped.soup@.len());
    let ghost soup = dropped.soup@;
    let lost = dropped.soup.remove(k);
    assert(message_views(dropped.soup@) =~= message_views(soup).remove(k as int));
    assert(message_views(soup)[k as int] == soup[k as int]@);
    assert(dropped@ =~= without);
    assert(lost@ == message);
    let mut delivered = dropped.clone();
    output.push(dropped);
    assert(state_views(output@) =~= start + seq![without]);
    let mut moved = state.nodes[at].clone();
    let effects = moved.on_message_at(lost, now);
    reseat(&mut delivered, at, moved);
    settle(output, delivered, effects, config);
    let ghost step = state@.nodes[seat(message.to)].received(message, now);
    assert(state_views(output@) =~= start + seq![without] + stepped(
        without,
        seat(message.to),
        step,
        config,
    ));
    if state.soup.len() < config.max_messages {
        let mut duplicated = state.clone();
        let again = state.soup[k].clone();
        let mut moved = state.nodes[at].clone();
        let effects = moved.on_message_at(again, now);
        reseat(&mut duplicated, at, moved);
        settle(output, duplicated, effects, config);
    }
    assert(state_views(output@) =~= start + message_moves(state@, k as int, config));
}

/// Every state that one step leads to.
pub(crate) fn successors(state: &ModelState, config: ModelConfig, Ghost(d): Ghost<int>) -> (output: Vec<
    ModelState,
>)
    requires
        sound(state@, d),
        0 <= d < DEPTH_LIMIT,
    ensures
        state_views(output@) == successors_of(state@, config),
        all_sound(state_views(output@), d + 1),
{
    proof {
        lemma_views(state);
        law_steps_stay_sound(state@, config, d);
    }
    let mut output: Vec<ModelState> = Vec::new();
    assert(state_views(output@) =~= Seq::<ModelView>::empty());
    let mut i: usize = 0;
    while i < state.nodes.len()
        invariant
            i <= state.nodes@.len(),
            state@.nodes.len() == state.nodes@.len(),
            sound(state@, d),
            0 <= d < DEPTH_LIMIT,
            state_views(output@) == moves_of_nodes(state@, i as int, config),
        decreases state.nodes@.len() - i,
    {
        assert(state@.nodes[i as int] == state.nodes@[i as int]@);
        assert(state@.nodes[i as int].inv() && kept(state@.nodes[i as int], d, d));
        move_node(&mut output, state, i, config);
        i += 1;
    }
    let ghost by_nodes = state_views(output@);
    let mut k: usize = 0;
    assert(by_nodes =~= by_nodes + moves_of_messages(state@, 0, config));
    while k < state.soup.len()
        invariant
            k <= state.soup@.len(),
            state@.soup.len() == state.soup@.len(),
            sound(state@, d),
            0 <= d < DEPTH_LIMIT,
            state_views(output@) == by_nodes + moves_of_messages(state@, k as int, config),
        decreases state.soup@.len() - k,
    {
        move_message(&mut output, state, k, config, Ghost(d));
        assert(by_nodes + moves_of_messages(state@, k as int, config) + message_moves(
            state@,
            k as int,
            config,
        ) =~= by_nodes + moves_of_messages(state@, k as int + 1, config));
        k += 1;
    }
    output
}

/// Notes that a node leads a term, or finds the other leader of it.
fn note_leader(leaders: &mut Vec<(u64, NodeId)>, term: u64, id: NodeId) -> (other: Option<NodeId>)
    ensures
        match leader_noted(old(leaders)@, term, id) {
            Ok(noted) => other is None && final(leaders)@ == noted,
            Err(found) => other == Some(found) && final(leaders)@ == old(leaders)@,
        },
{
    let mut k: usize = 0;
    while k < leaders.len() && leaders[k].0 < term
        invariant
            k <= leaders@.len(),
            leaders@ == old(leaders)@,
            leader_slot(leaders@, term, 0) == leader_slot(leaders@, term, k as int),
        decreases leaders@.len() - k,
    {
        k += 1;
    }
    if k < leaders.len() && leaders[k].0 == term {
        if leaders[k].1.0 == id.0 {
            None
        } else {
            Some(leaders[k].1)
        }
    } else {
        leaders.insert(k, (term, id));
        None
    }
}

/// Notes that an entry is committed, unless another one is at its index.
fn note_entry(committed: &mut Vec<Entry>, entry: &Entry) -> (agrees: bool)
    ensures
        match entry_noted(entry_views(old(committed)@), entry@) {
            Some(noted) => agrees && entry_views(final(committed)@) == noted,
            None => !agrees && final(committed)@ == old(committed)@,
        },
{
    let ghost before = committed@;
    let ghost shown = entry_views(before);
    let mut k: usize = 0;
    while k < committed.len() && committed[k].index.0 < entry.index.0
        invariant
            k <= committed@.len(),
            committed@ == before,
            shown == entry_views(before),
            entry_slot(shown, entry.index, 0) == entry_slot(shown, entry.index, k as int),
        decreases committed@.len() - k,
    {
        assert(shown[k as int] == before[k as int]@);
        k += 1;
    }
    proof {
        if k < before.len() {
            assert(shown[k as int] == before[k as int]@);
        }
    }
    if k < committed.len() && committed[k].index == entry.index {
        same_entry(&committed[k], entry)
    } else {
        committed.insert(k, entry.clone());
        assert(entry_views(committed@) =~= shown.insert(k as int, entry@));
        true
    }
}

/// Notes the committed entries of a node, up to the first conflict.
fn note_entries(committed: &mut Vec<Entry>, node: &RaftNode) -> (conflict: Option<LogIndex>)
    ensures
        match entries_noted(entry_views(old(committed)@), node@, 0) {
            Ok(noted) => conflict is None && entry_views(final(committed)@) == noted,
            Err(index) => conflict == Some(index),
        },
{
    let mut i: usize = 0;
    let ghost shown = node@;
    let ghost start = entry_views(committed@);
    while i < node.log.len()
        invariant
            i <= node.log@.len(),
            shown == node@,
            start == entry_views(old(committed)@),
            shown.log.len() == node.log@.len(),
            entries_noted(start, shown, 0) == entries_noted(
                entry_views(committed@),
                shown,
                i as int,
            ),
        decreases node.log@.len() - i,
    {
        assert(shown.log[i as int] == node.log@[i as int]@);
        if node.log[i].index.0 <= node.commit_index.0 {
            if !note_entry(committed, &node.log[i]) {
                return Some(node.log[i].index);
            }
        }
        i += 1;
    }
    None
}

/// The first entry that two logs share by term though they differ up to it.
fn find_mismatch(a: &RaftNode, b: &RaftNode) -> (found: Option<LogIndex>)
    ensures
        found == mismatch_from(a@, b@, 0),
{
    let ghost left = a@;
    let ghost right = b@;
    let mut k: usize = 0;
    while k < a.log.len()
        invariant
            k <= a.log@.len(),
            left == a@,
            right == b@,
            left.log.len() == a.log@.len(),
            right.log.len() == b.log@.len(),
            mismatch_from(left, right, 0) == mismatch_from(left, right, k as int),
        decreases a.log@.len() - k,
    {
        assert(left.log[k as int] == a.log@[k as int]@);
        if k < b.log.len() {
            assert(right.log[k as int] == b.log@[k as int]@);
            if b.log[k].term == a.log[k].term && !same_prefix(
                a.log.as_slice(),
                b.log.as_slice(),
                k + 1,
            ) {
                return Some(a.log[k].index);
            }
        }
        k += 1;
    }
    None
}

/// The first committed entry of an earlier term that a leader lacks.
fn find_lacking(leader: &RaftNode, committed: &Vec<Entry>) -> (found: Option<LogIndex>)
    ensures
        found == lacking_from(leader@, entry_views(committed@), 0),
{
    let ghost node = leader@;
    let ghost shown = entry_views(committed@);
    let mut k: usize = 0;
    while k < committed.len()
        invariant
            k <= committed@.len(),
            node == leader@,
            node.log.len() == leader.log@.len(),
            shown == entry_views(committed@),
            lacking_from(node, shown, 0) == lacking_from(node, shown, k as int),
        decreases committed@.len() - k,
    {
        assert(shown[k as int] == committed@[k as int]@);
        let index: u64 = committed[k].index.0;
        let at: u64 = if index == 0 {
            0
        } else {
            index - 1
        };
        let held = at < leader.log.len() as u64 && {
            assert(node.log[at as int] == leader.log@[at as int]@);
            same_entry(&leader.log[at as usize], &committed[k])
        };
        if committed[k].term.0 < leader.hard_state.term.0 && !held {
            return Some(committed[k].index);
        }
        k += 1;
    }
    None
}

fn say_index(text: &str, index: LogIndex) -> (said: String)
    ensures
        said@ == at_index(text, index),
{
    let mut said = text.to_owned();
    append_number(&mut said, index.0);
    said
}

fn say_leaders(term: u64, first: NodeId, second: NodeId) -> (said: String)
    ensures
        said@ == two_leaders(term, first, second),
{
    let mut said = "election safety: term ".to_owned();
    append_number(&mut said, term);
    said.append(" leaders n");
    append_number(&mut said, first.0);
    said.append(" and n");
    append_number(&mut said, second.0);
    said
}

/// Notes what is seen in a state and checks that the cluster is safe in it.
pub fn check_invariants(state: &mut ModelState) -> (result: Result<(), String>)
    ensures
        match result {
            Ok(_) => checked(old(state)@) == Ok::<ModelView, Seq<char>>(final(state)@),
            Err(reason) => checked(old(state)@) == Err::<ModelView, Seq<char>>(reason@),
        },
{
    let ghost before = state@;
    let count: usize = state.nodes.len();
    let mut i: usize = 0;
    while i < count
        invariant
            i <= count == state.nodes@.len(),
            before == old(state)@,
            state@.nodes == before.nodes,
            state@.soup == before.soup,
            before.nodes.len() == count,
            nodes_noted((before.leaders_seen, before.committed), before.nodes, 0) == nodes_noted(
                (state@.leaders_seen, state@.committed),
                before.nodes,
                i as int,
            ),
        decreases count - i,
    {
        assert(before.nodes[i as int] == state.nodes@[i as int]@);
        let id = state.nodes[i].id;
        let term: u64 = state.nodes[i].hard_state.term.0;
        if state.nodes[i].role == Role::Leader {
            if let Some(other) = note_leader(&mut state.leaders_seen, term, id) {
                return Err(say_leaders(term, other, id));
            }
        }
        let node = state.nodes[i].clone();
        if let Some(index) = note_entries(&mut state.committed, &node) {
            return Err(say_index("state-machine safety: conflicting committed index ", index));
        }
        i += 1;
    }
    let mut left: usize = 0;
    while left < count
        invariant
            left <= count == state.nodes@.len(),
            before == old(state)@,
            state@.nodes == before.nodes,
            before.nodes.len() == count,
            mismatch_in(before.nodes, 0, 1) == mismatch_in(
                before.nodes,
                left as int,
                left as int + 1,
            ),
            nodes_noted((before.leaders_seen, before.committed), before.nodes, 0) is Ok,
        decreases count - left,
    {
        let mut right: usize = left + 1;
        while right < count
            invariant
                left < right <= count == state.nodes@.len(),
                before == old(state)@,
            state@.nodes == before.nodes,
                before.nodes.len() == count,
                mismatch_in(before.nodes, 0, 1) == mismatch_in(
                    before.nodes,
                    left as int,
                    right as int,
                ),
                nodes_noted((before.leaders_seen, before.committed), before.nodes, 0) is Ok,
            decreases count - right,
        {
            assert(before.nodes[left as int] == state.nodes@[left as int]@);
            assert(before.nodes[right as int] == state.nodes@[right as int]@);
            if let Some(index) = find_mismatch(&state.nodes[left], &state.nodes[right]) {
                return Err(say_index("log matching failed at index ", index));
            }
            right += 1;
        }
        left += 1;
    }
    let mut i: usize = 0;
    while i < count
        invariant
            i <= count == state.nodes@.len(),
            before == old(state)@,
            state@.nodes == before.nodes,
            state@.soup == before.soup,
            before.nodes.len() == count,
            nodes_noted((before.leaders_seen, before.committed), before.nodes, 0) == Ok::<
                Notes,
                Seq<char>,
            >((state@.leaders_seen, state@.committed)),
            mismatch_in(before.nodes, 0, 1) is None,
            lacking_in(before.nodes, state@.committed, 0) == lacking_in(
                before.nodes,
                state@.committed,
                i as int,
            ),
        decreases count - i,
    {
        assert(before.nodes[i as int] == state.nodes@[i as int]@);
        if state.nodes[i].role == Role::Leader {
            if let Some(index) = find_lacking(&state.nodes[i], &state.committed) {
                return Err(say_index("leader completeness failed at index ", index));
            }
        }
        i += 1;
    }
    assert(state@ =~= (ModelView {
        leaders_seen: state@.leaders_seen,
        committed: state@.committed,
        ..before
    }));
    Ok(())
}

/// How many times a message is on its way.
fn count_message(soup: &Vec<Message>, message: &Message) -> (n: usize)
    ensures
        n == message_views(soup@).to_multiset().count(message@),
{
    let ghost shown = message_views(soup@);
    let mut n: usize = 0;
    let mut i: usize = 0;
    proof {
        shown.take(0).to_multiset_ensures();
        assert(!shown.take(0).contains(message@));
    }
    while i < soup.len()
        invariant
            i <= soup@.len(),
            n <= i,
            shown == message_views(soup@),
            n == shown.take(i as int).to_multiset().count(message@),
        decreases soup@.len() - i,
    {
        proof {
            assert(shown[i as int] == soup@[i as int]@);
            assert(shown.take(i as int + 1) =~= shown.take(i as int).push(shown[i as int]));
            shown.take(i as int).to_multiset_ensures();
        }
        if same_message(&soup[i], message) {
            n += 1;
        }
        i += 1;
    }
    assert(shown.take(i as int) =~= shown);
    n
}

/// Two collections of the same size, one of which has each of its members as
/// often as the other, are the same.
proof fn lemma_same_soup(a: Seq<MessageView>, b: Seq<MessageView>)
    requires
        a.len() == b.len(),
        forall|i: int|
            0 <= i < a.len() ==> a.to_multiset().count(#[trigger] a[i]) == b.to_multiset().count(
                a[i],
            ),
    ensures
        a.to_multiset() == b.to_multiset(),
{
    broadcast use group_multiset_axioms;

    let left = a.to_multiset();
    let right = b.to_multiset();
    a.to_multiset_ensures();
    b.to_multiset_ensures();
    assert forall|m: MessageView| left.count(m) <= right.count(m) by {
        if left.count(m) > 0 {
            assert(a.contains(m));
        }
    }
    assert(left.subset_of(right));
    let rest = right.sub(left);
    assert(rest.len() == 0);
    lemma_multiset_empty_len(rest);
    assert forall|m: MessageView| left.count(m) == right.count(m) by {
        assert(rest.count(m) == 0);
    }
    assert(left =~= right);
}

/// Whether the same messages are on their way.
fn same_soup(a: &Vec<Message>, b: &Vec<Message>) -> (r: bool)
    ensures
        r == (message_views(a@).to_multiset() == message_views(b@).to_multiset()),
{
    let ghost left = message_views(a@);
    let ghost right = message_views(b@);
    proof {
        left.to_multiset_ensures();
        right.to_multiset_ensures();
    }
    if a.len() != b.len() {
        return false;
    }
    let mut i: usize = 0;
    while i < a.len()
        invariant
            i <= a@.len(),
            left == message_views(a@),
            right == message_views(b@),
            forall|k: int|
                0 <= k < i ==> left.to_multiset().count(#[trigger] left[k])
                    == right.to_multiset().count(left[k]),
        decreases a@.len() - i,
    {
        assert(left[i as int] == a@[i as int]@);
        if count_message(a, &a[i]) != count_message(b, &a[i]) {
            return false;
        }
        i += 1;
    }
    proof {
        lemma_same_soup(left, right);
    }
    true
}

fn same_sides(a: &Option<(NodeSet, NodeSet)>, b: &Option<(NodeSet, NodeSet)>) -> (r: bool)
    ensures
        r == (sides_view(*a) == sides_view(*b)),
{
    match (a, b) {
        (Some(p), Some(q)) => p.0.same(&q.0) && p.1.same(&q.1),
        (None, None) => true,
        _ => false,
    }
}

fn same_node(a: &RaftNode, b: &RaftNode) -> (r: bool)
    ensures
        r == (node_print(a@) == node_print(b@)),
{
    let leader = match (a.leader_id, b.leader_id) {
        (Some(p), Some(q)) => p.0 == q.0,
        (None, None) => true,
        _ => false,
    };
    let vote = match (a.hard_state.voted_for, b.hard_state.voted_for) {
        (Some(p), Some(q)) => p.0 == q.0,
        (None, None) => true,
        _ => false,
    };
    let read = match (a.read_index, b.read_index) {
        (Some(p), Some(q)) => p.0 == q.0,
        (None, None) => true,
        _ => false,
    };
    a.rng == b.rng && a.id == b.id && a.role == b.role && a.hard_state.term == b.hard_state.term
        && leader && vote && read && a.commit_index == b.commit_index && a.applied_index
        == b.applied_index && a.read_round == b.read_round && a.snapshot_index == b.snapshot_index
        && a.snapshot_term == b.snapshot_term && a.election_deadline == b.election_deadline
        && a.heartbeat_deadline == b.heartbeat_deadline && same_entries(
        a.log.as_slice(),
        b.log.as_slice(),
    ) && same_indexes(&a.next_index, &b.next_index) && same_indexes(
        &a.match_index,
        &b.match_index,
    ) && a.votes.same(&b.votes) && a.pre_votes.same(&b.pre_votes) && a.heard_quorum.same(
        &b.heard_quorum,
    ) && a.read_acks.same(&b.read_acks) && same_sides(&a.joint, &b.joint)
}

/// Whether two states are told apart by nothing.
pub(crate) fn same_state(a: &ModelState, b: &ModelState) -> (r: bool)
    ensures
        r == (fingerprint(a@) == fingerprint(b@)),
{
    let ghost left = fingerprint(a@);
    let ghost right = fingerprint(b@);
    assert(left.nodes.len() == a.nodes@.len() && right.nodes.len() == b.nodes@.len());
    if a.nodes.len() != b.nodes.len() {
        return false;
    }
    let mut i: usize = 0;
    while i < a.nodes.len()
        invariant
            i <= a.nodes@.len() == b.nodes@.len(),
            left == fingerprint(a@),
            right == fingerprint(b@),
            left.nodes.len() == a.nodes@.len(),
            right.nodes.len() == b.nodes@.len(),
            forall|k: int| 0 <= k < i ==> #[trigger] left.nodes[k] == right.nodes[k],
        decreases a.nodes@.len() - i,
    {
        assert(left.nodes[i as int] == node_print(a.nodes@[i as int]@));
        assert(right.nodes[i as int] == node_print(b.nodes@[i as int]@));
        if !same_node(&a.nodes[i], &b.nodes[i]) {
            return false;
        }
        i += 1;
    }
    assert(left.nodes =~= right.nodes);
    same_soup(&a.soup, &b.soup) && same_leaders(&a.leaders_seen, &b.leaders_seen) && same_entries(
        a.committed.as_slice(),
        b.committed.as_slice(),
    )
}

fn same_leaders(a: &Vec<(u64, NodeId)>, b: &Vec<(u64, NodeId)>) -> (r: bool)
    ensures
        r == (a@ == b@),
{
    if a.len() != b.len() {
        return false;
    }
    let mut i: usize = 0;
    while i < a.len()
        invariant
            i <= a@.len() == b@.len(),
            forall|k: int| 0 <= k < i ==> #[trigger] a@[k] == b@[k],
        decreases a@.len() - i,
    {
        if a[i].0 != b[i].0 || a[i].1.0 != b[i].1.0 {
            return false;
        }
        i += 1;
    }
    assert(a@ =~= b@);
    true
}

} // verus!
