//! A bounded exhaustive exploration of three Raft nodes: every timer, proposal,
//! delivery, duplication and loss that can happen within some bounds, with the
//! safety of the cluster checked in every state.
use vstd::prelude::*;
use vstd::string::*;

use crate::ids::{Duration, NodeId, Seed};
use crate::model_bounds::{kept, lemma_crew};
use crate::model_steps::{
    all_sound, check_invariants, checked, fingerprint, initial_state, model_node, model_raft_config,
    same_state, sound, state_views, successors, successors_of, ModelState, ModelView, DEPTH_LIMIT,
};
use crate::node_set::NodeSet;
use crate::prose::{append_number, number_text};
use crate::raft_model::bumped;
use crate::raft_node::RaftNode;
use crate::raft_types::RaftConfig;

verus! {

/// The bounds of an exploration.
#[derive(Clone, Copy, Debug, Eq, PartialEq, Structural)]
pub struct ModelConfig {
    pub max_log: usize,
    pub max_term: u64,
    pub max_messages: usize,
    pub max_depth: usize,
    pub max_states: usize,
}

impl Default for ModelConfig {
    fn default() -> (config: Self)
        ensures
            config == (ModelConfig {
                max_log: 4,
                max_term: 3,
                max_messages: 8,
                max_depth: 16,
                max_states: 2_000_000,
            }),
    {
        ModelConfig {
            max_log: 4,
            max_term: 3,
            max_messages: 8,
            max_depth: 16,
            max_states: 2_000_000,
        }
    }
}

/// What an exploration that found nothing wrong went through.
#[derive(Clone, Copy, Debug, Eq, PartialEq, Structural)]
pub struct ModelReport {
    pub explored_states: usize,
    pub explored_transitions: u64,
    pub max_frontier: usize,
    pub max_depth: usize,
}

/// Why an exploration ended early.
#[derive(Clone, Debug, Eq, PartialEq)]
pub enum ModelError {
    InvalidConfig,
    StateLimit { explored: usize, limit: usize },
    Invariant { state: usize, reason: String },
}

pub enum ModelErrorView {
    InvalidConfig,
    StateLimit { explored: usize, limit: usize },
    Invariant { state: usize, reason: Seq<char> },
}

impl View for ModelError {
    type V = ModelErrorView;

    open spec fn view(&self) -> ModelErrorView {
        match *self {
            ModelError::InvalidConfig => ModelErrorView::InvalidConfig,
            ModelError::StateLimit { explored, limit } => ModelErrorView::StateLimit {
                explored,
                limit,
            },
            ModelError::Invariant { state, reason } => ModelErrorView::Invariant {
                state,
                reason: reason@,
            },
        }
    }
}

impl ModelErrorView {
    pub open spec fn shown(self) -> Seq<char> {
        match self {
            ModelErrorView::InvalidConfig => "invalid model-check bounds"@,
            ModelErrorView::StateLimit { explored, limit } => "model state limit "@ + number_text(
                limit as nat,
            ) + " reached after "@ + number_text(explored as nat) + " states"@,
            ModelErrorView::Invariant { state, reason } => "model invariant failed at state "@
                + number_text(state as nat) + ": "@ + reason,
        }
    }
}

impl ModelError {
    /// The message shown to an operator.
    pub fn message(&self) -> (text: String)
        ensures
            text@ == self@.shown(),
    {
        match self {
            ModelError::InvalidConfig => "invalid model-check bounds".to_owned(),
            ModelError::StateLimit { explored, limit } => {
                let mut text = "model state limit ".to_owned();
                append_number(&mut text, *limit as u64);
                text.append(" reached after ");
                append_number(&mut text, *explored as u64);
                text.append(" states");
                text
            },
            ModelError::Invariant { state, reason } => {
                let mut text = "model invariant failed at state ".to_owned();
                append_number(&mut text, *state as u64);
                text.append(": ");
                text.append(reason.as_str());
                text
            },
        }
    }
}

/// How far an exploration has come: the states that were found, in the order in
/// which they were, how many steps each is from the first, and how many of them
/// were explored.
#[verifier::ext_equal]
pub struct SearchView {
    pub states: Seq<ModelView>,
    pub depths: Seq<int>,
    pub explored: int,
    pub transitions: u64,
    pub frontier: int,
    pub deepest: int,
}

/// Whether a state was found before.
pub open spec fn known(states: Seq<ModelView>, state: ModelView) -> bool {
    exists|j: int|
        0 <= j < states.len() && fingerprint(#[trigger] states[j]) == fingerprint(state)
}

/// The exploration once the states from `k` on were met at a depth, or nothing
/// where there are too many.
pub open spec fn met(
    search: SearchView,
    found: Seq<ModelView>,
    k: int,
    depth: int,
    config: ModelConfig,
) -> Option<SearchView>
    decreases found.len() - k,
{
    if k < 0 || k >= found.len() {
        Some(search)
    } else {
        let counted = SearchView { transitions: bumped(search.transitions), ..search };
        if known(search.states, found[k]) {
            met(counted, found, k + 1, depth, config)
        } else if search.states.len() >= config.max_states {
            None
        } else {
            met(
                SearchView {
                    states: search.states.push(found[k]),
                    depths: search.depths.push(depth),
                    ..counted
                },
                found,
                k + 1,
                depth,
                config,
            )
        }
    }
}

pub open spec fn greater(a: int, b: int) -> int {
    if a >= b {
        a
    } else {
        b
    }
}

/// The exploration once one more state was explored, or why it ends there.
pub open spec fn explored_one(search: SearchView, config: ModelConfig) -> Result<
    SearchView,
    ModelErrorView,
> {
    let depth = search.depths[search.explored];
    let reached = SearchView {
        explored: search.explored + 1,
        deepest: greater(search.deepest, depth),
        ..search
    };
    match checked(search.states[search.explored]) {
        Err(reason) => Err(ModelErrorView::Invariant { state: reached.explored as usize, reason }),
        Ok(state) => if depth == config.max_depth {
            Ok(reached)
        } else {
            match met(reached, successors_of(state, config), 0, depth + 1, config) {
                None => Err(
                    ModelErrorView::StateLimit {
                        explored: reached.explored as usize,
                        limit: config.max_states,
                    },
                ),
                Some(after) => Ok(
                    SearchView {
                        explored: reached.explored,
                        frontier: greater(after.frontier, after.states.len() - reached.explored),
                        ..after
                    },
                ),
            }
        },
    }
}

/// How an exploration ends. Never more states are explored than were found, and
/// never more are found than allowed.
pub open spec fn search_end(search: SearchView, config: ModelConfig) -> Result<
    SearchView,
    ModelErrorView,
>
    decreases config.max_states - search.explored,
{
    if search.explored < 0 || search.explored >= search.states.len() || search.explored
        >= config.max_states {
        Ok(search)
    } else {
        match explored_one(search, config) {
            Err(error) => Err(error),
            Ok(next) => search_end(next, config),
        }
    }
}

/// The exploration before the first state is explored.
pub open spec fn search_start() -> SearchView {
    SearchView {
        states: seq![initial_state()],
        depths: seq![0],
        explored: 0,
        transitions: 0,
        frontier: 1,
        deepest: 0,
    }
}

pub open spec fn bounds_given(config: ModelConfig) -> bool {
    &&& config.max_log != 0
    &&& config.max_term != 0
    &&& config.max_messages != 0
    &&& config.max_depth != 0
    &&& config.max_states != 0
}

/// What an exploration reports.
pub open spec fn reported(config: ModelConfig) -> Result<ModelReport, ModelErrorView> {
    if !bounds_given(config) {
        Err(ModelErrorView::InvalidConfig)
    } else {
        match search_end(search_start(), config) {
            Err(error) => Err(error),
            Ok(search) => Ok(
                ModelReport {
                    explored_states: search.explored as usize,
                    explored_transitions: search.transitions,
                    max_frontier: search.frontier as usize,
                    max_depth: search.deepest as usize,
                },
            ),
        }
    }
}

/// Whether a bound keeps the depth of an exploration, which never exceeds the
/// number of states, within the range of terms and indexes.
pub open spec fn depth_bounded(config: ModelConfig) -> bool {
    config.max_depth <= DEPTH_LIMIT || config.max_states <= DEPTH_LIMIT
}

/// Whether the states of an exploration can be worked on: each stands no deeper
/// than the number of states before it.
pub open spec fn searching(search: SearchView, config: ModelConfig) -> bool {
    &&& search.states.len() == search.depths.len()
    &&& 0 <= search.explored <= search.states.len() <= config.max_states
    &&& forall|j: int|
        0 <= j < search.states.len() ==> 0 <= #[trigger] search.depths[j] <= config.max_depth
            && search.depths[j] <= j && sound(search.states[j], search.depths[j])
    &&& 0 <= search.frontier <= config.max_states
    &&& 0 <= search.deepest <= config.max_depth
}

struct Search {
    states: Vec<ModelState>,
    depths: Vec<usize>,
    explored: usize,
    transitions: u64,
    frontier: usize,
    deepest: usize,
}

impl View for Search {
    type V = SearchView;

    closed spec fn view(&self) -> SearchView {
        SearchView {
            states: state_views(self.states@),
            depths: self.depths@.map_values(|depth: usize| depth as int),
            explored: self.explored as int,
            transitions: self.transitions,
            frontier: self.frontier as int,
            deepest: self.deepest as int,
        }
    }
}

fn is_known(states: &Vec<ModelState>, state: &ModelState) -> (r: bool)
    ensures
        r == known(state_views(states@), state@),
{
    let mut j: usize = 0;
    while j < states.len()
        invariant
            j <= states@.len(),
            forall|k: int|
                0 <= k < j ==> fingerprint(#[trigger] state_views(states@)[k]) != fingerprint(
                    state@,
                ),
        decreases states@.len() - j,
    {
        assert(state_views(states@)[j as int] == states@[j as int]@);
        if same_state(&states[j], state) {
            return true;
        }
        j += 1;
    }
    false
}

/// Meets the states that one step leads to; refuses where there are too many.
fn meet(search: &mut Search, found: &Vec<ModelState>, depth: usize, config: ModelConfig) -> (r:
    bool)
    requires
        searching(old(search)@, config),
        depth <= config.max_depth,
        depth <= old(search)@.states.len(),
        all_sound(state_views(found@), depth as int),
    ensures
        match met(old(search)@, state_views(found@), 0, depth as int, config) {
            Some(after) => r && final(search)@ == after && searching(after, config)
                && after.explored == old(search)@.explored,
            None => !r,
        },
{
    let ghost before = search@;
    let ghost shown = state_views(found@);
    let mut k: usize = 0;
    while k < found.len()
        invariant
            k <= found@.len() == shown.len(),
            before == old(search)@,
            shown == state_views(found@),
            all_sound(shown, depth as int),
            depth <= config.max_depth,
            depth <= search@.states.len(),
            searching(search@, config),
            search@.explored == before.explored,
            met(before, shown, 0, depth as int, config) == met(
                search@,
                shown,
                k as int,
                depth as int,
                config,
            ),
        decreases found@.len() - k,
    {
        let ghost here = search@;
        assert(shown[k as int] == found@[k as int]@);
        assert(sound(shown[k as int], depth as int));
        search.transitions = if search.transitions < u64::MAX {
            search.transitions + 1
        } else {
            u64::MAX
        };
        let ghost counted = search@;
        assert(counted =~= (SearchView { transitions: bumped(here.transitions), ..here }));
        assert(here.states.len() == search.states@.len());
        if !is_known(&search.states, &found[k]) {
            if search.states.len() >= config.max_states {
                return false;
            }
            search.states.push(found[k].clone());
            search.depths.push(depth);
            proof {
                assert(search@.states =~= counted.states.push(shown[k as int]));
                assert(search@.depths =~= counted.depths.push(depth as int));
                assert forall|j: int| 0 <= j < search@.states.len() implies 0
                    <= #[trigger] search@.depths[j] <= config.max_depth && search@.depths[j] <= j
                    && sound(search@.states[j], search@.depths[j]) by {
                    if j < here.states.len() {
                        assert(search@.depths[j] == here.depths[j]);
                        assert(search@.states[j] == here.states[j]);
                    }
                }
            }
        }
        k += 1;
    }
    true
}

/// Explores one more state.
fn explore(search: &mut Search, config: ModelConfig) -> (result: Result<(), ModelError>)
    requires
        searching(old(search)@, config),
        old(search)@.explored < old(search)@.states.len(),
        depth_bounded(config),
    ensures
        match result {
            Ok(_) => explored_one(old(search)@, config) == Ok::<SearchView, ModelErrorView>(
                final(search)@,
            ) && searching(final(search)@, config),
            Err(error) => explored_one(old(search)@, config) == Err::<SearchView, ModelErrorView>(
                error@,
            ),
        },
{
    let ghost before = search@;
    let at: usize = search.explored;
    assert(before.states.len() == search.states@.len());
    assert(before.depths.len() == search.depths@.len());
    assert(before.states[at as int] == search.states@[at as int]@);
    assert(before.depths[at as int] == search.depths@[at as int]);
    let depth: usize = search.depths[at];
    let mut state = search.states[at].clone();
    search.explored = at + 1;
    if depth > search.deepest {
        search.deepest = depth;
    }
    let ghost reached = search@;
    assert(reached =~= (SearchView {
        explored: before.explored + 1,
        deepest: greater(before.deepest, depth as int),
        ..before
    }));
    assert(sound(before.states[at as int], depth as int));
    if let Err(reason) = check_invariants(&mut state) {
        return Err(ModelError::Invariant { state: search.explored, reason });
    }
    if depth == config.max_depth {
        return Ok(());
    }
    assert(sound(state@, depth as int)) by {
        assert(state@.nodes == before.states[at as int].nodes);
        assert(state@.soup == before.states[at as int].soup);
    }
    let found = successors(&state, config, Ghost(depth as int));
    if !meet(search, &found, depth + 1, config) {
        return Err(
            ModelError::StateLimit { explored: at + 1, limit: config.max_states },
        );
    }
    assert(search@.states.len() == search.states@.len());
    let ghost after = search@;
    let waiting: usize = search.states.len() - search.explored;
    if waiting > search.frontier {
        search.frontier = waiting;
    }
    assert(search@ =~= (SearchView {
        explored: reached.explored,
        frontier: greater(after.frontier, after.states.len() - reached.explored),
        ..after
    }));
    Ok(())
}

/// The state in which nothing has happened is one that the nodes can work on.
pub proof fn lemma_initial()
    ensures
        sound(initial_state(), 0),
{
    lemma_crew();
    let state = initial_state();
    assert forall|i: int| 0 <= i < 3 implies (#[trigger] state.nodes[i]).inv() && kept(
        state.nodes[i],
        0,
        0,
    ) && state.nodes[i].id == NodeId((i + 1) as u64) by {
        assert(i == 0 || i == 1 || i == 2);
        assert(state.nodes[i] == model_node((i + 1) as u64));
    }
}

fn first_state() -> (state: ModelState)
    ensures
        state@ == initial_state(),
{
    let ids: Vec<NodeId> = vec![NodeId::new(1), NodeId::new(2), NodeId::new(3)];
    let voters = NodeSet::from_ids(ids.as_slice());
    assert(ids@ =~= seq![NodeId(1), NodeId(2), NodeId(3)]);
    let config = RaftConfig {
        election_min: Duration::from_millis(100),
        election_max: Duration::from_millis(101),
        heartbeat: Duration::from_millis(25),
        ..RaftConfig::default()
    };
    assert(config == model_raft_config());
    let mut nodes: Vec<RaftNode> = Vec::new();
    nodes.push(RaftNode::new(NodeId::new(1), voters.clone(), Seed::new(1), config));
    nodes.push(RaftNode::new(NodeId::new(2), voters.clone(), Seed::new(2), config));
    nodes.push(RaftNode::new(NodeId::new(3), voters, Seed::new(3), config));
    let state = ModelState {
        nodes,
        soup: Vec::new(),
        leaders_seen: Vec::new(),
        committed: Vec::new(),
    };
    assert(state@ =~= initial_state());
    state
}

/// Explores every timer, proposal, delivery, duplication and loss that can
/// happen within the bounds, and checks the safety of every state. One of the
/// bounds keeps the depth within the range of terms and indexes.
pub fn check(config: ModelConfig) -> (result: Result<ModelReport, ModelError>)
    requires
        depth_bounded(config),
    ensures
        match result {
            Ok(report) => reported(config) == Ok::<ModelReport, ModelErrorView>(report),
            Err(error) => reported(config) == Err::<ModelReport, ModelErrorView>(error@),
        },
{
    if config.max_log == 0 || config.max_term == 0 || config.max_messages == 0 || config.max_depth
        == 0 || config.max_states == 0 {
        return Err(ModelError::InvalidConfig);
    }
    let mut states: Vec<ModelState> = Vec::new();
    states.push(first_state());
    let depths: Vec<usize> = vec![0];
    let mut search = Search { states, depths, explored: 0, transitions: 0, frontier: 1, deepest: 0 };
    proof {
        assert(search@ =~= search_start());
        lemma_initial();
    }
    while search.explored < search.states.len()
        invariant
            searching(search@, config),
            bounds_given(config),
            depth_bounded(config),
            search_end(search_start(), config) == search_end(search@, config),
        decreases config.max_states - search.explored,
    {
        assert(search@.states.len() == search.states@.len());
        if let Err(error) = explore(&mut search, config) {
            return Err(error);
        }
    }
    assert(search@.states.len() == search.states@.len());
    Ok(
        ModelReport {
            explored_states: search.explored,
            explored_transitions: search.transitions,
            max_frontier: search.frontier,
            max_depth: search.deepest,
        },
    )
}

/// Whether a state is safe, and all that one step leads to from it was found.
pub open spec fn settled(search: SearchView, j: int, config: ModelConfig) -> bool {
    &&& checked(search.states[j]) is Ok
    &&& search.depths[j] != config.max_depth ==> {
        let next = successors_of(checked(search.states[j])->Ok_0, config);
        forall|k: int| 0 <= k < next.len() ==> known(search.states, #[trigger] next[k])
    }
}

/// Whether `later` found everything that `search` found.
spec fn extends(search: SearchView, later: SearchView) -> bool {
    &&& search.states.len() <= later.states.len()
    &&& search.states.len() == search.depths.len()
    &&& later.states.len() == later.depths.len()
    &&& forall|j: int|
        0 <= j < search.states.len() ==> #[trigger] later.states[j] == search.states[j]
            && later.depths[j] == search.depths[j]
}

proof fn lemma_known_later(search: SearchView, later: SearchView, state: ModelView)
    requires
        extends(search, later),
        known(search.states, state),
    ensures
        known(later.states, state),
{
    let j = choose|j: int|
        0 <= j < search.states.len() && fingerprint(#[trigger] search.states[j]) == fingerprint(
            state,
        );
    assert(later.states[j] == search.states[j]);
}

proof fn lemma_settled_later(search: SearchView, later: SearchView, j: int, config: ModelConfig)
    requires
        extends(search, later),
        0 <= j < search.states.len(),
        settled(search, j, config),
    ensures
        settled(later, j, config),
{
    assert(later.states[j] == search.states[j]);
    if later.depths[j] != config.max_depth {
        let next = successors_of(checked(search.states[j])->Ok_0, config);
        assert forall|k: int| 0 <= k < next.len() implies known(later.states, #[trigger] next[k]) by {
            lemma_known_later(search, later, next[k]);
        }
    }
}

proof fn lemma_met(search: SearchView, found: Seq<ModelView>, k: int, depth: int, config: ModelConfig)
    requires
        0 <= k <= found.len(),
        search.states.len() == search.depths.len(),
        search.states.len() <= config.max_states,
    ensures
        met(search, found, k, depth, config) matches Some(after) ==> {
            &&& extends(search, after)
            &&& after.states.len() <= config.max_states
            &&& forall|i: int| k <= i < found.len() ==> known(after.states, #[trigger] found[i])
        },
    decreases found.len() - k,
{
    if k < found.len() {
        let counted = SearchView { transitions: bumped(search.transitions), ..search };
        let next = if known(search.states, found[k]) {
            counted
        } else {
            SearchView {
                states: search.states.push(found[k]),
                depths: search.depths.push(depth),
                ..counted
            }
        };
        if known(search.states, found[k]) || search.states.len() < config.max_states {
            lemma_met(next, found, k + 1, depth, config);
            if let Some(after) = met(next, found, k + 1, depth, config) {
                assert(known(next.states, found[k])) by {
                    if !known(search.states, found[k]) {
                        assert(next.states[search.states.len() as int] == found[k]);
                    }
                }
                lemma_known_later(next, after, found[k]);
                assert forall|j: int| 0 <= j < search.states.len() implies
                    #[trigger] after.states[j] == search.states[j] && after.depths[j]
                    == search.depths[j] by {
                    assert(next.states[j] == search.states[j]);
                    assert(next.depths[j] == search.depths[j]);
                    assert(after.states[j] == next.states[j]);
                }
            }
        }
    }
}

#[verifier::spinoff_prover]
proof fn lemma_end(search: SearchView, config: ModelConfig)
    requires
        search.states.len() == search.depths.len(),
        0 <= search.explored <= search.states.len() <= config.max_states,
        forall|j: int| 0 <= j < search.explored ==> #[trigger] settled(search, j, config),
    ensures
        search_end(search, config) matches Ok(end) ==> extends(search, end),
        search_end(search, config) matches Ok(end) ==> end.explored == end.states.len()
            <= config.max_states,
        search_end(search, config) matches Ok(end) ==> forall|j: int|
            0 <= j < end.states.len() ==> #[trigger] settled(end, j, config),
    decreases config.max_states - search.explored,
{
    if search.explored < search.states.len() {
        let at = search.explored;
        let depth = search.depths[at];
        let reached = SearchView {
            explored: at + 1,
            deepest: greater(search.deepest, depth),
            ..search
        };
        if let Ok(state) = checked(search.states[at]) {
            let found = successors_of(state, config);
            lemma_met(reached, found, 0, depth + 1, config);
            if let Ok(next) = explored_one(search, config) {
                assert(extends(search, next));
                assert forall|j: int| 0 <= j < next.explored implies #[trigger] settled(
                    next,
                    j,
                    config,
                ) by {
                    if j < at {
                        lemma_settled_later(search, next, j, config);
                    } else {
                        assert(next.states[at] == search.states[at]);
                        assert(next.depths[at] == depth);
                        if depth != config.max_depth {
                            let after = met(reached, found, 0, depth + 1, config)->0;
                            assert(next.states == after.states);
                            assert forall|k: int| 0 <= k < found.len() implies known(
                                next.states,
                                #[trigger] found[k],
                            ) by {
                                assert(known(after.states, found[k]));
                            }
                        }
                    }
                }
                lemma_end(next, config);
                assert(search_end(search, config) == search_end(next, config));
                if let Ok(end) = search_end(next, config) {
                    assert forall|j: int| 0 <= j < search.states.len() implies
                        #[trigger] end.states[j] == search.states[j] && end.depths[j]
                        == search.depths[j] by {
                        assert(next.states[j] == search.states[j]);
                        assert(end.states[j] == next.states[j]);
                    }
                    assert(extends(search, end));
                }
            }
        }
    }
}

/// An exploration that reports no error began with the state in which nothing
/// has happened, went through every state that it found, found each of them
/// safe, and found every state that one step leads to from any of them short of
/// the depth.
pub proof fn law_reports_cover_every_state(config: ModelConfig)
    requires
        reported(config) is Ok,
    ensures
        search_end(search_start(), config) matches Ok(end) && {
            &&& end.states[0] == initial_state()
            &&& end.explored == end.states.len() == reported(config)->Ok_0.explored_states
            &&& forall|j: int| 0 <= j < end.states.len() ==> #[trigger] settled(end, j, config)
        },
{
    let start = search_start();
    lemma_end(start, config);
    let end = search_end(start, config)->Ok_0;
    assert(end.states[0] == start.states[0]);
}

} // verus!
