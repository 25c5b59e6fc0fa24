//! The Raft node: a deterministic state machine without input or output of its
//! own. Hosts persist its effects and deliver messages and time.
use vstd::prelude::*;

use crate::ids::{Duration, LogIndex, NodeId, Seed, Term, Time};
use crate::membership::PeerAddress;
use crate::node_map::NodeMap;
use crate::node_set::{ascending, increasing, lemma_take_next, NodeSet};
use crate::raft_model::{more_than_half, LeadershipTransfer, NodeView, RosterView, Step};
use crate::raft_types::{
    effect_views, entry_views, EffectView, Entry, EntryView, HardState, RaftConfig, RaftEffect,
    RaftError, Role,
};
use crate::rng::{seeded, Xoshiro256pp};

verus! {

/// A Raft node.
pub struct RaftNode {
    pub id: NodeId,
    pub role: Role,
    pub hard_state: HardState,
    pub voters: NodeSet,
    pub learners: NodeSet,
    pub joint: Option<(NodeSet, NodeSet)>,
    pub joint_enter_index: Option<LogIndex>,
    pub base_voters: NodeSet,
    pub base_learners: NodeSet,
    pub base_joint: Option<(NodeSet, NodeSet)>,
    pub base_joint_enter_index: Option<LogIndex>,
    pub base_addresses: NodeMap<PeerAddress>,
    pub addresses: NodeMap<PeerAddress>,
    pub active_features: u64,
    pub base_active_features: u64,
    pub log: Vec<Entry>,
    pub commit_index: LogIndex,
    pub applied_index: LogIndex,
    pub leader_id: Option<NodeId>,
    pub next_index: NodeMap<LogIndex>,
    pub match_index: NodeMap<LogIndex>,
    /// When each peer last acknowledged replication or a snapshot. Advisory
    /// evidence of availability, never persisted.
    pub last_contact: NodeMap<Time>,
    pub retiring_peers: NodeMap<LogIndex>,
    pub election_deadline: Time,
    pub heartbeat_deadline: Time,
    pub config: RaftConfig,
    pub rng: Xoshiro256pp,
    pub votes: NodeSet,
    pub pre_votes: NodeSet,
    pub heard_quorum: NodeSet,
    pub quorum_deadline: Time,
    pub read_acks: NodeSet,
    pub read_round: u64,
    pub read_index: Option<LogIndex>,
    pub snapshot_index: LogIndex,
    pub snapshot_term: Term,
    pub next_snapshot_transfer_id: u64,
    pub transfer: Option<LeadershipTransfer>,
}

pub open spec fn sides_view(joint: Option<(NodeSet, NodeSet)>) -> Option<
    (Set<NodeId>, Set<NodeId>),
> {
    match joint {
        Some(sides) => Some((sides.0@, sides.1@)),
        None => None,
    }
}

impl View for RaftNode {
    type V = NodeView;

    open spec fn view(&self) -> NodeView {
        NodeView {
            id: self.id,
            role: self.role,
            hard_state: self.hard_state,
            roster: RosterView {
                voters: self.voters@,
                learners: self.learners@,
                joint: sides_view(self.joint),
                joint_enter_index: self.joint_enter_index,
                addresses: self.addresses@,
                active_features: self.active_features,
            },
            base: RosterView {
                voters: self.base_voters@,
                learners: self.base_learners@,
                joint: sides_view(self.base_joint),
                joint_enter_index: self.base_joint_enter_index,
                addresses: self.base_addresses@,
                active_features: self.base_active_features,
            },
            log: entry_views(self.log@),
            commit_index: self.commit_index,
            applied_index: self.applied_index,
            leader_id: self.leader_id,
            next_index: self.next_index@,
            match_index: self.match_index@,
            last_contact: self.last_contact@,
            retiring_peers: self.retiring_peers@,
            election_deadline: self.election_deadline,
            heartbeat_deadline: self.heartbeat_deadline,
            config: self.config,
            rng: self.rng,
            votes: self.votes@,
            pre_votes: self.pre_votes@,
            heard_quorum: self.heard_quorum@,
            quorum_deadline: self.quorum_deadline,
            read_acks: self.read_acks@,
            read_round: self.read_round,
            read_index: self.read_index,
            snapshot_index: self.snapshot_index,
            snapshot_term: self.snapshot_term,
            next_snapshot_transfer_id: self.next_snapshot_transfer_id,
            transfer: self.transfer,
        }
    }
}

/// A copy of both sides of a joint configuration.
pub fn copy_sides(joint: &Option<(NodeSet, NodeSet)>) -> (copy: Option<(NodeSet, NodeSet)>)
    ensures
        sides_view(copy) == sides_view(*joint),
{
    match joint {
        Some(sides) => Some((sides.0.clone(), sides.1.clone())),
        None => None,
    }
}

/// Appends one effect.
pub fn push_effect(effects: &mut Vec<RaftEffect>, effect: RaftEffect)
    ensures
        effect_views(final(effects)@) == effect_views(old(effects)@).push(effect@),
{
    let ghost before = effects@;
    effects.push(effect);
    assert(effect_views(effects@) =~= effect_views(before).push(effect@));
}

/// Appends effects behind others.
pub fn extend_effects(effects: &mut Vec<RaftEffect>, more: Vec<RaftEffect>)
    ensures
        effect_views(final(effects)@) == effect_views(old(effects)@) + effect_views(more@),
{
    let ghost before = effects@;
    let mut rest = more;
    effects.append(&mut rest);
    assert(effect_views(effects@) =~= effect_views(before) + effect_views(more@));
}

/// One effect alone.
pub fn single_effect(effect: RaftEffect) -> (effects: Vec<RaftEffect>)
    ensures
        effect_views(effects@) == seq![effect@],
{
    let mut effects: Vec<RaftEffect> = Vec::new();
    effects.push(effect);
    assert(effect_views(effects@) =~= seq![effect@]);
    effects
}

/// No effects.
pub fn no_effects() -> (effects: Vec<RaftEffect>)
    ensures
        effect_views(effects@) == Seq::<EffectView>::empty(),
{
    let effects: Vec<RaftEffect> = Vec::new();
    assert(effect_views(effects@) =~= Seq::<EffectView>::empty());
    effects
}

/// One entry alone.
pub fn single_entry(entry: Entry) -> (entries: Vec<Entry>)
    ensures
        entry_views(entries@) == seq![entry@],
{
    let mut entries: Vec<Entry> = Vec::new();
    entries.push(entry);
    assert(entry_views(entries@) =~= seq![entry@]);
    entries
}

/// What a request that may be refused did: it took the step, or it was refused
/// and changed nothing.
pub open spec fn settles(
    result: Result<Vec<RaftEffect>, RaftError>,
    before: NodeView,
    after: NodeView,
    expected: Result<Step, RaftError>,
) -> bool {
    match expected {
        Ok(step) => result matches Ok(effects) && after == step.0 && effect_views(effects@)
            == step.1,
        Err(error) => result == Err::<Vec<RaftEffect>, RaftError>(error) && after == before,
    }
}

/// Whether more than half of `members` are among `acks`.
pub fn has_more_than_half(acks: &NodeSet, members: &NodeSet) -> (r: bool)
    ensures
        r == more_than_half(acks@, members@),
{
    let count: usize = acks.common(members);
    let size: usize = members.len();
    count > size / 2
}

/// The first state of a node.
pub open spec fn initial_view(
    id: NodeId,
    voters: Set<NodeId>,
    seed: Seed,
    config: RaftConfig,
) -> NodeView {
    let roster = RosterView {
        voters,
        learners: Set::empty(),
        joint: None,
        joint_enter_index: None,
        addresses: Map::empty(),
        active_features: 0,
    };
    NodeView {
        id,
        role: if voters.contains(id) {
            Role::Follower
        } else {
            Role::Learner
        },
        hard_state: HardState { term: Term(0), voted_for: None },
        roster,
        base: roster,
        log: Seq::empty(),
        commit_index: LogIndex(0),
        applied_index: LogIndex(0),
        leader_id: None,
        next_index: Map::empty(),
        match_index: Map::empty(),
        last_contact: Map::empty(),
        retiring_peers: Map::empty(),
        election_deadline: Time(0),
        heartbeat_deadline: Time(0),
        config,
        rng: seeded(seed, id.0),
        votes: Set::empty(),
        pre_votes: Set::empty(),
        heard_quorum: Set::empty(),
        quorum_deadline: Time(0),
        read_acks: Set::empty(),
        read_round: 0,
        read_index: None,
        snapshot_index: LogIndex(0),
        snapshot_term: Term(0),
        next_snapshot_transfer_id: 1,
        transfer: None,
    }.election_reset(Time(0))
}

impl RaftNode {
    #[must_use]
    pub fn new(id: NodeId, voters: NodeSet, seed: Seed, config: RaftConfig) -> (node: Self)
        requires
            config.election_min.0 < u64::MAX - 1,
            config.election_max.0 < u64::MAX,
        ensures
            node@ == initial_view(id, voters@, seed, config),
            node@.inv(),
    {
        let role = if voters.contains(id) {
            Role::Follower
        } else {
            Role::Learner
        };
        let mut node = RaftNode {
            id,
            role,
            hard_state: HardState { term: Term(0), voted_for: None },
            base_voters: voters.clone(),
            voters,
            learners: NodeSet::new(),
            joint: None,
            joint_enter_index: None,
            base_learners: NodeSet::new(),
            base_joint: None,
            base_joint_enter_index: None,
            base_addresses: NodeMap::new(),
            addresses: NodeMap::new(),
            active_features: 0,
            base_active_features: 0,
            log: Vec::new(),
            commit_index: LogIndex(0),
            applied_index: LogIndex(0),
            leader_id: None,
            next_index: NodeMap::new(),
            match_index: NodeMap::new(),
            last_contact: NodeMap::new(),
            retiring_peers: NodeMap::new(),
            election_deadline: Time(0),
            heartbeat_deadline: Time(0),
            config,
            rng: Xoshiro256pp::stream(seed, id.0),
            votes: NodeSet::new(),
            pre_votes: NodeSet::new(),
            heard_quorum: NodeSet::new(),
            quorum_deadline: Time(0),
            read_acks: NodeSet::new(),
            read_round: 0,
            read_index: None,
            snapshot_index: LogIndex(0),
            snapshot_term: Term(0),
            next_snapshot_transfer_id: 1,
            transfer: None,
        };
        assert(node@.log =~= Seq::<EntryView>::empty());
        node.reset_election(Time(0));
        node
    }

    /// Arms the election timer from `now`. A process that restarts has to call
    /// this, or it keeps a deadline that was measured from time zero.
    pub fn rearm_election(&mut self, now: Time)
        requires
            old(self)@.inv(),
        ensures
            final(self)@ == old(self)@.election_reset(now),
            final(self)@.inv(),
            now.0 + old(self)@.config.election_min.0 <= u64::MAX ==> final(self)@.election_deadline.0 >= now.0 + old(self)@.config.election_min.0,
    {
        self.reset_election(now);
    }

    pub(crate) fn reset_election(&mut self, now: Time)
        requires
            old(self)@.config.election_min.0 < u64::MAX - 1,
            old(self)@.config.election_max.0 < u64::MAX,
        ensures
            final(self)@ == old(self)@.election_reset(now),
            old(self)@.inv() ==> final(self)@.inv(),
            now.0 + old(self)@.config.election_min.0 <= u64::MAX ==> final(self)@.election_deadline.0 >= now.0 + old(self)@.config.election_min.0,
    {
        let low: u64 = self.config.election_min.0;
        let high: u64 = if self.config.election_max.0 >= low + 1 {
            self.config.election_max.0
        } else {
            low + 1
        };
        let timeout: u64 = self.rng.range_u64(low, high + 1);
        self.election_deadline = now.after(Duration(timeout));
    }

    #[must_use]
    pub fn last_index(&self) -> (index: LogIndex)
        requires
            self@.inv(),
        ensures
            index == self@.last_index(),
    {
        if self.log.len() == 0 {
            self.snapshot_index
        } else {
            let last: usize = self.log.len() - 1;
            assert(self@.log[last as int] == self.log@[last as int]@);
            self.log[last].index
        }
    }

    #[must_use]
    pub fn last_term(&self) -> (term: Term)
        ensures
            term == self@.last_term(),
    {
        if self.log.len() == 0 {
            self.snapshot_term
        } else {
            let last: usize = self.log.len() - 1;
            assert(self@.log[last as int] == self.log@[last as int]@);
            self.log[last].term
        }
    }

    /// Appends an entry to the log.
    pub(crate) fn push_entry(&mut self, entry: Entry)
        ensures
            final(self)@ == (NodeView { log: old(self)@.log.push(entry@), ..old(self)@ }),
    {
        let ghost before = self@;
        self.log.push(entry);
        assert(self@.log =~= before.log.push(entry@));
    }

    /// Where the log holds the entry with an index.
    pub(crate) fn find(&self, index: LogIndex) -> (found: Option<usize>)
        requires
            self@.inv(),
        ensures
            found is Some <==> self@.holds(index),
            found matches Some(at) ==> {
                &&& at < self.log@.len()
                &&& at == index.0 - self.snapshot_index.0 - 1
                &&& self.log@[at as int]@ == self@.entry(index)
            },
    {
        let mut at: usize = 0;
        while at < self.log.len()
            invariant
                at <= self.log@.len(),
                self@.inv(),
                forall|k: int| 0 <= k < at ==> (#[trigger] self@.log[k]).index != index,
            decreases self.log@.len() - at,
        {
            assert(self@.log[at as int] == self.log@[at as int]@);
            if self.log[at].index == index {
                return Some(at);
            }
            at += 1;
        }
        proof {
            if self@.holds(index) {
                let k = index.0 - self.snapshot_index.0 - 1;
                assert(self@.log[k].index.0 == index.0);
            }
        }
        None
    }

    #[must_use]
    pub fn term_at(&self, index: LogIndex) -> (term: Option<Term>)
        requires
            self@.inv(),
        ensures
            term == self@.term_at(index),
    {
        if index.0 == 0 {
            return Some(Term(0));
        }
        if index == self.snapshot_index {
            return Some(self.snapshot_term);
        }
        match self.find(index) {
            Some(at) => Some(self.log[at].term),
            None => None,
        }
    }

    pub(crate) fn log_is_up_to_date(&self, index: LogIndex, term: Term) -> (r: bool)
        requires
            self@.inv(),
        ensures
            r == self@.up_to_date(index, term),
    {
        let last_term = self.last_term();
        term.0 > last_term.0 || (term == last_term && index.0 >= self.last_index().0)
    }

    /// Whether a set of members decides.
    pub(crate) fn has_majority(&self, votes: &NodeSet) -> (r: bool)
        ensures
            r == self@.roster.quorum(votes@),
    {
        match &self.joint {
            Some(sides) => has_more_than_half(votes, &sides.0) && has_more_than_half(
                votes,
                &sides.1,
            ),
            None => has_more_than_half(votes, &self.voters),
        }
    }

    /// How many of `members` are known to hold the entry at `candidate`.
    fn holders(&self, members: &NodeSet, candidate: u64) -> (n: usize)
        ensures
            n == self@.replicated(candidate as int).intersect(members@).len(),
            n <= members@.len(),
    {
        let count: usize = members.len();
        let ghost order = ascending(members@);
        let ghost held = self@.replicated(candidate as int);
        let mut n: usize = 0;
        let mut i: usize = 0;
        assert(held.intersect(order.take(0).to_set()) =~= Set::<NodeId>::empty());
        while i < count
            invariant
                i <= count == order.len() == members@.len(),
                order == ascending(members@),
                increasing(order),
                held == self@.replicated(candidate as int),
                n <= i,
                n == held.intersect(order.take(i as int).to_set()).len(),
                held.intersect(order.take(i as int).to_set()).finite(),
            decreases count - i,
        {
            let member = members.at(i);
            let found = match self.match_index.get(member) {
                Some(index) => index.0 >= candidate,
                None => false,
            };
            proof {
                lemma_take_next(order, i as int);
                let before = order.take(i as int);
                let after = order.take(i as int + 1);
                assert(!before.to_set().contains(member)) by {
                    if before.contains(member) {
                        let k = choose|k: int| 0 <= k < before.len() && before[k] == member;
                        assert(order[k] == member);
                    }
                }
                if held.contains(member) {
                    assert(held.intersect(after.to_set()) =~= held.intersect(
                        before.to_set(),
                    ).insert(member));
                } else {
                    assert(held.intersect(after.to_set()) =~= held.intersect(before.to_set()));
                }
            }
            if member == self.id || found {
                n += 1;
            }
            i += 1;
        }
        assert(order.take(i as int) =~= order);
        n
    }

    /// Whether a quorum holds the entry at `candidate`.
    pub(crate) fn commit_quorum(&self, candidate: u64) -> (r: bool)
        ensures
            r == self@.roster.quorum(self@.replicated(candidate as int)),
    {
        match &self.joint {
            Some(sides) => {
                let old_size: usize = sides.0.len();
                let new_size: usize = sides.1.len();
                let old_held: usize = self.holders(&sides.0, candidate);
                let new_held: usize = self.holders(&sides.1, candidate);
                old_held > old_size / 2 && new_held > new_size / 2
            },
            None => {
                let size: usize = self.voters.len();
                let held: usize = self.holders(&self.voters, candidate);
                held > size / 2
            },
        }
    }

    #[must_use]
    pub fn joint_active(&self) -> (r: bool)
        ensures
            r == (self@.roster.joint is Some),
    {
        self.joint.is_some()
    }

    #[must_use]
    pub fn has_retiring_peers(&self) -> (r: bool)
        ensures
            r == (self@.retiring_peers != Map::<NodeId, LogIndex>::empty()),
    {
        !self.retiring_peers.is_empty()
    }

    #[must_use]
    pub fn active_features(&self) -> (features: u64)
        ensures
            features == self@.roster.active_features,
    {
        self.active_features
    }

    #[must_use]
    pub fn snapshot_needed(&self, applied_bytes: u64) -> (r: bool)
        ensures
            r == (applied_bytes >= crate::raft_types::SNAPSHOT_TRIGGER_BYTES),
    {
        applied_bytes >= crate::raft_types::SNAPSHOT_TRIGGER_BYTES
    }

    /// The origin of the retained log. A peer needs a snapshot only when it
    /// asks for an entry at or below this base.
    #[must_use]
    pub fn snapshot_base(&self) -> (base: (LogIndex, Term))
        ensures
            base == (self@.snapshot_index, self@.snapshot_term),
    {
        (self.snapshot_index, self.snapshot_term)
    }
}

} // verus!
