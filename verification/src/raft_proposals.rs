//! What clients and operators ask a leader for, and a node's own report on
//! its invariants.
use vstd::prelude::*;

use crate::ids::{LogIndex, NodeId, Time};
use crate::membership::{
    ConfigEnvelope, ConfigOperation, PeerAddress, SessionNamespace, ATOMIC_BATCH_FEATURE,
};
use crate::node_set::{ascending, increasing, lemma_take_next, NodeSet};
use crate::prose::{append_number, number_text};
use crate::raft_model::NodeView;
use crate::raft_node::{
    extend_effects, has_more_than_half, settles, single_effect, single_entry, RaftNode,
};
use crate::raft_types::{effect_views, Entry, EntryKind, EntryView, RaftEffect, RaftError, Role};

verus! {

impl RaftNode {
    /// How many replication targets still lack entries.
    fn outstanding(&self) -> (n: usize)
        requires
            self@.inv(),
        ensures
            n == self@.outstanding(),
    {
        let last = self.last_index();
        let ghost order = ascending(self@.next_index.dom());
        let ghost lacks = |peer: NodeId| self@.next_index[peer].0 <= self@.last_index().0;
        let count: usize = self.next_index.len();
        let mut n: usize = 0;
        let mut i: usize = 0;
        assert(order.take(0).to_set().filter(lacks) =~= Set::<NodeId>::empty());
        while i < count
            invariant
                i <= count == order.len() == self@.next_index.dom().len(),
                order == ascending(self@.next_index.dom()),
                increasing(order),
                last == self@.last_index(),
                lacks == (|peer: NodeId| self@.next_index[peer].0 <= self@.last_index().0),
                n <= i,
                n == order.take(i as int).to_set().filter(lacks).len(),
                order.take(i as int).to_set().filter(lacks).finite(),
            decreases count - i,
        {
            let ghost peer = order[i as int];
            let next = self.next_index.value_at(i);
            proof {
                lemma_take_next(order, i as int);
                let before = order.take(i as int);
                let after = order.take(i as int + 1);
                assert(!before.to_set().contains(peer)) by {
                    if before.contains(peer) {
                        let k = choose|k: int| 0 <= k < before.len() && before[k] == peer;
                        assert(order[k] == peer);
                    }
                }
                if lacks(peer) {
                    assert(after.to_set().filter(lacks) =~= before.to_set().filter(lacks).insert(
                        peer,
                    ));
                } else {
                    assert(after.to_set().filter(lacks) =~= before.to_set().filter(lacks));
                }
            }
            if next.0 <= last.0 {
                n += 1;
            }
            i += 1;
        }
        assert(order.take(i as int) =~= order);
        n
    }

    /// Whether the pipeline takes no further proposal.
    fn pipeline_full(&self) -> (r: bool)
        requires
            self@.inv(),
        ensures
            r == self@.pipeline_full(),
    {
        let waiting: usize = self.outstanding();
        let size: usize = self.voters.len();
        let group: usize = if size > 0 {
            size
        } else {
            1
        };
        let window: usize = self.config.pipeline_window;
        assert(window * group <= u64::MAX * u64::MAX) by (nonlinear_arith)
            requires
                0 <= window <= u64::MAX,
                0 <= group <= u64::MAX,
        ;
        (waiting as u128) >= (window as u128) * (group as u128)
    }

    /// Appends an entry of this leader and offers it to everyone.
    fn offer(&mut self, entry: Entry) -> (effects: Vec<RaftEffect>)
        requires
            old(self)@.inv(),
            old(self)@.snapshot_index.0 + old(self)@.log.len() < u64::MAX - 1,
            entry.index.0 == old(self)@.last_index().0 + 1,
        ensures
            (final(self)@, effect_views(effects@)) == old(self)@.entry_offered(entry@),
            final(self)@.inv(),
    {
        reveal(NodeView::entry_offered);
        self.push_entry(entry.clone());
        let mut effects = single_effect(RaftEffect::PersistEntries(single_entry(entry)));
        // A lone voter's own append is already a quorum. The application
        // stays behind the persistence of the entry.
        extend_effects(&mut effects, self.advance_commit());
        extend_effects(&mut effects, self.broadcast_append());
        effects
    }

    /// Proposes a client's payload.
    pub fn propose(&mut self, payload: Vec<u8>) -> (result: Result<Vec<RaftEffect>, RaftError>)
        requires
            old(self)@.inv(),
            old(self)@.headroom(),
        ensures
            settles(
                result,
                old(self)@,
                final(self)@,
                old(self)@.proposed(payload@, EntryKind::App),
            ),
            final(self)@.inv(),
    {
        self.propose_with_kind(payload, EntryKind::App)
    }

    /// Proposes an atomic batch, once the cluster has activated batches.
    pub fn propose_v3_batch(&mut self, payload: Vec<u8>) -> (result: Result<
        Vec<RaftEffect>,
        RaftError,
    >)
        requires
            old(self)@.inv(),
            old(self)@.headroom(),
        ensures
            settles(
                result,
                old(self)@,
                final(self)@,
                if old(self)@.roster.active_features & ATOMIC_BATCH_FEATURE == 0 {
                    Err(RaftError::Busy)
                } else {
                    old(self)@.proposed(payload@, EntryKind::AppV3)
                },
            ),
            final(self)@.inv(),
    {
        if self.active_features & ATOMIC_BATCH_FEATURE == 0 {
            return Err(RaftError::Busy);
        }
        self.propose_with_kind(payload, EntryKind::AppV3)
    }

    fn propose_with_kind(&mut self, payload: Vec<u8>, kind: EntryKind) -> (result: Result<
        Vec<RaftEffect>,
        RaftError,
    >)
        requires
            old(self)@.inv(),
            old(self)@.headroom(),
        ensures
            settles(result, old(self)@, final(self)@, old(self)@.proposed(payload@, kind)),
            final(self)@.inv(),
    {
        if self.role != Role::Leader {
            return Err(RaftError::NotLeader);
        }
        if self.transfer.is_some() {
            return Err(RaftError::TransferInProgress);
        }
        if self.pipeline_full() {
            return Err(RaftError::Busy);
        }
        let entry = Entry {
            term: self.hard_state.term,
            index: LogIndex(self.last_index().0 + 1),
            kind,
            payload,
        };
        Ok(self.offer(entry))
    }

    /// Whether an entry of the current term is committed.
    fn current_term_committed(&self) -> (r: bool)
        requires
            self@.inv(),
        ensures
            r == self@.term_committed(),
    {
        if self.snapshot_index.0 <= self.commit_index.0 && self.snapshot_term
            == self.hard_state.term {
            return true;
        }
        let ghost log = self@.log;
        let mut i: usize = 0;
        while i < self.log.len()
            invariant
                i <= self.log@.len(),
                log == self@.log,
                log.len() == self.log@.len(),
                !(self@.snapshot_index.0 <= self@.commit_index.0 && self@.snapshot_term
                    == self@.hard_state.term),
                forall|k: int|
                    0 <= k < i ==> !((#[trigger] log[k]).term == self@.hard_state.term
                        && log[k].index.0 <= self@.commit_index.0),
            decreases self.log@.len() - i,
        {
            assert(log[i as int] == self.log@[i as int]@);
            if self.log[i].term == self.hard_state.term && self.log[i].index.0
                <= self.commit_index.0 {
                return true;
            }
            i += 1;
        }
        false
    }

    /// Fixes the index of a read and confirms leadership by a fresh round of
    /// appends.
    pub fn request_read(&mut self) -> (result: Result<Vec<RaftEffect>, RaftError>)
        requires
            old(self)@.inv(),
        ensures
            settles(result, old(self)@, final(self)@, old(self)@.read_asked()),
            final(self)@.inv(),
    {
        let ghost start = self@;
        if self.role != Role::Leader {
            return Err(RaftError::NotLeader);
        }
        if self.transfer.is_some() {
            return Err(RaftError::TransferInProgress);
        }
        if !self.current_term_committed() {
            return Err(RaftError::ReadBarrierNotReady);
        }
        if self.read_round < u64::MAX {
            self.read_round = self.read_round + 1;
        }
        self.read_acks.clear();
        self.read_acks.insert(self.id);
        self.read_index = Some(self.commit_index);
        assert(self@.read_acks =~= set![self@.id]);
        let mut effects = single_effect(RaftEffect::ReadBarrier { index: self.commit_index });
        extend_effects(&mut effects, self.broadcast_append());
        let released = self.release_read();
        extend_effects(&mut effects, released);
        Ok(effects)
    }

    /// Whether a peer is known to hold everything up to `index`.
    fn is_caught_up(&self, peer: NodeId, index: LogIndex) -> (r: bool)
        ensures
            r == self@.caught_up(peer, index),
    {
        match self.match_index.get(peer) {
            Some(held) => held.0 >= index.0,
            None => false,
        }
    }

    /// Proposes a learner. The projection changes at once, but the authority
    /// for the new membership is the entry and its persistence.
    pub fn add_learner(&mut self, node: NodeId) -> (result: Result<Vec<RaftEffect>, RaftError>)
        requires
            old(self)@.inv(),
            old(self)@.headroom(),
        ensures
            settles(result, old(self)@, final(self)@, old(self)@.learner_proposed(node)),
            final(self)@.inv(),
    {
        if self.role != Role::Leader {
            return Err(RaftError::NotLeader);
        }
        let due = LogIndex(self.last_index().0 + 1);
        if node.0 == 0 || self.joint.is_some() || self.voters.contains(node)
            || self.learners.contains(node) || self.config_transition_in_flight_before(due) {
            return Err(RaftError::InvalidMessage);
        }
        self.append_config(
            &ConfigEnvelope {
                admin_session: None,
                leader_time: Time(0),
                operation: ConfigOperation::AddLearner { id: node, address: None },
            },
        )
    }

    /// Proposes the promotion of a caught-up learner through a joint
    /// configuration. The new voter set is final only once that is left.
    pub fn promote_learner(&mut self, node: NodeId) -> (result: Result<Vec<RaftEffect>, RaftError>)
        requires
            old(self)@.inv(),
            old(self)@.headroom(),
        ensures
            settles(result, old(self)@, final(self)@, old(self)@.promotion_proposed(node)),
            final(self)@.inv(),
    {
        if self.role != Role::Leader {
            return Err(RaftError::NotLeader);
        }
        if !self.learners.contains(node) {
            return Err(RaftError::InvalidMessage);
        }
        if !self.is_caught_up(node, self.last_index()) {
            return Err(RaftError::Busy);
        }
        let mut voters = self.voters.clone();
        voters.insert(node);
        self.enter_joint(voters)
    }

    /// Proposes the joint configuration of the present voters and a new set.
    pub fn enter_joint(&mut self, new_voters: NodeSet) -> (result: Result<
        Vec<RaftEffect>,
        RaftError,
    >)
        requires
            old(self)@.inv(),
            old(self)@.headroom(),
        ensures
            settles(result, old(self)@, final(self)@, old(self)@.joint_proposed(new_voters@)),
            final(self)@.inv(),
    {
        if self.role != Role::Leader {
            return Err(RaftError::NotLeader);
        }
        if self.joint.is_some() || new_voters.is_empty() || new_voters.contains(NodeId(0)) {
            return Err(RaftError::Busy);
        }
        let envelope = ConfigEnvelope {
            admin_session: None,
            leader_time: Time(0),
            operation: ConfigOperation::EnterJoint { new_voters },
        };
        let entry = Entry {
            term: self.hard_state.term,
            index: LogIndex(self.last_index().0 + 1),
            kind: EntryKind::Config,
            payload: envelope.encode(),
        };
        match self.apply_config_on_append(&entry) {
            Ok(_) => {},
            Err(error) => return Err(error),
        }
        Ok(self.offer(entry))
    }

    /// Proposes the end of a committed joint configuration.
    pub fn leave_joint(&mut self) -> (result: Result<Vec<RaftEffect>, RaftError>)
        requires
            old(self)@.inv(),
            old(self)@.headroom(),
        ensures
            settles(result, old(self)@, final(self)@, old(self)@.leave_proposed()),
            final(self)@.inv(),
    {
        if self.role != Role::Leader {
            return Err(RaftError::NotLeader);
        }
        if self.joint.is_none() {
            return Err(RaftError::InvalidMessage);
        }
        let enter_index = match self.joint_enter_index {
            Some(index) => index,
            None => return Err(RaftError::InvalidMessage),
        };
        if self.commit_index.0 < enter_index.0 {
            return Err(RaftError::Busy);
        }
        self.append_config(
            &ConfigEnvelope {
                admin_session: None,
                leader_time: Time(0),
                operation: ConfigOperation::LeaveJoint { enter_index },
            },
        )
    }

    /// Proposes a transfer to a caught-up voter. The target is asked to
    /// campaign only once the intent is applied.
    pub fn begin_leadership_transfer(&mut self, target: NodeId, leader_time: Time) -> (result:
        Result<Vec<RaftEffect>, RaftError>)
        requires
            old(self)@.inv(),
            old(self)@.headroom(),
        ensures
            settles(
                result,
                old(self)@,
                final(self)@,
                old(self)@.transfer_proposed(target, leader_time),
            ),
            final(self)@.inv(),
    {
        if self.role != Role::Leader {
            return Err(RaftError::NotLeader);
        }
        if self.joint.is_some() || self.transfer.is_some() {
            return Err(RaftError::TransferInProgress);
        }
        if !self.voters.contains(target) || (target != self.id && !self.is_caught_up(
            target,
            self.last_index(),
        )) {
            return Err(RaftError::Busy);
        }
        self.append_config(
            &ConfigEnvelope {
                admin_session: None,
                leader_time,
                operation: ConfigOperation::BeginLeaderTransfer { target },
            },
        )
    }

    /// Proposes the activation of a feature. It is in use only once the entry
    /// is applied.
    pub fn activate_feature(&mut self, feature: u64, leader_time: Time) -> (result: Result<
        Vec<RaftEffect>,
        RaftError,
    >)
        requires
            old(self)@.inv(),
            old(self)@.headroom(),
        ensures
            settles(
                result,
                old(self)@,
                final(self)@,
                old(self)@.activation_proposed(feature, leader_time),
            ),
            final(self)@.inv(),
    {
        if self.role != Role::Leader {
            return Err(RaftError::NotLeader);
        }
        if feature != ATOMIC_BATCH_FEATURE || self.active_features & feature != 0
            || self.joint.is_some() {
            return Err(RaftError::Busy);
        }
        self.append_config(
            &ConfigEnvelope {
                admin_session: None,
                leader_time,
                operation: ConfigOperation::ActivateFeature { feature },
            },
        )
    }

    /// Whether a peer answered within the transfer timeout before `at`.
    fn contact_is_recent(&self, peer: NodeId, at: Time) -> (r: bool)
        ensures
            r == self@.heard_recently(peer, at),
    {
        if peer == self.id {
            return true;
        }
        match self.last_contact.get(peer) {
            Some(contact) => at.0 <= contact.0 || at.0 - contact.0
                <= self.config.leader_transfer_timeout.0,
            None => false,
        }
    }

    /// The members of a set that answered recently.
    fn available_members(&self, members: &NodeSet, at: Time) -> (found: NodeSet)
        ensures
            found@ == self@.available(members@, at),
    {
        let mut found = NodeSet::new();
        let ghost order = ascending(members@);
        let count: usize = members.len();
        let mut i: usize = 0;
        assert(self@.available(order.take(0).to_set(), at) =~= Set::<NodeId>::empty());
        while i < count
            invariant
                i <= count == order.len() == members@.len(),
                order == ascending(members@),
                found@ == self@.available(order.take(i as int).to_set(), at),
            decreases count - i,
        {
            let peer = members.at(i);
            proof {
                lemma_take_next(order, i as int);
            }
            let ghost before = order.take(i as int).to_set();
            let recent = self.contact_is_recent(peer, at);
            if recent {
                found.insert(peer);
            }
            assert(found@ =~= self@.available(order.take(i as int + 1).to_set(), at));
            i += 1;
        }
        assert(order.take(i as int) =~= order);
        found
    }

    /// Whether another member has this address.
    fn address_in_use(&self, address: &PeerAddress, except: Option<NodeId>) -> (r: bool)
        ensures
            r == self@.address_taken(*address, except),
    {
        let ghost order = ascending(self@.roster.addresses.dom());
        let count: usize = self.addresses.len();
        let mut i: usize = 0;
        while i < count
            invariant
                i <= count == order.len() == self@.roster.addresses.dom().len(),
                order == ascending(self@.roster.addresses.dom()),
                forall|k: int|
                    0 <= k < i ==> !(Some(#[trigger] order[k]) != except
                        && self@.roster.addresses[order[k]] == *address),
            decreases count - i,
        {
            let node = self.addresses.key_at(i);
            let existing = self.addresses.value_at(i);
            let other = match except {
                Some(id) => node != id,
                None => true,
            };
            if other && existing.same(address) {
                assert(self@.roster.addresses.dom().contains(node));
                return true;
            }
            i += 1;
        }
        proof {
            if self@.address_taken(*address, except) {
                let node = choose|node: NodeId| #[trigger]
                    self@.roster.addresses.dom().contains(node) && Some(node) != except
                        && self@.roster.addresses[node] == *address;
                assert(order.to_set().contains(node));
                assert(order.contains(node));
                let k = choose|k: int| 0 <= k < order.len() && order[k] == node;
                assert(Some(order[k]) != except);
            }
        }
        false
    }

    /// Whether every member that a joint configuration adds is a learner that
    /// has caught up and answered recently.
    fn additions_ready(&self, new_voters: &NodeSet, at: Time) -> (r: bool)
        ensures
            r == !(exists|added: NodeId| #[trigger]
                new_voters@.contains(added) && !self@.roster.voters.contains(added) && !(
                self@.roster.learners.contains(added) && self@.caught_up(
                    added,
                    self@.commit_index,
                ) && self@.heard_recently(added, at))),
    {
        let ghost order = ascending(new_voters@);
        let count: usize = new_voters.len();
        let mut i: usize = 0;
        while i < count
            invariant
                i <= count == order.len() == new_voters@.len(),
                order == ascending(new_voters@),
                forall|k: int|
                    0 <= k < i ==> (self@.roster.voters.contains(#[trigger] order[k]) || (
                    self@.roster.learners.contains(order[k]) && self@.caught_up(
                        order[k],
                        self@.commit_index,
                    ) && self@.heard_recently(order[k], at))),
            decreases count - i,
        {
            let added = new_voters.at(i);
            if !self.voters.contains(added) {
                if !self.learners.contains(added) || !self.is_caught_up(added, self.commit_index)
                    || !self.contact_is_recent(added, at) {
                    assert(new_voters@.contains(added));
                    return false;
                }
            }
            i += 1;
        }
        assert forall|added: NodeId| #[trigger] new_voters@.contains(added)
            && !self@.roster.voters.contains(added) implies self@.roster.learners.contains(added)
            && self@.caught_up(added, self@.commit_index) && self@.heard_recently(added, at) by {
            assert(order.to_set().contains(added));
            assert(order.contains(added));
            let k = choose|k: int| 0 <= k < order.len() && order[k] == added;
            assert(order[k] == added);
        }
        true
    }

    /// Why an operator's change is refused, if it is.
    fn refuse_admin(&self, envelope: &ConfigEnvelope) -> (refusal: Option<RaftError>)
        requires
            self@.inv(),
        ensures
            refusal == self@.admin_refusal(envelope@),
    {
        let at = envelope.leader_time;
        let due = LogIndex(self.last_index().0 + 1);
        match &envelope.operation {
            ConfigOperation::AddLearner { id, address } => match address {
                None => Some(RaftError::InvalidMessage),
                Some(address) => {
                    if id.0 == 0 || self.joint.is_some() || self.voters.contains(*id)
                        || self.learners.contains(*id) || self.address_in_use(address, None)
                        || self.config_transition_in_flight_before(due) {
                        Some(RaftError::InvalidMessage)
                    } else {
                        None
                    }
                },
            },
            ConfigOperation::RemoveLearner { id } => {
                if self.joint.is_some() || !self.learners.contains(*id)
                    || self.config_transition_in_flight_before(due) {
                    Some(RaftError::InvalidMessage)
                } else {
                    None
                }
            },
            ConfigOperation::UpdateAddress { id, address } => {
                if self.joint.is_some() || (!self.voters.contains(*id) && !self.learners.contains(
                    *id,
                )) || self.address_in_use(address, Some(*id))
                    || self.config_transition_in_flight_before(due) {
                    Some(RaftError::InvalidMessage)
                } else {
                    None
                }
            },
            ConfigOperation::EnterJoint { new_voters } => {
                if self.joint.is_some() || new_voters.is_empty() || new_voters.same(&self.voters)
                    || new_voters.contains(NodeId(0)) || self.config_transition_in_flight_before(
                    due,
                ) {
                    return Some(RaftError::Busy);
                }
                if !self.additions_ready(new_voters, at) {
                    return Some(RaftError::Busy);
                }
                let old_available = self.available_members(&self.voters, at);
                let new_available = self.available_members(new_voters, at);
                if !has_more_than_half(&old_available, &self.voters) || !has_more_than_half(
                    &new_available,
                    new_voters,
                ) {
                    Some(RaftError::Busy)
                } else {
                    None
                }
            },
            ConfigOperation::LeaveJoint { enter_index } => {
                let entered = match self.joint_enter_index {
                    Some(index) => index.0 == enter_index.0,
                    None => false,
                };
                if self.joint.is_none() || !entered || self.commit_index.0 < enter_index.0 {
                    Some(RaftError::Busy)
                } else {
                    None
                }
            },
            ConfigOperation::BeginLeaderTransfer { target } => {
                if self.joint.is_some() || self.transfer.is_some() {
                    return Some(RaftError::TransferInProgress);
                }
                if !self.voters.contains(*target) || (target.0 != self.id.0 && !(
                self.is_caught_up(*target, self.commit_index) && self.contact_is_recent(
                    *target,
                    at,
                ))) {
                    Some(RaftError::Busy)
                } else {
                    None
                }
            },
            ConfigOperation::ActivateFeature { feature } => {
                if *feature != ATOMIC_BATCH_FEATURE || self.active_features & *feature != 0
                    || self.joint.is_some() || self.config_transition_in_flight_before(due) {
                    Some(RaftError::Busy)
                } else {
                    None
                }
            },
            ConfigOperation::FinishLeaderTransfer { .. } => Some(RaftError::InvalidMessage),
        }
    }

    /// Proposes one change that an operator owns. The operator's identity is
    /// part of the entry, so that a lost reply can be resolved without a
    /// second change.
    pub fn propose_admin_config(&mut self, envelope: ConfigEnvelope) -> (result: Result<
        Vec<RaftEffect>,
        RaftError,
    >)
        requires
            old(self)@.inv(),
            old(self)@.headroom(),
        ensures
            settles(result, old(self)@, final(self)@, old(self)@.admin_proposed(envelope@)),
            final(self)@.inv(),
    {
        if self.role != Role::Leader {
            return Err(RaftError::NotLeader);
        }
        match &envelope.admin_session {
            None => return Err(RaftError::InvalidMessage),
            Some(owner) => {
                if owner.0.namespace != SessionNamespace::AdminRequest.code() || owner.1 == 0 {
                    return Err(RaftError::InvalidMessage);
                }
            },
        }
        if let Some(error) = self.refuse_admin(&envelope) {
            return Err(error);
        }
        self.append_config(&envelope)
    }
}

/// One broken invariant of a node.
#[derive(Clone, Debug, PartialEq, Eq)]
pub struct InvariantViolation {
    pub name: &'static str,
    pub detail: String,
}

/// A node's own report on its invariants.
#[derive(Clone, Debug, PartialEq, Eq)]
pub struct RaftInvariantReport {
    pub violations: Vec<InvariantViolation>,
}

/// A broken invariant as mathematics.
#[verifier::ext_equal]
pub struct ViolationView {
    pub name: &'static str,
    pub detail: Seq<char>,
}

impl View for InvariantViolation {
    type V = ViolationView;

    open spec fn view(&self) -> ViolationView {
        ViolationView { name: self.name, detail: self.detail@ }
    }
}

pub open spec fn violation_views(violations: Seq<InvariantViolation>) -> Seq<ViolationView> {
    violations.map_values(|violation: InvariantViolation| violation@)
}

/// A violation that names two indexes.
pub open spec fn between(
    name: &'static str,
    first: u64,
    relation: &'static str,
    second: u64,
) -> ViolationView {
    ViolationView {
        name,
        detail: number_text(first as nat) + relation@ + number_text(second as nat),
    }
}

/// The last index that a log shows, whatever state it is in.
pub open spec fn shown_last(node: NodeView) -> LogIndex {
    if node.log.len() == 0 {
        node.snapshot_index
    } else {
        node.log.last().index
    }
}

/// The gaps among the first `n` entries of a log.
pub open spec fn gaps(log: Seq<EntryView>, n: int) -> Seq<ViolationView>
    decreases n,
{
    if n < 2 {
        Seq::empty()
    } else {
        let before = gaps(log, n - 1);
        let (a, b) = (log[n - 2].index.0, log[n - 1].index.0);
        if b != a + 1 {
            before.push(between("log_contiguous", a, " then ", b))
        } else {
            before
        }
    }
}

/// What a node in this state reports.
pub open spec fn reported(node: NodeView) -> Seq<ViolationView> {
    let applied = if node.applied_index.0 > node.commit_index.0 {
        seq![between("applied_le_commit", node.applied_index.0, " > ", node.commit_index.0)]
    } else {
        Seq::empty()
    };
    let committed = if node.commit_index.0 > shown_last(node).0 {
        seq![between("commit_le_last", node.commit_index.0, " > ", shown_last(node).0)]
    } else {
        Seq::empty()
    };
    applied + committed + gaps(node.log, node.log.len() as int)
}

proof fn lemma_no_gaps(node: NodeView, n: int)
    requires
        node.inv(),
        n <= node.log.len(),
    ensures
        gaps(node.log, n) == Seq::<ViolationView>::empty(),
    decreases n,
{
    if n >= 2 {
        lemma_no_gaps(node, n - 1);
        assert(node.log[n - 2].index.0 == node.snapshot_index.0 + 1 + (n - 2));
        assert(node.log[n - 1].index.0 == node.snapshot_index.0 + 1 + (n - 1));
    }
}

impl Default for RaftInvariantReport {
    fn default() -> (report: Self)
        ensures
            violation_views(report.violations@) == Seq::<ViolationView>::empty(),
    {
        let report = RaftInvariantReport { violations: Vec::new() };
        assert(violation_views(report.violations@) =~= Seq::<ViolationView>::empty());
        report
    }
}

impl RaftInvariantReport {
    #[must_use]
    pub fn is_ok(&self) -> (r: bool)
        ensures
            r == (self.violations@.len() == 0),
    {
        self.violations.len() == 0
    }

    /// Adds a violation that names two indexes.
    fn add_between(
        &mut self,
        name: &'static str,
        first: LogIndex,
        relation: &'static str,
        second: LogIndex,
    )
        ensures
            violation_views(final(self).violations@) == violation_views(
                old(self).violations@,
            ).push(between(name, first.0, relation, second.0)),
    {
        let ghost before = self.violations@;
        let mut detail = String::new();
        append_number(&mut detail, first.0);
        detail.append(relation);
        append_number(&mut detail, second.0);
        let violation = InvariantViolation { name, detail };
        proof {
            assert(violation@.detail =~= between(name, first.0, relation, second.0).detail);
        }
        self.violations.push(violation);
        assert(violation_views(self.violations@) =~= violation_views(before).push(violation@));
    }
}

impl RaftNode {
    /// Checks this node's invariants, whatever state it was put in.
    #[must_use]
    pub fn invariants(&self) -> (report: RaftInvariantReport)
        requires
            forall|i: int|
                0 <= i < self@.log.len() - 1 ==> (#[trigger] self@.log[i]).index.0 < u64::MAX,
        ensures
            violation_views(report.violations@) == reported(self@),
            self@.inv() ==> report.violations@.len() == 0,
    {
        let mut report = RaftInvariantReport::default();
        let last = if self.log.len() == 0 {
            self.snapshot_index
        } else {
            let end: usize = self.log.len() - 1;
            assert(self@.log[end as int] == self.log@[end as int]@);
            self.log[end].index
        };
        assert(last == shown_last(self@));
        if self.applied_index.0 > self.commit_index.0 {
            report.add_between("applied_le_commit", self.applied_index, " > ", self.commit_index);
        }
        if self.commit_index.0 > last.0 {
            report.add_between("commit_le_last", self.commit_index, " > ", last);
        }
        let ghost head = violation_views(report.violations@);
        let ghost log = self@.log;
        let mut n: usize = if self.log.len() == 0 {
            0
        } else {
            1
        };
        assert(head + gaps(log, n as int) =~= head);
        while n < self.log.len()
            invariant
                n <= self.log@.len(),
                n == 0 ==> self.log@.len() == 0,
                log == self@.log,
                log.len() == self.log@.len(),
                forall|i: int| 0 <= i < log.len() - 1 ==> (#[trigger] log[i]).index.0 < u64::MAX,
                violation_views(report.violations@) == head + gaps(log, n as int),
            decreases self.log@.len() - n,
        {
            assert(log[n as int] == self.log@[n as int]@);
            assert(log[n - 1] == self.log@[n - 1]@);
            let first = self.log[n - 1].index;
            let second = self.log[n].index;
            if second.0 != first.0 + 1 {
                let ghost before = gaps(log, n as int);
                report.add_between("log_contiguous", first, " then ", second);
                assert((head + before).push(between("log_contiguous", first.0, " then ", second.0))
                    =~= head + before.push(
                    between("log_contiguous", first.0, " then ", second.0),
                ));
            }
            n += 1;
        }
        proof {
            assert(violation_views(report.violations@) =~= reported(self@));
            if self@.inv() {
                lemma_no_gaps(self@, log.len() as int);
                if log.len() > 0 {
                    assert(log[log.len() - 1].index.0 == self@.snapshot_index.0 + log.len());
                }
                assert(violation_views(report.violations@).len() == 0);
            }
        }
        report
    }
}

} // verus!
