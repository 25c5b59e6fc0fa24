//! How the log moves membership, and how membership, snapshots and transfers
//! are carried across a restart.
use vstd::prelude::*;

use crate::crc::{crc32c, crc_of};
use crate::envelope::envelope_of;
use crate::ids::{LogIndex, NodeId, Term, Time};
use crate::membership::{
    ConfigEnvelope, ConfigOperation, JointMembership, MembershipState, OperationView, SessionKey,
    ATOMIC_BATCH_FEATURE,
};
use crate::node_set::{ascending, lemma_take_next, NodeSet};
use crate::raft_model::{
    activation_logged, entries_upto, in_flight_from, LeadershipTransfer, NodeView,
};
use crate::raft_node::{copy_sides, RaftNode};
use crate::raft_types::{
    config_kind, copy_entries, entry_views, Entry, EntryView, KindView, Message, MessageKind,
    MessageView, RaftError, Role, PROTOCOL_VERSION, SNAPSHOT_CHUNK_BYTES,
};
use crate::text::copy_bytes;

verus! {

/// The durable portion of a leadership transfer. It is a plain value, so that
/// a node snapshot can carry a committed intent across a crash.
#[derive(Clone, Copy, Debug, Eq, PartialEq)]
pub struct LeadershipTransferState {
    pub intent_index: LogIndex,
    pub target: NodeId,
    pub deadline: Time,
    pub finishing: bool,
    pub admin_session: Option<(SessionKey, u64)>,
}

impl LeadershipTransferState {
    pub open spec fn running(self) -> LeadershipTransfer {
        LeadershipTransfer {
            intent_index: self.intent_index,
            target: self.target,
            deadline: self.deadline,
            finishing: self.finishing,
            admin_session: self.admin_session,
        }
    }
}

/// One chunk of a snapshot on its way to a peer.
pub open spec fn chunk_message(
    node: NodeView,
    peer: NodeId,
    index: LogIndex,
    term: Term,
    transfer_id: u64,
    bytes: Seq<u8>,
    from: int,
    to: int,
) -> MessageView {
    MessageView {
        proto_version: PROTOCOL_VERSION,
        from: node.id,
        to: peer,
        term: node.hard_state.term,
        kind: KindView::SnapshotChunk {
            transfer_id,
            last_included_index: index,
            last_included_term: term,
            total_len: bytes.len() as u64,
            snapshot_crc32c: crc_of(bytes),
            offset: from as u64,
            data: bytes.subrange(from, to),
            done: to == bytes.len(),
        },
    }
}

/// Where the chunk that starts at `from` ends.
pub open spec fn chunk_end(len: int, from: int) -> int {
    if from + SNAPSHOT_CHUNK_BYTES <= len {
        from + SNAPSHOT_CHUNK_BYTES
    } else {
        len
    }
}

/// The chunks of a snapshot from an offset on.
pub open spec fn chunks_from(
    node: NodeView,
    peer: NodeId,
    index: LogIndex,
    term: Term,
    transfer_id: u64,
    bytes: Seq<u8>,
    from: int,
) -> Seq<MessageView>
    decreases bytes.len() - from,
{
    if from >= bytes.len() {
        Seq::empty()
    } else {
        let to = chunk_end(bytes.len() as int, from);
        seq![chunk_message(node, peer, index, term, transfer_id, bytes, from, to)] + chunks_from(
            node,
            peer,
            index,
            term,
            transfer_id,
            bytes,
            to,
        )
    }
}

/// What the chunks of a snapshot carry, one behind the other.
pub open spec fn carried_data(chunks: Seq<MessageView>) -> Seq<u8>
    decreases chunks.len(),
{
    if chunks.len() == 0 {
        Seq::empty()
    } else {
        (match chunks[0].kind {
            KindView::SnapshotChunk { data, .. } => data,
            _ => Seq::empty(),
        }) + carried_data(chunks.drop_first())
    }
}

proof fn lemma_chunks(
    node: NodeView,
    peer: NodeId,
    index: LogIndex,
    term: Term,
    transfer_id: u64,
    bytes: Seq<u8>,
    from: int,
)
    requires
        0 <= from <= bytes.len(),
    ensures
        ({
            let chunks = chunks_from(node, peer, index, term, transfer_id, bytes, from);
            &&& from == bytes.len() ==> chunks.len() == 0
            &&& from < bytes.len() ==> from + 262_144 * (chunks.len() - 1) < bytes.len() <= from
                + 262_144 * chunks.len()
            &&& carried_data(chunks) == bytes.subrange(from, bytes.len() as int)
            &&& forall|k: int|
                0 <= k < chunks.len() ==> #[trigger] chunks[k] == chunk_message(
                    node,
                    peer,
                    index,
                    term,
                    transfer_id,
                    bytes,
                    from + 262_144 * k,
                    chunk_end(bytes.len() as int, from + 262_144 * k),
                )
        }),
    decreases bytes.len() - from,
{
    let chunks = chunks_from(node, peer, index, term, transfer_id, bytes, from);
    let len = bytes.len() as int;
    assert(SNAPSHOT_CHUNK_BYTES == 262_144);
    if from < len {
        let to = chunk_end(len, from);
        let rest = chunks_from(node, peer, index, term, transfer_id, bytes, to);
        lemma_chunks(node, peer, index, term, transfer_id, bytes, to);
        assert(chunks.drop_first() =~= rest);
        assert(bytes.subrange(from, to) + bytes.subrange(to, len) =~= bytes.subrange(from, len));
        assert forall|k: int| 0 <= k < chunks.len() implies #[trigger] chunks[k] == chunk_message(
            node,
            peer,
            index,
            term,
            transfer_id,
            bytes,
            from + 262_144 * k,
            chunk_end(len, from + 262_144 * k),
        ) by {
            if k > 0 {
                assert(chunks[k] == rest[k - 1]);
            }
        }
    } else {
        assert(bytes.subrange(from, len) =~= Seq::<u8>::empty());
    }
}

/// The chunks of a snapshot carry it whole: joined in order, their data is the
/// snapshot, each starts where the one before ends, all but the last are full,
/// and only the last says that it is.
pub proof fn law_chunks_carry_the_snapshot(
    node: NodeView,
    peer: NodeId,
    index: LogIndex,
    term: Term,
    transfer_id: u64,
    bytes: Seq<u8>,
)
    ensures
        ({
            let chunks = chunks_from(node, peer, index, term, transfer_id, bytes, 0);
            &&& carried_data(chunks) == bytes
            &&& chunks.len() == 0 <==> bytes.len() == 0
            &&& forall|k: int|
                0 <= k < chunks.len() ==> {
                    let from = 262_144 * k;
                    let to = if k + 1 < chunks.len() {
                        262_144 * (k + 1)
                    } else {
                        bytes.len() as int
                    };
                    &&& from < to <= bytes.len()
                    &&& to - from <= 262_144
                    &&& to == bytes.len() <==> k + 1 == chunks.len()
                    &&& #[trigger] chunks[k] == chunk_message(
                        node,
                        peer,
                        index,
                        term,
                        transfer_id,
                        bytes,
                        from,
                        to,
                    )
                }
        }),
{
    lemma_chunks(node, peer, index, term, transfer_id, bytes, 0);
    assert(SNAPSHOT_CHUNK_BYTES == 262_144);
    assert(bytes.subrange(0, bytes.len() as int) =~= bytes);
}

pub open spec fn message_views(messages: Seq<Message>) -> Seq<MessageView> {
    messages.map_values(|message: Message| message@)
}

impl Clone for RaftNode {
    fn clone(&self) -> (copy: Self)
        ensures
            copy@ == self@,
    {
        RaftNode {
            id: self.id,
            role: self.role,
            hard_state: self.hard_state,
            voters: self.voters.clone(),
            learners: self.learners.clone(),
            joint: copy_sides(&self.joint),
            joint_enter_index: self.joint_enter_index,
            base_voters: self.base_voters.clone(),
            base_learners: self.base_learners.clone(),
            base_joint: copy_sides(&self.base_joint),
            base_joint_enter_index: self.base_joint_enter_index,
            base_addresses: self.base_addresses.clone(),
            addresses: self.addresses.clone(),
            active_features: self.active_features,
            base_active_features: self.base_active_features,
            log: copy_entries(self.log.as_slice()),
            commit_index: self.commit_index,
            applied_index: self.applied_index,
            leader_id: self.leader_id,
            next_index: self.next_index.clone(),
            match_index: self.match_index.clone(),
            last_contact: self.last_contact.clone(),
            retiring_peers: self.retiring_peers.clone(),
            election_deadline: self.election_deadline,
            heartbeat_deadline: self.heartbeat_deadline,
            config: self.config,
            rng: self.rng,
            votes: self.votes.clone(),
            pre_votes: self.pre_votes.clone(),
            heard_quorum: self.heard_quorum.clone(),
            quorum_deadline: self.quorum_deadline,
            read_acks: self.read_acks.clone(),
            read_round: self.read_round,
            read_index: self.read_index,
            snapshot_index: self.snapshot_index,
            snapshot_term: self.snapshot_term,
            next_snapshot_transfer_id: self.next_snapshot_transfer_id,
            transfer: self.transfer,
        }
    }
}

impl RaftNode {
    /// Whether an earlier retained configuration entry still owns the one
    /// permitted multi-entry workflow. Only the prefix before `index` counts.
    pub(crate) fn config_transition_in_flight_before(&self, index: LogIndex) -> (r: bool)
        ensures
            r == self@.in_flight_before(index),
    {
        let mut open: Option<LogIndex> = None;
        let mut i: usize = 0;
        let ghost log = self@.log;
        while i < self.log.len()
            invariant
                i <= self.log@.len(),
                log == self@.log,
                log.len() == self.log@.len(),
                in_flight_from(log, index, 0, None) == in_flight_from(log, index, i as int, open),
            decreases self.log@.len() - i,
        {
            assert(log[i as int] == self.log@[i as int]@);
            let entry = &self.log[i];
            if entry.kind.is_config() && entry.index.0 < index.0 {
                match ConfigEnvelope::decode(entry.payload.as_slice()) {
                    Err(_) => {
                        return true;
                    },
                    Ok(envelope) => match envelope.operation {
                        ConfigOperation::BeginLeaderTransfer { .. } => {
                            if open.is_some() {
                                return true;
                            }
                            open = Some(entry.index);
                        },
                        ConfigOperation::FinishLeaderTransfer { intent_index, .. } => {
                            match open {
                                Some(intent) => {
                                    if intent.0 != intent_index.0 {
                                        return true;
                                    }
                                    open = None;
                                },
                                None => {
                                    return true;
                                },
                            }
                        },
                        _ => {},
                    },
                }
            }
            i += 1;
        }
        open.is_some()
    }

    /// Whether the log already carries the activation of a feature.
    fn activation_in_log(&self, feature: u64) -> (r: bool)
        ensures
            r == activation_logged(self@.log, feature),
    {
        let mut i: usize = 0;
        let ghost log = self@.log;
        while i < self.log.len()
            invariant
                i <= self.log@.len(),
                log == self@.log,
                log.len() == self.log@.len(),
                forall|k: int|
                    0 <= k < i ==> !(config_kind((#[trigger] log[k]).kind) && (envelope_of(
                        log[k].payload,
                    ) matches Some(envelope) && envelope.operation == (
                    OperationView::ActivateFeature { feature }))),
            decreases self.log@.len() - i,
        {
            assert(log[i as int] == self.log@[i as int]@);
            let entry = &self.log[i];
            if entry.kind.is_config() {
                if let Ok(envelope) = ConfigEnvelope::decode(entry.payload.as_slice()) {
                    if let ConfigOperation::ActivateFeature { feature: prior } = envelope.operation {
                        if prior == feature {
                            return true;
                        }
                    }
                }
            }
            i += 1;
        }
        false
    }

    /// Whether a transfer with this intent is under way.
    pub(crate) fn transfer_matches(&self, intent_index: LogIndex) -> (r: bool)
        ensures
            r == self@.transfers(intent_index),
    {
        match &self.transfer {
            Some(transfer) => transfer.intent_index == intent_index,
            None => false,
        }
    }

    /// Makes the joint configuration of the present voters and `new_voters`.
    fn enter(&mut self, new_voters: NodeSet, index: LogIndex)
        ensures
            final(self)@ == (NodeView {
                roster: old(self)@.roster.entered(new_voters@, index),
                ..old(self)@
            }),
    {
        let old_voters = self.voters.clone();
        let union = self.voters.union(&new_voters);
        self.learners = self.learners.difference(&new_voters);
        self.joint = Some((old_voters, new_voters));
        self.joint_enter_index = Some(index);
        self.voters = union;
    }

    /// Projects a configuration entry at the moment it is appended. A refused
    /// entry leaves the node as it was.
    pub(crate) fn apply_config_on_append(&mut self, entry: &Entry) -> (result: Result<(), RaftError>)
        ensures
            match old(self)@.configured(entry@) {
                Ok(next) => result is Ok && final(self)@ == next,
                Err(error) => result == Err::<(), RaftError>(error) && final(self)@ == old(self)@,
            },
            old(self)@.inv() ==> final(self)@.inv(),
            final(self)@.log == old(self)@.log,
            final(self)@.snapshot_index == old(self)@.snapshot_index,
            final(self)@.commit_index == old(self)@.commit_index,
            final(self)@.hard_state == old(self)@.hard_state,
    {
        reveal(NodeView::configured);
        let envelope = match ConfigEnvelope::decode(entry.payload.as_slice()) {
            Ok(envelope) => envelope,
            Err(_) => return Err(RaftError::InvalidMessage),
        };
        match envelope.operation {
            ConfigOperation::AddLearner { id, address } => {
                if self.voters.contains(id) || self.learners.contains(id) {
                    return Err(RaftError::InvalidMessage);
                }
                self.learners.insert(id);
                if let Some(address) = address {
                    self.addresses.insert(id, address);
                }
            },
            ConfigOperation::RemoveLearner { id } => {
                if !self.learners.contains(id) {
                    return Err(RaftError::InvalidMessage);
                }
                self.learners.remove(id);
                self.addresses.remove(id);
                self.last_contact.remove(id);
            },
            ConfigOperation::UpdateAddress { id, address } => {
                if !self.voters.contains(id) && !self.learners.contains(id) {
                    return Err(RaftError::InvalidMessage);
                }
                self.addresses.insert(id, address);
            },
            ConfigOperation::EnterJoint { new_voters } => {
                if self.joint.is_some() || self.config_transition_in_flight_before(entry.index)
                    || new_voters.is_empty() {
                    return Err(RaftError::Busy);
                }
                self.enter(new_voters, entry.index);
            },
            ConfigOperation::LeaveJoint { enter_index } => {
                let new_voters = match &self.joint {
                    Some(sides) => sides.1.clone(),
                    None => return Err(RaftError::InvalidMessage),
                };
                match self.joint_enter_index {
                    Some(index) => {
                        if index.0 != enter_index.0 {
                            return Err(RaftError::InvalidMessage);
                        }
                    },
                    None => return Err(RaftError::InvalidMessage),
                }
                self.voters = new_voters;
                self.last_contact.retain_members(&self.voters, &self.learners);
                // Routes of removed voters are kept until the entry that
                // removes them has been offered to them.
                self.joint = None;
                self.joint_enter_index = None;
                if !self.voters.contains(self.id) {
                    self.role = Role::Follower;
                }
            },
            ConfigOperation::BeginLeaderTransfer { target } => {
                if !self.voters.contains(target) || self.joint.is_some()
                    || self.config_transition_in_flight_before(entry.index) {
                    return Err(RaftError::InvalidMessage);
                }
            },
            ConfigOperation::FinishLeaderTransfer { intent_index, .. } => {
                // The workflow is cleared only when the entry is applied.
                if !self.transfer_matches(intent_index) {
                    return Err(RaftError::InvalidMessage);
                }
            },
            ConfigOperation::ActivateFeature { feature } => {
                if feature != ATOMIC_BATCH_FEATURE || self.active_features & feature != 0
                    || self.activation_in_log(feature) {
                    return Err(RaftError::Busy);
                }
            },
        }
        Ok(())
    }

    /// Owes some members the entry at `index`.
    pub(crate) fn retire(&mut self, leaving: &NodeSet, index: LogIndex)
        ensures
            final(self)@ == (NodeView {
                retiring_peers: old(self)@.retired(leaving@, index),
                ..old(self)@
            }),
    {
        let ghost start = self@;
        let count: usize = leaving.len();
        let ghost order = ascending(leaving@);
        let mut i: usize = 0;
        assert(self@.retiring_peers =~= start.retired(order.take(0).to_set(), index));
        while i < count
            invariant
                i <= count == order.len() == leaving@.len(),
                order == ascending(leaving@),
                start == old(self)@,
                self@ == (NodeView {
                    retiring_peers: start.retired(order.take(i as int).to_set(), index),
                    ..start
                }),
            decreases count - i,
        {
            let peer = leaving.at(i);
            proof {
                lemma_take_next(order, i as int);
            }
            if peer != self.id {
                self.retiring_peers.insert(peer, index);
                assert(self@.retiring_peers =~= start.retired(
                    order.take(i as int + 1).to_set(),
                    index,
                ));
            } else {
                assert(self@.retiring_peers =~= start.retired(
                    order.take(i as int + 1).to_set(),
                    index,
                ));
            }
            i += 1;
        }
        assert(order.take(i as int) =~= order);
    }

    /// Does what a retained configuration entry does when the log is replayed.
    fn replay(&mut self, operation: ConfigOperation, index: LogIndex)
        ensures
            final(self)@ == old(self)@.replayed_one(operation@, index),
    {
        let ghost start = self@;
        match operation {
            ConfigOperation::AddLearner { id, address } => {
                self.learners.insert(id);
                if let Some(address) = address {
                    self.addresses.insert(id, address);
                }
            },
            ConfigOperation::RemoveLearner { id } => {
                self.learners.remove(id);
                self.addresses.remove(id);
                self.last_contact.remove(id);
            },
            ConfigOperation::UpdateAddress { id, address } => {
                self.addresses.insert(id, address);
            },
            ConfigOperation::EnterJoint { new_voters } => {
                self.enter(new_voters, index);
            },
            ConfigOperation::LeaveJoint { enter_index } => {
                match self.joint_enter_index {
                    Some(entered) => {
                        if entered.0 != enter_index.0 {
                            return;
                        }
                    },
                    None => return,
                }
                let sides = copy_sides(&self.joint);
                if let Some((old_voters, new_voters)) = sides {
                    let leaving = old_voters.difference(&new_voters);
                    self.retire(&leaving, index);
                    self.voters = new_voters;
                }
                self.joint = None;
                self.joint_enter_index = None;
                let owed = self.retiring_set();
                let members = self.voters.union(&self.learners);
                self.addresses.retain_members(&members, &owed);
                assert(self@ =~= start.replayed_leave(index));
            },
            _ => {},
        }
    }

    /// Projects the membership that the log describes onto its base.
    pub fn rebuild_membership_from_log(&mut self)
        ensures
            final(self)@ == old(self)@.rebuilt(),
            old(self)@.inv() ==> final(self)@.inv(),
            final(self)@.log == old(self)@.log,
            final(self)@.snapshot_index == old(self)@.snapshot_index,
            final(self)@.commit_index == old(self)@.commit_index,
            final(self)@.hard_state == old(self)@.hard_state,
    {
        reveal(NodeView::rebuilt);
        let ghost start = self@;
        self.voters = self.base_voters.clone();
        self.learners = self.base_learners.clone();
        self.joint = copy_sides(&self.base_joint);
        self.joint_enter_index = self.base_joint_enter_index;
        self.addresses = self.base_addresses.clone();
        self.active_features = self.base_active_features;
        self.retiring_peers.clear();
        let ghost first = NodeView {
            roster: start.base,
            retiring_peers: Map::empty(),
            ..start
        };
        assert(self@ =~= first);
        let mut i: usize = 0;
        let mut readable = true;
        while i < self.log.len() && readable
            invariant
                i <= self.log@.len(),
                start == old(self)@,
                self@.log == start.log,
                start.log.len() == self.log@.len(),
                kept_by_replay(start, self@),
                first.replayed_from(start.log, 0) == (if readable {
                    self@.replayed_from(start.log, i as int)
                } else {
                    self@
                }),
            decreases self.log@.len() - i,
        {
            assert(start.log[i as int] == self.log@[i as int]@);
            if self.log[i].kind.is_config() {
                let index = self.log[i].index;
                match ConfigEnvelope::decode(self.log[i].payload.as_slice()) {
                    Err(_) => {
                        readable = false;
                    },
                    Ok(envelope) => {
                        self.replay(envelope.operation, index);
                    },
                }
            }
            i += 1;
        }
        let ghost replayed = self@;
        self.last_contact.retain_members(&self.voters, &self.learners);
        if !self.voters.contains(self.id) && !self.learners.contains(self.id) {
            self.role = Role::Follower;
        }
        assert(self@ =~= start.rebuilt());
    }

    /// The membership that this node works with.
    #[must_use]
    pub fn membership_state(&self) -> (state: MembershipState)
        ensures
            state@ == self@.membership(),
    {
        let mut addresses = self.addresses.clone();
        addresses.retain_members(&self.voters, &self.learners);
        let joint = match &self.joint {
            Some(sides) => match self.joint_enter_index {
                Some(enter_index) => Some(
                    JointMembership {
                        old_voters: sides.0.clone(),
                        new_voters: sides.1.clone(),
                        enter_index,
                    },
                ),
                None => None,
            },
            None => None,
        };
        MembershipState {
            voters: self.voters.clone(),
            learners: self.learners.clone(),
            joint,
            addresses,
            active_features: self.active_features,
        }
    }

    /// The membership at an applied boundary: only the configuration entries
    /// up to `index` count.
    #[must_use]
    pub fn membership_state_at(&self, index: LogIndex) -> (state: MembershipState)
        ensures
            state@ == self@.cut_at(index).rebuilt().membership(),
    {
        let mut projected = self.clone();
        let ghost log = self@.log;
        let mut kept: Vec<Entry> = Vec::new();
        let mut i: usize = 0;
        assert(log.take(0) =~= Seq::<EntryView>::empty());
        assert(entry_views(kept@) =~= Seq::<EntryView>::empty());
        while i < self.log.len()
            invariant
                i <= self.log@.len(),
                log == self@.log,
                entry_views(kept@) == entries_upto(log.take(i as int), index),
            decreases self.log@.len() - i,
        {
            let ghost before = kept@;
            proof {
                assert(log[i as int] == self.log@[i as int]@);
                assert(log.take(i as int + 1).drop_last() =~= log.take(i as int));
                assert(log.take(i as int + 1).last() == log[i as int]);
            }
            if self.log[i].index.0 <= index.0 {
                kept.push(self.log[i].clone());
                assert(entry_views(kept@) =~= entry_views(before).push(log[i as int]));
            }
            i += 1;
        }
        assert(log.take(i as int) =~= log);
        projected.log = kept;
        assert(projected@ =~= self@.cut_at(index));
        projected.rebuild_membership_from_log();
        projected.membership_state()
    }

    /// Installs the membership base that a snapshot carried.
    pub fn restore_membership_state(&mut self, state: MembershipState) -> (result: Result<
        (),
        RaftError,
    >)
        ensures
            state@.valid() ==> result is Ok && final(self)@ == (NodeView {
                roster: NodeView::roster_of(state@),
                base: NodeView::roster_of(state@),
                ..old(self)@
            }),
            !state@.valid() ==> result == Err::<(), RaftError>(RaftError::InvalidMessage) && final(
                self)@ == old(self)@,
            old(self)@.inv() ==> final(self)@.inv(),
    {
        match state.validate() {
            Ok(_) => {},
            Err(_) => return Err(RaftError::InvalidMessage),
        }
        self.voters = state.voters.clone();
        self.learners = state.learners.clone();
        match &state.joint {
            Some(joint) => {
                self.joint = Some((joint.old_voters.clone(), joint.new_voters.clone()));
                self.joint_enter_index = Some(joint.enter_index);
            },
            None => {
                self.joint = None;
                self.joint_enter_index = None;
            },
        }
        self.addresses = state.addresses.clone();
        self.active_features = state.active_features;
        self.base_joint = copy_sides(&self.joint);
        self.base_joint_enter_index = self.joint_enter_index;
        self.base_voters = state.voters;
        self.base_learners = state.learners;
        self.base_addresses = state.addresses;
        self.base_active_features = state.active_features;
        Ok(())
    }

    /// Projects the configuration entries above a newly installed snapshot
    /// onto that snapshot's membership.
    pub fn replay_retained_membership_suffix(&mut self)
        ensures
            final(self)@ == old(self)@.rebuilt(),
            old(self)@.inv() ==> final(self)@.inv(),
    {
        self.rebuild_membership_from_log();
    }

    /// Replaces the log up to `index` by a snapshot.
    pub fn install_snapshot_state(&mut self, index: LogIndex, term: Term)
        requires
            old(self)@.inv(),
            index.0 < u64::MAX,
        ensures
            final(self)@ == old(self)@.snapshot_installed(index, term),
            final(self)@.inv(),
    {
        let ghost start = self@;
        if index.0 < self.snapshot_index.0 || (index == self.snapshot_index && term
            != self.snapshot_term) {
            return;
        }
        let ghost covered = index.0 - self.snapshot_index.0;
        let mut kept: Vec<Entry> = Vec::new();
        let mut i: usize = 0;
        while i < self.log.len()
            invariant
                i <= self.log@.len(),
                self@ == start,
                start.inv(),
                covered == index.0 - start.snapshot_index.0,
                covered >= 0,
                kept@.len() == (if i <= covered {
                    0int
                } else {
                    i - covered
                }),
                forall|k: int|
                    0 <= k < kept@.len() ==> #[trigger] kept@[k]@ == start.log[covered + k],
            decreases self.log@.len() - i,
        {
            assert(start.log[i as int] == self.log@[i as int]@);
            assert(start.log[i as int].index.0 == start.snapshot_index.0 + 1 + i);
            if self.log[i].index.0 > index.0 {
                kept.push(self.log[i].clone());
            }
            i += 1;
        }
        proof {
            if covered <= start.log.len() {
                assert(entry_views(kept@) =~= start.log.skip(covered));
            } else {
                assert(entry_views(kept@) =~= Seq::<EntryView>::empty());
            }
        }
        self.log = kept;
        if self.commit_index.0 < index.0 {
            self.commit_index = index;
        }
        if self.applied_index.0 < index.0 {
            self.applied_index = index;
        }
        self.snapshot_index = index;
        self.snapshot_term = term;
        assert(self@ =~= start.snapshot_installed(index, term));
    }

    #[must_use]
    pub fn leadership_transfer_state(&self) -> (state: Option<LeadershipTransferState>)
        ensures
            match state {
                Some(state) => self@.transfer == Some(state.running()),
                None => self@.transfer is None,
            },
    {
        match &self.transfer {
            Some(transfer) => Some(
                LeadershipTransferState {
                    intent_index: transfer.intent_index,
                    target: transfer.target,
                    deadline: transfer.deadline,
                    finishing: transfer.finishing,
                    admin_session: transfer.admin_session,
                },
            ),
            None => None,
        }
    }

    /// Restores the transfer that a snapshot carried. The membership has to be
    /// restored first: the target must be a voter of it.
    pub fn restore_leadership_transfer(
        &mut self,
        transfer: Option<LeadershipTransferState>,
    ) -> (result: Result<(), RaftError>)
        ensures
            ({
                let refused = transfer matches Some(state) && (state.intent_index.0 == 0 || !old(
                    self)@.roster.voters.contains(state.target));
                &&& refused ==> result == Err::<(), RaftError>(RaftError::InvalidMessage) && final(
                    self)@ == old(self)@
                &&& !refused ==> result is Ok && final(self)@ == (NodeView {
                    transfer: match transfer {
                        Some(state) => Some(state.running()),
                        None => None,
                    },
                    ..old(self)@
                })
            }),
            old(self)@.inv() ==> final(self)@.inv(),
    {
        match transfer {
            None => {
                self.transfer = None;
                Ok(())
            },
            Some(state) => {
                if state.intent_index.0 == 0 || !self.voters.contains(state.target) {
                    return Err(RaftError::InvalidMessage);
                }
                self.transfer = Some(
                    LeadershipTransfer {
                        intent_index: state.intent_index,
                        target: state.target,
                        deadline: state.deadline,
                        finishing: state.finishing,
                        admin_session: state.admin_session,
                    },
                );
                Ok(())
            },
        }
    }

    /// The next transfer id. Ids start at one and are never zero.
    #[must_use]
    pub fn allocate_snapshot_transfer_id(&mut self) -> (transfer_id: u64)
        requires
            old(self)@.inv(),
        ensures
            transfer_id == old(self)@.next_snapshot_transfer_id,
            transfer_id != 0,
            final(self)@ == (NodeView {
                next_snapshot_transfer_id: crate::raft_model::bumped(
                    old(self)@.next_snapshot_transfer_id,
                ),
                ..old(self)@
            }),
            final(self)@.inv(),
    {
        let transfer_id: u64 = self.next_snapshot_transfer_id;
        if transfer_id < u64::MAX {
            self.next_snapshot_transfer_id = transfer_id + 1;
        }
        transfer_id
    }

    /// The chunks that carry a snapshot to a peer under a new transfer id.
    #[must_use]
    pub fn snapshot_chunks(
        &mut self,
        peer: NodeId,
        index: LogIndex,
        term: Term,
        bytes: &[u8],
    ) -> (messages: Vec<Message>)
        requires
            old(self)@.inv(),
        ensures
            forall|k: int|
                0 <= k < messages@.len() ==> ((#[trigger] message_views(messages@)[k]).kind matches
                    KindView::SnapshotChunk { transfer_id, .. } && transfer_id == old(
                    self,
                )@.next_snapshot_transfer_id && transfer_id != 0),
            message_views(messages@) == chunks_from(
                old(self)@,
                peer,
                index,
                term,
                old(self)@.next_snapshot_transfer_id,
                bytes@,
                0,
            ),
            final(self)@ == (NodeView {
                next_snapshot_transfer_id: if bytes@.len() == 0 {
                    old(self)@.next_snapshot_transfer_id
                } else {
                    crate::raft_model::bumped(old(self)@.next_snapshot_transfer_id)
                },
                ..old(self)@
            }),
            final(self)@.inv(),
    {
        let ghost start = self@;
        let mut messages: Vec<Message> = Vec::new();
        assert(message_views(messages@) =~= Seq::<MessageView>::empty());
        if bytes.len() == 0 {
            return messages;
        }
        let transfer_id: u64 = self.allocate_snapshot_transfer_id();
        let total: usize = bytes.len();
        let snapshot_crc32c: u32 = crc32c(bytes);
        let mut offset: usize = 0;
        let ghost all = chunks_from(start, peer, index, term, transfer_id, bytes@, 0);
        assert(Seq::<MessageView>::empty() + all =~= all);
        while offset < total
            invariant
                offset <= total == bytes@.len(),
                snapshot_crc32c == crc_of(bytes@),
                self@.id == start.id,
                self@.hard_state == start.hard_state,
                all == message_views(messages@) + chunks_from(
                    start,
                    peer,
                    index,
                    term,
                    transfer_id,
                    bytes@,
                    offset as int,
                ),
            decreases total - offset,
        {
            let end: usize = if total - offset >= SNAPSHOT_CHUNK_BYTES {
                offset + SNAPSHOT_CHUNK_BYTES
            } else {
                total
            };
            let data = vstd::slice::slice_subrange(bytes, offset, end);
            let ghost before = message_views(messages@);
            let message = Message {
                proto_version: PROTOCOL_VERSION,
                from: self.id,
                to: peer,
                term: self.hard_state.term,
                kind: MessageKind::SnapshotChunk {
                    transfer_id,
                    last_included_index: index,
                    last_included_term: term,
                    total_len: total as u64,
                    snapshot_crc32c,
                    offset: offset as u64,
                    data: copy_bytes(data),
                    done: end == total,
                },
            };
            messages.push(message);
            proof {
                let rest = chunks_from(start, peer, index, term, transfer_id, bytes@, end as int);
                assert(message_views(messages@) =~= before.push(message@));
                assert(before + (seq![message@] + rest) =~= before.push(message@) + rest);
            }
            offset = end;
        }
        assert(message_views(messages@) + Seq::<MessageView>::empty() =~= message_views(messages@));
        proof {
            law_chunks_carry_the_snapshot(start, peer, index, term, transfer_id, bytes@);
        }
        messages
    }
}

/// What a replay leaves alone.
pub open spec fn kept_by_replay(before: NodeView, after: NodeView) -> bool {
    &&& after.log == before.log
    &&& after.snapshot_index == before.snapshot_index
    &&& after.applied_index == before.applied_index
    &&& after.commit_index == before.commit_index
    &&& after.hard_state == before.hard_state
    &&& after.config == before.config
    &&& after.id == before.id
    &&& after.next_snapshot_transfer_id == before.next_snapshot_transfer_id
}

} // verus!
