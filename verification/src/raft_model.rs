//! The Raft node as a mathematical state machine: every transition is a
//! function from a state to the next state and the effects it asks for.
use vstd::prelude::*;

use crate::envelope::{envelope_bytes, envelope_of};
use crate::ids::{Duration, LogIndex, NodeId, Term, Time, TimerId};
use crate::membership::{
    EnvelopeView, JointView, MembershipView, OperationView, PeerAddress, SessionKey,
    TransferResult, ATOMIC_BATCH_FEATURE,
};
use crate::node_set::ascending;
use crate::raft_types::{
    config_kind, known_version, AppendResponse, AppendView, EffectView, EntryKind, EntryView,
    HardState, KindView, MessageView, RaftConfig, RaftError, Role, SnapshotRejectReason, TimerKind,
    PROTOCOL_VERSION, SEMANTIC_VERSION_V3, SNAPSHOT_CHUNK_BYTES,
};
use crate::rng::Xoshiro256pp;
use crate::wire::MAX_CODEC_BYTES;

verus! {

/// The durable part of a leadership transfer, as the running node keeps it.
#[derive(Clone, Copy, Debug, PartialEq, Eq)]
pub struct LeadershipTransfer {
    pub intent_index: LogIndex,
    pub target: NodeId,
    pub deadline: Time,
    pub finishing: bool,
    pub admin_session: Option<(SessionKey, u64)>,
}

/// A configuration as the log projects it: who votes, who learns, where they
/// are and which features are in use.
#[verifier::ext_equal]
pub struct RosterView {
    pub voters: Set<NodeId>,
    pub learners: Set<NodeId>,
    pub joint: Option<(Set<NodeId>, Set<NodeId>)>,
    pub joint_enter_index: Option<LogIndex>,
    pub addresses: Map<NodeId, PeerAddress>,
    pub active_features: u64,
}

/// The state of a Raft node.
#[verifier::ext_equal]
pub struct NodeView {
    pub id: NodeId,
    pub role: Role,
    pub hard_state: HardState,
    pub roster: RosterView,
    pub base: RosterView,
    pub log: Seq<EntryView>,
    pub commit_index: LogIndex,
    pub applied_index: LogIndex,
    pub leader_id: Option<NodeId>,
    pub next_index: Map<NodeId, LogIndex>,
    pub match_index: Map<NodeId, LogIndex>,
    pub last_contact: Map<NodeId, Time>,
    pub retiring_peers: Map<NodeId, LogIndex>,
    pub election_deadline: Time,
    pub heartbeat_deadline: Time,
    pub config: RaftConfig,
    pub rng: Xoshiro256pp,
    pub votes: Set<NodeId>,
    pub pre_votes: Set<NodeId>,
    pub heard_quorum: Set<NodeId>,
    pub quorum_deadline: Time,
    pub read_acks: Set<NodeId>,
    pub read_round: u64,
    pub read_index: Option<LogIndex>,
    pub snapshot_index: LogIndex,
    pub snapshot_term: Term,
    pub next_snapshot_transfer_id: u64,
    pub transfer: Option<LeadershipTransfer>,
}

/// A transition: the next state and what the host is asked to do, in order.
pub type Step = (NodeView, Seq<EffectView>);

/// Whether more than half of `members` are among `acks`.
pub open spec fn more_than_half(acks: Set<NodeId>, members: Set<NodeId>) -> bool {
    2 * acks.intersect(members).len() > members.len()
}

/// `value + 1`, or the largest number where there is no next one.
pub open spec fn bumped(value: u64) -> u64 {
    if value < u64::MAX {
        (value + 1) as u64
    } else {
        u64::MAX
    }
}

pub open spec fn larger(a: u64, b: u64) -> u64 {
    if a >= b {
        a
    } else {
        b
    }
}

pub open spec fn smaller(a: u64, b: u64) -> u64 {
    if a <= b {
        a
    } else {
        b
    }
}

/// The transfer that is in flight in the log before `index`, scanned from
/// position `i` with `open` as the intent found so far. A change that cannot
/// be read, a second intent and a stray end all keep the log in flight.
pub open spec fn in_flight_from(
    log: Seq<EntryView>,
    index: LogIndex,
    i: int,
    open: Option<LogIndex>,
) -> bool
    decreases log.len() - i,
{
    if i < 0 || i >= log.len() {
        open is Some
    } else {
        let entry = log[i];
        if !config_kind(entry.kind) || entry.index.0 >= index.0 {
            in_flight_from(log, index, i + 1, open)
        } else {
            match envelope_of(entry.payload) {
                None => true,
                Some(envelope) => match envelope.operation {
                    OperationView::BeginLeaderTransfer { .. } => open is Some || in_flight_from(
                        log,
                        index,
                        i + 1,
                        Some(entry.index),
                    ),
                    OperationView::FinishLeaderTransfer { intent_index, .. } => open != Some(
                        intent_index,
                    ) || in_flight_from(log, index, i + 1, None),
                    _ => in_flight_from(log, index, i + 1, open),
                },
            }
        }
    }
}

/// Whether the log already carries the activation of a feature.
pub open spec fn activation_logged(log: Seq<EntryView>, feature: u64) -> bool {
    exists|i: int|
        0 <= i < log.len() && config_kind((#[trigger] log[i]).kind) && (envelope_of(
            log[i].payload,
        ) matches Some(envelope) && envelope.operation == (OperationView::ActivateFeature {
            feature,
        }))
}

/// The entries with indexes up to `index`.
pub open spec fn entries_upto(log: Seq<EntryView>, index: LogIndex) -> Seq<EntryView>
    decreases log.len(),
{
    if log.len() == 0 {
        Seq::empty()
    } else {
        let before = entries_upto(log.drop_last(), index);
        if log.last().index.0 <= index.0 {
            before.push(log.last())
        } else {
            before
        }
    }
}

impl RosterView {
    /// The joint configuration of the present voters and `new_voters`.
    pub open spec fn entered(self, new_voters: Set<NodeId>, index: LogIndex) -> RosterView {
        RosterView {
            voters: self.voters.union(new_voters),
            learners: self.learners.difference(new_voters),
            joint: Some((self.voters, new_voters)),
            joint_enter_index: Some(index),
            ..self
        }
    }

    pub open spec fn has(self, id: NodeId) -> bool {
        self.voters.contains(id) || self.learners.contains(id)
    }

    /// Whether a set of members decides: more than half of the voters, or of
    /// both sides of a joint configuration.
    pub open spec fn quorum(self, acks: Set<NodeId>) -> bool {
        match self.joint {
            Some(sides) => more_than_half(acks, sides.0) && more_than_half(acks, sides.1),
            None => more_than_half(acks, self.voters),
        }
    }
}

impl NodeView {
    pub open spec fn last_index(self) -> LogIndex {
        LogIndex((self.snapshot_index.0 + self.log.len()) as u64)
    }

    pub open spec fn last_term(self) -> Term {
        if self.log.len() == 0 {
            self.snapshot_term
        } else {
            self.log.last().term
        }
    }

    /// Whether the log holds an entry with this index.
    pub open spec fn holds(self, index: LogIndex) -> bool {
        self.snapshot_index.0 < index.0 <= self.snapshot_index.0 + self.log.len()
    }

    pub open spec fn entry(self, index: LogIndex) -> EntryView {
        self.log[index.0 - self.snapshot_index.0 - 1]
    }

    pub open spec fn term_at(self, index: LogIndex) -> Option<Term> {
        if index.0 == 0 {
            Some(Term(0))
        } else if index == self.snapshot_index {
            Some(self.snapshot_term)
        } else if self.holds(index) {
            Some(self.entry(index).term)
        } else {
            None
        }
    }

    /// What every transition keeps: the log runs on from the snapshot without
    /// a gap, and what is applied is committed and what is committed is there.
    pub open spec fn inv(self) -> bool {
        &&& forall|i: int|
            0 <= i < self.log.len() ==> (#[trigger] self.log[i]).index.0 == self.snapshot_index.0
                + 1 + i
        &&& self.snapshot_index.0 <= self.applied_index.0
        &&& self.applied_index.0 <= self.commit_index.0
        &&& self.commit_index.0 <= self.snapshot_index.0 + self.log.len()
        &&& self.snapshot_index.0 + self.log.len() < u64::MAX
        &&& self.config.election_min.0 < u64::MAX - 1
        &&& self.config.election_max.0 < u64::MAX
        &&& self.next_snapshot_transfer_id != 0
    }

    /// Whether terms and indexes are far enough from the end of their range
    /// for one more transition.
    pub open spec fn headroom(self) -> bool {
        &&& self.hard_state.term.0 < u64::MAX
        &&& self.snapshot_index.0 + self.log.len() < u64::MAX - 3
    }

    pub open spec fn voting(self) -> bool {
        self.roster.voters.contains(self.id)
    }

    /// The passive role of this node.
    pub open spec fn resting_role(self) -> Role {
        if self.voting() {
            Role::Follower
        } else {
            Role::Learner
        }
    }

    /// The state with a new election deadline, drawn from the configured span.
    pub open spec fn election_reset(self, now: Time) -> NodeView {
        let low = self.config.election_min.0;
        let high = larger(self.config.election_max.0, (low + 1) as u64);
        NodeView {
            election_deadline: now.later(Duration(self.rng.drawn(low, (high + 1) as u64))),
            rng: self.rng.advanced(),
            ..self
        }
    }

    /// Whether a candidate's log is at least as far as this one.
    pub open spec fn up_to_date(self, index: LogIndex, term: Term) -> bool {
        term.0 > self.last_term().0 || (term == self.last_term() && index.0
            >= self.last_index().0)
    }

    /// The members known to hold the entry at `index`.
    pub open spec fn replicated(self, index: int) -> Set<NodeId> {
        Set::new(
            |member: NodeId|
                member == self.id || (self.match_index.dom().contains(member)
                    && self.match_index[member].0 >= index),
        )
    }

    /// Whether an index may be committed by counting: a quorum holds it and it
    /// was appended in the current term.
    pub open spec fn committable(self, index: int) -> bool {
        &&& self.roster.quorum(self.replicated(index))
        &&& self.term_at(LogIndex(index as u64)) == Some(self.hard_state.term)
    }

    /// The largest committable index up to `upto`, or the present commit index.
    pub open spec fn commit_target(self, upto: int) -> int
        decreases upto,
    {
        if upto <= self.commit_index.0 {
            self.commit_index.0 as int
        } else if self.committable(upto) {
            upto
        } else {
            self.commit_target(upto - 1)
        }
    }

    /// Everything committed is applied.
    #[verifier::opaque]
    pub open spec fn applied(self) -> Step {
        if self.applied_index.0 < self.commit_index.0 {
            (
                NodeView { applied_index: self.commit_index, ..self },
                seq![
                    EffectView::Apply(
                        self.log.subrange(
                            self.applied_index.0 - self.snapshot_index.0,
                            self.commit_index.0 - self.snapshot_index.0,
                        ),
                    ),
                ],
            )
        } else {
            (self, Seq::empty())
        }
    }

    /// The commit index moves to the largest committable index.
    #[verifier::opaque]
    pub open spec fn advanced(self) -> Step {
        let target = self.commit_target(self.last_index().0 as int);
        if target > self.commit_index.0 {
            NodeView { commit_index: LogIndex(target as u64), ..self }.applied()
        } else {
            (self, Seq::empty())
        }
    }

    pub open spec fn message(self, to: NodeId, kind: KindView) -> EffectView {
        EffectView::Send(
            MessageView {
                proto_version: PROTOCOL_VERSION,
                from: self.id,
                to,
                term: self.hard_state.term,
                kind,
            },
        )
    }

    /// Where replication to a peer resumes.
    pub open spec fn next_for(self, peer: NodeId) -> LogIndex {
        if self.next_index.dom().contains(peer) {
            self.next_index[peer]
        } else {
            LogIndex((self.last_index().0 + 1) as u64)
        }
    }

    /// The entries from `next` on, as many as one append carries.
    pub open spec fn batch_from(self, next: LogIndex) -> Seq<EntryView> {
        let wanted = next.0 - self.snapshot_index.0 - 1;
        let from = if wanted < 0 {
            0
        } else if wanted > self.log.len() {
            self.log.len() as int
        } else {
            wanted
        };
        let to = if from + self.config.max_entries_per_append <= self.log.len() {
            from + self.config.max_entries_per_append
        } else {
            self.log.len() as int
        };
        self.log.subrange(from, to)
    }

    /// The append that a peer is due.
    #[verifier::opaque]
    pub open spec fn append_for(self, peer: NodeId) -> EffectView {
        let next = self.next_for(peer);
        let prev = LogIndex(
            if next.0 == 0 {
                0
            } else {
                (next.0 - 1) as u64
            },
        );
        self.message(
            peer,
            KindView::AppendReq(
                AppendView {
                    prev_index: prev,
                    prev_term: match self.term_at(prev) {
                        Some(term) => term,
                        None => Term(0),
                    },
                    entries: self.batch_from(next),
                    leader_commit: self.commit_index,
                    read_round: self.read_round,
                },
            ),
        )
    }

    /// The appends that some peers are due, leaving this node out.
    pub open spec fn appends_for(self, peers: Seq<NodeId>) -> Seq<EffectView>
        decreases peers.len(),
    {
        if peers.len() == 0 {
            Seq::empty()
        } else {
            let head = self.appends_for(peers.drop_last());
            if peers.last() == self.id {
                head
            } else {
                head.push(self.append_for(peers.last()))
            }
        }
    }

    /// The appends that every voter, learner and retiring peer is due.
    #[verifier::opaque]
    pub open spec fn broadcast(self) -> Seq<EffectView> {
        self.appends_for(ascending(self.roster.voters)) + self.appends_for(
            ascending(self.roster.learners),
        ) + self.appends_for(ascending(self.retiring_peers.dom()))
    }

    /// Whether a transfer or an unreadable change is in flight before `index`.
    pub open spec fn in_flight_before(self, index: LogIndex) -> bool {
        in_flight_from(self.log, index, 0, None)
    }

    /// Whether a transfer with this intent is under way.
    pub open spec fn transfers(self, intent_index: LogIndex) -> bool {
        self.transfer matches Some(transfer) && transfer.intent_index == intent_index
    }

    /// The projection of a configuration entry at the moment it is appended.
    #[verifier::opaque]
    pub open spec fn configured(self, entry: EntryView) -> Result<NodeView, RaftError> {
        match envelope_of(entry.payload) {
            None => Err(RaftError::InvalidMessage),
            Some(envelope) => match envelope.operation {
                OperationView::AddLearner { id, address } => if self.roster.has(id) {
                    Err(RaftError::InvalidMessage)
                } else {
                    Ok(
                        NodeView {
                            roster: RosterView {
                                learners: self.roster.learners.insert(id),
                                addresses: match address {
                                    Some(address) => self.roster.addresses.insert(id, address),
                                    None => self.roster.addresses,
                                },
                                ..self.roster
                            },
                            ..self
                        },
                    )
                },
                OperationView::RemoveLearner { id } => if !self.roster.learners.contains(id) {
                    Err(RaftError::InvalidMessage)
                } else {
                    Ok(
                        NodeView {
                            roster: RosterView {
                                learners: self.roster.learners.remove(id),
                                addresses: self.roster.addresses.remove(id),
                                ..self.roster
                            },
                            last_contact: self.last_contact.remove(id),
                            ..self
                        },
                    )
                },
                OperationView::UpdateAddress { id, address } => if !self.roster.has(id) {
                    Err(RaftError::InvalidMessage)
                } else {
                    Ok(
                        NodeView {
                            roster: RosterView {
                                addresses: self.roster.addresses.insert(id, address),
                                ..self.roster
                            },
                            ..self
                        },
                    )
                },
                OperationView::EnterJoint { new_voters } => if self.roster.joint is Some
                    || self.in_flight_before(entry.index) || new_voters == Set::<
                    NodeId,
                >::empty() {
                    Err(RaftError::Busy)
                } else {
                    Ok(
                        NodeView {
                            roster: self.roster.entered(new_voters, entry.index),
                            ..self
                        },
                    )
                },
                OperationView::LeaveJoint { enter_index } => match self.roster.joint {
                    None => Err(RaftError::InvalidMessage),
                    Some(sides) => if self.roster.joint_enter_index != Some(enter_index) {
                        Err(RaftError::InvalidMessage)
                    } else {
                        Ok(
                            NodeView {
                                roster: RosterView {
                                    voters: sides.1,
                                    joint: None,
                                    joint_enter_index: None,
                                    ..self.roster
                                },
                                last_contact: self.last_contact.restrict(
                                    sides.1.union(self.roster.learners),
                                ),
                                role: if sides.1.contains(self.id) {
                                    self.role
                                } else {
                                    Role::Follower
                                },
                                ..self
                            },
                        )
                    },
                },
                OperationView::BeginLeaderTransfer { target } => if !self.roster.voters.contains(
                    target,
                ) || self.roster.joint is Some || self.in_flight_before(entry.index) {
                    Err(RaftError::InvalidMessage)
                } else {
                    Ok(self)
                },
                OperationView::FinishLeaderTransfer { intent_index, .. } => if self.transfers(
                    intent_index,
                ) {
                    Ok(self)
                } else {
                    Err(RaftError::InvalidMessage)
                },
                OperationView::ActivateFeature { feature } => if feature != ATOMIC_BATCH_FEATURE
                    || self.roster.active_features & feature != 0 || activation_logged(
                    self.log,
                    feature,
                ) {
                    Err(RaftError::Busy)
                } else {
                    Ok(self)
                },
            },
        }
    }

    /// What a retained configuration entry does when the log is replayed.
    pub open spec fn replayed_one(self, operation: OperationView, index: LogIndex) -> NodeView {
        match operation {
            OperationView::AddLearner { id, address } => NodeView {
                roster: RosterView {
                    learners: self.roster.learners.insert(id),
                    addresses: match address {
                        Some(address) => self.roster.addresses.insert(id, address),
                        None => self.roster.addresses,
                    },
                    ..self.roster
                },
                ..self
            },
            OperationView::RemoveLearner { id } => NodeView {
                roster: RosterView {
                    learners: self.roster.learners.remove(id),
                    addresses: self.roster.addresses.remove(id),
                    ..self.roster
                },
                last_contact: self.last_contact.remove(id),
                ..self
            },
            OperationView::UpdateAddress { id, address } => NodeView {
                roster: RosterView {
                    addresses: self.roster.addresses.insert(id, address),
                    ..self.roster
                },
                ..self
            },
            OperationView::EnterJoint { new_voters } => NodeView {
                roster: self.roster.entered(new_voters, index),
                ..self
            },
            OperationView::LeaveJoint { enter_index } => if self.roster.joint_enter_index != Some(
                enter_index,
            ) {
                self
            } else {
                self.replayed_leave(index)
            },
            _ => self,
        }
    }

    /// The end of a joint configuration when the log is replayed: the voters
    /// that leave are still owed the entry that removes them.
    pub open spec fn replayed_leave(self, index: LogIndex) -> NodeView {
        let voters = match self.roster.joint {
            Some(sides) => sides.1,
            None => self.roster.voters,
        };
        let retiring = match self.roster.joint {
            Some(sides) => self.retired(sides.0.difference(sides.1), index),
            None => self.retiring_peers,
        };
        NodeView {
            roster: RosterView {
                voters,
                joint: None,
                joint_enter_index: None,
                addresses: self.roster.addresses.restrict(
                    voters.union(self.roster.learners).union(retiring.dom()),
                ),
                ..self.roster
            },
            retiring_peers: retiring,
            ..self
        }
    }

    /// The retiring peers once `leaving` are owed the entry at `index`.
    pub open spec fn retired(self, leaving: Set<NodeId>, index: LogIndex) -> Map<NodeId, LogIndex> {
        self.retiring_peers.union_prefer_right(
            Map::new(|peer: NodeId| leaving.contains(peer) && peer != self.id, |peer: NodeId| index),
        )
    }

    /// The replay of log entries from position `i` on. It stops at a change
    /// that cannot be read.
    pub open spec fn replayed_from(self, log: Seq<EntryView>, i: int) -> NodeView
        decreases log.len() - i,
    {
        if i < 0 || i >= log.len() {
            self
        } else if !config_kind(log[i].kind) {
            self.replayed_from(log, i + 1)
        } else {
            match envelope_of(log[i].payload) {
                None => self,
                Some(envelope) => self.replayed_one(envelope.operation, log[i].index).replayed_from(
                    log,
                    i + 1,
                ),
            }
        }
    }

    /// The membership that the log projects onto its base.
    #[verifier::opaque]
    pub open spec fn rebuilt(self) -> NodeView {
        let replayed = NodeView {
            roster: self.base,
            retiring_peers: Map::empty(),
            ..self
        }.replayed_from(self.log, 0);
        NodeView {
            last_contact: replayed.last_contact.restrict(
                replayed.roster.voters.union(replayed.roster.learners),
            ),
            role: if replayed.roster.has(self.id) {
                replayed.role
            } else {
                Role::Follower
            },
            ..replayed
        }
    }
}

/// The outcome of taking the entries of an append one by one: either all were
/// dealt with, or one of them ended the append.
pub enum Absorbed {
    Done { state: NodeView, effects: Seq<EffectView>, appended: Seq<EntryView> },
    Stopped { state: NodeView, effects: Seq<EffectView> },
}

impl NodeView {
    /// The members that leave when a joint configuration ends.
    pub open spec fn leaving(self, operation: OperationView) -> Set<NodeId> {
        match (operation, self.roster.joint) {
            (OperationView::LeaveJoint { .. }, Some(sides)) => sides.0.difference(sides.1),
            _ => Set::empty(),
        }
    }

    /// The entry that a leader appends for a configuration change.
    pub open spec fn config_entry(self, envelope: EnvelopeView) -> EntryView {
        EntryView {
            term: self.hard_state.term,
            index: LogIndex(bumped(self.last_index().0)),
            kind: if envelope.operation is ActivateFeature {
                EntryKind::ConfigV3
            } else {
                EntryKind::Config
            },
            payload: envelope_bytes(envelope),
        }
    }

    /// A leader appends a configuration change. Voters that it removes stay
    /// replication targets for the entry that removes them.
    #[verifier::opaque]
    pub open spec fn config_appended(self, envelope: EnvelopeView) -> Result<Step, RaftError> {
        let leaving = self.leaving(envelope.operation);
        let entry = self.config_entry(envelope);
        match self.configured(entry) {
            Err(error) => Err(error),
            Ok(projected) => {
                let next = NodeView {
                    log: projected.log.push(entry),
                    retiring_peers: projected.retired(leaving, entry.index),
                    ..projected
                };
                Ok(
                    (
                        next,
                        seq![EffectView::PersistEntries(seq![entry])] + next.broadcast()
                            + next.appends_for(ascending(leaving)),
                    ),
                )
            },
        }
    }

    /// A leader appends the end of the transfer that is under way.
    #[verifier::opaque]
    pub open spec fn transfer_finished(self, result: TransferResult, leader_time: Time) -> Result<
        Step,
        RaftError,
    > {
        match self.transfer {
            None => Err(RaftError::InvalidMessage),
            Some(transfer) => if transfer.finishing {
                Err(RaftError::TransferInProgress)
            } else {
                NodeView {
                    transfer: Some(LeadershipTransfer { finishing: true, ..transfer }),
                    ..self
                }.config_appended(
                    EnvelopeView {
                        admin_session: transfer.admin_session,
                        leader_time,
                        operation: OperationView::FinishLeaderTransfer {
                            intent_index: transfer.intent_index,
                            result,
                        },
                    },
                )
            },
        }
    }

    /// Whether the target of a committed transfer holds its intent.
    pub open spec fn nudge_due(self) -> bool {
        self.transfer matches Some(transfer) && {
            &&& self.role is Leader
            &&& !transfer.finishing
            &&& transfer.target != self.id
            &&& self.commit_index.0 >= transfer.intent_index.0
            &&& self.match_index.dom().contains(transfer.target)
            &&& self.match_index[transfer.target].0 >= transfer.intent_index.0
        }
    }

    /// The request to campaign that a caught-up transfer target is due.
    pub open spec fn nudge(self) -> Seq<EffectView> {
        if self.nudge_due() {
            let transfer = self.transfer->0;
            seq![
                self.message(
                    transfer.target,
                    KindView::TimeoutNow { intent_index: transfer.intent_index },
                ),
            ]
        } else {
            Seq::empty()
        }
    }

    /// The members that a leader replicates to.
    pub open spec fn followers(self) -> Set<NodeId> {
        self.roster.voters.union(self.roster.learners).remove(self.id)
    }

    /// The state of a node that has just won: it leads, its own entry of the
    /// term is in the log, and replication to everyone starts behind it.
    pub open spec fn elected(self) -> NodeView {
        let entry = EntryView {
            term: self.hard_state.term,
            index: LogIndex((self.last_index().0 + 1) as u64),
            kind: EntryKind::Noop,
            payload: Seq::empty(),
        };
        let next = LogIndex((self.last_index().0 + 2) as u64);
        NodeView {
            role: Role::Leader,
            leader_id: Some(self.id),
            log: self.log.push(entry),
            next_index: self.next_index.union_prefer_right(
                Map::new(|peer: NodeId| self.followers().contains(peer), |peer: NodeId| next),
            ),
            match_index: self.match_index.union_prefer_right(
                Map::new(
                    |peer: NodeId| self.followers().contains(peer),
                    |peer: NodeId| LogIndex(0),
                ),
            ),
            heard_quorum: set![self.id],
            quorum_deadline: Time(0),
            ..self
        }
    }

    /// The change that entered the present joint configuration, where it is
    /// committed, still in the log and owned by an operator.
    pub open spec fn resumable_enter(self) -> Option<EnvelopeView> {
        match self.roster.joint_enter_index {
            None => None,
            Some(index) => if self.commit_index.0 < index.0 || !self.holds(index) {
                None
            } else {
                match envelope_of(self.entry(index).payload) {
                    None => None,
                    Some(envelope) => if envelope.operation is EnterJoint
                        && envelope.admin_session is Some {
                        Some(envelope)
                    } else {
                        None
                    },
                }
            },
        }
    }

    /// A new leader resumes what the cluster had begun, if anything: it ends a
    /// committed joint configuration, or else a committed transfer.
    #[verifier::opaque]
    pub open spec fn resumed(self) -> Step {
        let leave: Result<Step, RaftError> = match self.resumable_enter() {
            Some(enter) => self.config_appended(
                EnvelopeView {
                    admin_session: enter.admin_session,
                    leader_time: enter.leader_time,
                    operation: OperationView::LeaveJoint {
                        enter_index: self.roster.joint_enter_index->0,
                    },
                },
            ),
            None => Err(RaftError::InvalidMessage),
        };
        match leave {
            Ok(step) => step,
            Err(_) => {
                let finish: Result<Step, RaftError> = match self.transfer {
                    Some(transfer) => self.transfer_finished(
                        if self.id == transfer.target {
                            TransferResult::Success
                        } else {
                            TransferResult::Superseded
                        },
                        transfer.deadline,
                    ),
                    None => Err(RaftError::InvalidMessage),
                };
                match finish {
                    Ok(step) => step,
                    Err(_) => (self, self.broadcast()),
                }
            },
        }
    }

    /// A node wins the election of its term.
    #[verifier::opaque]
    pub open spec fn became_leader(self) -> Step {
        let won = self.elected();
        let advanced = won.advanced();
        let resumed = advanced.0.resumed();
        (
            resumed.0,
            seq![EffectView::PersistEntries(seq![won.log.last()])] + advanced.1 + resumed.1,
        )
    }

    /// One request to every other voter.
    pub open spec fn requests_for(self, peers: Seq<NodeId>, term: Term, kind: KindView) -> Seq<
        EffectView,
    >
        decreases peers.len(),
    {
        if peers.len() == 0 {
            Seq::empty()
        } else {
            let head = self.requests_for(peers.drop_last(), term, kind);
            if peers.last() == self.id {
                head
            } else {
                head.push(
                    EffectView::Send(
                        MessageView {
                            proto_version: PROTOCOL_VERSION,
                            from: self.id,
                            to: peers.last(),
                            term,
                            kind,
                        },
                    ),
                )
            }
        }
    }

    /// A node that is no voter leaves the contest.
    pub open spec fn withdrawn(self) -> NodeView {
        NodeView {
            role: Role::Learner,
            pre_votes: Set::empty(),
            votes: Set::empty(),
            ..self
        }
    }

    /// The state of a candidate of the next term that has voted for itself.
    pub open spec fn candidate(self) -> NodeView {
        NodeView {
            role: Role::Candidate,
            hard_state: HardState {
                term: Term((self.hard_state.term.0 + 1) as u64),
                voted_for: Some(self.id),
            },
            votes: set![self.id],
            ..self
        }
    }

    /// A node campaigns in the next term.
    #[verifier::opaque]
    pub open spec fn election_started(self) -> Step {
        if !self.voting() {
            (self.withdrawn(), Seq::empty())
        } else {
            let next = self.candidate();
            let persist = seq![EffectView::PersistHard(next.hard_state)];
            if next.roster.quorum(next.votes) {
                let won = next.became_leader();
                (won.0, persist + won.1)
            } else {
                (
                    next,
                    persist + next.requests_for(
                        ascending(next.roster.voters),
                        next.hard_state.term,
                        KindView::VoteReq {
                            last_index: next.last_index(),
                            last_term: next.last_term(),
                        },
                    ),
                )
            }
        }
    }

    /// A node asks whether it could win before it campaigns.
    #[verifier::opaque]
    pub open spec fn pre_vote_started(self, now: Time) -> Step {
        if !self.voting() {
            (self.withdrawn().election_reset(now), Seq::empty())
        } else {
            let next = NodeView {
                role: Role::Candidate,
                pre_votes: set![self.id],
                votes: Set::empty(),
                ..self
            }.election_reset(now);
            if next.roster.quorum(next.pre_votes) {
                next.election_started()
            } else {
                (
                    next,
                    next.requests_for(
                        ascending(next.roster.voters),
                        Term((next.hard_state.term.0 + 1) as u64),
                        KindView::PreVoteReq {
                            last_index: next.last_index(),
                            last_term: next.last_term(),
                        },
                    ),
                )
            }
        }
    }

    /// The answer to a pre-vote request.
    pub open spec fn pre_vote_answer(
        self,
        message: MessageView,
        last_index: LogIndex,
        last_term: Term,
    ) -> EffectView {
        EffectView::Send(
            MessageView {
                proto_version: PROTOCOL_VERSION,
                from: self.id,
                to: message.from,
                term: message.term,
                kind: KindView::PreVoteResp {
                    granted: message.term.0 >= self.hard_state.term.0 + 1 && self.up_to_date(
                        last_index,
                        last_term,
                    ) && self.role !is Learner,
                },
            },
        )
    }

    /// Whether a vote is granted: the candidate is a voter of this term, this
    /// node has not voted for another, and the candidate's log is far enough.
    pub open spec fn grants_vote(
        self,
        message: MessageView,
        last_index: LogIndex,
        last_term: Term,
    ) -> bool {
        &&& message.term == self.hard_state.term
        &&& self.roster.voters.contains(message.from)
        &&& self.hard_state.voted_for is None || self.hard_state.voted_for == Some(message.from)
        &&& self.role !is Learner
        &&& self.up_to_date(last_index, last_term)
    }

    /// A vote is asked for.
    pub open spec fn vote_asked(
        self,
        message: MessageView,
        last_index: LogIndex,
        last_term: Term,
        now: Time,
    ) -> Step {
        let granted = self.grants_vote(message, last_index, last_term);
        let hard_state = HardState { voted_for: Some(message.from), ..self.hard_state };
        let next = if granted {
            NodeView { hard_state, ..self }.election_reset(now)
        } else {
            self
        };
        let persist = if granted {
            seq![EffectView::PersistHard(hard_state)]
        } else {
            Seq::empty()
        };
        (next, persist.push(next.message(message.from, KindView::VoteResp { granted })))
    }

    /// The answer to an append.
    pub open spec fn append_answer(
        self,
        to: NodeId,
        read_round: u64,
        success: bool,
        match_index: LogIndex,
        conflict_term: Option<Term>,
        conflict_index: LogIndex,
    ) -> EffectView {
        self.message(
            to,
            KindView::AppendResp(
                AppendResponse { success, match_index, conflict_term, conflict_index, read_round },
            ),
        )
    }

    /// The state without the entries from `index` on.
    pub open spec fn truncated(self, index: LogIndex) -> NodeView {
        NodeView {
            log: self.log.subrange(0, index.0 - self.snapshot_index.0 - 1),
            ..self
        }.rebuilt()
    }

    /// Takes the entries of an append from position `i` on. An entry that is
    /// there already is passed over; a conflicting one replaces the suffix
    /// unless it is committed; a gap or an invalid change ends the append.
    pub open spec fn absorbed(
        self,
        from: NodeId,
        request: AppendView,
        i: int,
        effects: Seq<EffectView>,
        appended: Seq<EntryView>,
    ) -> Absorbed
        decreases request.entries.len() - i,
    {
        if i < 0 || i >= request.entries.len() {
            Absorbed::Done { state: self, effects, appended }
        } else {
            let entry = request.entries[i];
            let held = self.holds(entry.index);
            if held && self.entry(entry.index).term == entry.term {
                self.absorbed(from, request, i + 1, effects, appended)
            } else if held && entry.index.0 <= self.commit_index.0 {
                Absorbed::Stopped {
                    state: self,
                    effects: effects.push(
                        EffectView::Trace {
                            name: "committed_conflict_rejected",
                            index: entry.index,
                        },
                    ),
                }
            } else {
                let state = if held {
                    self.truncated(entry.index)
                } else {
                    self
                };
                let so_far = if held {
                    effects.push(EffectView::TruncateSuffix(entry.index))
                } else {
                    effects
                };
                let due = LogIndex(bumped(state.last_index().0));
                if entry.index != due {
                    Absorbed::Stopped {
                        state,
                        effects: so_far.push(
                            EffectView::Trace { name: "append_gap_rejected", index: entry.index },
                        ).push(
                            state.append_answer(
                                from,
                                request.read_round,
                                false,
                                state.last_index(),
                                None,
                                due,
                            ),
                        ),
                    }
                } else if !config_kind(entry.kind) {
                    NodeView { log: state.log.push(entry), ..state }.absorbed(
                        from,
                        request,
                        i + 1,
                        so_far,
                        appended.push(entry),
                    )
                } else {
                    match state.configured(entry) {
                        Err(_) => Absorbed::Stopped {
                            state,
                            effects: seq![
                                EffectView::Trace {
                                    name: "invalid_config_rejected",
                                    index: entry.index,
                                },
                            ],
                        },
                        Ok(projected) => NodeView {
                            log: projected.log.push(entry),
                            ..projected
                        }.absorbed(from, request, i + 1, so_far, appended.push(entry)),
                    }
                }
            }
        }
    }

    /// What follows once the entries of an append were dealt with: they are
    /// persisted, the commit index moves, and the leader is answered.
    pub open spec fn append_settled(
        self,
        from: NodeId,
        request: AppendView,
        effects: Seq<EffectView>,
        appended: Seq<EntryView>,
    ) -> Step {
        let persisted = if appended.len() > 0 {
            effects.push(EffectView::PersistEntries(appended))
        } else {
            effects
        };
        let applied: Step = if request.leader_commit.0 > self.commit_index.0 {
            NodeView {
                commit_index: LogIndex(smaller(request.leader_commit.0, self.last_index().0)),
                ..self
            }.applied()
        } else {
            (self, Seq::empty())
        };
        (
            applied.0,
            (persisted + applied.1).push(
                applied.0.append_answer(
                    from,
                    request.read_round,
                    true,
                    applied.0.last_index(),
                    None,
                    LogIndex(0),
                ),
            ),
        )
    }

    /// Where a follower asks its leader to resume after a mismatch.
    pub open spec fn conflict_index(self, prev_index: LogIndex) -> LogIndex {
        if prev_index.0 > self.last_index().0 {
            LogIndex(bumped(self.last_index().0))
        } else {
            LogIndex(larger(prev_index.0, bumped(self.snapshot_index.0)))
        }
    }

    /// An append arrives.
    #[verifier::opaque]
    pub open spec fn append_asked(
        self,
        from: NodeId,
        term: Term,
        request: AppendView,
        now: Time,
    ) -> Step {
        if term.0 < self.hard_state.term.0 {
            (
                self,
                seq![
                    self.append_answer(
                        from,
                        request.read_round,
                        false,
                        self.last_index(),
                        None,
                        self.last_index(),
                    ),
                ],
            )
        } else {
            let state = NodeView {
                role: self.resting_role(),
                leader_id: Some(from),
                ..self
            }.election_reset(now);
            if state.term_at(request.prev_index) != Some(request.prev_term) {
                (
                    state,
                    seq![
                        state.append_answer(
                            from,
                            request.read_round,
                            false,
                            state.last_index(),
                            state.term_at(request.prev_index),
                            state.conflict_index(request.prev_index),
                        ),
                    ],
                )
            } else {
                match state.absorbed(from, request, 0, Seq::empty(), Seq::empty()) {
                    Absorbed::Stopped { state, effects } => (state, effects),
                    Absorbed::Done { state, effects, appended } => state.append_settled(
                        from,
                        request,
                        effects,
                        appended,
                    ),
                }
            }
        }
    }

    /// The state once a peer is known to hold everything up to `match_index`.
    pub open spec fn matched(self, peer: NodeId, match_index: LogIndex) -> NodeView {
        NodeView {
            match_index: self.match_index.insert(peer, match_index),
            next_index: self.next_index.insert(peer, LogIndex((match_index.0 + 1) as u64)),
            heard_quorum: if self.roster.voters.contains(peer) {
                self.heard_quorum.insert(peer)
            } else {
                self.heard_quorum
            },
            ..self
        }
    }

    /// The state once an answer of the present round was counted for a read.
    pub open spec fn read_counted(self, peer: NodeId, read_round: u64) -> NodeView {
        NodeView {
            read_acks: if self.roster.voters.contains(peer) && read_round == self.read_round {
                self.read_acks.insert(peer)
            } else {
                self.read_acks
            },
            ..self
        }
    }

    /// A read that a quorum confirmed is released.
    pub open spec fn read_released(self) -> Step {
        match self.read_index {
            Some(index) => if self.roster.quorum(self.read_acks) {
                (
                    NodeView { read_index: None, ..self },
                    seq![EffectView::ReadBarrierReady { index }],
                )
            } else {
                (self, Seq::empty())
            },
            None => (self, Seq::empty()),
        }
    }

    /// The request to campaign that a transfer target is due once it answered.
    pub open spec fn handover(self, peer: NodeId, match_index: LogIndex) -> Seq<EffectView> {
        match self.transfer {
            Some(transfer) => if self.role is Leader && !transfer.finishing && transfer.target
                == peer && self.commit_index.0 >= transfer.intent_index.0 && match_index.0
                >= transfer.intent_index.0 {
                seq![
                    self.message(
                        peer,
                        KindView::TimeoutNow { intent_index: transfer.intent_index },
                    ),
                ]
            } else {
                Seq::empty()
            },
            None => Seq::empty(),
        }
    }

    /// An answer of a replication target arrives.
    #[verifier::opaque]
    pub open spec fn answered(self, peer: NodeId, response: AppendResponse) -> Step {
        if response.success {
            let advanced = self.matched(peer, response.match_index).advanced();
            let released = advanced.0.read_counted(peer, response.read_round).read_released();
            let state = released.0;
            let more = if state.next_index.dom().contains(peer) && state.next_index[peer].0
                <= state.last_index().0 {
                seq![state.append_for(peer)]
            } else {
                Seq::empty()
            };
            (
                state,
                advanced.1 + released.1 + state.handover(peer, response.match_index) + more,
            )
        } else {
            let state = NodeView {
                next_index: self.next_index.insert(
                    peer,
                    LogIndex(larger(response.conflict_index.0, 1)),
                ),
                ..self
            };
            (state, seq![state.append_for(peer)])
        }
    }

    /// An answer to an append arrives. A retiring peer that holds the entry
    /// that removes it is forgotten.
    #[verifier::opaque]
    pub open spec fn append_answered(
        self,
        from: NodeId,
        term: Term,
        response: AppendResponse,
        now: Time,
    ) -> Step {
        if self.role !is Leader || term != self.hard_state.term || (!self.roster.has(from)
            && !self.retiring_peers.dom().contains(from)) {
            (self, Seq::empty())
        } else if response.success {
            let heard = NodeView { last_contact: self.last_contact.insert(from, now), ..self };
            if heard.retiring_peers.dom().contains(from) && response.match_index.0
                >= heard.retiring_peers[from].0 {
                (
                    NodeView {
                        retiring_peers: heard.retiring_peers.remove(from),
                        next_index: heard.next_index.remove(from),
                        match_index: heard.match_index.remove(from),
                        roster: RosterView {
                            addresses: heard.roster.addresses.remove(from),
                            ..heard.roster
                        },
                        ..heard
                    },
                    Seq::empty(),
                )
            } else {
                heard.answered(from, response)
            }
        } else {
            self.answered(from, response)
        }
    }

    pub open spec fn snapshot_answer(
        self,
        to: NodeId,
        transfer_id: u64,
        reason: SnapshotRejectReason,
    ) -> EffectView {
        self.message(
            to,
            KindView::SnapshotAck {
                transfer_id,
                next_offset: 0,
                accepted: false,
                reason: Some(reason),
            },
        )
    }

    /// What happens to a snapshot chunk: it is refused as stale, too large or
    /// corrupt, or handed to the host.
    pub open spec fn chunk_taken(self, message: MessageView) -> EffectView {
        if let KindView::SnapshotChunk {
            transfer_id,
            last_included_index,
            last_included_term,
            total_len,
            snapshot_crc32c,
            offset,
            data,
            done,
        } = message.kind {
            if last_included_index.0 < self.snapshot_index.0 || last_included_index.0
                < self.applied_index.0 || (last_included_index == self.snapshot_index
                && last_included_term != self.snapshot_term) {
                self.snapshot_answer(message.from, transfer_id, SnapshotRejectReason::StaleTerm)
            } else if offset + data.len() > u64::MAX {
                self.snapshot_answer(message.from, transfer_id, SnapshotRejectReason::TooLarge)
            } else if transfer_id == 0 || total_len == 0 || total_len > MAX_CODEC_BYTES
                || data.len() == 0 || data.len() > SNAPSHOT_CHUNK_BYTES || offset + data.len()
                > total_len || done != (offset + data.len() == total_len) {
                self.snapshot_answer(message.from, transfer_id, SnapshotRejectReason::Corrupt)
            } else {
                EffectView::ReceiveSnapshotChunk(message)
            }
        } else {
            EffectView::ReceiveSnapshotChunk(message)
        }
    }

    /// Whether a request to campaign is the one that this node's own applied
    /// transfer intent announced.
    pub open spec fn campaign_valid(self, message: MessageView, intent_index: LogIndex) -> bool {
        &&& intent_index.0 != 0
        &&& message.term == self.hard_state.term
        &&& self.leader_id == Some(message.from)
        &&& self.voting()
        &&& self.applied_index.0 >= intent_index.0
        &&& self.transfer matches Some(transfer) && transfer.intent_index == intent_index
            && transfer.target == self.id
    }

    /// Whether a message moves this node to a later term.
    pub open spec fn adopts_term(self, message: MessageView) -> bool {
        message.term.0 > self.hard_state.term.0 && message.kind !is PreVoteReq
            && message.kind !is PreVoteResp
    }

    /// The state in the term of a message: no vote, no leader and no tally.
    pub open spec fn term_adopted(self, term: Term) -> NodeView {
        NodeView {
            hard_state: HardState { term, voted_for: None },
            role: self.resting_role(),
            leader_id: None,
            votes: Set::empty(),
            pre_votes: Set::empty(),
            ..self
        }
    }

    /// A message of a term that this node is in.
    #[verifier::opaque]
    pub open spec fn taken(self, message: MessageView, now: Time) -> Step {
        match message.kind {
            KindView::PreVoteReq { last_index, last_term } => (
                self,
                seq![self.pre_vote_answer(message, last_index, last_term)],
            ),
            KindView::PreVoteResp { granted } => if (self.role is Follower
                || self.role is Candidate) && message.term.0 == self.hard_state.term.0 + 1
                && granted {
                let counted = NodeView { pre_votes: self.pre_votes.insert(message.from), ..self };
                if counted.roster.quorum(counted.pre_votes) {
                    counted.election_started()
                } else {
                    (counted, Seq::empty())
                }
            } else {
                (self, Seq::empty())
            },
            KindView::VoteReq { last_index, last_term } => self.vote_asked(
                message,
                last_index,
                last_term,
                now,
            ),
            KindView::VoteResp { granted } => if self.role is Candidate && message.term
                == self.hard_state.term && granted {
                let counted = NodeView { votes: self.votes.insert(message.from), ..self };
                if counted.roster.quorum(counted.votes) {
                    counted.became_leader()
                } else {
                    (counted, Seq::empty())
                }
            } else {
                (self, Seq::empty())
            },
            KindView::AppendReq(request) => self.append_asked(
                message.from,
                message.term,
                request,
                now,
            ),
            KindView::AppendResp(response) => self.append_answered(
                message.from,
                message.term,
                response,
                now,
            ),
            KindView::SnapshotChunk { .. } => (self, seq![self.chunk_taken(message)]),
            KindView::SnapshotAck { next_offset, accepted, .. } => (
                NodeView {
                    last_contact: if accepted && message.term == self.hard_state.term {
                        self.last_contact.insert(message.from, now)
                    } else {
                        self.last_contact
                    },
                    ..self
                },
                seq![
                    EffectView::ReceiveSnapshotAck(message),
                    EffectView::Trace { name: "snapshot_ack", index: LogIndex(next_offset) },
                ],
            ),
            KindView::TimeoutNow { intent_index } => if self.campaign_valid(message, intent_index) {
                self.election_started()
            } else {
                (
                    self,
                    seq![EffectView::Trace { name: "timeout_now_rejected", index: intent_index }],
                )
            },
            KindView::FollowerReadRequest { request_id, command_hash } => if message.proto_version
                == SEMANTIC_VERSION_V3 && request_id != 0 && message.term == self.hard_state.term
                && self.role is Leader {
                (
                    self,
                    seq![
                        EffectView::FollowerReadRequest {
                            from: message.from,
                            request_id,
                            command_hash,
                            at: now,
                        },
                    ],
                )
            } else {
                (
                    self,
                    seq![
                        EffectView::Trace {
                            name: "follower_read_request_rejected",
                            index: self.last_index(),
                        },
                    ],
                )
            },
            KindView::FollowerReadGrant {
                request_id,
                command_hash,
                read_index,
                read_time,
            } => if message.proto_version == SEMANTIC_VERSION_V3 && request_id != 0 && message.term
                == self.hard_state.term && self.leader_id == Some(message.from) {
                (
                    self,
                    seq![
                        EffectView::FollowerReadGrant {
                            from: message.from,
                            term: message.term,
                            request_id,
                            command_hash,
                            read_index,
                            read_time,
                        },
                    ],
                )
            } else {
                (
                    self,
                    seq![
                        EffectView::Trace {
                            name: "follower_read_grant_rejected",
                            index: read_index,
                        },
                    ],
                )
            },
        }
    }

    /// A message arrives. One of a later term first moves this node there.
    #[verifier::opaque]
    pub open spec fn received(self, message: MessageView, now: Time) -> Step {
        if !known_version(message.proto_version) {
            (
                self,
                seq![
                    EffectView::Trace { name: "proto_version_rejected", index: self.last_index() },
                ],
            )
        } else if self.adopts_term(message) {
            let adopted = self.term_adopted(message.term);
            let taken = adopted.taken(message, now);
            (taken.0, seq![EffectView::PersistHard(adopted.hard_state)] + taken.1)
        } else {
            self.taken(message, now)
        }
    }

    /// Whether the numbers of a message leave room for what they lead to.
    pub open spec fn message_fits(self, message: MessageView) -> bool {
        &&& message.term.0 < u64::MAX
        &&& match message.kind {
            KindView::AppendReq(request) => self.snapshot_index.0 + self.log.len()
                + request.entries.len() < u64::MAX - 3,
            KindView::AppendResp(response) => response.match_index.0 < u64::MAX,
            _ => true,
        }
    }

    /// The quorum check of a leader restarts.
    pub open spec fn quorum_restarted(self, now: Time) -> NodeView {
        NodeView {
            heard_quorum: set![self.id],
            quorum_deadline: now.later(self.config.election_min),
            ..self
        }
    }

    /// A leader's heartbeat is due, or another node's election.
    #[verifier::opaque]
    pub open spec fn beat(self, now: Time) -> Step {
        if self.role is Leader && now.0 >= self.heartbeat_deadline.0 {
            let next = NodeView {
                heartbeat_deadline: now.later(self.config.heartbeat),
                ..self
            };
            (
                next,
                (next.broadcast() + next.nudge()).push(
                    EffectView::ArmTimer {
                        id: TimerId(
                            if 2 * self.id.0 + 1 <= u64::MAX {
                                (2 * self.id.0 + 1) as u64
                            } else {
                                u64::MAX
                            },
                        ),
                        at: next.heartbeat_deadline,
                        kind: TimerKind::Heartbeat,
                    },
                ),
            )
        } else if self.role !is Leader && now.0 >= self.election_deadline.0 {
            self.pre_vote_started(now)
        } else {
            (self, Seq::empty())
        }
    }

    /// Whether a leader's transfer has run out of time.
    pub open spec fn transfer_overdue(self, now: Time) -> bool {
        &&& self.role is Leader
        &&& self.transfer matches Some(transfer) && !transfer.finishing && now.0
            >= transfer.deadline.0
    }

    /// Time passes.
    #[verifier::opaque]
    pub open spec fn ticked(self, now: Time) -> Step {
        if self.transfer_overdue(now) && self.transfer_finished(
            TransferResult::Timeout,
            now,
        ) is Ok {
            self.transfer_finished(TransferResult::Timeout, now)->Ok_0
        } else if self.role is Leader && self.quorum_deadline == Time(0) {
            self.quorum_restarted(now).beat(now)
        } else if self.role is Leader && now.0 >= self.quorum_deadline.0 {
            if self.roster.quorum(self.heard_quorum) {
                self.quorum_restarted(now).beat(now)
            } else {
                let down = NodeView {
                    role: Role::Follower,
                    leader_id: None,
                    ..self.quorum_restarted(now)
                }.election_reset(now);
                (
                    down,
                    seq![
                        EffectView::Trace {
                            name: "checkquorum_stepdown",
                            index: down.last_index(),
                        },
                    ],
                )
            }
        } else {
            self.beat(now)
        }
    }

    /// A timer fires.
    pub open spec fn timer_fired(self, now: Time, timer: TimerKind) -> Step {
        if self.role is Leader {
            (self, self.broadcast() + self.nudge())
        } else if timer is Election {
            self.pre_vote_started(now)
        } else {
            (self, Seq::empty())
        }
    }

    /// How many replication targets still lack entries.
    pub open spec fn outstanding(self) -> nat {
        self.next_index.dom().filter(
            |peer: NodeId| self.next_index[peer].0 <= self.last_index().0,
        ).len()
    }

    /// Whether the pipeline takes no further proposal.
    pub open spec fn pipeline_full(self) -> bool {
        self.outstanding() >= self.config.pipeline_window * if self.roster.voters.len() > 0 {
            self.roster.voters.len()
        } else {
            1
        }
    }

    /// A leader appends an entry of its own and offers it to everyone.
    #[verifier::opaque]
    pub open spec fn entry_offered(self, entry: EntryView) -> Step {
        let advanced = NodeView { log: self.log.push(entry), ..self }.advanced();
        (
            advanced.0,
            seq![EffectView::PersistEntries(seq![entry])] + advanced.1 + advanced.0.broadcast(),
        )
    }

    /// A client's payload is proposed.
    pub open spec fn proposed(self, payload: Seq<u8>, kind: EntryKind) -> Result<Step, RaftError> {
        if self.role !is Leader {
            Err(RaftError::NotLeader)
        } else if self.transfer is Some {
            Err(RaftError::TransferInProgress)
        } else if self.pipeline_full() {
            Err(RaftError::Busy)
        } else {
            Ok(
                self.entry_offered(
                    EntryView {
                        term: self.hard_state.term,
                        index: LogIndex((self.last_index().0 + 1) as u64),
                        kind,
                        payload,
                    },
                ),
            )
        }
    }

    /// Whether an entry of the current term is committed.
    pub open spec fn term_committed(self) -> bool {
        ||| self.snapshot_index.0 <= self.commit_index.0 && self.snapshot_term
            == self.hard_state.term
        ||| exists|i: int|
            0 <= i < self.log.len() && (#[trigger] self.log[i]).term == self.hard_state.term
                && self.log[i].index.0 <= self.commit_index.0
    }

    /// A read is asked for: its index is fixed and leadership is confirmed by
    /// a fresh round of appends.
    pub open spec fn read_asked(self) -> Result<Step, RaftError> {
        if self.role !is Leader {
            Err(RaftError::NotLeader)
        } else if self.transfer is Some {
            Err(RaftError::TransferInProgress)
        } else if !self.term_committed() {
            Err(RaftError::ReadBarrierNotReady)
        } else {
            let fixed = NodeView {
                read_round: bumped(self.read_round),
                read_acks: set![self.id],
                read_index: Some(self.commit_index),
                ..self
            };
            let released = fixed.read_released();
            Ok(
                (
                    released.0,
                    seq![EffectView::ReadBarrier { index: self.commit_index }]
                        + fixed.broadcast() + released.1,
                ),
            )
        }
    }

    /// The index that the next appended entry gets.
    pub open spec fn due_index(self) -> LogIndex {
        LogIndex(bumped(self.last_index().0))
    }

    /// A change that nobody in particular asked for.
    pub open spec fn anonymous(leader_time: Time, operation: OperationView) -> EnvelopeView {
        EnvelopeView { admin_session: None, leader_time, operation }
    }

    /// A learner is proposed.
    pub open spec fn learner_proposed(self, node: NodeId) -> Result<Step, RaftError> {
        if self.role !is Leader {
            Err(RaftError::NotLeader)
        } else if node.0 == 0 || self.roster.joint is Some || self.roster.has(node)
            || self.in_flight_before(self.due_index()) {
            Err(RaftError::InvalidMessage)
        } else {
            self.config_appended(
                NodeView::anonymous(
                    Time(0),
                    OperationView::AddLearner { id: node, address: None },
                ),
            )
        }
    }

    /// Whether a peer is known to hold everything up to `index`.
    pub open spec fn caught_up(self, peer: NodeId, index: LogIndex) -> bool {
        self.match_index.dom().contains(peer) && self.match_index[peer].0 >= index.0
    }

    /// A joint configuration with `new_voters` is proposed.
    pub open spec fn joint_proposed(self, new_voters: Set<NodeId>) -> Result<Step, RaftError> {
        if self.role !is Leader {
            Err(RaftError::NotLeader)
        } else if self.roster.joint is Some || new_voters == Set::<NodeId>::empty()
            || new_voters.contains(NodeId(0)) {
            Err(RaftError::Busy)
        } else {
            let entry = EntryView {
                term: self.hard_state.term,
                index: LogIndex((self.last_index().0 + 1) as u64),
                kind: EntryKind::Config,
                payload: envelope_bytes(
                    NodeView::anonymous(Time(0), OperationView::EnterJoint { new_voters }),
                ),
            };
            match self.configured(entry) {
                Err(error) => Err(error),
                Ok(projected) => Ok(projected.entry_offered(entry)),
            }
        }
    }

    /// The promotion of a caught-up learner is proposed.
    pub open spec fn promotion_proposed(self, node: NodeId) -> Result<Step, RaftError> {
        if self.role !is Leader {
            Err(RaftError::NotLeader)
        } else if !self.roster.learners.contains(node) {
            Err(RaftError::InvalidMessage)
        } else if !self.caught_up(node, self.last_index()) {
            Err(RaftError::Busy)
        } else {
            self.joint_proposed(self.roster.voters.insert(node))
        }
    }

    /// The end of a committed joint configuration is proposed.
    pub open spec fn leave_proposed(self) -> Result<Step, RaftError> {
        if self.role !is Leader {
            Err(RaftError::NotLeader)
        } else if self.roster.joint is None {
            Err(RaftError::InvalidMessage)
        } else {
            match self.roster.joint_enter_index {
                None => Err(RaftError::InvalidMessage),
                Some(enter_index) => if self.commit_index.0 < enter_index.0 {
                    Err(RaftError::Busy)
                } else {
                    self.config_appended(
                        NodeView::anonymous(Time(0), OperationView::LeaveJoint { enter_index }),
                    )
                },
            }
        }
    }

    /// A transfer to a caught-up voter is proposed.
    pub open spec fn transfer_proposed(self, target: NodeId, leader_time: Time) -> Result<
        Step,
        RaftError,
    > {
        if self.role !is Leader {
            Err(RaftError::NotLeader)
        } else if self.roster.joint is Some || self.transfer is Some {
            Err(RaftError::TransferInProgress)
        } else if !self.roster.voters.contains(target) || (target != self.id && !self.caught_up(
            target,
            self.last_index(),
        )) {
            Err(RaftError::Busy)
        } else {
            self.config_appended(
                NodeView::anonymous(
                    leader_time,
                    OperationView::BeginLeaderTransfer { target },
                ),
            )
        }
    }

    /// The activation of a feature is proposed. It takes effect when the entry
    /// is applied, not before.
    pub open spec fn activation_proposed(self, feature: u64, leader_time: Time) -> Result<
        Step,
        RaftError,
    > {
        if self.role !is Leader {
            Err(RaftError::NotLeader)
        } else if feature != ATOMIC_BATCH_FEATURE || self.roster.active_features & feature != 0
            || self.roster.joint is Some {
            Err(RaftError::Busy)
        } else {
            self.config_appended(
                NodeView::anonymous(leader_time, OperationView::ActivateFeature { feature }),
            )
        }
    }

    /// Whether a peer answered within the transfer timeout before `at`.
    pub open spec fn heard_recently(self, peer: NodeId, at: Time) -> bool {
        peer == self.id || (self.last_contact.dom().contains(peer) && at.0
            <= self.last_contact[peer].0 + self.config.leader_transfer_timeout.0)
    }

    /// The members of a set that answered recently.
    pub open spec fn available(self, members: Set<NodeId>, at: Time) -> Set<NodeId> {
        members.filter(|peer: NodeId| self.heard_recently(peer, at))
    }

    /// Whether another member has this address.
    pub open spec fn address_taken(self, address: PeerAddress, except: Option<NodeId>) -> bool {
        exists|node: NodeId| #[trigger]
            self.roster.addresses.dom().contains(node) && Some(node) != except
                && self.roster.addresses[node] == address
    }

    /// Why an operator's change is refused, if it is.
    pub open spec fn admin_refusal(self, envelope: EnvelopeView) -> Option<RaftError> {
        let at = envelope.leader_time;
        match envelope.operation {
            OperationView::AddLearner { id, address } => match address {
                None => Some(RaftError::InvalidMessage),
                Some(address) => if id.0 == 0 || self.roster.joint is Some || self.roster.has(id)
                    || self.address_taken(address, None) || self.in_flight_before(
                    self.due_index(),
                ) {
                    Some(RaftError::InvalidMessage)
                } else {
                    None
                },
            },
            OperationView::RemoveLearner { id } => if self.roster.joint is Some
                || !self.roster.learners.contains(id) || self.in_flight_before(self.due_index()) {
                Some(RaftError::InvalidMessage)
            } else {
                None
            },
            OperationView::UpdateAddress { id, address } => if self.roster.joint is Some
                || !self.roster.has(id) || self.address_taken(address, Some(id))
                || self.in_flight_before(self.due_index()) {
                Some(RaftError::InvalidMessage)
            } else {
                None
            },
            OperationView::EnterJoint { new_voters } => if self.roster.joint is Some || new_voters
                == Set::<NodeId>::empty() || new_voters == self.roster.voters
                || new_voters.contains(NodeId(0)) || self.in_flight_before(self.due_index()) {
                Some(RaftError::Busy)
            } else if exists|added: NodeId| #[trigger]
                new_voters.contains(added) && !self.roster.voters.contains(added) && !(
                self.roster.learners.contains(added) && self.caught_up(added, self.commit_index)
                    && self.heard_recently(added, at)) {
                Some(RaftError::Busy)
            } else if !more_than_half(self.available(self.roster.voters, at), self.roster.voters)
                || !more_than_half(self.available(new_voters, at), new_voters) {
                Some(RaftError::Busy)
            } else {
                None
            },
            OperationView::LeaveJoint { enter_index } => if self.roster.joint is None
                || self.roster.joint_enter_index != Some(enter_index) || self.commit_index.0
                < enter_index.0 {
                Some(RaftError::Busy)
            } else {
                None
            },
            OperationView::BeginLeaderTransfer { target } => if self.roster.joint is Some
                || self.transfer is Some {
                Some(RaftError::TransferInProgress)
            } else if !self.roster.voters.contains(target) || (target != self.id && !(
            self.caught_up(target, self.commit_index) && self.heard_recently(target, at))) {
                Some(RaftError::Busy)
            } else {
                None
            },
            OperationView::ActivateFeature { feature } => if feature != ATOMIC_BATCH_FEATURE
                || self.roster.active_features & feature != 0 || self.roster.joint is Some
                || self.in_flight_before(self.due_index()) {
                Some(RaftError::Busy)
            } else {
                None
            },
            OperationView::FinishLeaderTransfer { .. } => Some(RaftError::InvalidMessage),
        }
    }

    /// An operator's change is proposed.
    pub open spec fn admin_proposed(self, envelope: EnvelopeView) -> Result<Step, RaftError> {
        if self.role !is Leader {
            Err(RaftError::NotLeader)
        } else {
            match envelope.admin_session {
                None => Err(RaftError::InvalidMessage),
                Some(owner) => if owner.0.namespace != 2 || owner.1 == 0 {
                    Err(RaftError::InvalidMessage)
                } else {
                    match self.admin_refusal(envelope) {
                        Some(error) => Err(error),
                        None => self.config_appended(envelope),
                    }
                },
            }
        }
    }

    /// A configuration entry is applied: transfers begin and end here, and
    /// features become active.
    #[verifier::opaque]
    pub open spec fn config_applied(self, entry: EntryView) -> Result<Step, RaftError> {
        if !config_kind(entry.kind) {
            Err(RaftError::InvalidMessage)
        } else {
            match envelope_of(entry.payload) {
                None => Err(RaftError::InvalidMessage),
                Some(envelope) => match envelope.operation {
                    OperationView::AddLearner { id, .. } => Ok(
                        (
                            self,
                            if self.role is Leader && self.roster.learners.contains(id) {
                                seq![self.append_for(id)]
                            } else {
                                Seq::empty()
                            },
                        ),
                    ),
                    OperationView::BeginLeaderTransfer { target } => self.transfer_begun(
                        entry.index,
                        target,
                        envelope,
                    ),
                    OperationView::FinishLeaderTransfer { intent_index, .. } => if self.transfers(
                        intent_index,
                    ) {
                        Ok((NodeView { transfer: None, ..self }, Seq::empty()))
                    } else {
                        Err(RaftError::InvalidMessage)
                    },
                    OperationView::ActivateFeature { feature } => if feature
                        != ATOMIC_BATCH_FEATURE || self.roster.active_features & feature != 0 {
                        Err(RaftError::InvalidMessage)
                    } else {
                        Ok(
                            (
                                NodeView {
                                    roster: RosterView {
                                        active_features: self.roster.active_features | feature,
                                        ..self.roster
                                    },
                                    ..self
                                },
                                Seq::empty(),
                            ),
                        )
                    },
                    _ => Ok((self, Seq::empty())),
                },
            }
        }
    }

    /// A committed transfer begins.
    pub open spec fn transfer_begun(
        self,
        intent_index: LogIndex,
        target: NodeId,
        envelope: EnvelopeView,
    ) -> Result<Step, RaftError> {
        if self.transfer is Some || !self.roster.voters.contains(target) {
            Err(RaftError::InvalidMessage)
        } else {
            let begun = NodeView {
                transfer: Some(
                    LeadershipTransfer {
                        intent_index,
                        target,
                        deadline: envelope.leader_time.later(
                            self.config.leader_transfer_timeout,
                        ),
                        finishing: false,
                        admin_session: envelope.admin_session,
                    },
                ),
                ..self
            };
            if begun.role is Leader && target == begun.id {
                begun.transfer_finished(TransferResult::Success, envelope.leader_time)
            } else {
                Ok(
                    (
                        begun,
                        if begun.role is Leader && begun.caught_up(target, intent_index) {
                            seq![begun.message(target, KindView::TimeoutNow { intent_index })]
                        } else {
                            Seq::empty()
                        },
                    ),
                )
            }
        }
    }

    /// A snapshot replaces the log up to `index`. One that is older than the
    /// present base, or of another term at the base, changes nothing.
    pub open spec fn snapshot_installed(self, index: LogIndex, term: Term) -> NodeView {
        if index.0 < self.snapshot_index.0 || (index == self.snapshot_index && term
            != self.snapshot_term) {
            self
        } else {
            let covered = index.0 - self.snapshot_index.0;
            NodeView {
                log: if covered <= self.log.len() {
                    self.log.skip(covered)
                } else {
                    Seq::empty()
                },
                commit_index: LogIndex(larger(self.commit_index.0, index.0)),
                applied_index: LogIndex(larger(self.applied_index.0, index.0)),
                snapshot_index: index,
                snapshot_term: term,
                ..self
            }
        }
    }

    /// The membership that this node works with. Addresses of members that
    /// are leaving are kept back.
    pub open spec fn membership(self) -> MembershipView {
        MembershipView {
            voters: self.roster.voters,
            learners: self.roster.learners,
            joint: match (self.roster.joint, self.roster.joint_enter_index) {
                (Some(sides), Some(enter_index)) => Some(
                    JointView { old_voters: sides.0, new_voters: sides.1, enter_index },
                ),
                _ => None,
            },
            addresses: self.roster.addresses.restrict(
                self.roster.voters.union(self.roster.learners),
            ),
            active_features: self.roster.active_features,
        }
    }

    /// The state with only the entries up to `index`.
    pub open spec fn cut_at(self, index: LogIndex) -> NodeView {
        NodeView { log: entries_upto(self.log, index), ..self }
    }

    /// The roster that a membership describes.
    pub open spec fn roster_of(membership: MembershipView) -> RosterView {
        RosterView {
            voters: membership.voters,
            learners: membership.learners,
            joint: match membership.joint {
                Some(joint) => Some((joint.old_voters, joint.new_voters)),
                None => None,
            },
            joint_enter_index: match membership.joint {
                Some(joint) => Some(joint.enter_index),
                None => None,
            },
            addresses: membership.addresses,
            active_features: membership.active_features,
        }
    }
}

} // verus!
