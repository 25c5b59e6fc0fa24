//! Elections, and the dispatch of messages and time.
use vstd::prelude::*;

use crate::ids::{LogIndex, NodeId, Term, Time, TimerId};
use crate::membership::{ConfigEnvelope, ConfigOperation, TransferResult};
use crate::node_map::NodeMap;
use crate::node_set::{ascending, lemma_take_next, NodeSet};
use crate::raft_model::NodeView;
use crate::raft_node::{
    extend_effects, no_effects, push_effect, single_effect, single_entry, RaftNode,
};
use crate::raft_types::{
    effect_views, supports_protocol_version, EffectView, Entry, EntryKind, HardState, KindView,
    Message, MessageKind, RaftEffect, Role, TimerKind, PROTOCOL_VERSION, SEMANTIC_VERSION_V3,
};

verus! {

/// Gives every member of a set but one the same value.
fn fill(map: &mut NodeMap<LogIndex>, members: &NodeSet, except: NodeId, value: LogIndex)
    ensures
        final(map)@ == old(map)@.union_prefer_right(
            Map::new(
                |peer: NodeId| members@.contains(peer) && peer != except,
                |peer: NodeId| value,
            ),
        ),
{
    let ghost start = map@;
    let ghost order = ascending(members@);
    let count: usize = members.len();
    let mut i: usize = 0;
    assert(map@ =~= filled(start, order.take(0).to_set(), except, value));
    while i < count
        invariant
            i <= count == order.len() == members@.len(),
            order == ascending(members@),
            map@ == filled(start, order.take(i as int).to_set(), except, value),
        decreases count - i,
    {
        let peer = members.at(i);
        proof {
            lemma_take_next(order, i as int);
        }
        let ghost before = map@;
        if peer != except {
            map.insert(peer, value);
        }
        assert(map@ =~= filled(start, order.take(i as int + 1).to_set(), except, value));
        i += 1;
    }
    assert(order.take(i as int) =~= order);
}

spec fn filled(
    start: Map<NodeId, LogIndex>,
    members: Set<NodeId>,
    except: NodeId,
    value: LogIndex,
) -> Map<NodeId, LogIndex> {
    start.union_prefer_right(
        Map::new(|peer: NodeId| members.contains(peer) && peer != except, |peer: NodeId| value),
    )
}

/// The set of one member.
fn only(id: NodeId) -> (set: NodeSet)
    ensures
        set@ == set![id],
{
    let mut members = NodeSet::new();
    members.insert(id);
    assert(members@ =~= set![id]);
    members
}

impl RaftNode {
    /// Takes the state of a node that has just won.
    fn take_leadership(&mut self) -> (entry: Entry)
        requires
            old(self)@.inv(),
            old(self)@.snapshot_index.0 + old(self)@.log.len() < u64::MAX - 2,
        ensures
            final(self)@ == old(self)@.elected(),
            final(self)@.inv(),
            entry@ == final(self)@.log.last(),
    {
        let ghost start = self@;
        let last = self.last_index();
        self.role = Role::Leader;
        self.leader_id = Some(self.id);
        let entry = Entry {
            term: self.hard_state.term,
            index: LogIndex(last.0 + 1),
            kind: EntryKind::Noop,
            payload: Vec::new(),
        };
        assert(entry.payload@ =~= Seq::<u8>::empty());
        self.push_entry(entry.clone());
        let next = LogIndex(last.0 + 2);
        let peers = self.voters.union(&self.learners);
        let id = self.id;
        fill(&mut self.next_index, &peers, id, next);
        fill(&mut self.match_index, &peers, id, LogIndex(0));
        self.heard_quorum = only(id);
        self.quorum_deadline = Time(0);
        proof {
            assert(self@.next_index =~= start.elected().next_index);
            assert(self@.match_index =~= start.elected().match_index);
            assert(self@ =~= start.elected());
        }
        entry
    }

    /// The change that entered the present joint configuration, where it is
    /// committed, still in the log and owned by an operator.
    fn find_resumable_enter(&self) -> (found: Option<(LogIndex, ConfigEnvelope)>)
        requires
            self@.inv(),
        ensures
            match self@.resumable_enter() {
                Some(envelope) => found matches Some(pair) && self@.roster.joint_enter_index
                    == Some(pair.0) && pair.1@ == envelope,
                None => found is None,
            },
    {
        let index = match self.joint_enter_index {
            Some(index) => index,
            None => return None,
        };
        if self.commit_index.0 < index.0 {
            return None;
        }
        let at = match self.find(index) {
            Some(at) => at,
            None => return None,
        };
        let envelope = match ConfigEnvelope::decode(self.log[at].payload.as_slice()) {
            Ok(envelope) => envelope,
            Err(_) => return None,
        };
        if let ConfigOperation::EnterJoint { .. } = &envelope.operation {
            if envelope.admin_session.is_some() {
                return Some((index, envelope));
            }
        }
        None
    }

    /// Resumes what the cluster had begun, if anything. A committed joint
    /// configuration or transfer belongs to the cluster, not to the leader
    /// that began it.
    fn resume(&mut self) -> (effects: Vec<RaftEffect>)
        requires
            old(self)@.inv(),
            old(self)@.snapshot_index.0 + old(self)@.log.len() < u64::MAX - 1,
        ensures
            (final(self)@, effect_views(effects@)) == old(self)@.resumed(),
            final(self)@.inv(),
    {
        reveal(NodeView::resumed);
        if let Some((enter_index, enter)) = self.find_resumable_enter() {
            let leave = ConfigEnvelope {
                admin_session: enter.admin_session,
                leader_time: enter.leader_time,
                operation: ConfigOperation::LeaveJoint { enter_index },
            };
            if let Ok(effects) = self.append_config(&leave) {
                return effects;
            }
        }
        if let Some(transfer) = self.transfer {
            let result = if self.id == transfer.target {
                TransferResult::Success
            } else {
                TransferResult::Superseded
            };
            if let Ok(effects) = self.finish_leadership_transfer(result, transfer.deadline) {
                return effects;
            }
        }
        self.broadcast_append()
    }

    /// Wins the election of the current term.
    pub fn become_leader(&mut self) -> (effects: Vec<RaftEffect>)
        requires
            old(self)@.inv(),
            old(self)@.snapshot_index.0 + old(self)@.log.len() < u64::MAX - 3,
        ensures
            (final(self)@, effect_views(effects@)) == old(self)@.became_leader(),
            final(self)@.inv(),
    {
        reveal(NodeView::became_leader);
        let entry = self.take_leadership();
        let ghost won = self@;
        let mut effects = single_effect(RaftEffect::PersistEntries(single_entry(entry)));
        // A lone voter has to commit its own entry of the term here: no peer
        // will ever answer for it.
        let advanced = self.advance_commit();
        proof {
            reveal(NodeView::advanced);
            reveal(NodeView::applied);
        }
        extend_effects(&mut effects, advanced);
        let resumed = self.resume();
        extend_effects(&mut effects, resumed);
        effects
    }

    /// Appends one request to every other voter.
    fn request_all(
        &self,
        term: Term,
        pre: bool,
        effects: &mut Vec<RaftEffect>,
    )
        requires
            self@.inv(),
        ensures
            effect_views(final(effects)@) == effect_views(old(effects)@) + self@.requests_for(
                ascending(self@.roster.voters),
                term,
                if pre {
                    KindView::PreVoteReq {
                        last_index: self@.last_index(),
                        last_term: self@.last_term(),
                    }
                } else {
                    KindView::VoteReq {
                        last_index: self@.last_index(),
                        last_term: self@.last_term(),
                    }
                },
            ),
    {
        let last_index = self.last_index();
        let last_term = self.last_term();
        let ghost before = effect_views(effects@);
        let ghost order = ascending(self@.roster.voters);
        let ghost kind = if pre {
            KindView::PreVoteReq { last_index, last_term }
        } else {
            KindView::VoteReq { last_index, last_term }
        };
        let count: usize = self.voters.len();
        let mut i: usize = 0;
        assert(order.take(0) =~= Seq::<NodeId>::empty());
        assert(before + self@.requests_for(order.take(0), term, kind) =~= before);
        while i < count
            invariant
                i <= count == order.len() == self@.roster.voters.len(),
                order == ascending(self@.roster.voters),
                kind == (if pre {
                    KindView::PreVoteReq { last_index, last_term }
                } else {
                    KindView::VoteReq { last_index, last_term }
                }),
                effect_views(effects@) == before + self@.requests_for(
                    order.take(i as int),
                    term,
                    kind,
                ),
            decreases count - i,
        {
            let peer = self.voters.at(i);
            proof {
                let next = order.take(i as int + 1);
                assert(next.drop_last() =~= order.take(i as int));
                assert(next.last() == peer);
            }
            if peer != self.id {
                let request = Message {
                    proto_version: PROTOCOL_VERSION,
                    from: self.id,
                    to: peer,
                    term,
                    kind: if pre {
                        MessageKind::PreVoteReq { last_index, last_term }
                    } else {
                        MessageKind::VoteReq { last_index, last_term }
                    },
                };
                let ghost head = self@.requests_for(order.take(i as int), term, kind);
                let ghost sent = EffectView::Send(request@);
                push_effect(effects, RaftEffect::Send(request));
                assert((before + head).push(sent) =~= before + head.push(sent));
            }
            i += 1;
        }
        assert(order.take(i as int) =~= order);
    }

    /// Campaigns in the next term.
    pub fn start_election(&mut self) -> (effects: Vec<RaftEffect>)
        requires
            old(self)@.inv(),
            old(self)@.headroom(),
        ensures
            (final(self)@, effect_views(effects@)) == old(self)@.election_started(),
            final(self)@.inv(),
    {
        reveal(NodeView::election_started);
        let ghost start = self@;
        if !self.voters.contains(self.id) {
            self.role = Role::Learner;
            self.pre_votes.clear();
            self.votes.clear();
            return no_effects();
        }
        self.role = Role::Candidate;
        self.hard_state = HardState {
            term: Term(self.hard_state.term.0 + 1),
            voted_for: Some(self.id),
        };
        self.votes = only(self.id);
        assert(self@ =~= start.candidate());
        // The vote is the first durability barrier: what a lone voter does as
        // a leader stays behind it.
        let mut effects = single_effect(RaftEffect::PersistHard(self.hard_state));
        if self.has_majority(&self.votes) {
            let won = self.become_leader();
            extend_effects(&mut effects, won);
            return effects;
        }
        self.request_all(self.hard_state.term, false, &mut effects);
        effects
    }

    /// Asks whether this node could win before it campaigns.
    pub(crate) fn start_pre_vote(&mut self, now: Time) -> (effects: Vec<RaftEffect>)
        requires
            old(self)@.inv(),
            old(self)@.headroom(),
        ensures
            (final(self)@, effect_views(effects@)) == old(self)@.pre_vote_started(now),
            final(self)@.inv(),
    {
        reveal(NodeView::pre_vote_started);
        let ghost start = self@;
        // A joining node that is no voter may receive replication, but never
        // moves the cluster's term.
        if !self.voters.contains(self.id) {
            self.role = Role::Learner;
            self.pre_votes.clear();
            self.votes.clear();
            self.reset_election(now);
            return no_effects();
        }
        self.role = Role::Candidate;
        self.pre_votes = only(self.id);
        // The tally belongs to the previous attempt.
        self.votes.clear();
        self.reset_election(now);
        // A lone voter already has its quorum: no peer will answer.
        if self.has_majority(&self.pre_votes) {
            return self.start_election();
        }
        let mut effects = no_effects();
        self.request_all(Term(self.hard_state.term.0 + 1), true, &mut effects);
        assert(effect_views(effects@) =~= self@.requests_for(
            ascending(self@.roster.voters),
            Term((self@.hard_state.term.0 + 1) as u64),
            KindView::PreVoteReq { last_index: self@.last_index(), last_term: self@.last_term() },
        ));
        effects
    }

    /// The answer to a pre-vote request.
    fn pre_vote_response(&self, message: &Message, last_index: LogIndex, last_term: Term) -> (effect:
        RaftEffect)
        requires
            self@.inv(),
        ensures
            effect@ == self@.pre_vote_answer(message@, last_index, last_term),
    {
        let granted = message.term.0 > self.hard_state.term.0 && self.log_is_up_to_date(
            last_index,
            last_term,
        ) && self.role != Role::Learner;
        RaftEffect::Send(
            Message {
                proto_version: PROTOCOL_VERSION,
                from: self.id,
                to: message.from,
                term: message.term,
                kind: MessageKind::PreVoteResp { granted },
            },
        )
    }

    /// A vote is asked for.
    fn vote_request(
        &mut self,
        message: &Message,
        last_index: LogIndex,
        last_term: Term,
        now: Time,
    ) -> (effects: Vec<RaftEffect>)
        requires
            old(self)@.inv(),
        ensures
            (final(self)@, effect_views(effects@)) == old(self)@.vote_asked(
                message@,
                last_index,
                last_term,
                now,
            ),
            final(self)@.inv(),
    {
        let can_vote = match self.hard_state.voted_for {
            Some(voted) => voted == message.from,
            None => true,
        };
        let granted = message.term == self.hard_state.term && self.voters.contains(message.from)
            && can_vote && self.role != Role::Learner && self.log_is_up_to_date(
            last_index,
            last_term,
        );
        let mut effects = no_effects();
        if granted {
            self.hard_state = HardState {
                term: self.hard_state.term,
                voted_for: Some(message.from),
            };
            effects = single_effect(RaftEffect::PersistHard(self.hard_state));
            self.reset_election(now);
        }
        let answer = self.compose(message.from, MessageKind::VoteResp { granted });
        push_effect(&mut effects, answer);
        effects
    }

    /// Whether a request to campaign is the one that this node's own applied
    /// transfer intent announced.
    fn may_campaign(&self, message: &Message, intent_index: LogIndex) -> (r: bool)
        ensures
            r == self@.campaign_valid(message@, intent_index),
    {
        let from_leader = match self.leader_id {
            Some(leader) => leader == message.from,
            None => false,
        };
        let targeted = match &self.transfer {
            Some(transfer) => transfer.intent_index == intent_index && transfer.target == self.id,
            None => false,
        };
        intent_index.0 != 0 && message.term == self.hard_state.term && from_leader
            && self.voters.contains(self.id) && self.applied_index.0 >= intent_index.0 && targeted
    }

    /// Delivers a message at time zero.
    pub fn on_message(&mut self, message: Message) -> (effects: Vec<RaftEffect>)
        requires
            old(self)@.inv(),
            old(self)@.headroom(),
            old(self)@.message_fits(message@),
        ensures
            (final(self)@, effect_views(effects@)) == old(self)@.received(message@, Time(0)),
            final(self)@.inv(),
    {
        self.on_message_at(message, Time(0))
    }

    /// Delivers a message at the host's time, from which election deadlines
    /// are then measured.
    pub fn on_message_at(&mut self, message: Message, now: Time) -> (effects: Vec<RaftEffect>)
        requires
            old(self)@.inv(),
            old(self)@.headroom(),
            old(self)@.message_fits(message@),
        ensures
            (final(self)@, effect_views(effects@)) == old(self)@.received(message@, now),
            final(self)@.inv(),
    {
        reveal(NodeView::received);
        let ghost start = self@;
        if !supports_protocol_version(message.proto_version) {
            return single_effect(
                RaftEffect::Trace { name: "proto_version_rejected", index: self.last_index() },
            );
        }
        let sounding = match &message.kind {
            MessageKind::PreVoteReq { .. } => true,
            MessageKind::PreVoteResp { .. } => true,
            _ => false,
        };
        if message.term.0 > self.hard_state.term.0 && !sounding {
            self.hard_state = HardState { term: message.term, voted_for: None };
            self.role = if self.voters.contains(self.id) {
                Role::Follower
            } else {
                Role::Learner
            };
            self.leader_id = None;
            // A tally belongs to the election it was raised in: carried into a
            // new term it could elect this node in a term it never won.
            self.votes.clear();
            self.pre_votes.clear();
            assert(self@ =~= start.term_adopted(message.term));
            let mut effects = single_effect(RaftEffect::PersistHard(self.hard_state));
            let taken = self.take_message(message, now);
            extend_effects(&mut effects, taken);
            return effects;
        }
        self.take_message(message, now)
    }

    /// Takes a message of a term that this node is in.
    fn take_message(&mut self, message: Message, now: Time) -> (effects: Vec<RaftEffect>)
        requires
            old(self)@.inv(),
            old(self)@.headroom(),
            old(self)@.message_fits(message@),
        ensures
            (final(self)@, effect_views(effects@)) == old(self)@.taken(message@, now),
            final(self)@.inv(),
    {
        reveal(NodeView::taken);
        match &message.kind {
            MessageKind::PreVoteReq { last_index, last_term } => single_effect(
                self.pre_vote_response(&message, *last_index, *last_term),
            ),
            MessageKind::PreVoteResp { granted } => {
                // Pre-votes are asked for the next term, so that an answer
                // can only belong to that round.
                if (self.role == Role::Follower || self.role == Role::Candidate) && message.term.0
                    == self.hard_state.term.0 + 1 && *granted {
                    self.pre_votes.insert(message.from);
                    if self.has_majority(&self.pre_votes) {
                        return self.start_election();
                    }
                }
                no_effects()
            },
            MessageKind::VoteReq { last_index, last_term } => self.vote_request(
                &message,
                *last_index,
                *last_term,
                now,
            ),
            MessageKind::VoteResp { granted } => {
                // Only a grant of this very term is a vote in it, and only a
                // grant can complete a quorum.
                if self.role == Role::Candidate && message.term == self.hard_state.term
                    && *granted {
                    self.votes.insert(message.from);
                    if self.has_majority(&self.votes) {
                        return self.become_leader();
                    }
                }
                no_effects()
            },
            MessageKind::AppendReq(request) => self.append_request(
                message.from,
                message.term,
                request,
                now,
            ),
            MessageKind::AppendResp(response) => self.append_response(
                message.from,
                message.term,
                *response,
                now,
            ),
            MessageKind::SnapshotChunk { .. } => single_effect(self.snapshot_chunk(&message)),
            MessageKind::SnapshotAck { next_offset, accepted, .. } => {
                if *accepted && message.term == self.hard_state.term {
                    self.last_contact.insert(message.from, now);
                }
                let mut effects = single_effect(RaftEffect::ReceiveSnapshotAck(message.clone()));
                push_effect(
                    &mut effects,
                    RaftEffect::Trace { name: "snapshot_ack", index: LogIndex(*next_offset) },
                );
                effects
            },
            MessageKind::TimeoutNow { intent_index } => {
                if self.may_campaign(&message, *intent_index) {
                    self.start_election()
                } else {
                    single_effect(
                        RaftEffect::Trace { name: "timeout_now_rejected", index: *intent_index },
                    )
                }
            },
            MessageKind::FollowerReadRequest { request_id, command_hash } => {
                if message.proto_version == SEMANTIC_VERSION_V3 && *request_id != 0 && message.term
                    == self.hard_state.term && self.role == Role::Leader {
                    single_effect(
                        RaftEffect::FollowerReadRequest {
                            from: message.from,
                            request_id: *request_id,
                            command_hash: *command_hash,
                            at: now,
                        },
                    )
                } else {
                    single_effect(
                        RaftEffect::Trace {
                            name: "follower_read_request_rejected",
                            index: self.last_index(),
                        },
                    )
                }
            },
            MessageKind::FollowerReadGrant {
                request_id,
                command_hash,
                read_index,
                read_time,
            } => {
                let from_leader = match self.leader_id {
                    Some(leader) => leader == message.from,
                    None => false,
                };
                if message.proto_version == SEMANTIC_VERSION_V3 && *request_id != 0 && message.term
                    == self.hard_state.term && from_leader {
                    single_effect(
                        RaftEffect::FollowerReadGrant {
                            from: message.from,
                            term: message.term,
                            request_id: *request_id,
                            command_hash: *command_hash,
                            read_index: *read_index,
                            read_time: *read_time,
                        },
                    )
                } else {
                    single_effect(
                        RaftEffect::Trace {
                            name: "follower_read_grant_rejected",
                            index: *read_index,
                        },
                    )
                }
            },
        }
    }

    /// Sends a due heartbeat, or sounds out a due election.
    fn beat(&mut self, now: Time) -> (effects: Vec<RaftEffect>)
        requires
            old(self)@.inv(),
            old(self)@.headroom(),
        ensures
            (final(self)@, effect_views(effects@)) == old(self)@.beat(now),
            final(self)@.inv(),
    {
        reveal(NodeView::beat);
        if self.role == Role::Leader && now.0 >= self.heartbeat_deadline.0 {
            self.heartbeat_deadline = now.after(self.config.heartbeat);
            let mut effects = self.broadcast_append();
            extend_effects(&mut effects, self.transfer_nudge());
            let id: u64 = if self.id.0 <= (u64::MAX - 1) / 2 {
                2 * self.id.0 + 1
            } else {
                u64::MAX
            };
            push_effect(
                &mut effects,
                RaftEffect::ArmTimer {
                    id: TimerId(id),
                    at: self.heartbeat_deadline,
                    kind: TimerKind::Heartbeat,
                },
            );
            effects
        } else if self.role != Role::Leader && now.0 >= self.election_deadline.0 {
            self.start_pre_vote(now)
        } else {
            no_effects()
        }
    }

    /// Restarts the quorum check of a leader.
    fn restart_quorum(&mut self, now: Time)
        ensures
            final(self)@ == old(self)@.quorum_restarted(now),
            old(self)@.inv() ==> final(self)@.inv(),
    {
        self.heard_quorum = only(self.id);
        self.quorum_deadline = now.after(self.config.election_min);
    }

    /// Lets time pass.
    pub fn tick(&mut self, now: Time) -> (effects: Vec<RaftEffect>)
        requires
            old(self)@.inv(),
            old(self)@.headroom(),
        ensures
            (final(self)@, effect_views(effects@)) == old(self)@.ticked(now),
            final(self)@.inv(),
    {
        reveal(NodeView::ticked);
        let ghost start = self@;
        let overdue = match &self.transfer {
            Some(transfer) => !transfer.finishing && now.0 >= transfer.deadline.0,
            None => false,
        };
        if self.role == Role::Leader && overdue {
            if let Ok(effects) = self.finish_leadership_transfer(TransferResult::Timeout, now) {
                return effects;
            }
        }
        assert(self@ == start);
        if self.role == Role::Leader && self.quorum_deadline.0 == 0 {
            self.restart_quorum(now);
        } else if self.role == Role::Leader && now.0 >= self.quorum_deadline.0 {
            let enough = self.has_majority(&self.heard_quorum);
            self.restart_quorum(now);
            if !enough {
                self.role = Role::Follower;
                self.leader_id = None;
                self.reset_election(now);
                return single_effect(
                    RaftEffect::Trace { name: "checkquorum_stepdown", index: self.last_index() },
                );
            }
        }
        self.beat(now)
    }

    /// A timer of the host fires.
    pub fn on_timer(&mut self, now: Time, timer: TimerKind) -> (effects: Vec<RaftEffect>)
        requires
            old(self)@.inv(),
            old(self)@.headroom(),
        ensures
            (final(self)@, effect_views(effects@)) == old(self)@.timer_fired(now, timer),
            final(self)@.inv(),
    {
        if self.role == Role::Leader {
            let mut effects = self.broadcast_append();
            extend_effects(&mut effects, self.transfer_nudge());
            return effects;
        }
        match timer {
            TimerKind::Election => self.start_pre_vote(now),
            TimerKind::Heartbeat => no_effects(),
        }
    }
}

} // verus!
