//! Replication: appends, answers, commitment and application.
use vstd::prelude::*;

use crate::ids::{LogIndex, NodeId, Term, Time};
use crate::node_set::{ascending, NodeSet};
use crate::raft_model::{larger, Absorbed, NodeView};
use crate::raft_node::{
    extend_effects, no_effects, push_effect, single_effect, RaftNode,
};
use crate::raft_types::{
    effect_views, entry_views, AppendRequest, AppendResponse, EffectView, Entry, EntryView, Message,
    MessageKind, RaftEffect, RaftError, Role, SnapshotRejectReason, PROTOCOL_VERSION,
    SNAPSHOT_CHUNK_BYTES,
};
use crate::wire::MAX_CODEC_BYTES;

verus! {

impl RaftNode {
    /// A message from this node in its current term.
    pub(crate) fn compose(&self, to: NodeId, kind: MessageKind) -> (effect: RaftEffect)
        ensures
            effect@ == self@.message(to, kind@),
    {
        RaftEffect::Send(
            Message {
                proto_version: PROTOCOL_VERSION,
                from: self.id,
                to,
                term: self.hard_state.term,
                kind,
            },
        )
    }

    /// The entries from `next` on, as many as one append carries.
    fn batch(&self, next: LogIndex) -> (entries: Vec<Entry>)
        requires
            self@.inv(),
        ensures
            entry_views(entries@) == self@.batch_from(next),
    {
        let mut entries: Vec<Entry> = Vec::new();
        let mut i: usize = 0;
        let limit: usize = self.config.max_entries_per_append;
        let ghost log = self@.log;
        let ghost wanted = next.0 - self.snapshot_index.0 - 1;
        let ghost from = if wanted < 0 {
            0
        } else if wanted > log.len() {
            log.len() as int
        } else {
            wanted
        };
        assert(entry_views(entries@) =~= Seq::<EntryView>::empty());
        while i < self.log.len() && entries.len() < limit
            invariant
                i <= self.log@.len(),
                self@.inv(),
                log == self@.log,
                log.len() == self.log@.len(),
                limit == self.config.max_entries_per_append,
                wanted == next.0 - self.snapshot_index.0 - 1,
                from == (if wanted < 0 {
                    0
                } else if wanted > log.len() {
                    log.len() as int
                } else {
                    wanted
                }),
                entries@.len() <= limit,
                entries@.len() == (if i <= from {
                    0int
                } else {
                    i - from
                }),
                forall|k: int|
                    0 <= k < entries@.len() ==> #[trigger] entries@[k]@ == log[from + k],
            decreases self.log@.len() - i,
        {
            assert(log[i as int] == self.log@[i as int]@);
            assert(log[i as int].index.0 == self.snapshot_index.0 + 1 + i);
            if self.log[i].index.0 >= next.0 {
                entries.push(self.log[i].clone());
            }
            i += 1;
        }
        assert(entry_views(entries@) =~= self@.batch_from(next));
        entries
    }

    /// The append that a peer is due.
    pub(crate) fn send_append(&self, peer: NodeId) -> (effect: RaftEffect)
        requires
            self@.inv(),
        ensures
            effect@ == self@.append_for(peer),
    {
        reveal(NodeView::append_for);
        let next = match self.next_index.get(peer) {
            Some(index) => index,
            None => LogIndex(self.last_index().0 + 1),
        };
        let prev_index = LogIndex(
            if next.0 == 0 {
                0
            } else {
                next.0 - 1
            },
        );
        let prev_term = match self.term_at(prev_index) {
            Some(term) => term,
            None => Term(0),
        };
        let entries = self.batch(next);
        self.compose(
            peer,
            MessageKind::AppendReq(
                AppendRequest {
                    prev_index,
                    prev_term,
                    entries,
                    leader_commit: self.commit_index,
                    read_round: self.read_round,
                },
            ),
        )
    }

    /// Appends the appends that the members of a set are due.
    pub(crate) fn append_to_all(&self, peers: &NodeSet, effects: &mut Vec<RaftEffect>)
        requires
            self@.inv(),
        ensures
            effect_views(final(effects)@) == effect_views(old(effects)@) + self@.appends_for(
                ascending(peers@),
            ),
    {
        let ghost before = effect_views(effects@);
        let ghost order = ascending(peers@);
        let count: usize = peers.len();
        let mut i: usize = 0;
        assert(order.take(0) =~= Seq::<NodeId>::empty());
        assert(before + self@.appends_for(order.take(0)) =~= before);
        while i < count
            invariant
                i <= count == order.len() == peers@.len(),
                order == ascending(peers@),
                self@.inv(),
                effect_views(effects@) == before + self@.appends_for(order.take(i as int)),
            decreases count - i,
        {
            let peer = peers.at(i);
            proof {
                let next = order.take(i as int + 1);
                assert(next.drop_last() =~= order.take(i as int));
                assert(next.last() == peer);
            }
            if peer != self.id {
                let ghost head = self@.appends_for(order.take(i as int));
                push_effect(effects, self.send_append(peer));
                assert((before + head).push(self@.append_for(peer)) =~= before + head.push(
                    self@.append_for(peer),
                ));
            }
            i += 1;
        }
        assert(order.take(i as int) =~= order);
    }

    /// The members that are owed the entry that removes them.
    pub(crate) fn retiring_set(&self) -> (peers: NodeSet)
        ensures
            peers@ == self@.retiring_peers.dom(),
    {
        let mut peers = NodeSet::new();
        let count: usize = self.retiring_peers.len();
        let ghost order = ascending(self@.retiring_peers.dom());
        let mut i: usize = 0;
        assert(order.take(0).to_set() =~= Set::<NodeId>::empty());
        while i < count
            invariant
                i <= count == order.len() == self.retiring_peers@.dom().len(),
                order == ascending(self.retiring_peers@.dom()),
                peers@ == order.take(i as int).to_set(),
            decreases count - i,
        {
            let peer = self.retiring_peers.key_at(i);
            peers.insert(peer);
            proof {
                crate::node_set::lemma_take_next(order, i as int);
            }
            i += 1;
        }
        assert(order.take(i as int) =~= order);
        peers
    }

    /// The appends that every voter, learner and retiring peer is due.
    pub fn broadcast_append(&self) -> (effects: Vec<RaftEffect>)
        requires
            self@.inv(),
        ensures
            effect_views(effects@) == self@.broadcast(),
    {
        reveal(NodeView::broadcast);
        let mut effects = no_effects();
        self.append_to_all(&self.voters, &mut effects);
        self.append_to_all(&self.learners, &mut effects);
        let retiring = self.retiring_set();
        self.append_to_all(&retiring, &mut effects);
        assert(effect_views(effects@) =~= self@.broadcast());
        effects
    }

    /// Resumes ordinary replication to a member at once, as after a snapshot
    /// transfer.
    pub fn replicate_peer(&self, peer: NodeId) -> (result: Result<Vec<RaftEffect>, RaftError>)
        requires
            self@.inv(),
        ensures
            match result {
                Ok(effects) => self@.role is Leader && peer != self@.id && self@.roster.has(peer)
                    && effect_views(effects@) == seq![self@.append_for(peer)],
                Err(error) => error == RaftError::InvalidMessage && !(self@.role is Leader && peer
                    != self@.id && self@.roster.has(peer)),
            },
    {
        if self.role != Role::Leader || peer == self.id || (!self.voters.contains(peer)
            && !self.learners.contains(peer)) {
            return Err(RaftError::InvalidMessage);
        }
        Ok(single_effect(self.send_append(peer)))
    }

    /// Applies everything that is committed.
    pub fn apply_committed(&mut self) -> (effects: Vec<RaftEffect>)
        requires
            old(self)@.inv(),
        ensures
            (final(self)@, effect_views(effects@)) == old(self)@.applied(),
            final(self)@.inv(),
    {
        reveal(NodeView::applied);
        let ghost start = self@;
        let mut applied: Vec<Entry> = Vec::new();
        let ghost from = start.applied_index.0 - start.snapshot_index.0;
        let mut next: u64 = self.applied_index.0;
        while next < self.commit_index.0
            invariant
                self@ == start,
                start.inv(),
                from == start.applied_index.0 - start.snapshot_index.0,
                start.applied_index.0 <= next <= start.commit_index.0,
                applied@.len() == next - start.applied_index.0,
                forall|k: int|
                    0 <= k < applied@.len() ==> #[trigger] applied@[k]@ == start.log[from + k],
            decreases start.commit_index.0 - next,
        {
            let index = LogIndex(next + 1);
            assert(start.holds(index));
            match self.find(index) {
                Some(at) => {
                    applied.push(self.log[at].clone());
                    next = next + 1;
                },
                None => {
                    return no_effects();
                },
            }
        }
        self.applied_index = LogIndex(next);
        if applied.len() == 0 {
            assert(self@ =~= start);
            no_effects()
        } else {
            assert(entry_views(applied@) =~= start.log.subrange(
                from,
                start.commit_index.0 - start.snapshot_index.0,
            ));
            single_effect(RaftEffect::Apply(applied))
        }
    }

    /// Moves the commit index to the largest index that a quorum holds and
    /// that is of the current term.
    pub(crate) fn advance_commit(&mut self) -> (effects: Vec<RaftEffect>)
        requires
            old(self)@.inv(),
        ensures
            (final(self)@, effect_views(effects@)) == old(self)@.advanced(),
            final(self)@.inv(),
    {
        reveal(NodeView::advanced);
        reveal(NodeView::applied);
        let ghost start = self@;
        let target: u64 = self.commit_target();
        if target > self.commit_index.0 {
            self.commit_index = LogIndex(target);
            assert(self@ =~= NodeView { commit_index: LogIndex(target), ..start });
            self.apply_committed()
        } else {
            no_effects()
        }
    }

    fn commit_target(&self) -> (target: u64)
        requires
            self@.inv(),
        ensures
            target == self@.commit_target(self@.last_index().0 as int),
            self@.commit_index.0 <= target <= self@.last_index().0,
    {
        let last: u64 = self.last_index().0;
        let mut target: u64 = self.commit_index.0;
        let mut candidate: u64 = self.commit_index.0;
        while candidate < last
            invariant
                self@.inv(),
                last == self@.last_index().0,
                self@.commit_index.0 <= target <= candidate <= last,
                target == self@.commit_target(candidate as int),
            decreases last - candidate,
        {
            candidate = candidate + 1;
            if self.commit_quorum(candidate) {
                if let Some(term) = self.term_at(LogIndex(candidate)) {
                    if term == self.hard_state.term {
                        target = candidate;
                    }
                }
            }
        }
        target
    }

    /// The answer to an append.
    fn make_append_response(
        &self,
        to: NodeId,
        read_round: u64,
        success: bool,
        match_index: LogIndex,
        conflict_term: Option<Term>,
        conflict_index: LogIndex,
    ) -> (effect: RaftEffect)
        ensures
            effect@ == self@.append_answer(
                to,
                read_round,
                success,
                match_index,
                conflict_term,
                conflict_index,
            ),
    {
        self.compose(
            to,
            MessageKind::AppendResp(
                AppendResponse { success, match_index, conflict_term, conflict_index, read_round },
            ),
        )
    }

    /// Takes the entries of an append one by one. It is cut short by an entry
    /// that conflicts with a committed one, leaves a gap or is no valid change.
    fn absorb(
        &mut self,
        from: NodeId,
        request: &AppendRequest,
        effects: &mut Vec<RaftEffect>,
        appended: &mut Vec<Entry>,
    ) -> (done: bool)
        requires
            old(self)@.inv(),
            old(self)@.snapshot_index.0 + old(self)@.log.len() + request.entries@.len() < u64::MAX
                - 3,
        ensures
            match old(self)@.absorbed(
                from,
                request@,
                0,
                effect_views(old(effects)@),
                entry_views(old(appended)@),
            ) {
                Absorbed::Done { state, effects: all, appended: new } => done && final(self)@
                    == state && effect_views(final(effects)@) == all && entry_views(
                    final(appended)@,
                ) == new,
                Absorbed::Stopped { state, effects: all } => !done && final(self)@ == state
                    && effect_views(final(effects)@) == all,
            },
            final(self)@.inv(),
    {
        let ghost whole = self@.absorbed(
            from,
            request@,
            0,
            effect_views(effects@),
            entry_views(appended@),
        );
        let mut i: usize = 0;
        while i < request.entries.len()
            invariant
                i <= request.entries@.len(),
                self@.inv(),
                self@.snapshot_index.0 + self@.log.len() + (request.entries@.len() - i) < u64::MAX
                    - 3,
                whole == old(self)@.absorbed(
                    from,
                    request@,
                    0,
                    effect_views(old(effects)@),
                    entry_views(old(appended)@),
                ),
                whole == self@.absorbed(
                    from,
                    request@,
                    i as int,
                    effect_views(effects@),
                    entry_views(appended@),
                ),
            decreases request.entries@.len() - i,
        {
            let entry = &request.entries[i];
            assert(request@.entries[i as int] == entry@);
            let mut known = false;
            if let Some(at) = self.find(entry.index) {
                if self.log[at].term == entry.term {
                    known = true;
                } else if entry.index.0 <= self.commit_index.0 {
                    push_effect(
                        effects,
                        RaftEffect::Trace {
                            name: "committed_conflict_rejected",
                            index: entry.index,
                        },
                    );
                    return false;
                } else {
                    self.truncate_from(at);
                    push_effect(effects, RaftEffect::TruncateSuffix(entry.index));
                }
            }
            if !known {
                let last = self.last_index();
                if entry.index.0 != last.0 + 1 {
                    push_effect(
                        effects,
                        RaftEffect::Trace { name: "append_gap_rejected", index: entry.index },
                    );
                    let answer = self.make_append_response(
                        from,
                        request.read_round,
                        false,
                        last,
                        None,
                        LogIndex(last.0 + 1),
                    );
                    push_effect(effects, answer);
                    return false;
                }
                if entry.kind.is_config() {
                    if self.apply_config_on_append(entry).is_err() {
                        // An entry whose projection is invalid is not kept: a
                        // recovery would derive a membership from it that was
                        // never acknowledged.
                        *effects = single_effect(
                            RaftEffect::Trace {
                                name: "invalid_config_rejected",
                                index: entry.index,
                            },
                        );
                        return false;
                    }
                }
                self.push_entry(entry.clone());
                let ghost before = entry_views(appended@);
                appended.push(entry.clone());
                assert(entry_views(appended@) =~= before.push(entry@));
            }
            i += 1;
        }
        true
    }

    /// Drops the entries from position `at` on and projects the membership
    /// that is left.
    fn truncate_from(&mut self, at: usize)
        requires
            old(self)@.inv(),
            at < old(self)@.log.len(),
            old(self)@.commit_index.0 <= old(self)@.snapshot_index.0 + at,
        ensures
            final(self)@ == old(self)@.truncated(
                LogIndex((old(self)@.snapshot_index.0 + 1 + at) as u64),
            ),
            final(self)@.inv(),
            final(self)@.log == old(self)@.log.subrange(0, at as int),
            final(self)@.snapshot_index == old(self)@.snapshot_index,
            final(self)@.commit_index == old(self)@.commit_index,
    {
        let ghost before = self@;
        self.log.truncate(at);
        assert(self@.log =~= before.log.subrange(0, at as int));
        self.rebuild_membership_from_log();
    }

    /// An append arrives.
    pub(crate) fn append_request(
        &mut self,
        from: NodeId,
        term: Term,
        request: &AppendRequest,
        now: Time,
    ) -> (effects: Vec<RaftEffect>)
        requires
            old(self)@.inv(),
            old(self)@.snapshot_index.0 + old(self)@.log.len() + request.entries@.len() < u64::MAX
                - 3,
        ensures
            (final(self)@, effect_views(effects@)) == old(self)@.append_asked(
                from,
                term,
                request@,
                now,
            ),
            final(self)@.inv(),
    {
        reveal(NodeView::append_asked);
        reveal(NodeView::applied);
        if term.0 < self.hard_state.term.0 {
            let last = self.last_index();
            return single_effect(
                self.make_append_response(from, request.read_round, false, last, None, last),
            );
        }
        self.role = if self.voters.contains(self.id) {
            Role::Follower
        } else {
            Role::Learner
        };
        self.leader_id = Some(from);
        // An append of the current term identifies the leader even where it is
        // refused to repair a gap. Without the reset a recovering follower
        // would campaign again and again against the leader that repairs it.
        self.reset_election(now);
        let found = self.term_at(request.prev_index);
        let agrees = match found {
            Some(term) => term == request.prev_term,
            None => false,
        };
        if !agrees {
            let last = self.last_index();
            let conflict_index = if request.prev_index.0 > last.0 {
                LogIndex(last.0 + 1)
            } else if request.prev_index.0 >= self.snapshot_index.0 + 1 {
                request.prev_index
            } else {
                LogIndex(self.snapshot_index.0 + 1)
            };
            return single_effect(
                self.make_append_response(
                    from,
                    request.read_round,
                    false,
                    last,
                    found,
                    conflict_index,
                ),
            );
        }
        let mut effects = no_effects();
        let mut appended: Vec<Entry> = Vec::new();
        assert(entry_views(appended@) =~= Seq::<EntryView>::empty());
        if !self.absorb(from, request, &mut effects, &mut appended) {
            return effects;
        }
        let ghost settled = self@;
        if appended.len() > 0 {
            push_effect(&mut effects, RaftEffect::PersistEntries(appended));
        }
        let ghost persisted = effect_views(effects@);
        if request.leader_commit.0 > self.commit_index.0 {
            let last = self.last_index();
            self.commit_index = if request.leader_commit.0 <= last.0 {
                request.leader_commit
            } else {
                last
            };
            extend_effects(&mut effects, self.apply_committed());
        } else {
            assert(persisted + Seq::<EffectView>::empty() =~= persisted);
        }
        let last = self.last_index();
        let answer = self.make_append_response(
            from,
            request.read_round,
            true,
            last,
            None,
            LogIndex(0),
        );
        push_effect(&mut effects, answer);
        effects
    }

    /// The request to campaign that a transfer target is due once it answered.
    fn handover(&self, peer: NodeId, match_index: LogIndex) -> (effects: Vec<RaftEffect>)
        ensures
            effect_views(effects@) == self@.handover(peer, match_index),
    {
        match &self.transfer {
            Some(transfer) => {
                if self.role == Role::Leader && !transfer.finishing && transfer.target == peer
                    && self.commit_index.0 >= transfer.intent_index.0 && match_index.0
                    >= transfer.intent_index.0 {
                    // The target is often one entry behind when the intent is
                    // applied: its later answer is the first safe point to
                    // ask it to campaign.
                    single_effect(
                        self.compose(
                            peer,
                            MessageKind::TimeoutNow { intent_index: transfer.intent_index },
                        ),
                    )
                } else {
                    no_effects()
                }
            },
            None => no_effects(),
        }
    }

    /// Releases the read whose leadership round a quorum confirmed.
    pub(crate) fn release_read(&mut self) -> (effects: Vec<RaftEffect>)
        ensures
            (final(self)@, effect_views(effects@)) == old(self)@.read_released(),
            old(self)@.inv() ==> final(self)@.inv(),
    {
        if let Some(index) = self.read_index {
            if self.has_majority(&self.read_acks) {
                self.read_index = None;
                return single_effect(RaftEffect::ReadBarrierReady { index });
            }
        }
        no_effects()
    }

    /// An answer of a replication target arrives.
    pub fn append_response_from_peer(&mut self, peer: NodeId, response: AppendResponse) -> (effects:
        Vec<RaftEffect>)
        requires
            old(self)@.inv(),
            response.match_index.0 < u64::MAX,
        ensures
            (final(self)@, effect_views(effects@)) == old(self)@.answered(peer, response),
            final(self)@.inv(),
    {
        reveal(NodeView::answered);
        let ghost start = self@;
        if response.success {
            self.match_index.insert(peer, response.match_index);
            self.next_index.insert(peer, LogIndex(response.match_index.0 + 1));
            if self.voters.contains(peer) {
                self.heard_quorum.insert(peer);
            }
            assert(self@ =~= start.matched(peer, response.match_index));
            let mut effects = self.advance_commit();
            let ghost advanced = self@;
            // An answer of an older round was on its way before the read was
            // fixed: it is no evidence of present leadership.
            if self.voters.contains(peer) && response.read_round == self.read_round {
                self.read_acks.insert(peer);
            }
            assert(self@ =~= advanced.read_counted(peer, response.read_round));
            extend_effects(&mut effects, self.release_read());
            extend_effects(&mut effects, self.handover(peer, response.match_index));
            let last = self.last_index();
            let behind = match self.next_index.get(peer) {
                Some(next) => next.0 <= last.0,
                None => false,
            };
            if behind {
                extend_effects(&mut effects, single_effect(self.send_append(peer)));
            } else {
                extend_effects(&mut effects, no_effects());
            }
            effects
        } else {
            let next = if response.conflict_index.0 >= 1 {
                response.conflict_index
            } else {
                LogIndex(1)
            };
            self.next_index.insert(peer, next);
            assert(self@ =~= NodeView {
                next_index: start.next_index.insert(
                    peer,
                    LogIndex(larger(response.conflict_index.0, 1)),
                ),
                ..start
            });
            single_effect(self.send_append(peer))
        }
    }

    /// An answer to an append arrives.
    pub(crate) fn append_response(
        &mut self,
        from: NodeId,
        term: Term,
        response: AppendResponse,
        now: Time,
    ) -> (effects: Vec<RaftEffect>)
        requires
            old(self)@.inv(),
            response.match_index.0 < u64::MAX,
        ensures
            (final(self)@, effect_views(effects@)) == old(self)@.append_answered(
                from,
                term,
                response,
                now,
            ),
            final(self)@.inv(),
    {
        reveal(NodeView::append_answered);
        let ghost start = self@;
        if self.role != Role::Leader || term != self.hard_state.term || (!self.voters.contains(from)
            && !self.learners.contains(from) && !self.retiring_peers.contains_key(from)) {
            return no_effects();
        }
        if response.success {
            self.last_contact.insert(from, now);
            let retired = match self.retiring_peers.get(from) {
                Some(terminal) => response.match_index.0 >= terminal.0,
                None => false,
            };
            if retired {
                self.retiring_peers.remove(from);
                self.next_index.remove(from);
                self.match_index.remove(from);
                self.addresses.remove(from);
                return no_effects();
            }
        }
        self.append_response_from_peer(from, response)
    }

    /// The refusal of a snapshot chunk.
    fn snapshot_ack(&self, to: NodeId, transfer_id: u64, reason: SnapshotRejectReason) -> (effect:
        RaftEffect)
        ensures
            effect@ == self@.snapshot_answer(to, transfer_id, reason),
    {
        self.compose(
            to,
            MessageKind::SnapshotAck {
                transfer_id,
                next_offset: 0,
                accepted: false,
                reason: Some(reason),
            },
        )
    }

    /// A snapshot chunk arrives: it is refused, or handed to the host.
    pub(crate) fn snapshot_chunk(&self, message: &Message) -> (effect: RaftEffect)
        ensures
            effect@ == self@.chunk_taken(message@),
    {
        if let MessageKind::SnapshotChunk {
            transfer_id,
            last_included_index,
            last_included_term,
            total_len,
            snapshot_crc32c: _,
            offset,
            data,
            done,
        } = &message.kind {
            if last_included_index.0 < self.snapshot_index.0 || last_included_index.0
                < self.applied_index.0 || (last_included_index.0 == self.snapshot_index.0
                && last_included_term.0 != self.snapshot_term.0) {
                return self.snapshot_ack(
                    message.from,
                    *transfer_id,
                    SnapshotRejectReason::StaleTerm,
                );
            }
            let size: u64 = data.len() as u64;
            if u64::MAX - *offset < size {
                return self.snapshot_ack(
                    message.from,
                    *transfer_id,
                    SnapshotRejectReason::TooLarge,
                );
            }
            let end: u64 = *offset + size;
            if *transfer_id == 0 || *total_len == 0 || *total_len > MAX_CODEC_BYTES as u64
                || data.len() == 0 || data.len() > SNAPSHOT_CHUNK_BYTES || end > *total_len
                || *done != (end == *total_len) {
                return self.snapshot_ack(
                    message.from,
                    *transfer_id,
                    SnapshotRejectReason::Corrupt,
                );
            }
        }
        RaftEffect::ReceiveSnapshotChunk(message.clone())
    }
}

} // verus!
