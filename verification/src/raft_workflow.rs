//! Configuration entries that a leader appends, and what they do once they
//! are applied.
use vstd::prelude::*;

use crate::envelope::law_envelope_reads_back;
use crate::ids::{LogIndex, NodeId, Time};
use crate::membership::{
    ConfigEnvelope, ConfigOperation, EnvelopeView, OperationView, TransferResult,
    ATOMIC_BATCH_FEATURE,
};
use crate::node_set::NodeSet;
use crate::raft_model::{LeadershipTransfer, NodeView};
use crate::raft_node::{
    extend_effects, no_effects, settles, single_effect, single_entry, RaftNode,
};
use crate::raft_types::{effect_views, Entry, EntryKind, MessageKind, RaftEffect, RaftError, Role};

verus! {

/// A transfer that is under way and not yet finishing can be finished.
pub proof fn lemma_transfer_can_finish(node: NodeView, result: TransferResult, leader_time: Time)
    requires
        node.transfer matches Some(transfer) && !transfer.finishing,
    ensures
        node.transfer_finished(result, leader_time) is Ok,
{
    reveal(NodeView::transfer_finished);
    reveal(NodeView::config_appended);
    reveal(NodeView::configured);
    let transfer = node.transfer->0;
    law_envelope_reads_back(
        EnvelopeView {
            admin_session: transfer.admin_session,
            leader_time,
            operation: OperationView::FinishLeaderTransfer {
                intent_index: transfer.intent_index,
                result,
            },
        },
    );
}

impl RaftNode {
    /// The members that leave when a joint configuration ends.
    fn leaving_members(&self, operation: &ConfigOperation) -> (leaving: NodeSet)
        ensures
            leaving@ == self@.leaving(operation@),
    {
        if let ConfigOperation::LeaveJoint { .. } = operation {
            if let Some(sides) = &self.joint {
                return sides.0.difference(&sides.1);
            }
        }
        NodeSet::new()
    }

    /// Appends a configuration change. Voters that it removes stay replication
    /// targets for the entry that removes them, so that they can learn that
    /// their membership has ended.
    pub(crate) fn append_config(&mut self, envelope: &ConfigEnvelope) -> (result: Result<
        Vec<RaftEffect>,
        RaftError,
    >)
        requires
            old(self)@.inv(),
            old(self)@.snapshot_index.0 + old(self)@.log.len() < u64::MAX - 1,
        ensures
            settles(result, old(self)@, final(self)@, old(self)@.config_appended(envelope@)),
            final(self)@.inv(),
    {
        reveal(NodeView::config_appended);
        let ghost start = self@;
        let leaving = self.leaving_members(&envelope.operation);
        let kind = match &envelope.operation {
            ConfigOperation::ActivateFeature { .. } => EntryKind::ConfigV3,
            _ => EntryKind::Config,
        };
        let entry = Entry {
            term: self.hard_state.term,
            index: LogIndex(self.last_index().0 + 1),
            kind,
            payload: envelope.encode(),
        };
        let index = entry.index;
        assert(entry@ == start.config_entry(envelope@));
        match self.apply_config_on_append(&entry) {
            Ok(_) => {},
            Err(error) => return Err(error),
        }
        let ghost projected = self@;
        self.push_entry(entry.clone());
        self.retire(&leaving, index);
        assert(self@.retiring_peers == projected.retired(leaving@, index));
        let mut effects = single_effect(RaftEffect::PersistEntries(single_entry(entry)));
        extend_effects(&mut effects, self.broadcast_append());
        self.append_to_all(&leaving, &mut effects);
        Ok(effects)
    }

    /// Appends the end of the transfer that is under way.
    pub(crate) fn finish_leadership_transfer(
        &mut self,
        result: TransferResult,
        leader_time: Time,
    ) -> (outcome: Result<Vec<RaftEffect>, RaftError>)
        requires
            old(self)@.inv(),
            old(self)@.snapshot_index.0 + old(self)@.log.len() < u64::MAX - 1,
        ensures
            settles(
                outcome,
                old(self)@,
                final(self)@,
                old(self)@.transfer_finished(result, leader_time),
            ),
            final(self)@.inv(),
    {
        reveal(NodeView::transfer_finished);
        let ghost start = self@;
        let transfer = match self.transfer {
            Some(transfer) => transfer,
            None => return Err(RaftError::InvalidMessage),
        };
        if transfer.finishing {
            return Err(RaftError::TransferInProgress);
        }
        self.transfer = Some(
            LeadershipTransfer {
                intent_index: transfer.intent_index,
                target: transfer.target,
                deadline: transfer.deadline,
                finishing: true,
                admin_session: transfer.admin_session,
            },
        );
        let ghost marked = self@;
        let envelope = ConfigEnvelope {
            admin_session: transfer.admin_session,
            leader_time,
            operation: ConfigOperation::FinishLeaderTransfer {
                intent_index: transfer.intent_index,
                result,
            },
        };
        match self.append_config(&envelope) {
            Ok(effects) => Ok(effects),
            Err(error) => {
                self.transfer = Some(transfer);
                assert(self@ =~= start);
                Err(error)
            },
        }
    }

    /// The request to campaign that a caught-up transfer target is due.
    pub(crate) fn transfer_nudge(&self) -> (effects: Vec<RaftEffect>)
        ensures
            effect_views(effects@) == self@.nudge(),
    {
        if let Some(transfer) = self.transfer {
            let caught_up = match self.match_index.get(transfer.target) {
                Some(index) => index.0 >= transfer.intent_index.0,
                None => false,
            };
            if self.role == Role::Leader && !transfer.finishing && transfer.target != self.id
                && self.commit_index.0 >= transfer.intent_index.0 && caught_up {
                return single_effect(
                    self.compose(
                        transfer.target,
                        MessageKind::TimeoutNow { intent_index: transfer.intent_index },
                    ),
                );
            }
        }
        no_effects()
    }

    /// Begins a committed transfer.
    fn begin_committed_transfer(
        &mut self,
        intent_index: LogIndex,
        target: NodeId,
        envelope: &ConfigEnvelope,
    ) -> (result: Result<Vec<RaftEffect>, RaftError>)
        requires
            old(self)@.inv(),
            old(self)@.snapshot_index.0 + old(self)@.log.len() < u64::MAX - 1,
        ensures
            settles(
                result,
                old(self)@,
                final(self)@,
                old(self)@.transfer_begun(intent_index, target, envelope@),
            ),
            final(self)@.inv(),
    {
        if self.transfer.is_some() || !self.voters.contains(target) {
            return Err(RaftError::InvalidMessage);
        }
        let deadline = envelope.leader_time.after(self.config.leader_transfer_timeout);
        self.transfer = Some(
            LeadershipTransfer {
                intent_index,
                target,
                deadline,
                finishing: false,
                admin_session: envelope.admin_session,
            },
        );
        if self.role == Role::Leader && target == self.id {
            proof {
                lemma_transfer_can_finish(self@, TransferResult::Success, envelope.leader_time);
            }
            return self.finish_leadership_transfer(TransferResult::Success, envelope.leader_time);
        }
        let caught_up = match self.match_index.get(target) {
            Some(index) => index.0 >= intent_index.0,
            None => false,
        };
        if self.role == Role::Leader && caught_up {
            return Ok(
                single_effect(self.compose(target, MessageKind::TimeoutNow { intent_index })),
            );
        }
        Ok(no_effects())
    }

    /// Does what a configuration entry does when it is applied. The projection
    /// of membership happened when it was appended; transfers begin and end
    /// here, and features become active.
    pub fn apply_committed_config(&mut self, entry: &Entry) -> (result: Result<
        Vec<RaftEffect>,
        RaftError,
    >)
        requires
            old(self)@.inv(),
            old(self)@.headroom(),
        ensures
            settles(result, old(self)@, final(self)@, old(self)@.config_applied(entry@)),
            final(self)@.inv(),
    {
        reveal(NodeView::config_applied);
        if !entry.kind.is_config() {
            return Err(RaftError::InvalidMessage);
        }
        let envelope = match ConfigEnvelope::decode(entry.payload.as_slice()) {
            Ok(envelope) => envelope,
            Err(_) => return Err(RaftError::InvalidMessage),
        };
        match &envelope.operation {
            ConfigOperation::AddLearner { id, .. } => {
                // The append at proposal time can overtake the host's
                // publication of the new route, so that the learner's
                // catch-up is seeded once the change is applied.
                if self.role == Role::Leader && self.learners.contains(*id) {
                    return Ok(single_effect(self.send_append(*id)));
                }
            },
            ConfigOperation::BeginLeaderTransfer { target } => {
                return self.begin_committed_transfer(entry.index, *target, &envelope);
            },
            ConfigOperation::FinishLeaderTransfer { intent_index, .. } => {
                if self.transfer_matches(*intent_index) {
                    self.transfer = None;
                } else {
                    return Err(RaftError::InvalidMessage);
                }
            },
            ConfigOperation::ActivateFeature { feature } => {
                if *feature != ATOMIC_BATCH_FEATURE || self.active_features & *feature != 0 {
                    return Err(RaftError::InvalidMessage);
                }
                self.active_features = self.active_features | *feature;
            },
            _ => {},
        }
        Ok(no_effects())
    }
}

} // verus!
