//! What an operator's changes do to the members of a cluster.
use vstd::prelude::*;

use crate::command::AdminView;
use crate::envelope::{encodable, envelope_bytes, envelope_of, law_envelope_reads_back};
use crate::fault::FaultView;
use crate::ids::{LogIndex, NodeId, Time};
use crate::membership::{
    EnvelopeView, MembershipView, OperationView, PeerAddress, ATOMIC_BATCH_FEATURE,
};
use crate::peers::config_change;
use crate::raft_model::{in_flight_from, more_than_half, NodeView, RosterView, Step};
use crate::raft_types::{EntryKind, EntryView, RaftError};

verus! {

/// Whether a leader takes up an operator's change: what the change comes to by the
/// leader's own membership is proposed, and `step` is what the leader makes of it.
pub open spec fn taken_up(
    leader: NodeView,
    change: AdminView,
    parsed: Option<PeerAddress>,
    envelope: EnvelopeView,
    step: Step,
) -> bool {
    &&& config_change(change, leader.membership(), parsed) == Ok::<OperationView, FaultView>(
        envelope.operation,
    )
    &&& encodable(envelope)
    &&& leader.admin_proposed(envelope) == Ok::<Step, RaftError>(step)
}

proof fn lemma_taken_up(
    leader: NodeView,
    change: AdminView,
    parsed: Option<PeerAddress>,
    envelope: EnvelopeView,
    step: Step,
)
    requires
        taken_up(leader, change, parsed, envelope, step),
    ensures
        ({
            let entry = leader.config_entry(envelope);
            &&& envelope_of(entry.payload) == Some(envelope)
            &&& leader.configured(entry) matches Ok(projected)
            &&& step.0.roster == projected.roster
            &&& step.0.log == leader.log.push(entry)
            &&& entry.index.0 == if leader.last_index().0 < u64::MAX {
                leader.last_index().0 + 1
            } else {
                u64::MAX as int
            }
            &&& projected.log == leader.log
        }),
{
    reveal(NodeView::config_appended);
    reveal(NodeView::configured);
    law_envelope_reads_back(envelope);
}

/// A promotion that is carried through adds the promoted member to the voters, and
/// nobody else: on the way both the old voters and the new ones decide, every
/// former voter stays, and the member is no learner any more.
pub proof fn law_promotions_add_one_voter(
    leader: NodeView,
    id: u64,
    enter: EnvelopeView,
    entered: Step,
    later: NodeView,
    leave: EnvelopeView,
    left: Step,
)
    requires
        taken_up(leader, AdminView::Promote { id }, None, enter, entered),
        later.roster == entered.0.roster,
        taken_up(later, AdminView::LeaveJoint, None, leave, left),
    ensures
        ({
            let member = NodeId(id);
            &&& entered.0.roster.joint matches Some((old_voters, new_voters))
            &&& old_voters == leader.roster.voters
            &&& forall|voter: NodeId| #[trigger]
                new_voters.contains(voter) <==> leader.roster.voters.contains(voter) || voter
                    == member
            &&& forall|voter: NodeId| #[trigger]
                left.0.roster.voters.contains(voter) <==> leader.roster.voters.contains(voter)
                    || voter == member
            &&& forall|learner: NodeId| #[trigger]
                left.0.roster.learners.contains(learner) ==> leader.roster.learners.contains(learner)
                    && learner != member
            &&& forall|learner: NodeId| #[trigger]
                leader.roster.learners.contains(learner) && learner != member
                    && !leader.roster.voters.contains(learner)
                    ==> left.0.roster.learners.contains(learner)
            &&& left.0.roster.joint is None
            &&& left.0.roster.addresses == leader.roster.addresses
            &&& left.0.roster.active_features == leader.roster.active_features
        }),
{
    lemma_taken_up(leader, AdminView::Promote { id }, None, enter, entered);
    lemma_taken_up(later, AdminView::LeaveJoint, None, leave, left);
    reveal(NodeView::configured);
}

/// A removal takes away exactly the named member: a voter once the joint
/// configuration is left, with both the old voters and the new ones deciding on the
/// way; a learner at once.
pub proof fn law_removals_take_one_member(
    leader: NodeView,
    id: u64,
    enter: EnvelopeView,
    entered: Step,
    later: NodeView,
    leave: EnvelopeView,
    left: Step,
)
    requires
        taken_up(leader, AdminView::Remove { id }, None, enter, entered),
    ensures
        leader.roster.has(NodeId(id)),
        leader.roster.learners.contains(NodeId(id)) ==> {
            &&& entered.0.roster.voters == leader.roster.voters
            &&& entered.0.roster.joint is None
            &&& forall|learner: NodeId| #[trigger]
                entered.0.roster.learners.contains(learner) <==> leader.roster.learners.contains(
                    learner,
                ) && learner != NodeId(id)
            &&& !entered.0.roster.addresses.dom().contains(NodeId(id))
        },
        !leader.roster.learners.contains(NodeId(id)) ==> {
            &&& entered.0.roster.joint matches Some((old_voters, new_voters))
            &&& old_voters == leader.roster.voters
            &&& forall|voter: NodeId| #[trigger]
                new_voters.contains(voter) <==> leader.roster.voters.contains(voter) && voter
                    != NodeId(id)
        },
        !leader.roster.learners.contains(NodeId(id)) && later.roster == entered.0.roster
            && taken_up(later, AdminView::LeaveJoint, None, leave, left) ==> {
            &&& forall|voter: NodeId| #[trigger]
                left.0.roster.voters.contains(voter) <==> leader.roster.voters.contains(voter)
                    && voter != NodeId(id)
            &&& forall|learner: NodeId| #[trigger]
                left.0.roster.learners.contains(learner) ==> leader.roster.learners.contains(learner)
            &&& left.0.roster.joint is None
            &&& id != later.id.0 ==> left.0.retiring_peers.dom().contains(NodeId(id))
                && left.0.retiring_peers[NodeId(id)] == left.0.log.last().index
        },
{
    lemma_taken_up(leader, AdminView::Remove { id }, None, enter, entered);
    reveal(NodeView::configured);
    if !leader.roster.learners.contains(NodeId(id)) && later.roster == entered.0.roster && taken_up(
        later,
        AdminView::LeaveJoint,
        None,
        leave,
        left,
    ) {
        lemma_taken_up(later, AdminView::LeaveJoint, None, leave, left);
        reveal(NodeView::config_appended);
        let entry = later.config_entry(leave);
        let projected = later.configured(entry)->Ok_0;
        let leaving = later.leaving(leave.operation);
        assert(leaving.contains(NodeId(id)));
        assert(projected.id == later.id);
        assert(left.0.retiring_peers == projected.retired(leaving, entry.index));
        if id != later.id.0 {
            assert(projected.retired(leaving, entry.index).dom().contains(NodeId(id)));
        }
    }
}

/// The other changes touch what they name and nothing else: a learner joins at the
/// endpoint that was written, an endpoint changes for one member, and a transfer
/// or an activation leaves the members as they are.
pub proof fn law_other_changes_touch_what_they_name(
    leader: NodeView,
    id: u64,
    text: Seq<u8>,
    parsed: Option<PeerAddress>,
    envelope: EnvelopeView,
    step: Step,
)
    ensures
        taken_up(
            leader,
            AdminView::AddLearner { id, peer_address: text },
            parsed,
            envelope,
            step,
        ) ==> {
            &&& parsed matches Some(address)
            &&& !leader.roster.has(NodeId(id))
            &&& step.0.roster.voters == leader.roster.voters
            &&& forall|learner: NodeId| #[trigger]
                step.0.roster.learners.contains(learner) <==> leader.roster.learners.contains(
                    learner,
                ) || learner == NodeId(id)
            &&& step.0.roster.addresses == leader.roster.addresses.insert(NodeId(id), address)
            &&& step.0.roster.joint == leader.roster.joint
        },
        taken_up(
            leader,
            AdminView::UpdateAddress { id, peer_address: text },
            parsed,
            envelope,
            step,
        ) ==> {
            &&& parsed matches Some(address)
            &&& leader.roster.has(NodeId(id))
            &&& step.0.roster == RosterView {
                addresses: leader.roster.addresses.insert(NodeId(id), address),
                ..leader.roster
            }
        },
        taken_up(leader, AdminView::TransferLeader { id }, parsed, envelope, step) ==> {
            &&& envelope.operation == (OperationView::BeginLeaderTransfer { target: NodeId(id) })
            &&& leader.roster.voters.contains(NodeId(id))
            &&& step.0.roster == leader.roster
        },
        taken_up(leader, AdminView::ActivateAtomicBatch, parsed, envelope, step) ==> {
            &&& envelope.operation == (OperationView::ActivateFeature {
                feature: ATOMIC_BATCH_FEATURE,
            })
            &&& step.0.roster == leader.roster
        },
{
    let changes = seq![
        AdminView::AddLearner { id, peer_address: text },
        AdminView::UpdateAddress { id, peer_address: text },
        AdminView::TransferLeader { id },
        AdminView::ActivateAtomicBatch,
    ];
    assert forall|i: int| 0 <= i < 4 && taken_up(leader, #[trigger] changes[i], parsed, envelope, step)
        implies step.0.roster == leader.configured(leader.config_entry(envelope))->Ok_0.roster
        && leader.configured(leader.config_entry(envelope)) is Ok && envelope_of(
        leader.config_entry(envelope).payload,
    ) == Some(envelope) by {
        lemma_taken_up(leader, changes[i], parsed, envelope, step);
    }
    assert(changes[0] == AdminView::AddLearner { id, peer_address: text });
    assert(changes[1] == AdminView::UpdateAddress { id, peer_address: text });
    assert(changes[2] == AdminView::TransferLeader { id });
    assert(changes[3] == AdminView::ActivateAtomicBatch);
    reveal(NodeView::configured);
}

/// Whether a member answered the leader no longer ago than a transfer may take, by
/// a time.
pub open spec fn answered_lately(leader: NodeView, member: NodeId, at: Time) -> bool {
    leader.last_contact.dom().contains(member) && at.0 <= leader.last_contact[member].0
        + leader.config.leader_transfer_timeout.0
}

/// Whether a leader is free to change the members: nothing of the kind is under
/// way, and every other voter answered lately.
pub open spec fn free_to_change(leader: NodeView, at: Time) -> bool {
    &&& leader.role is Leader
    &&& leader.roster.joint is None
    &&& leader.roster.voters.contains(leader.id)
    &&& leader.roster.voters.finite()
    &&& forall|i: int| 0 <= i < leader.log.len() ==> (#[trigger] leader.log[i]).kind != EntryKind::Config
        && leader.log[i].kind != EntryKind::ConfigV3
    &&& forall|voter: NodeId| #[trigger]
        leader.roster.voters.contains(voter) && voter != leader.id ==> answered_lately(
            leader,
            voter,
            at,
        )
}

proof fn lemma_nothing_in_flight(log: Seq<EntryView>, index: LogIndex, i: int)
    requires
        0 <= i <= log.len(),
        forall|k: int| 0 <= k < log.len() ==> (#[trigger] log[k]).kind != EntryKind::Config
            && log[k].kind != EntryKind::ConfigV3,
    ensures
        !in_flight_from(log, index, i, None),
    decreases log.len() - i,
{
    if i < log.len() {
        lemma_nothing_in_flight(log, index, i + 1);
    }
}

proof fn lemma_all_are_most(members: Set<NodeId>)
    requires
        members.finite(),
        members.len() > 0,
    ensures
        more_than_half(members, members),
{
    assert(members.intersect(members) =~= members);
}

/// A leader that is free to change the members takes up what an operator with a
/// number asks for: a learner that is new, at an endpoint that nobody has; the
/// promotion of a learner that holds what is committed and answered lately; and the
/// removal of a voter that is not the only one, or of a learner.
pub proof fn law_free_leaders_take_changes_up(
    leader: NodeView,
    id: u64,
    text: Seq<u8>,
    address: PeerAddress,
    envelope: EnvelopeView,
)
    requires
        free_to_change(leader, envelope.leader_time),
        envelope.admin_session matches Some((key, sequence)) && key.namespace == 2 && sequence != 0,
        encodable(envelope),
        id != 0,
        !leader.roster.voters.contains(NodeId(0)),
    ensures
        ({
            let member = NodeId(id);
            let asked = |change: AdminView|
                config_change(change, leader.membership(), Some(address)) == Ok::<
                    OperationView,
                    FaultView,
                >(envelope.operation);
            &&& asked(AdminView::AddLearner { id, peer_address: text }) && !leader.roster.has(member)
                && (forall|other: NodeId| #[trigger]
                leader.roster.addresses.dom().contains(other)
                    ==> leader.roster.addresses[other] != address) ==> leader.admin_proposed(
                envelope,
            ) is Ok
            &&& asked(AdminView::Promote { id }) && leader.roster.learners.contains(member)
                && !leader.roster.voters.contains(member) && leader.match_index.dom().contains(
                member,
            ) && leader.match_index[member].0 >= leader.commit_index.0 && answered_lately(
                leader,
                member,
                envelope.leader_time,
            ) ==> leader.admin_proposed(envelope) is Ok
            &&& asked(AdminView::Remove { id }) && leader.roster.learners.contains(member)
                ==> leader.admin_proposed(envelope) is Ok
            &&& asked(AdminView::Remove { id }) && leader.roster.voters.contains(member)
                && !leader.roster.learners.contains(member) && leader.roster.voters.len() > 1
                ==> leader.admin_proposed(envelope) is Ok
        }),
{
    let member = NodeId(id);
    let at = envelope.leader_time;
    let voters = leader.roster.voters;
    lemma_nothing_in_flight(leader.log, leader.due_index(), 0);
    reveal(NodeView::config_appended);
    reveal(NodeView::configured);
    law_envelope_reads_back(envelope);
    assert(voters.len() > 0) by {
        if voters.len() == 0 {
            assert(voters =~= Set::empty());
        }
    }
    assert(leader.available(voters, at) =~= voters);
    lemma_all_are_most(voters);
    let more = voters.insert(member);
    let fewer = voters.remove(member);
    if answered_lately(leader, member, at) {
        assert(leader.available(more, at) =~= more);
        lemma_all_are_most(more);
        assert(more.contains(member));
    }
    if voters.contains(member) && voters.len() > 1 {
        assert(fewer.len() == voters.len() - 1);
        assert(leader.available(fewer, at) =~= fewer);
        lemma_all_are_most(fewer);
        assert(fewer != Set::<NodeId>::empty());
        assert(voters.contains(member) && !fewer.contains(member));
    }
}

/// What a change does to the members when it is appended, it does when the log is
/// replayed: a node that starts anew from its log has the members that it had.
pub proof fn law_replays_agree_with_appends(node: NodeView, entry: EntryView)
    ensures
        node.configured(entry) matches Ok(projected) ==> {
            &&& envelope_of(entry.payload) matches Some(envelope)
            &&& node.replayed_one(envelope.operation, entry.index).roster.voters
                == projected.roster.voters
            &&& node.replayed_one(envelope.operation, entry.index).roster.learners
                == projected.roster.learners
            &&& node.replayed_one(envelope.operation, entry.index).roster.joint
                == projected.roster.joint
            &&& node.replayed_one(envelope.operation, entry.index).roster.joint_enter_index
                == projected.roster.joint_enter_index
        },
{
    reveal(NodeView::configured);
}

/// The entry that a leader appends for a change without an operator.
pub open spec fn change_entry(node: NodeView, leader_time: Time, operation: OperationView) -> EntryView {
    EntryView {
        term: node.hard_state.term,
        index: LogIndex((node.snapshot_index.0 + node.log.len() + 1) as u64),
        kind: EntryKind::Config,
        payload: envelope_bytes(
            EnvelopeView { admin_session: None, leader_time, operation },
        ),
    }
}

/// Only a leader proposes changes of its own, and what it proposes is what it was asked
/// for: a learner that is no member yet; a joint configuration with a learner that holds
/// the whole log among the voters; the end of the joint configuration that was committed;
/// a transfer to a voter that holds the whole log. Anything else is refused.
pub proof fn law_leaders_propose_what_is_asked(
    node: NodeView,
    member: NodeId,
    now: Time,
)
    requires
        node.inv(),
    ensures
        node.role !is Leader ==> {
            &&& node.learner_proposed(member) == Err::<Step, RaftError>(RaftError::NotLeader)
            &&& node.promotion_proposed(member) == Err::<Step, RaftError>(RaftError::NotLeader)
            &&& node.leave_proposed() == Err::<Step, RaftError>(RaftError::NotLeader)
            &&& node.transfer_proposed(member, now) == Err::<Step, RaftError>(RaftError::NotLeader)
        },
        node.learner_proposed(member) matches Ok(step) ==> {
            &&& member.0 != 0 && !node.roster.voters.contains(member)
                && !node.roster.learners.contains(member) && node.roster.joint is None
            &&& step.0.log == node.log.push(
                change_entry(
                    node,
                    Time(0),
                    OperationView::AddLearner { id: member, address: None },
                ),
            )
        },
        node.promotion_proposed(member) matches Ok(step) ==> {
            &&& node.roster.learners.contains(member) && node.roster.joint is None
            &&& node.match_index.dom().contains(member) && node.match_index[member].0
                >= node.snapshot_index.0 + node.log.len()
            &&& step.0.log == node.log.push(
                change_entry(
                    node,
                    Time(0),
                    OperationView::EnterJoint { new_voters: node.roster.voters.insert(member) },
                ),
            )
        },
        node.leave_proposed() matches Ok(step) ==> {
            &&& node.roster.joint is Some
            &&& node.roster.joint_enter_index matches Some(enter_index)
            &&& enter_index.0 <= node.commit_index.0
            &&& step.0.log == node.log.push(
                change_entry(node, Time(0), OperationView::LeaveJoint { enter_index }),
            )
        },
        node.transfer_proposed(member, now) matches Ok(step) ==> {
            &&& node.roster.voters.contains(member) && node.roster.joint is None
                && node.transfer is None
            &&& member == node.id || (node.match_index.dom().contains(member)
                && node.match_index[member].0 >= node.snapshot_index.0 + node.log.len())
            &&& step.0.log == node.log.push(
                change_entry(node, now, OperationView::BeginLeaderTransfer { target: member }),
            )
        },
{
    reveal(NodeView::config_appended);
    reveal(NodeView::configured);
    reveal(NodeView::entry_offered);
    reveal(NodeView::advanced);
    reveal(NodeView::applied);
}

/// A peer can be reached at an endpoint with a port whose address is neither the one that
/// stands for none nor that of a group, and at no other.
pub proof fn law_peers_are_reached_at_unicast_endpoints(address: PeerAddress)
    ensures
        address.usable() <==> match address {
            PeerAddress::V4 { ip, port } => port != 0 && (exists|i: int|
                0 <= i < 4 && #[trigger] ip@[i] != 0) && !(224 <= ip@[0] <= 239),
            PeerAddress::V6 { ip, port } => port != 0 && (exists|i: int|
                0 <= i < 16 && #[trigger] ip@[i] != 0) && ip@[0] != 255,
        },
{
}

/// A membership governs a cluster exactly where somebody votes, nobody has the number
/// zero, nobody both votes and learns, every endpoint is a member's and can be reached,
/// and the voters of a joint configuration are those of both of its sides.
pub proof fn law_sound_memberships_govern(membership: MembershipView)
    ensures
        membership.valid() <==> {
            &&& exists|id: NodeId| #[trigger] membership.voters.contains(id)
            &&& !membership.voters.contains(NodeId(0)) && !membership.learners.contains(NodeId(0))
            &&& forall|id: NodeId| #[trigger]
                membership.voters.contains(id) ==> !membership.learners.contains(id)
            &&& forall|id: NodeId| #[trigger]
                membership.addresses.dom().contains(id) ==> (membership.voters.contains(id)
                    || membership.learners.contains(id)) && membership.addresses[id].usable()
            &&& membership.joint matches Some(joint) ==> {
                &&& exists|id: NodeId| #[trigger] joint.old_voters.contains(id)
                &&& exists|id: NodeId| #[trigger] joint.new_voters.contains(id)
                &&& forall|id: NodeId| #[trigger]
                    membership.voters.contains(id) <==> joint.old_voters.contains(id)
                        || joint.new_voters.contains(id)
                &&& joint.enter_index.0 != 0
            }
        },
{
    assert((exists|id: NodeId| #[trigger] membership.voters.contains(id)) <==> membership.voters
        !~= Set::<NodeId>::empty());
    if let Some(joint) = membership.joint {
        assert((exists|id: NodeId| #[trigger] joint.old_voters.contains(id)) <==> joint.old_voters
            !~= Set::<NodeId>::empty());
        assert((exists|id: NodeId| #[trigger] joint.new_voters.contains(id)) <==> joint.new_voters
            !~= Set::<NodeId>::empty());
        let both = joint.old_voters.union(joint.new_voters);
        if forall|id: NodeId| #[trigger]
            membership.voters.contains(id) <==> joint.old_voters.contains(id)
                || joint.new_voters.contains(id) {
            assert(membership.voters =~= both);
        }
    }
}

} // verus!
