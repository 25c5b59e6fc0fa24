//! Peers: how a node introduces itself, what the frames of a peer may hold, and
//! what an operator's change of membership comes to.
use vstd::prelude::*;
use vstd::string::*;

use crate::codec::{decode, message_of};
use crate::command::{AdminOperation, AdminView};
use crate::config::Config;
use crate::fault::{because, fault, outcome_is, Fault, FaultKind, FaultView};
use crate::hex::ClusterId;
use crate::ids::NodeId;
use crate::metrics::{completed_snapshot, completed_transfer};
use crate::membership::{
    ConfigOperation, MembershipState, MembershipView, OperationView, PeerAddress,
    ATOMIC_BATCH_FEATURE, FOLLOWER_READ_FEATURE,
};
use crate::prose::{append_number, number_text};
use crate::raft_types::{
    KindView, Message, MessageKind, MessageView, PROTOCOL_VERSION, SEMANTIC_VERSION_V3,
};
use crate::routes::{canonical_address, canonical_peer_address};
use crate::text::copy_bytes;

verus! {

/// The lowest version of the protocol's meaning that a node speaks.
pub const SEMANTIC_VERSION_MIN: u16 = PROTOCOL_VERSION;

/// The highest version of the protocol's meaning that a node speaks.
pub const SEMANTIC_VERSION_MAX: u16 = SEMANTIC_VERSION_V3;

/// The features that a node can use.
pub const SUPPORTED_FEATURES: u64 = 3;

/// How a node introduces itself to a peer.
#[derive(Debug, PartialEq, Eq)]
pub struct PeerHello {
    pub cluster_id: ClusterId,
    pub node_id: NodeId,
    pub cluster_policy: Vec<u8>,
    pub semantic_min: u16,
    pub semantic_max: u16,
    pub supported_features: u64,
    pub required_features: u64,
    pub max_peer_frame: u32,
}

#[verifier::ext_equal]
pub struct HelloView {
    pub cluster_id: Seq<u8>,
    pub node_id: NodeId,
    pub cluster_policy: Seq<u8>,
    pub semantic_min: u16,
    pub semantic_max: u16,
    pub supported_features: u64,
    pub required_features: u64,
    pub max_peer_frame: u32,
}

impl View for PeerHello {
    type V = HelloView;

    open spec fn view(&self) -> HelloView {
        HelloView {
            cluster_id: self.cluster_id@,
            node_id: self.node_id,
            cluster_policy: self.cluster_policy@,
            semantic_min: self.semantic_min,
            semantic_max: self.semantic_max,
            supported_features: self.supported_features,
            required_features: self.required_features,
            max_peer_frame: self.max_peer_frame,
        }
    }
}

/// Composes how a node introduces itself.
pub fn local_hello(config: &Config, policy: &[u8], max_peer_frame: u32) -> (hello: PeerHello)
    ensures
        hello@ == (HelloView {
            cluster_id: config@.cluster_id,
            node_id: NodeId(config.id),
            cluster_policy: policy@,
            semantic_min: PROTOCOL_VERSION,
            semantic_max: SEMANTIC_VERSION_V3,
            supported_features: FOLLOWER_READ_FEATURE | ATOMIC_BATCH_FEATURE,
            required_features: 0,
            max_peer_frame,
        }),
{
    assert(FOLLOWER_READ_FEATURE | ATOMIC_BATCH_FEATURE == 3) by (bit_vector);
    PeerHello {
        cluster_id: config.cluster_id,
        node_id: NodeId::new(config.id),
        cluster_policy: copy_bytes(policy),
        semantic_min: SEMANTIC_VERSION_MIN,
        semantic_max: SEMANTIC_VERSION_MAX,
        supported_features: SUPPORTED_FEATURES,
        required_features: 0,
        max_peer_frame,
    }
}

/// What two nodes agreed on.
#[derive(Clone, Copy, Debug, PartialEq, Eq, Structural)]
pub struct NegotiatedPeer {
    pub semantic_version: u16,
    pub features: u64,
    pub max_peer_frame: u32,
}

/// Whether a version may cross between two nodes.
pub open spec fn version_allowed(version: u16, negotiated: NegotiatedPeer) -> bool {
    &&& SEMANTIC_VERSION_MIN <= version <= negotiated.semantic_version
    &&& version == PROTOCOL_VERSION || version == SEMANTIC_VERSION_V3
}

/// Decides whether a version may cross between two nodes.
pub fn wire_semantic_is_allowed(version: u16, negotiated: NegotiatedPeer) -> (r: bool)
    ensures
        r == version_allowed(version, negotiated),
{
    version >= SEMANTIC_VERSION_MIN && version <= negotiated.semantic_version && (version
        == PROTOCOL_VERSION || version == SEMANTIC_VERSION_V3)
}

/// Whether a message is part of a read that a follower serves.
pub open spec fn follower_read(kind: KindView) -> bool {
    kind is FollowerReadRequest || kind is FollowerReadGrant
}

/// Whether a message may cross between two nodes.
pub open spec fn message_allowed(message: MessageView, negotiated: NegotiatedPeer) -> bool {
    &&& version_allowed(message.proto_version, negotiated)
    &&& follower_read(message.kind) ==> negotiated.features & FOLLOWER_READ_FEATURE != 0
}

/// Decides whether a message may cross between two nodes.
pub fn message_features_are_allowed(message: &Message, negotiated: NegotiatedPeer) -> (r: bool)
    ensures
        r == message_allowed(message@, negotiated),
{
    let reads = match &message.kind {
        MessageKind::FollowerReadRequest { .. } => true,
        MessageKind::FollowerReadGrant { .. } => true,
        _ => false,
    };
    wire_semantic_is_allowed(message.proto_version, negotiated) && (!reads || negotiated.features
        & FOLLOWER_READ_FEATURE != 0)
}

/// Whether a frame may cross between two nodes: it holds a message of the
/// version that it is marked with, and that message may cross.
pub open spec fn frame_allowed(proto_version: u16, payload: Seq<u8>, negotiated: NegotiatedPeer) -> bool {
    match message_of(payload) {
        Err(_) => false,
        Ok(message) => message.proto_version == proto_version && message_allowed(
            message,
            negotiated,
        ),
    }
}

/// Decides whether a frame may cross between two nodes.
pub fn wire_message_features_are_allowed(
    proto_version: u16,
    payload: &[u8],
    negotiated: NegotiatedPeer,
) -> (r: bool)
    ensures
        r == frame_allowed(proto_version, payload@, negotiated),
{
    match decode(payload) {
        Err(_) => false,
        Ok(message) => message.proto_version == proto_version && message_features_are_allowed(
            &message,
            negotiated,
        ),
    }
}

/// Nothing newer than what was agreed on crosses, and no part of a read that a
/// follower serves without that feature.
pub proof fn law_frames_stay_within_the_agreement(
    proto_version: u16,
    payload: Seq<u8>,
    negotiated: NegotiatedPeer,
)
    ensures
        frame_allowed(proto_version, payload, negotiated) ==> proto_version
            <= negotiated.semantic_version && (follower_read(message_of(payload)->Ok_0.kind)
            ==> negotiated.features & FOLLOWER_READ_FEATURE != 0),
{
}

/// The name of a message.
pub open spec fn kind_name(kind: KindView) -> &'static str {
    match kind {
        KindView::PreVoteReq { .. } => "PreVoteReq",
        KindView::PreVoteResp { .. } => "PreVoteResp",
        KindView::VoteReq { .. } => "VoteReq",
        KindView::VoteResp { .. } => "VoteResp",
        KindView::AppendReq(_) => "AppendReq",
        KindView::AppendResp(_) => "AppendResp",
        KindView::SnapshotChunk { .. } => "SnapshotChunk",
        KindView::SnapshotAck { .. } => "SnapshotAck",
        KindView::TimeoutNow { .. } => "TimeoutNow",
        KindView::FollowerReadRequest { .. } => "FollowerReadRequest",
        KindView::FollowerReadGrant { .. } => "FollowerReadGrant",
    }
}

/// The name of a message.
pub fn raft_message_kind_name(kind: &MessageKind) -> (name: &'static str)
    ensures
        name == kind_name(kind@),
{
    match kind {
        MessageKind::PreVoteReq { .. } => "PreVoteReq",
        MessageKind::PreVoteResp { .. } => "PreVoteResp",
        MessageKind::VoteReq { .. } => "VoteReq",
        MessageKind::VoteResp { .. } => "VoteResp",
        MessageKind::AppendReq(_) => "AppendReq",
        MessageKind::AppendResp(_) => "AppendResp",
        MessageKind::SnapshotChunk { .. } => "SnapshotChunk",
        MessageKind::SnapshotAck { .. } => "SnapshotAck",
        MessageKind::TimeoutNow { .. } => "TimeoutNow",
        MessageKind::FollowerReadRequest { .. } => "FollowerReadRequest",
        MessageKind::FollowerReadGrant { .. } => "FollowerReadGrant",
    }
}

/// What is said of a frame that the engine could not take.
pub open spec fn frame_diagnostic(payload: Seq<u8>) -> Seq<char> {
    match message_of(payload) {
        Err(_) => "undecodable"@,
        Ok(message) => "from=n"@ + number_text(message.from.0 as nat) + " term="@ + number_text(
            message.term.0 as nat,
        ) + " kind="@ + kind_name(message.kind)@,
    }
}

/// Composes what is said of a frame that the engine could not take.
pub fn diagnose_frame(payload: &[u8]) -> (text: String)
    ensures
        text@ == frame_diagnostic(payload@),
{
    match decode(payload) {
        Err(_) => "undecodable".to_owned(),
        Ok(message) => {
            let mut text = "from=n".to_owned();
            append_number(&mut text, message.from.get());
            text.append(" term=");
            append_number(&mut text, message.term.get());
            text.append(" kind=");
            text.append(raft_message_kind_name(&message.kind));
            text
        },
    }
}

/// Decides whether the node that answered is the one that was called.
pub fn check_route(answered: NodeId, called: NodeId) -> (result: Result<(), Fault>)
    ensures
        outcome_is(
            result,
            if answered != called {
                Some(because(FaultKind::InvalidData, "CCHL node id does not match peer route"))
            } else {
                None
            },
        ),
{
    if answered.get() != called.get() {
        return Err(fault(FaultKind::InvalidData, "CCHL node id does not match peer route"));
    }
    Ok(())
}

/// What a host learns from a frame of a peer that may cross.
#[derive(Debug, PartialEq, Eq)]
pub struct TakenFrame {
    /// The snapshot transfer that the frame brings to its end.
    pub completed: Option<u64>,
    /// What is said of the frame where the engine cannot take it.
    pub diagnostic: String,
}

/// Takes a frame of a peer, or refuses one that goes beyond the agreement.
pub fn serve_peer(proto_version: u16, payload: &[u8], negotiated: NegotiatedPeer) -> (result: Result<
    TakenFrame,
    Fault,
>)
    ensures
        match result {
            Ok(taken) => {
                &&& frame_allowed(proto_version, payload@, negotiated)
                &&& taken.completed == completed_transfer(payload@)
                &&& taken.diagnostic@ == frame_diagnostic(payload@)
            },
            Err(error) => {
                &&& !frame_allowed(proto_version, payload@, negotiated)
                &&& error@ == because(
                    FaultKind::InvalidData,
                    "CCRP semantic version or feature differs from negotiated CCHL",
                )
            },
        },
{
    if !wire_message_features_are_allowed(proto_version, payload, negotiated) {
        return Err(
            fault(
                FaultKind::InvalidData,
                "CCRP semantic version or feature differs from negotiated CCHL",
            ),
        );
    }
    Ok(TakenFrame { completed: completed_snapshot(payload), diagnostic: diagnose_frame(payload) })
}

/// How many bytes a host buffers of an introduction.
pub const HELLO_BUFFER_BYTES: usize = 2 * 1024;

/// Decides whether a host reads on for an introduction that is not whole, where
/// `read` bytes came and `buffered` are held with them.
pub fn read_hello(read: usize, buffered: usize) -> (result: Result<(), Fault>)
    ensures
        outcome_is(
            result,
            if read == 0 {
                Some(because(FaultKind::UnexpectedEof, "peer closed before CCHL"))
            } else if buffered > HELLO_BUFFER_BYTES {
                Some(because(FaultKind::InvalidData, "CCHL exceeds host buffer limit"))
            } else {
                None
            },
        ),
{
    if read == 0 {
        return Err(fault(FaultKind::UnexpectedEof, "peer closed before CCHL"));
    }
    if buffered > HELLO_BUFFER_BYTES {
        return Err(fault(FaultKind::InvalidData, "CCHL exceeds host buffer limit"));
    }
    Ok(())
}

/// Decides whether a host goes on buffering a frame of a peer.
pub fn check_peer_buffer(buffered: u64, max_peer_frame: u32) -> (result: Result<(), Fault>)
    ensures
        outcome_is(
            result,
            if buffered > max_peer_frame + 32 {
                Some(because(FaultKind::InvalidData, "peer frame exceeds host buffer limit"))
            } else {
                None
            },
        ),
{
    if buffered > max_peer_frame as u64 + 32 {
        return Err(fault(FaultKind::InvalidData, "peer frame exceeds host buffer limit"));
    }
    Ok(())
}

/// How many times a frame is sent before it is given up.
pub const SEND_TRIES: u64 = 2;

/// What came of one try to send a frame.
#[derive(Clone, Copy, Debug, PartialEq, Eq, Structural)]
pub enum SendOutcome {
    /// The peer may not get such a frame.
    Refused,
    Sent,
    /// The connection broke.
    Broken,
}

/// What a host does after one try to send a frame.
#[derive(Debug, PartialEq, Eq)]
pub enum SendStep {
    Done,
    /// It drops the connection and tries again over a new one.
    Retry,
    /// It drops the connection and gives up.
    GiveUp,
    Fail(Fault),
}

pub enum SendView {
    Done,
    Retry,
    GiveUp,
    Fail(FaultView),
}

impl View for SendStep {
    type V = SendView;

    open spec fn view(&self) -> SendView {
        match *self {
            SendStep::Done => SendView::Done,
            SendStep::Retry => SendView::Retry,
            SendStep::GiveUp => SendView::GiveUp,
            SendStep::Fail(fault) => SendView::Fail(fault@),
        }
    }
}

/// What a host does after a try, where `tries` were made with it.
pub open spec fn sent_step(outcome: SendOutcome, tries: u64) -> SendView {
    match outcome {
        SendOutcome::Refused => SendView::Fail(
            because(
                FaultKind::InvalidData,
                "CCRP semantic version or feature differs from negotiated CCHL",
            ),
        ),
        SendOutcome::Sent => SendView::Done,
        SendOutcome::Broken => if tries < SEND_TRIES {
            SendView::Retry
        } else {
            SendView::GiveUp
        },
    }
}

/// Decides what a host does after a try to send a frame.
pub fn send_peer(outcome: SendOutcome, tries: u64) -> (step: SendStep)
    ensures
        step@ == sent_step(outcome, tries),
{
    match outcome {
        SendOutcome::Refused => SendStep::Fail(
            fault(
                FaultKind::InvalidData,
                "CCRP semantic version or feature differs from negotiated CCHL",
            ),
        ),
        SendOutcome::Sent => SendStep::Done,
        SendOutcome::Broken => if tries < SEND_TRIES {
            SendStep::Retry
        } else {
            SendStep::GiveUp
        },
    }
}

/// A member's number, which is not zero.
pub open spec fn checked_id(id: u64) -> Result<NodeId, FaultView> {
    if id == 0 {
        Err(because(FaultKind::InvalidInput, "member id must be nonzero"))
    } else {
        Ok(NodeId(id))
    }
}

/// Accepts a member's number.
pub fn checked_member_id(id: u64) -> (result: Result<NodeId, Fault>)
    ensures
        match result {
            Ok(node) => checked_id(id) == Ok::<NodeId, FaultView>(node),
            Err(error) => checked_id(id) == Err::<NodeId, FaultView>(error@),
        },
{
    if id == 0 {
        return Err(fault(FaultKind::InvalidInput, "member id must be nonzero"));
    }
    Ok(NodeId::new(id))
}

/// What an operator's change comes to, where `parsed` is the numeric endpoint
/// that its address is.
pub open spec fn config_change(
    operation: AdminView,
    membership: MembershipView,
    parsed: Option<PeerAddress>,
) -> Result<OperationView, FaultView> {
    match operation {
        AdminView::AddLearner { id, peer_address } => match checked_id(id) {
            Err(fault) => Err(fault),
            Ok(id) => match canonical_address(peer_address, parsed) {
                Err(fault) => Err(fault),
                Ok(address) => Ok(OperationView::AddLearner { id, address: Some(address) }),
            },
        },
        AdminView::Promote { id } => match checked_id(id) {
            Err(fault) => Err(fault),
            Ok(id) => Ok(OperationView::EnterJoint { new_voters: membership.voters.insert(id) }),
        },
        AdminView::Remove { id } => match checked_id(id) {
            Err(fault) => Err(fault),
            Ok(id) => if membership.learners.contains(id) {
                Ok(OperationView::RemoveLearner { id })
            } else if membership.voters.contains(id) {
                Ok(OperationView::EnterJoint { new_voters: membership.voters.remove(id) })
            } else {
                Err(because(FaultKind::InvalidInput, "member is absent"))
            },
        },
        AdminView::UpdateAddress { id, peer_address } => match checked_id(id) {
            Err(fault) => Err(fault),
            Ok(id) => match canonical_address(peer_address, parsed) {
                Err(fault) => Err(fault),
                Ok(address) => Ok(OperationView::UpdateAddress { id, address }),
            },
        },
        AdminView::TransferLeader { id } => match checked_id(id) {
            Err(fault) => Err(fault),
            Ok(target) => Ok(OperationView::BeginLeaderTransfer { target }),
        },
        AdminView::LeaveJoint => match membership.joint {
            None => Err(because(FaultKind::InvalidInput, "membership is not joint")),
            Some(joint) => Ok(OperationView::LeaveJoint { enter_index: joint.enter_index }),
        },
        AdminView::ActivateAtomicBatch => Ok(
            OperationView::ActivateFeature { feature: ATOMIC_BATCH_FEATURE },
        ),
    }
}

/// Composes what an operator's change comes to.
pub fn admin_config_operation(
    operation: &AdminOperation,
    membership: &MembershipState,
    parsed: Option<PeerAddress>,
) -> (result: Result<ConfigOperation, Fault>)
    ensures
        match result {
            Ok(change) => config_change(operation@, membership@, parsed) == Ok::<
                OperationView,
                FaultView,
            >(change@),
            Err(error) => config_change(operation@, membership@, parsed) == Err::<
                OperationView,
                FaultView,
            >(error@),
        },
{
    match operation {
        AdminOperation::AddLearner { id, peer_address } => {
            let id = match checked_member_id(*id) {
                Ok(id) => id,
                Err(error) => return Err(error),
            };
            match canonical_peer_address(peer_address.as_slice(), parsed) {
                Ok(address) => Ok(ConfigOperation::AddLearner { id, address: Some(address) }),
                Err(error) => Err(error),
            }
        },
        AdminOperation::Promote { id } => {
            let id = match checked_member_id(*id) {
                Ok(id) => id,
                Err(error) => return Err(error),
            };
            let mut new_voters = membership.voters.clone();
            new_voters.insert(id);
            Ok(ConfigOperation::EnterJoint { new_voters })
        },
        AdminOperation::Remove { id } => {
            let id = match checked_member_id(*id) {
                Ok(id) => id,
                Err(error) => return Err(error),
            };
            if membership.learners.contains(id) {
                return Ok(ConfigOperation::RemoveLearner { id });
            }
            if membership.voters.contains(id) {
                let mut new_voters = membership.voters.clone();
                new_voters.remove(id);
                return Ok(ConfigOperation::EnterJoint { new_voters });
            }
            Err(fault(FaultKind::InvalidInput, "member is absent"))
        },
        AdminOperation::UpdateAddress { id, peer_address } => {
            let id = match checked_member_id(*id) {
                Ok(id) => id,
                Err(error) => return Err(error),
            };
            match canonical_peer_address(peer_address.as_slice(), parsed) {
                Ok(address) => Ok(ConfigOperation::UpdateAddress { id, address }),
                Err(error) => Err(error),
            }
        },
        AdminOperation::TransferLeader { id } => match checked_member_id(*id) {
            Ok(target) => Ok(ConfigOperation::BeginLeaderTransfer { target }),
            Err(error) => Err(error),
        },
        AdminOperation::LeaveJoint => match &membership.joint {
            Some(joint) => Ok(ConfigOperation::LeaveJoint { enter_index: joint.enter_index }),
            None => Err(fault(FaultKind::InvalidInput, "membership is not joint")),
        },
        AdminOperation::ActivateAtomicBatch => Ok(
            ConfigOperation::ActivateFeature { feature: ATOMIC_BATCH_FEATURE },
        ),
    }
}

} // verus!
