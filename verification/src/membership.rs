//! Cluster membership and the configuration changes that move it.
use vstd::prelude::*;

use crate::ids::{ClientId, LogIndex, NodeId, Time};
use crate::node_map::NodeMap;
use crate::node_set::{ascending, NodeSet};

verus! {

/// The feature that lets one log entry carry an atomic batch of commands.
pub const ATOMIC_BATCH_FEATURE: u64 = 2;

/// The feature that lets a follower serve leader-confirmed reads.
pub const FOLLOWER_READ_FEATURE: u64 = 1;

/// A numeric peer endpoint.
#[derive(Clone, Copy, Debug, PartialEq, Eq, PartialOrd, Ord, Hash)]
pub enum PeerAddress {
    V4 { ip: [u8; 4], port: u16 },
    V6 { ip: [u8; 16], port: u16 },
}

/// Whether every byte of an address is zero.
pub open spec fn all_zero(ip: Seq<u8>) -> bool {
    forall|i: int| 0 <= i < ip.len() ==> ip[i] == 0
}

impl PeerAddress {
    pub open spec fn ip_bytes(self) -> Seq<u8> {
        match self {
            PeerAddress::V4 { ip, .. } => ip@,
            PeerAddress::V6 { ip, .. } => ip@,
        }
    }

    pub open spec fn spec_port(self) -> u16 {
        match self {
            PeerAddress::V4 { port, .. } => port,
            PeerAddress::V6 { port, .. } => port,
        }
    }

    /// Whether the first address byte marks a multicast group.
    pub open spec fn is_multicast(self) -> bool {
        match self {
            PeerAddress::V4 { ip, .. } => 224 <= ip@[0] <= 239,
            PeerAddress::V6 { ip, .. } => ip@[0] == 255,
        }
    }

    /// Whether a peer can be reached there: a unicast address with a port.
    pub open spec fn usable(self) -> bool {
        self.spec_port() != 0 && !all_zero(self.ip_bytes()) && !self.is_multicast()
    }

    pub fn validate(&self) -> (r: bool)
        ensures
            r == self.usable(),
    {
        match self {
            PeerAddress::V4 { ip, port } => {
                let first: u8 = ip[0];
                *port != 0 && !zero_bytes(ip.as_slice()) && !(224 <= first && first <= 239)
            },
            PeerAddress::V6 { ip, port } => {
                let first: u8 = ip[0];
                *port != 0 && !zero_bytes(ip.as_slice()) && first != 255
            },
        }
    }

    /// Whether two endpoints are the same.
    pub fn same(&self, other: &PeerAddress) -> (r: bool)
        ensures
            r == (*self == *other),
    {
        match (self, other) {
            (
                PeerAddress::V4 { ip: a, port: p },
                PeerAddress::V4 { ip: b, port: q },
            ) => {
                let r = *p == *q && crate::text::same_bytes(a.as_slice(), b.as_slice());
                proof {
                    if a@ == b@ {
                        assert(*a =~= *b);
                    }
                }
                r
            },
            (
                PeerAddress::V6 { ip: a, port: p },
                PeerAddress::V6 { ip: b, port: q },
            ) => {
                let r = *p == *q && crate::text::same_bytes(a.as_slice(), b.as_slice());
                proof {
                    if a@ == b@ {
                        assert(*a =~= *b);
                    }
                }
                r
            },
            _ => false,
        }
    }
}

fn zero_bytes(ip: &[u8]) -> (r: bool)
    ensures
        r == all_zero(ip@),
{
    let mut i: usize = 0;
    while i < ip.len()
        invariant
            i <= ip@.len(),
            forall|k: int| 0 <= k < i ==> ip@[k] == 0,
        decreases ip@.len() - i,
    {
        if ip[i] != 0 {
            return false;
        }
        i += 1;
    }
    true
}

/// The kinds of durable sessions.
#[derive(Clone, Copy, Debug, PartialEq, Eq, PartialOrd, Ord, Hash, Structural)]
pub enum SessionNamespace {
    ClientRequest,
    AdminRequest,
}

pub open spec fn namespace_code(namespace: SessionNamespace) -> u8 {
    match namespace {
        SessionNamespace::ClientRequest => 1,
        SessionNamespace::AdminRequest => 2,
    }
}

impl SessionNamespace {
    pub fn code(self) -> (code: u8)
        ensures
            code == namespace_code(self),
    {
        match self {
            SessionNamespace::ClientRequest => 1,
            SessionNamespace::AdminRequest => 2,
        }
    }
}

/// A durable session: its kind and the identity that owns it.
#[derive(Clone, Copy, Debug, PartialEq, Eq, PartialOrd, Ord, Hash, Structural)]
pub struct SessionKey {
    pub namespace: u8,
    pub client: ClientId,
}

impl SessionKey {
    /// The key of a known kind of session with a nonzero owner.
    pub fn new(namespace: u8, client: ClientId) -> (key: Option<Self>)
        ensures
            key == if (namespace == 1 || namespace == 2) && client.0 != 0 {
                Some(SessionKey { namespace, client })
            } else {
                None
            },
    {
        if (namespace == 1 || namespace == 2) && client.0 != 0 {
            Some(SessionKey { namespace, client })
        } else {
            None
        }
    }
}

/// How a leadership transfer ended.
#[derive(Clone, Copy, Debug, PartialEq, Eq, PartialOrd, Ord, Hash, Structural)]
pub enum TransferResult {
    Success,
    Timeout,
    Superseded,
}

/// A change of configuration.
#[derive(Debug, PartialEq, Eq)]
pub enum ConfigOperation {
    AddLearner { id: NodeId, address: Option<PeerAddress> },
    RemoveLearner { id: NodeId },
    UpdateAddress { id: NodeId, address: PeerAddress },
    EnterJoint { new_voters: NodeSet },
    LeaveJoint { enter_index: LogIndex },
    BeginLeaderTransfer { target: NodeId },
    FinishLeaderTransfer { intent_index: LogIndex, result: TransferResult },
    ActivateFeature { feature: u64 },
}

/// A change of configuration as mathematics.
#[verifier::ext_equal]
pub enum OperationView {
    AddLearner { id: NodeId, address: Option<PeerAddress> },
    RemoveLearner { id: NodeId },
    UpdateAddress { id: NodeId, address: PeerAddress },
    EnterJoint { new_voters: Set<NodeId> },
    LeaveJoint { enter_index: LogIndex },
    BeginLeaderTransfer { target: NodeId },
    FinishLeaderTransfer { intent_index: LogIndex, result: TransferResult },
    ActivateFeature { feature: u64 },
}

impl View for ConfigOperation {
    type V = OperationView;

    open spec fn view(&self) -> OperationView {
        match *self {
            ConfigOperation::AddLearner { id, address } => OperationView::AddLearner {
                id,
                address,
            },
            ConfigOperation::RemoveLearner { id } => OperationView::RemoveLearner { id },
            ConfigOperation::UpdateAddress { id, address } => OperationView::UpdateAddress {
                id,
                address,
            },
            ConfigOperation::EnterJoint { new_voters } => OperationView::EnterJoint {
                new_voters: new_voters@,
            },
            ConfigOperation::LeaveJoint { enter_index } => OperationView::LeaveJoint {
                enter_index,
            },
            ConfigOperation::BeginLeaderTransfer { target } => OperationView::BeginLeaderTransfer {
                target,
            },
            ConfigOperation::FinishLeaderTransfer {
                intent_index,
                result,
            } => OperationView::FinishLeaderTransfer { intent_index, result },
            ConfigOperation::ActivateFeature { feature } => OperationView::ActivateFeature {
                feature,
            },
        }
    }
}

/// A configuration change with the identity that asked for it.
#[derive(Debug, PartialEq, Eq)]
pub struct ConfigEnvelope {
    pub admin_session: Option<(SessionKey, u64)>,
    pub leader_time: Time,
    pub operation: ConfigOperation,
}

/// A configuration change with the identity that asked for it, as mathematics.
#[verifier::ext_equal]
pub struct EnvelopeView {
    pub admin_session: Option<(SessionKey, u64)>,
    pub leader_time: Time,
    pub operation: OperationView,
}

impl View for ConfigEnvelope {
    type V = EnvelopeView;

    open spec fn view(&self) -> EnvelopeView {
        EnvelopeView {
            admin_session: self.admin_session,
            leader_time: self.leader_time,
            operation: self.operation@,
        }
    }
}

/// The two voter sets of a joint configuration.
#[derive(Debug, PartialEq, Eq)]
pub struct JointMembership {
    pub old_voters: NodeSet,
    pub new_voters: NodeSet,
    pub enter_index: LogIndex,
}

#[verifier::ext_equal]
pub struct JointView {
    pub old_voters: Set<NodeId>,
    pub new_voters: Set<NodeId>,
    pub enter_index: LogIndex,
}

impl View for JointMembership {
    type V = JointView;

    open spec fn view(&self) -> JointView {
        JointView {
            old_voters: self.old_voters@,
            new_voters: self.new_voters@,
            enter_index: self.enter_index,
        }
    }
}

/// Who belongs to the cluster, where they are, and what they agreed to use.
#[derive(Debug, PartialEq, Eq)]
pub struct MembershipState {
    pub voters: NodeSet,
    pub learners: NodeSet,
    pub joint: Option<JointMembership>,
    pub addresses: NodeMap<PeerAddress>,
    pub active_features: u64,
}

/// A membership as mathematics.
#[verifier::ext_equal]
pub struct MembershipView {
    pub voters: Set<NodeId>,
    pub learners: Set<NodeId>,
    pub joint: Option<JointView>,
    pub addresses: Map<NodeId, PeerAddress>,
    pub active_features: u64,
}

pub open spec fn joint_view(joint: Option<JointMembership>) -> Option<JointView> {
    match joint {
        Some(joint) => Some(joint@),
        None => None,
    }
}

impl View for MembershipState {
    type V = MembershipView;

    open spec fn view(&self) -> MembershipView {
        MembershipView {
            voters: self.voters@,
            learners: self.learners@,
            joint: joint_view(self.joint),
            addresses: self.addresses@,
            active_features: self.active_features,
        }
    }
}

impl MembershipView {
    /// Whether a node is a voter or a learner.
    pub open spec fn has(self, id: NodeId) -> bool {
        self.voters.contains(id) || self.learners.contains(id)
    }

    /// Whether a joint configuration is one: both sides are inhabited, and the
    /// voters are exactly the members of either.
    pub open spec fn joint_valid(self) -> bool {
        match self.joint {
            Some(joint) => {
                &&& joint.old_voters != Set::<NodeId>::empty()
                &&& joint.new_voters != Set::<NodeId>::empty()
                &&& self.voters == joint.old_voters.union(joint.new_voters)
                &&& joint.enter_index.0 != 0
            },
            None => true,
        }
    }

    /// Whether a membership can govern a cluster: it has a voter, no member is
    /// zero, nobody is both voter and learner, a joint configuration is one,
    /// and every address is a usable one of a member.
    pub open spec fn valid(self) -> bool {
        &&& self.voters != Set::<NodeId>::empty()
        &&& !self.has(NodeId(0))
        &&& self.voters.disjoint(self.learners)
        &&& self.joint_valid()
        &&& forall|id: NodeId| #[trigger]
            self.addresses.dom().contains(id) ==> self.has(id) && self.addresses[id].usable()
    }
}

#[derive(Clone, Copy, Debug, PartialEq, Eq)]
pub enum MembershipError {
    Invalid,
}

impl Clone for JointMembership {
    fn clone(&self) -> (copy: Self)
        ensures
            copy@ == self@,
    {
        JointMembership {
            old_voters: self.old_voters.clone(),
            new_voters: self.new_voters.clone(),
            enter_index: self.enter_index,
        }
    }
}

impl Clone for MembershipState {
    fn clone(&self) -> (copy: Self)
        ensures
            copy@ == self@,
    {
        MembershipState {
            voters: self.voters.clone(),
            learners: self.learners.clone(),
            joint: match &self.joint {
                Some(joint) => Some(joint.clone()),
                None => None,
            },
            addresses: self.addresses.clone(),
            active_features: self.active_features,
        }
    }
}

impl MembershipState {
    /// A membership of the given voters alone.
    pub fn new(voters: NodeSet) -> (result: Result<Self, MembershipError>)
        ensures
            result is Ok <==> voters@ != Set::<NodeId>::empty() && !voters@.contains(NodeId(0)),
            result matches Ok(state) ==> state@ == (MembershipView {
                voters: voters@,
                learners: Set::empty(),
                joint: None,
                addresses: Map::empty(),
                active_features: 0,
            }),
    {
        if voters.is_empty() || voters.contains(NodeId(0)) {
            return Err(MembershipError::Invalid);
        }
        Ok(
            MembershipState {
                voters,
                learners: NodeSet::new(),
                joint: None,
                addresses: NodeMap::new(),
                active_features: 0,
            },
        )
    }

    /// Whether a node is a voter or a learner.
    pub fn has(&self, id: NodeId) -> (r: bool)
        ensures
            r == self@.has(id),
    {
        self.voters.contains(id) || self.learners.contains(id)
    }

    pub fn validate(&self) -> (result: Result<(), MembershipError>)
        ensures
            result is Ok <==> self@.valid(),
    {
        if self.voters.is_empty() || self.has(NodeId(0)) {
            return Err(MembershipError::Invalid);
        }
        let mut i: usize = 0;
        let count: usize = self.voters.len();
        let ghost order = ascending(self@.voters);
        while i < count
            invariant
                i <= count == order.len() == self.voters@.len(),
                order == ascending(self@.voters),
                self@.voters == self.voters@,
                self@.learners == self.learners@,
                forall|k: int| 0 <= k < i ==> !self@.learners.contains(#[trigger] order[k]),
            decreases count - i,
        {
            let id = self.voters.at(i);
            if self.learners.contains(id) {
                assert(!self@.voters.disjoint(self@.learners));
                return Err(MembershipError::Invalid);
            }
            i += 1;
        }
        assert(self@.voters.disjoint(self@.learners)) by {
            assert forall|id: NodeId| #![auto]
                self@.voters.contains(id) implies !self@.learners.contains(id) by {
                assert(order.to_set().contains(id));
                let k = choose|k: int| 0 <= k < order.len() && order[k] == id;
                assert(!self@.learners.contains(order[k]));
            }
        }
        if let Some(joint) = &self.joint {
            if joint.old_voters.is_empty() || joint.new_voters.is_empty()
                || joint.enter_index.0 == 0 {
                return Err(MembershipError::Invalid);
            }
            let both = joint.old_voters.union(&joint.new_voters);
            if !self.voters.same(&both) {
                return Err(MembershipError::Invalid);
            }
        }
        assert(self@.joint_valid());
        let mut j: usize = 0;
        let routes: usize = self.addresses.len();
        let ghost keys = ascending(self@.addresses.dom());
        while j < routes
            invariant
                j <= routes == keys.len() == self.addresses@.dom().len(),
                keys == ascending(self@.addresses.dom()),
                self@.addresses == self.addresses@,
                forall|k: int|
                    0 <= k < j ==> self@.has(#[trigger] keys[k])
                        && self@.addresses[keys[k]].usable(),
            decreases routes - j,
        {
            let id = self.addresses.key_at(j);
            let address = self.addresses.value_at(j);
            if !self.has(id) || !address.validate() {
                assert(self@.addresses.dom().contains(id));
                return Err(MembershipError::Invalid);
            }
            j += 1;
        }
        assert forall|id: NodeId| #[trigger] self@.addresses.dom().contains(id) implies self@.has(id)
            && self@.addresses[id].usable() by {
            assert(keys.to_set().contains(id));
            let k = choose|k: int| 0 <= k < keys.len() && keys[k] == id;
            assert(self@.has(keys[k]));
        }
        Ok(())
    }
}

} // verus!
