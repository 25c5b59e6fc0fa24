//! Where members and clients are reached.
use vstd::prelude::*;
use vstd::string::*;
use vstd::utf8::{decode_utf8, valid_utf8};

use crate::config::{peer_views, Config, ConfigView, PeerView};
use crate::fault::{because, fault, fault_of, outcome_is, Fault, FaultKind, FaultView};
use crate::ids::NodeId;
use crate::membership::{MembershipState, MembershipView, PeerAddress};
use crate::node_set::NodeSet;
use crate::prose::{append_number, number_text};
use crate::text::{number_in, read_number, utf8_text};
use crate::words::{rsplit_once, split_at_last};

verus! {

/// Whether all bytes but the last are zero.
fn leading_zeros(ip: &[u8; 16]) -> (r: bool)
    ensures
        r == (forall|i: int| 0 <= i < 15 ==> ip@[i] == 0),
{
    let mut i: usize = 0;
    while i < 15
        invariant
            i <= 15,
            forall|k: int| 0 <= k < i ==> ip@[k] == 0,
        decreases 15 - i,
    {
        if ip[i] != 0 {
            return false;
        }
        i += 1;
    }
    true
}

impl PeerAddress {
    /// Whether only this machine reaches an address.
    pub open spec fn loops_back(self) -> bool {
        match self {
            PeerAddress::V4 { ip, .. } => ip@[0] == 127,
            PeerAddress::V6 { ip, .. } => ip@[15] == 1 && forall|i: int|
                0 <= i < 15 ==> ip@[i] == 0,
        }
    }

    pub fn is_loopback(&self) -> (r: bool)
        ensures
            r == self.loops_back(),
    {
        match self {
            PeerAddress::V4 { ip, .. } => ip[0] == 127,
            PeerAddress::V6 { ip, .. } => ip[15] == 1 && leading_zeros(ip),
        }
    }

    /// The same host at another port.
    pub open spec fn at_port(self, port: u16) -> PeerAddress {
        match self {
            PeerAddress::V4 { ip, .. } => PeerAddress::V4 { ip, port },
            PeerAddress::V6 { ip, .. } => PeerAddress::V6 { ip, port },
        }
    }

    pub fn port(&self) -> (port: u16)
        ensures
            port == self.spec_port(),
    {
        match self {
            PeerAddress::V4 { port, .. } => *port,
            PeerAddress::V6 { port, .. } => *port,
        }
    }

    pub fn with_port(&self, port: u16) -> (address: PeerAddress)
        ensures
            address == self.at_port(port),
    {
        match self {
            PeerAddress::V4 { ip, .. } => PeerAddress::V4 { ip: *ip, port },
            PeerAddress::V6 { ip, .. } => PeerAddress::V6 { ip: *ip, port },
        }
    }
}

/// What to say of a listener that others can reach without proving who they
/// are.
pub open spec fn listener_warning(name: Seq<char>, address: PeerAddress, shown: Seq<char>) -> Option<
    Seq<char>,
> {
    if address.loops_back() {
        None
    } else {
        Some(
            "ccdb warning listener="@ + name + " address="@ + shown + " unauthenticated=true"@,
        )
    }
}

/// What to say of a listener at `address`, which is written `shown`.
pub fn unsafe_listener_warning(name: &str, address: &PeerAddress, shown: &str) -> (warning: Option<
    String,
>)
    ensures
        match warning {
            Some(text) => listener_warning(name@, *address, shown@) == Some(text@),
            None => listener_warning(name@, *address, shown@) is None,
        },
{
    if address.is_loopback() {
        return None;
    }
    let mut text = "ccdb warning listener=".to_owned();
    text.append(name);
    text.append(" address=");
    text.append(shown);
    text.append(" unauthenticated=true");
    Some(text)
}

/// An address that a listener's name resolved to, and how it is written.
#[derive(Clone, Debug, PartialEq, Eq)]
pub struct Resolved {
    pub address: PeerAddress,
    pub shown: String,
}

/// The refusal of the first address from `i` on that others can reach.
pub open spec fn exposed_from(name: Seq<char>, addresses: Seq<Resolved>, i: int) -> Option<
    FaultView,
>
    decreases addresses.len() - i,
{
    if i < 0 || i >= addresses.len() {
        None
    } else {
        match listener_warning(name, addresses[i].address, addresses[i].shown@) {
            Some(message) => Some(FaultView { kind: FaultKind::PermissionDenied, message }),
            None => exposed_from(name, addresses, i + 1),
        }
    }
}

/// Why a listener is refused, if it is.
pub open spec fn listener_refusal(
    name: Seq<char>,
    addresses: Seq<Resolved>,
    allow_unsafe: bool,
) -> Option<FaultView> {
    if allow_unsafe {
        None
    } else {
        exposed_from(name, addresses, 0)
    }
}

/// Decides whether a listener may open: every address that its name resolves
/// to has to loop back, unless the operator knows better.
pub fn validate_resolved_listener(name: &str, addresses: &[Resolved], allow_unsafe: bool) -> (result:
    Result<(), Fault>)
    ensures
        outcome_is(result, listener_refusal(name@, addresses@, allow_unsafe)),
{
    if allow_unsafe {
        return Ok(());
    }
    let mut i: usize = 0;
    while i < addresses.len()
        invariant
            i <= addresses@.len(),
            !allow_unsafe,
            exposed_from(name@, addresses@, 0) == exposed_from(name@, addresses@, i as int),
        decreases addresses@.len() - i,
    {
        if let Some(warning) = unsafe_listener_warning(
            name,
            &addresses[i].address,
            addresses[i].shown.as_str(),
        ) {
            return Err(fault_of(FaultKind::PermissionDenied, warning));
        }
        i += 1;
    }
    Ok(())
}

/// A listener whose name resolves to nothing.
pub open spec fn unnamed_listener(name: Seq<char>) -> FaultView {
    FaultView { kind: FaultKind::InvalidInput, message: "invalid "@ + name + " listener"@ }
}

/// Why one of the three listeners is refused, if it is.
pub open spec fn one_listener_refusal(
    name: &str,
    addresses: Seq<Resolved>,
    allow_unsafe: bool,
) -> Option<FaultView> {
    if addresses.len() == 0 {
        Some(unnamed_listener(name@))
    } else {
        listener_refusal(name@, addresses, allow_unsafe)
    }
}

/// Why a node's listeners are refused, if they are.
pub open spec fn listeners_refusal(
    client: Seq<Resolved>,
    peer: Seq<Resolved>,
    metrics: Seq<Resolved>,
    allow_unsafe: bool,
) -> Option<FaultView> {
    match one_listener_refusal("client", client, allow_unsafe) {
        Some(fault) => Some(fault),
        None => match one_listener_refusal("peer", peer, allow_unsafe) {
            Some(fault) => Some(fault),
            None => one_listener_refusal("metrics", metrics, allow_unsafe),
        },
    }
}

fn validate_one_listener(name: &str, addresses: &[Resolved], allow_unsafe: bool) -> (result: Result<
    (),
    Fault,
>)
    ensures
        outcome_is(result, one_listener_refusal(name, addresses@, allow_unsafe)),
{
    if addresses.len() == 0 {
        let mut message = "invalid ".to_owned();
        message.append(name);
        message.append(" listener");
        return Err(fault_of(FaultKind::InvalidInput, message));
    }
    validate_resolved_listener(name, addresses, allow_unsafe)
}

/// Decides whether a node's listeners may open.
pub fn validate_listener_safety(
    client: &[Resolved],
    peer: &[Resolved],
    metrics: &[Resolved],
    allow_unsafe: bool,
) -> (result: Result<(), Fault>)
    ensures
        outcome_is(result, listeners_refusal(client@, peer@, metrics@, allow_unsafe)),
{
    match validate_one_listener("client", client, allow_unsafe) {
        Ok(_) => {},
        Err(error) => return Err(error),
    }
    match validate_one_listener("peer", peer, allow_unsafe) {
        Ok(_) => {},
        Err(error) => return Err(error),
    }
    validate_one_listener("metrics", metrics, allow_unsafe)
}

/// The first configured member with a number, from position `i` on.
pub open spec fn peer_from(peers: Seq<PeerView>, id: u64, i: int) -> Option<Seq<char>>
    decreases peers.len() - i,
{
    if i < 0 || i >= peers.len() {
        None
    } else if peers[i].id == id {
        Some(peers[i].address)
    } else {
        peer_from(peers, id, i + 1)
    }
}

/// The configured address of a member.
pub fn configured_address(config: &Config, id: u64) -> (address: Option<&str>)
    ensures
        match address {
            Some(address) => peer_from(config@.peers, id, 0) == Some(address@),
            None => peer_from(config@.peers, id, 0) is None,
        },
{
    let mut i: usize = 0;
    while i < config.peers.len()
        invariant
            i <= config.peers@.len(),
            peer_from(config@.peers, id, 0) == peer_from(config@.peers, id, i as int),
        decreases config.peers@.len() - i,
    {
        assert(config@.peers[i as int] == config.peers@[i as int]@);
        if config.peers[i].id == id {
            return Some(config.peers[i].address.as_str());
        }
        i += 1;
    }
    None
}

/// A port a hundred lower, as far as it goes.
pub open spec fn lowered(port: u64) -> nat {
    if port >= 100 {
        (port - 100) as nat
    } else {
        0
    }
}

/// The client address that belongs to a peer address: the same host, a
/// hundred ports lower.
pub open spec fn client_text(address: Seq<char>) -> Option<Seq<char>> {
    match split_at_last(address, ':') {
        None => None,
        Some((host, port)) => match number_in(port) {
            None => None,
            Some(port) => if port > u16::MAX {
                None
            } else {
                Some(host + ":"@ + number_text(lowered(port)))
            },
        },
    }
}

/// Where the configuration says that a member's clients go.
pub open spec fn client_address_of(config: ConfigView, node: u64) -> Seq<char> {
    if node == config.id {
        config.listen_client
    } else {
        match peer_from(config.peers, node, 0) {
            None => "unknown"@,
            Some(address) => match client_text(address) {
                None => "unknown"@,
                Some(text) => text,
            },
        }
    }
}

/// Where the configuration says that a member's clients go.
pub fn client_address_for(config: &Config, node: u64) -> (address: String)
    ensures
        address@ == client_address_of(config@, node),
{
    if node == config.id {
        return config.listen_client.clone();
    }
    let address = match configured_address(config, node) {
        Some(address) => address,
        None => return "unknown".to_owned(),
    };
    let (host, port) = match rsplit_once(address, ':') {
        Some(halves) => halves,
        None => return "unknown".to_owned(),
    };
    match read_number(port) {
        Some(port) => {
            if port > 65535 {
                return "unknown".to_owned();
            }
            let mut text = host.to_owned();
            text.append(":");
            append_number(
                &mut text,
                if port >= 100 {
                    port - 100
                } else {
                    0
                },
            );
            text
        },
        None => "unknown".to_owned(),
    }
}

/// Where a member's clients go: an address, or a text of the configuration.
#[derive(Clone, Debug, PartialEq, Eq)]
pub enum ClientRoute {
    Address(PeerAddress),
    Text(String),
}

pub enum ClientRouteView {
    Address(PeerAddress),
    Text(Seq<char>),
}

impl View for ClientRoute {
    type V = ClientRouteView;

    open spec fn view(&self) -> ClientRouteView {
        match *self {
            ClientRoute::Address(address) => ClientRouteView::Address(address),
            ClientRoute::Text(text) => ClientRouteView::Text(text@),
        }
    }
}

/// Where a member's clients go. The replicated address outranks the
/// configured one, except for the node itself.
pub open spec fn client_route_of(
    config: ConfigView,
    node: u64,
    replicated: Option<PeerAddress>,
) -> ClientRouteView {
    if node != config.id && replicated is Some && replicated->0.spec_port() >= 100 {
        ClientRouteView::Address(replicated->0.at_port((replicated->0.spec_port() - 100) as u16))
    } else {
        ClientRouteView::Text(client_address_of(config, node))
    }
}

/// Finds where a member's clients go.
pub fn client_address(config: &Config, node: u64, replicated: Option<PeerAddress>) -> (route:
    ClientRoute)
    ensures
        route@ == client_route_of(config@, node, replicated),
{
    if node == config.id {
        return ClientRoute::Text(config.listen_client.clone());
    }
    if let Some(address) = replicated {
        let port: u16 = address.port();
        if port >= 100 {
            return ClientRoute::Address(address.with_port(port - 100));
        }
    }
    ClientRoute::Text(client_address_for(config, node))
}

/// A membership as an operator is shown it: its voters, its learners and its
/// addresses, each as the caller writes it out.
pub struct ShownMembership {
    pub voters: String,
    pub learners: String,
    pub addresses: String,
}

/// What is said of a member that nobody knows how to reach.
pub open spec fn unknown_peer(shown: ShownMembership) -> FaultView {
    FaultView {
        kind: FaultKind::InvalidInput,
        message: "unknown peer node id; voters="@ + shown.voters@ + " learners="@
            + shown.learners@ + " addresses="@ + shown.addresses@,
    }
}

/// Where a member is reached: the replicated address outranks the configured
/// one, and without either nobody knows.
pub open spec fn peer_route_of(
    config: ConfigView,
    node: u64,
    replicated: Option<PeerAddress>,
    shown: ShownMembership,
) -> Result<ClientRouteView, FaultView> {
    match replicated {
        Some(address) => Ok(ClientRouteView::Address(address)),
        None => match peer_from(config.peers, node, 0) {
            Some(text) => Ok(ClientRouteView::Text(text)),
            None => Err(unknown_peer(shown)),
        },
    }
}

/// Finds where a member is reached.
pub fn peer_address(
    config: &Config,
    node: u64,
    replicated: Option<PeerAddress>,
    shown: &ShownMembership,
) -> (result: Result<ClientRoute, Fault>)
    ensures
        match result {
            Ok(route) => peer_route_of(config@, node, replicated, *shown) == Ok::<
                ClientRouteView,
                FaultView,
            >(route@),
            Err(error) => peer_route_of(config@, node, replicated, *shown) == Err::<
                ClientRouteView,
                FaultView,
            >(error@),
        },
{
    match replicated {
        Some(address) => Ok(ClientRoute::Address(address)),
        None => match configured_address(config, node) {
            Some(text) => Ok(ClientRoute::Text(text.to_owned())),
            None => {
                let mut message: String = "unknown peer node id; voters=".to_owned();
                message.append(shown.voters.as_str());
                message.append(" learners=");
                message.append(shown.learners.as_str());
                message.append(" addresses=");
                message.append(shown.addresses.as_str());
                Err(fault_of(FaultKind::InvalidInput, message))
            },
        },
    }
}

/// The peer address that bytes write, where `parsed` is the numeric endpoint
/// that their text is.
pub open spec fn canonical_address(raw: Seq<u8>, parsed: Option<PeerAddress>) -> Result<
    PeerAddress,
    FaultView,
> {
    if !valid_utf8(raw) {
        Err(because(FaultKind::InvalidInput, "peer address must be UTF-8"))
    } else {
        match parsed {
            None => Err(
                because(FaultKind::InvalidInput, "peer address must be a numeric IP:port"),
            ),
            Some(address) => if address.usable() {
                Ok(address)
            } else {
                Err(because(FaultKind::InvalidInput, "invalid peer address"))
            },
        }
    }
}

/// Accepts a peer address.
pub fn canonical_peer_address(raw: &[u8], parsed: Option<PeerAddress>) -> (result: Result<
    PeerAddress,
    Fault,
>)
    ensures
        match result {
            Ok(address) => canonical_address(raw@, parsed) == Ok::<PeerAddress, FaultView>(address),
            Err(error) => canonical_address(raw@, parsed) == Err::<PeerAddress, FaultView>(error@),
        },
{
    if utf8_text(raw).is_none() {
        return Err(fault(FaultKind::InvalidInput, "peer address must be UTF-8"));
    }
    match parsed {
        None => Err(fault(FaultKind::InvalidInput, "peer address must be a numeric IP:port")),
        Some(address) => if address.validate() {
            Ok(address)
        } else {
            Err(fault(FaultKind::InvalidInput, "invalid peer address"))
        },
    }
}

/// The numbers of configured members.
pub open spec fn peer_ids(peers: Seq<PeerView>) -> Seq<NodeId> {
    peers.map_values(|peer: PeerView| NodeId(peer.id))
}

/// The addresses of the first `n` members.
pub open spec fn address_book(peers: Seq<PeerView>, resolved: Seq<PeerAddress>, n: int) -> Map<
    NodeId,
    PeerAddress,
>
    decreases n,
{
    if n <= 0 {
        Map::empty()
    } else {
        address_book(peers, resolved, n - 1).insert(NodeId(peers[n - 1].id), resolved[n - 1])
    }
}

/// The membership that a configuration starts from, where `resolved` are the
/// addresses of its members.
pub open spec fn bootstrap(config: ConfigView, resolved: Seq<PeerAddress>) -> MembershipView {
    MembershipView {
        voters: peer_ids(config.peers).to_set(),
        learners: Set::empty(),
        joint: None,
        addresses: address_book(config.peers, resolved, config.peers.len() as int),
        active_features: 0,
    }
}

/// Composes the membership that a configuration starts from.
pub fn membership(config: &Config, resolved: &[PeerAddress]) -> (result: Result<
    MembershipState,
    Fault,
>)
    requires
        resolved@.len() == config.peers@.len(),
    ensures
        result is Ok <==> bootstrap(config@, resolved@).valid(),
        match result {
            Ok(state) => state@ == bootstrap(config@, resolved@),
            Err(error) => error@ == because(FaultKind::Other, "invalid membership"),
        },
{
    let ghost peers = config@.peers;
    let ghost ids_all = peer_ids(peers);
    let mut ids: Vec<NodeId> = Vec::new();
    let mut i: usize = 0;
    while i < config.peers.len()
        invariant
            i <= config.peers@.len(),
            peers == peer_views(config.peers@),
            ids_all == peer_ids(peers),
            ids@ == ids_all.take(i as int),
        decreases config.peers@.len() - i,
    {
        assert(peers[i as int] == config.peers@[i as int]@);
        ids.push(NodeId::new(config.peers[i].id));
        assert(ids@ =~= ids_all.take(i + 1));
        i += 1;
    }
    assert(ids@ =~= ids_all);
    let voters = NodeSet::from_ids(ids.as_slice());
    let mut state = match MembershipState::new(voters) {
        Ok(state) => state,
        Err(_) => return Err(fault(FaultKind::Other, "invalid membership")),
    };
    let mut n: usize = 0;
    while n < config.peers.len()
        invariant
            n <= config.peers@.len() == resolved@.len(),
            peers == peer_views(config.peers@),
            state@ == (MembershipView {
                voters: ids_all.to_set(),
                learners: Set::empty(),
                joint: None,
                addresses: address_book(peers, resolved@, n as int),
                active_features: 0,
            }),
        decreases config.peers@.len() - n,
    {
        assert(peers[n as int] == config.peers@[n as int]@);
        state.addresses.insert(NodeId::new(config.peers[n].id), resolved[n]);
        n += 1;
    }
    match state.validate() {
        Ok(_) => Ok(state),
        Err(_) => Err(fault(FaultKind::Other, "invalid membership")),
    }
}

} // verus!
