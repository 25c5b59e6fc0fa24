//! Where a redirect ends.
use vstd::prelude::*;
use vstd::string::*;

use crate::config::{climbs, config_of, ConfigView, PeerView};
use crate::config_laws::{law_initial_config_reads_back, local_members, quotable};
use crate::config_text::{initial_config, local_port};
use crate::fault::{FaultKind, FaultView};
use crate::hex::{zero_id, ClusterId};
use crate::ids::NodeId;
use crate::membership::PeerAddress;
use crate::prose::number_text;
use crate::routes::{
    address_book, bootstrap, client_route_of, client_text, exposed_from, listeners_refusal, lowered,
    peer_from, peer_ids, peer_route_of, ClientRouteView, Resolved, ShownMembership,
};
use crate::status_laws::{decimal_char, law_numbers_read_back, lemma_number_text};
use crate::text::number_in;
use crate::words::last_at;

verus! {

/// An endpoint as it is written.
pub open spec fn written(host: Seq<char>, port: int) -> Seq<char> {
    host + ":"@ + number_text(port as nat)
}

/// Whether two endpoints are on the same host, `below` so many ports lower.
pub open spec fn ports_apart(below: PeerAddress, above: PeerAddress, ports: int) -> bool {
    match (below, above) {
        (PeerAddress::V4 { ip, port }, PeerAddress::V4 { ip: same, port: higher }) => ip == same
            && port + ports == higher,
        (PeerAddress::V6 { ip, port }, PeerAddress::V6 { ip: same, port: higher }) => ip == same
            && port + ports == higher,
        _ => false,
    }
}

/// Whether a configuration lists a member at one endpoint, and only there.
pub open spec fn listed_at(config: ConfigView, node: u64, address: Seq<char>) -> bool {
    exists|i: int|
        0 <= i < config.peers.len() && (#[trigger] config.peers[i]).id == node
            && config.peers[i].address == address && forall|j: int|
            0 <= j < config.peers.len() && j != i ==> (#[trigger] config.peers[j]).id != node
}

/// A redirect ends where the member listens for clients: on the host of its
/// replicated peer endpoint, a hundred ports lower, whatever the configuration of
/// the node that redirects says of it.
pub proof fn law_redirects_end_at_the_client_listener(
    config: ConfigView,
    node: u64,
    peer: PeerAddress,
    client: PeerAddress,
)
    requires
        node != config.id,
        ports_apart(client, peer, 100),
    ensures
        client_route_of(config, node, Some(peer)) == ClientRouteView::Address(client),
{
}

/// A node sends its own clients to its own listener.
pub proof fn law_own_clients_stay(config: ConfigView, replicated: Option<PeerAddress>)
    ensures
        client_route_of(config, config.id, replicated) == ClientRouteView::Text(
            config.listen_client,
        ),
{
}

proof fn lemma_peer_from(peers: Seq<PeerView>, node: u64, i: int, at: int)
    requires
        0 <= i <= at < peers.len(),
        peers[at].id == node,
        forall|j: int| 0 <= j < peers.len() && j != at ==> (#[trigger] peers[j]).id != node,
    ensures
        peer_from(peers, node, i) == Some(peers[at].address),
    decreases at - i,
{
    if i < at {
        assert(peers[i].id != node);
        lemma_peer_from(peers, node, i + 1, at);
    }
}

proof fn lemma_written(host: Seq<char>, port: int)
    requires
        100 <= port <= u16::MAX,
    ensures
        client_text(written(host, port)) == Some(written(host, port - 100)),
{
    let text = written(host, port);
    let digits = number_text(port as nat);
    reveal_strlit(":");
    lemma_number_text(port as nat);
    law_numbers_read_back(port as u64);
    let n = host.len() as int;
    assert(text[n] == ':');
    assert forall|i: int| n < i < text.len() implies #[trigger] text[i] != ':' by {
        assert(text[i] == digits[i - n - 1]);
        assert(decimal_char(digits[i - n - 1]));
    }
    lemma_last_colon(text, n);
    assert(text.take(n) =~= host);
    assert(text.skip(n + 1) =~= digits);
    assert(number_in(digits) == Some(port as u64));
    assert(lowered(port as u64) == (port - 100) as nat);
}

proof fn lemma_last_colon(text: Seq<char>, n: int)
    requires
        0 <= n < text.len(),
        text[n] == ':',
        forall|i: int| n < i < text.len() ==> #[trigger] text[i] != ':',
    ensures
        last_at(text, ':') == Some(n),
    decreases text.len(),
{
    if n < text.len() - 1 {
        let last = text.len() - 1;
        assert(text[last] != ':');
        let front = text.drop_last();
        assert forall|i: int| n < i < front.len() implies #[trigger] front[i] != ':' by {
            assert(front[i] == text[i]);
        }
        lemma_last_colon(front, n);
    }
}

/// The configured endpoint of a member and its replicated one lead its clients to
/// the same place, where both are the same endpoint: the host as it is written, a
/// hundred ports lower.
pub proof fn law_configured_and_replicated_redirects_agree(
    config: ConfigView,
    node: u64,
    host: Seq<char>,
    peer: PeerAddress,
    client: PeerAddress,
)
    requires
        node != config.id,
        listed_at(config, node, written(host, peer.spec_port() as int)),
        ports_apart(client, peer, 100),
    ensures
        client_route_of(config, node, None) == ClientRouteView::Text(
            written(host, client.spec_port() as int),
        ),
        client_route_of(config, node, Some(peer)) == ClientRouteView::Address(client),
{
    let address = written(host, peer.spec_port() as int);
    let at = choose|i: int|
        0 <= i < config.peers.len() && (#[trigger] config.peers[i]).id == node
            && config.peers[i].address == address && forall|j: int|
            0 <= j < config.peers.len() && j != i ==> (#[trigger] config.peers[j]).id != node;
    lemma_peer_from(config.peers, node, 0, at);
    lemma_written(host, peer.spec_port() as int);
}

/// Every node of a new cluster sends the clients of every other node to the
/// listener that the other was configured with, by the configuration alone and by
/// the other's replicated endpoint.
pub proof fn law_initial_clusters_redirect(
    node: u64,
    other: u64,
    nodes: u64,
    cluster: ClusterId,
    dir: Seq<char>,
    other_dir: Seq<char>,
    known: Seq<Seq<char>>,
    peer: PeerAddress,
    client: PeerAddress,
)
    requires
        1 <= node <= nodes,
        1 <= other <= nodes,
        node != other,
        7300 + nodes <= u16::MAX,
        !zero_id(cluster@),
        quotable(dir) && dir.len() > 0 && !climbs(dir),
        quotable(other_dir) && other_dir.len() > 0 && !climbs(other_dir),
        forall|i: int| 7100 <= i <= 7300 + nodes ==> known.contains(#[trigger] local_port(i)),
        peer.spec_port() == 7200 + other,
        ports_apart(client, peer, 100),
    ensures
        config_of(initial_config(node, nodes, cluster@, dir), known) matches Ok(own) && config_of(
            initial_config(other, nodes, cluster@, other_dir),
            known,
        ) matches Ok(theirs) && {
            &&& client_route_of(own, other, None) == ClientRouteView::Text(theirs.listen_client)
            &&& client_route_of(own, other, Some(peer)) == ClientRouteView::Address(client)
            &&& theirs.listen_client == written("127.0.0.1"@, client.spec_port() as int)
            &&& theirs.listen_peer == written("127.0.0.1"@, peer.spec_port() as int)
        },
{
    lemma_initial(node, nodes, cluster, dir, known);
    lemma_initial(other, nodes, cluster, other_dir, known);
    let own = config_of(initial_config(node, nodes, cluster@, dir), known)->Ok_0;
    lemma_local_written(7200 + other);
    lemma_local_written(7100 + other);
    lemma_local_listed(own, nodes, other);
    law_configured_and_replicated_redirects_agree(own, other, "127.0.0.1"@, peer, client);
}

proof fn lemma_local_written(port: int)
    ensures
        written("127.0.0.1"@, port) == local_port(port),
{
    reveal_strlit("127.0.0.1");
    reveal_strlit("127.0.0.1:");
    reveal_strlit(":");
    assert(written("127.0.0.1"@, port) =~= local_port(port));
}

proof fn lemma_local_listed(config: ConfigView, nodes: u64, other: u64)
    requires
        config.peers == local_members(nodes as nat),
        1 <= other <= nodes <= u16::MAX,
    ensures
        listed_at(config, other, local_port(7200 + other)),
{
    let at = other - 1;
    assert(config.peers[at].id == other);
    assert(config.peers[at].address == local_port(7201 + at));
    assert forall|j: int| 0 <= j < config.peers.len() && j != at implies (
    #[trigger] config.peers[j]).id != other by {
        assert(config.peers[j].id == (j + 1) as u64);
    }
}

proof fn lemma_initial(
    node: u64,
    nodes: u64,
    cluster: ClusterId,
    dir: Seq<char>,
    known: Seq<Seq<char>>,
)
    requires
        1 <= node <= nodes,
        7300 + nodes <= u16::MAX,
        !zero_id(cluster@),
        quotable(dir) && dir.len() > 0 && !climbs(dir),
        forall|i: int| 7100 <= i <= 7300 + nodes ==> known.contains(#[trigger] local_port(i)),
    ensures
        config_of(initial_config(node, nodes, cluster@, dir), known) matches Ok(config) && {
            &&& config.id == node
            &&& config.listen_client == local_port(7100 + node)
            &&& config.listen_peer == local_port(7200 + node)
            &&& config.peers == local_members(nodes as nat)
        },
{
    assert(known.contains(local_port(7100 + node)));
    assert(known.contains(local_port(7300 + node)));
    assert forall|i: int| 0 <= i < nodes implies known.contains(#[trigger] local_port(7201 + i)) by {
        assert(known.contains(local_port(7201 + i)));
    }
    law_initial_config_reads_back(node, nodes, cluster, dir, known);
}

/// Whether only the machine itself reaches an address.
pub open spec fn is_local(address: PeerAddress) -> bool {
    match address {
        PeerAddress::V4 { ip, .. } => ip@[0] == 127,
        PeerAddress::V6 { ip, .. } => ip@ =~= Seq::new(15, |i: int| 0u8).push(1),
    }
}

/// Whether a listener opens: its name resolves, and to nothing that others reach unless
/// the operator allows that.
pub open spec fn may_open(addresses: Seq<Resolved>, allow_unsafe: bool) -> bool {
    &&& addresses.len() > 0
    &&& allow_unsafe || forall|i: int|
        0 <= i < addresses.len() ==> is_local((#[trigger] addresses[i]).address)
}

proof fn lemma_exposed(name: Seq<char>, addresses: Seq<Resolved>, i: int)
    requires
        0 <= i,
    ensures
        exposed_from(name, addresses, i) is None <==> forall|k: int|
            i <= k < addresses.len() ==> is_local((#[trigger] addresses[k]).address),
        exposed_from(name, addresses, i) matches Some(fault) ==> fault.kind
            == FaultKind::PermissionDenied,
    decreases addresses.len() - i,
{
    if i < addresses.len() {
        lemma_exposed(name, addresses, i + 1);
        assert(is_local(addresses[i].address) == addresses[i].address.loops_back());
    }
}

/// A node opens its listeners exactly where each of them resolves and, unless the
/// operator allows otherwise, none can be reached from elsewhere. One that can be is
/// refused as not permitted.
pub proof fn law_listeners_stay_local(
    client: Seq<Resolved>,
    peer: Seq<Resolved>,
    metrics: Seq<Resolved>,
    allow_unsafe: bool,
)
    ensures
        listeners_refusal(client, peer, metrics, allow_unsafe) is None <==> may_open(
            client,
            allow_unsafe,
        ) && may_open(peer, allow_unsafe) && may_open(metrics, allow_unsafe),
        client.len() > 0 && peer.len() > 0 && metrics.len() > 0 ==> (listeners_refusal(
            client,
            peer,
            metrics,
            allow_unsafe,
        ) matches Some(fault) ==> fault.kind == FaultKind::PermissionDenied && !allow_unsafe),
{
    lemma_exposed("client"@, client, 0);
    lemma_exposed("peer"@, peer, 0);
    lemma_exposed("metrics"@, metrics, 0);
}

/// A member is reached where its replicated address says, and else where the
/// configuration lists it; who is known to neither is not reached.
pub proof fn law_members_are_reached(
    config: ConfigView,
    node: u64,
    replicated: Option<PeerAddress>,
    shown: ShownMembership,
    address: Seq<char>,
)
    ensures
        replicated matches Some(endpoint) ==> peer_route_of(config, node, replicated, shown)
            == Ok::<ClientRouteView, FaultView>(ClientRouteView::Address(endpoint)),
        replicated is None && listed_at(config, node, address) ==> peer_route_of(
            config,
            node,
            replicated,
            shown,
        ) == Ok::<ClientRouteView, FaultView>(ClientRouteView::Text(address)),
        replicated is None && (forall|k: int|
            0 <= k < config.peers.len() ==> (#[trigger] config.peers[k]).id != node)
            ==> peer_route_of(config, node, replicated, shown) is Err,
{
    if listed_at(config, node, address) {
        let at = choose|i: int|
            0 <= i < config.peers.len() && (#[trigger] config.peers[i]).id == node
                && config.peers[i].address == address && forall|j: int|
                0 <= j < config.peers.len() && j != i ==> (#[trigger] config.peers[j]).id != node;
        lemma_peer_from(config.peers, node, 0, at);
    }
    if forall|k: int| 0 <= k < config.peers.len() ==> (#[trigger] config.peers[k]).id != node {
        lemma_unlisted(config.peers, node, 0);
    }
}

proof fn lemma_unlisted(peers: Seq<PeerView>, node: u64, i: int)
    requires
        0 <= i,
        forall|k: int| 0 <= k < peers.len() ==> (#[trigger] peers[k]).id != node,
    ensures
        peer_from(peers, node, i) is None,
    decreases peers.len() - i,
{
    if i < peers.len() {
        lemma_unlisted(peers, node, i + 1);
    }
}

/// Every configured member votes in the cluster that it starts with, and is reached
/// there at the address that its own entry resolved to; nobody else is a member.
pub proof fn law_configured_members_vote(config: ConfigView, resolved: Seq<PeerAddress>)
    requires
        resolved.len() == config.peers.len(),
        forall|i: int, j: int|
            0 <= i < j < config.peers.len() ==> config.peers[i].id != config.peers[j].id,
    ensures
        ({
            let first = bootstrap(config, resolved);
            &&& forall|id: NodeId| #[trigger]
                first.voters.contains(id) <==> exists|i: int|
                    0 <= i < config.peers.len() && (#[trigger] config.peers[i]).id == id.0
            &&& forall|i: int|
                0 <= i < config.peers.len() ==> first.addresses.contains_pair(
                    NodeId((#[trigger] config.peers[i]).id),
                    resolved[i],
                )
            &&& first.learners =~= Set::empty()
            &&& first.joint is None
            &&& first.active_features == 0
        }),
{
    let first = bootstrap(config, resolved);
    let ids = peer_ids(config.peers);
    assert forall|id: NodeId| #[trigger] first.voters.contains(id) <==> exists|i: int|
        0 <= i < config.peers.len() && (#[trigger] config.peers[i]).id == id.0 by {
        if first.voters.contains(id) {
            let i = choose|i: int| 0 <= i < ids.len() && ids[i] == id;
            assert(config.peers[i].id == id.0);
        }
        if exists|i: int| 0 <= i < config.peers.len() && (#[trigger] config.peers[i]).id == id.0 {
            let i = choose|i: int|
                0 <= i < config.peers.len() && (#[trigger] config.peers[i]).id == id.0;
            assert(ids[i] == id);
            assert(ids.contains(id));
        }
    }
    lemma_book_of(config.peers, resolved, config.peers.len() as int);
}

proof fn lemma_book_of(peers: Seq<PeerView>, resolved: Seq<PeerAddress>, n: int)
    requires
        0 <= n <= peers.len() == resolved.len(),
        forall|i: int, j: int| 0 <= i < j < peers.len() ==> peers[i].id != peers[j].id,
    ensures
        forall|i: int|
            0 <= i < n ==> address_book(peers, resolved, n).contains_pair(
                NodeId((#[trigger] peers[i]).id),
                resolved[i],
            ),
    decreases n,
{
    if n > 0 {
        lemma_book_of(peers, resolved, n - 1);
        assert forall|i: int| 0 <= i < n implies address_book(peers, resolved, n).contains_pair(
            NodeId((#[trigger] peers[i]).id),
            resolved[i],
        ) by {
            if i < n - 1 {
                assert(peers[i].id != peers[n - 1].id);
            }
        }
    }
}

} // verus!
