//! The configuration files that the host writes.
use vstd::prelude::*;
use vstd::string::*;

use crate::fault::{because, fault, Fault, FaultKind, FaultView};
use crate::hex::{hex_of, ClusterId};
use crate::paths::{join, joined};
use crate::prose::{append_number, number_text};

verus! {

/// The text of a configuration file.
pub open spec fn config_text(
    id: u64,
    cluster: Seq<u8>,
    dir: Seq<char>,
    client: Seq<char>,
    peer: Seq<char>,
    metrics: Seq<char>,
    peers: Seq<char>,
) -> Seq<char> {
    "[node]\nid = "@ + number_text(id as nat) + "\ncluster_id = \""@ + hex_of(cluster)
        + "\"\ndata_dir = \""@ + dir + "\"\nlisten_client = \""@ + client
        + "\"\nlisten_peer = \""@ + peer + "\"\nlisten_metrics = \""@ + metrics
        + "\"\npeer_nodes = \""@ + peers + "\"\n\n[storage]\nfsync = \"always\"\n"@
}

/// Composes a configuration file.
pub fn compose_config(
    id: u64,
    cluster: &ClusterId,
    dir: &str,
    client: &str,
    peer: &str,
    metrics: &str,
    peers: &str,
) -> (text: String)
    ensures
        text@ == config_text(id, cluster@, dir@, client@, peer@, metrics@, peers@),
{
    let mut text = "[node]\nid = ".to_owned();
    append_number(&mut text, id);
    text.append("\ncluster_id = \"");
    text.append(cluster.to_text().as_str());
    text.append("\"\ndata_dir = \"");
    text.append(dir);
    text.append("\"\nlisten_client = \"");
    text.append(client);
    text.append("\"\nlisten_peer = \"");
    text.append(peer);
    text.append("\"\nlisten_metrics = \"");
    text.append(metrics);
    text.append("\"\npeer_nodes = \"");
    text.append(peers);
    text.append("\"\n\n[storage]\nfsync = \"always\"\n");
    text
}

/// A port of this machine.
pub open spec fn local_port(port: int) -> Seq<char> {
    "127.0.0.1:"@ + number_text(port as nat)
}

fn local_address(port: u64) -> (text: String)
    ensures
        text@ == local_port(port as int),
{
    let mut text = "127.0.0.1:".to_owned();
    append_number(&mut text, port);
    text
}

/// The member list of the first `n` nodes of a new cluster.
pub open spec fn local_peers(n: nat) -> Seq<char>
    decreases n,
{
    if n == 0 {
        seq![]
    } else if n == 1 {
        number_text(1) + "@"@ + local_port(7201)
    } else {
        local_peers((n - 1) as nat) + ","@ + number_text(n) + "@"@ + local_port((7200 + n) as int)
    }
}

fn compose_peers(nodes: u64) -> (text: String)
    requires
        nodes <= u64::MAX - 7300,
    ensures
        text@ == local_peers(nodes as nat),
{
    let mut text = String::new();
    let mut n: u64 = 0;
    assert(text@ =~= local_peers(0));
    while n < nodes
        invariant
            n <= nodes <= u64::MAX - 7300,
            text@ == local_peers(n as nat),
        decreases nodes - n,
    {
        n += 1;
        if n > 1 {
            text.append(",");
        }
        append_number(&mut text, n);
        text.append("@");
        let address = local_address(7200 + n);
        text.append(address.as_str());
        assert(text@ =~= local_peers(n as nat));
    }
    text
}

/// The configuration of node `node` of a new cluster of `nodes` nodes on one
/// machine.
pub open spec fn initial_config(node: u64, nodes: u64, cluster: Seq<u8>, dir: Seq<char>) -> Seq<
    char,
> {
    config_text(
        node,
        cluster,
        dir,
        local_port(7100 + node),
        local_port(7200 + node),
        local_port(7300 + node),
        local_peers(nodes as nat),
    )
}

/// Composes the configuration of one node of a new cluster.
pub fn init_config(node: u64, nodes: u64, cluster: &ClusterId, dir: &str) -> (text: String)
    requires
        node <= nodes <= u64::MAX - 7300,
    ensures
        text@ == initial_config(node, nodes, cluster@, dir@),
{
    let client = local_address(7100 + node);
    let peer = local_address(7200 + node);
    let metrics = local_address(7300 + node);
    let peers = compose_peers(nodes);
    compose_config(
        node,
        cluster,
        dir,
        client.as_str(),
        peer.as_str(),
        metrics.as_str(),
        peers.as_str(),
    )
}

/// The directory of one node of a new cluster.
pub fn init_node_dir(base: &str, node: u64) -> (path: String)
    ensures
        path@ == joined(base@, "n"@ + number_text(node as nat)),
{
    let mut name = "n".to_owned();
    append_number(&mut name, node);
    join(base, name.as_str())
}

/// The configuration of a restored node, which stands alone at first.
pub open spec fn restored_config(dir: Seq<char>, cluster: Seq<u8>, node: u64) -> Result<
    Seq<char>,
    FaultView,
> {
    if 7300 + node > u16::MAX {
        Err(because(FaultKind::InvalidInput, "restore node port"))
    } else {
        Ok(
            config_text(
                node,
                cluster,
                dir,
                local_port(7100 + node),
                local_port(7200 + node),
                local_port(7300 + node),
                local_port(7200 + node),
            ),
        )
    }
}

/// Composes the configuration of a restored node.
pub fn fresh_restore_config(dir: &str, cluster: &ClusterId, node: u64) -> (result: Result<
    String,
    Fault,
>)
    ensures
        match result {
            Ok(text) => restored_config(dir@, cluster@, node) == Ok::<Seq<char>, FaultView>(text@),
            Err(error) => restored_config(dir@, cluster@, node) == Err::<Seq<char>, FaultView>(
                error@,
            ),
        },
{
    if node > 65535 - 7300 {
        return Err(fault(FaultKind::InvalidInput, "restore node port"));
    }
    let client = local_address(7100 + node);
    let peer = local_address(7200 + node);
    let metrics = local_address(7300 + node);
    Ok(
        compose_config(
            node,
            cluster,
            dir,
            client.as_str(),
            peer.as_str(),
            metrics.as_str(),
            peer.as_str(),
        ),
    )
}

} // verus!
