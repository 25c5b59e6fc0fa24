//! What a node that joins makes of the cluster that it finds.
use vstd::prelude::*;
use vstd::string::*;

use crate::cli::flag_of;
use crate::config::ConfigView;
use crate::fault::{FaultKind, FaultView};
use crate::hex::zero_id;
use crate::identity::IdentityView;
use crate::ids::NodeId;
use crate::join::{
    address_map, addressed_member, addresses_in, cluster_in, endpoint_from, join_plan_of,
    join_request_of, member_list, peers_text, resume_refusal, settled, EndpointView, JoinRequestView,
};
use crate::membership::PeerAddress;
use crate::node_set::{ascending, lemma_ascending_set};
use crate::paths::leads;
use crate::prose::number_text;
use crate::status::{book_text, ClusterStatusView, ShownAddress};
use crate::status_laws::{
    decimal_char, law_numbers_read_back, law_status_reads_back, lemma_number_text, plain_book,
};
use crate::text::number_in;
use crate::words::{joined_by, law_pieces_come_apart, lemma_split_front, pieces};

verus! {

/// One entry of an address book, as text.
spec fn entry_text(entry: ShownAddress) -> Seq<char> {
    number_text(entry.id.0 as nat) + "@"@ + entry.text@
}

/// Whether the texts of a book stand for endpoints that are known.
pub open spec fn known_book(book: Seq<ShownAddress>, known: Seq<EndpointView>) -> bool {
    forall|i: int|
        0 <= i < book.len() ==> {
            &&& endpoint_from(known, (#[trigger] book[i]).text@, 0) is Some
            &&& !book[i].text@.contains(',')
        }
}

proof fn lemma_entry(entry: ShownAddress, known: Seq<EndpointView>)
    requires
        endpoint_from(known, entry.text@, 0) is Some,
        !entry.text@.contains(','),
    ensures
        entry_text(entry).len() > 0,
        !entry_text(entry).contains(','),
        addressed_member(entry_text(entry), known) == Ok::<(NodeId, EndpointView), FaultView>(
            (entry.id, known[endpoint_from(known, entry.text@, 0)->0]),
        ),
{
    reveal_strlit("@");
    let digits = number_text(entry.id.0 as nat);
    let text = entry_text(entry);
    lemma_number_text(entry.id.0 as nat);
    law_numbers_read_back(entry.id.0);
    assert("@"@ =~= seq!['@']);
    assert(!digits.contains('@')) by {
        if digits.contains('@') {
            let i = choose|i: int| 0 <= i < digits.len() && digits[i] == '@';
            assert(decimal_char(digits[i]));
        }
    }
    lemma_split_front(digits, '@', entry.text@);
    assert(!text.contains(',')) by {
        if text.contains(',') {
            let i = choose|i: int| 0 <= i < text.len() && text[i] == ',';
            if i < digits.len() {
                assert(decimal_char(digits[i]));
            } else if i > digits.len() {
                assert(entry.text@[i - digits.len() - 1] == ',');
            }
        }
    }
}

proof fn lemma_endpoint_text(known: Seq<EndpointView>, text: Seq<char>, i: int)
    requires
        0 <= i,
    ensures
        endpoint_from(known, text, i) matches Some(at) ==> 0 <= at < known.len() && known[at].text
            == text,
    decreases known.len() - i,
{
    if i < known.len() && known[i].text != text {
        lemma_endpoint_text(known, text, i + 1);
    }
}

proof fn lemma_book(
    book: Seq<ShownAddress>,
    parts: Seq<Seq<char>>,
    n: int,
    known: Seq<EndpointView>,
)
    requires
        0 <= n <= book.len() == parts.len(),
        known_book(book, known),
        forall|i: int, j: int| 0 <= i < j < book.len() ==> book[i].id != book[j].id,
        forall|i: int| 0 <= i < parts.len() ==> (#[trigger] parts[i]) == entry_text(book[i]),
    ensures
        address_map(parts, n, known) matches Ok(found) && {
            &&& forall|id: NodeId| #[trigger]
                found.dom().contains(id) <==> exists|i: int|
                    0 <= i < n && (#[trigger] book[i]).id == id
            &&& forall|i: int|
                0 <= i < n ==> found[(#[trigger] book[i]).id].text == book[i].text@
                    && found.dom().contains(book[i].id)
        },
    decreases n,
{
    if n > 0 {
        lemma_book(book, parts, n - 1, known);
        let entry = book[n - 1];
        lemma_entry(entry, known);
        lemma_endpoint_text(known, entry.text@, 0);
        assert(parts[n - 1] == entry_text(entry));
        let before = address_map(parts, n - 1, known)->Ok_0;
        let found = address_map(parts, n, known)->Ok_0;
        assert(found == before.insert(
            entry.id,
            known[endpoint_from(known, entry.text@, 0)->0],
        ));
        assert forall|id: NodeId| #[trigger] found.dom().contains(id) implies exists|i: int|
            0 <= i < n && (#[trigger] book[i]).id == id by {
            if id != entry.id {
                assert(before.dom().contains(id));
                let i = choose|i: int| 0 <= i < n - 1 && (#[trigger] book[i]).id == id;
                assert(book[i].id == id);
            } else {
                assert(book[n - 1].id == id);
            }
        }
        assert forall|i: int| 0 <= i < n implies found[(#[trigger] book[i]).id].text
            == book[i].text@ && found.dom().contains(book[i].id) by {
            if i < n - 1 {
                assert(book[i].id != book[n - 1].id);
            }
        }
    }
}

/// Reading an address book gives back whom it is about and which endpoint belongs to
/// each.
pub proof fn law_address_books_read_back(book: Seq<ShownAddress>, known: Seq<EndpointView>)
    requires
        known_book(book, known),
        forall|i: int, j: int| 0 <= i < j < book.len() ==> book[i].id != book[j].id,
    ensures
        addresses_in(book_text(book), known) matches Ok(found) && {
            &&& forall|id: NodeId| #[trigger]
                found.dom().contains(id) <==> exists|i: int|
                    0 <= i < book.len() && (#[trigger] book[i]).id == id
            &&& forall|i: int|
                0 <= i < book.len() ==> found[(#[trigger] book[i]).id].text == book[i].text@
        },
{
    reveal_strlit(",");
    assert(","@ =~= seq![',']);
    let parts = book.map_values(
        |entry: ShownAddress| number_text(entry.id.0 as nat) + "@"@ + entry.text@,
    );
    let text = book_text(book);
    if book.len() == 0 {
        assert(parts =~= seq![]);
        assert(text =~= seq![]);
        assert(pieces(text, ',') =~= seq![text]);
        assert(address_map(pieces(text, ','), 0, known) == Ok::<
            Map<NodeId, EndpointView>,
            FaultView,
        >(Map::empty()));
    } else {
        assert forall|i: int| 0 <= i < parts.len() implies !(#[trigger] parts[i]).contains(',') by {
            lemma_entry(book[i], known);
        }
        law_pieces_come_apart(parts, ',');
        lemma_book(book, parts, book.len() as int, known);
    }
}

/// A node that is not yet known joins the cluster that a status shows: it gets the
/// cluster's identity, the addresses of today's members and the members that the
/// cluster began with. One that is a member already, or whose address is taken, is
/// refused, and so is a node of another policy.
pub proof fn law_strangers_join(
    status: ClusterStatusView,
    node: u64,
    peer: Seq<char>,
    known: Seq<EndpointView>,
    own_policy: Seq<u8>,
    now: Map<NodeId, EndpointView>,
    then: Map<NodeId, EndpointView>,
)
    requires
        status.cluster_id.len() == 16,
        !zero_id(status.cluster_id),
        status.membership.voters.finite(),
        status.membership.learners.finite(),
        !status.membership.has(NodeId(0)),
        status.genesis.voters.finite(),
        status.genesis.learners.finite(),
        !status.genesis.has(NodeId(0)),
        plain_book(status.addresses),
        plain_book(status.genesis_addresses),
        addresses_in(book_text(status.addresses), known) == Ok::<
            Map<NodeId, EndpointView>,
            FaultView,
        >(now),
        addresses_in(book_text(status.genesis_addresses), known) == Ok::<
            Map<NodeId, EndpointView>,
            FaultView,
        >(then),
        status.membership.voters != Set::<NodeId>::empty(),
        status.membership.voters.disjoint(status.membership.learners),
        forall|id: NodeId| #[trigger]
            now.dom().contains(id) ==> (status.membership.voters.contains(id)
                || status.membership.learners.contains(id)) && now[id].address.usable(),
        status.genesis.voters != Set::<NodeId>::empty(),
        status.genesis.voters.disjoint(status.genesis.learners),
        forall|id: NodeId| #[trigger]
            then.dom().contains(id) ==> (status.genesis.voters.contains(id)
                || status.genesis.learners.contains(id)) && then[id].address.usable(),
    ensures
        ({
            let plan = join_plan_of(status.text(), node, peer, known, own_policy);
            let member = status.membership.voters.contains(NodeId(node))
                || status.membership.learners.contains(NodeId(node))
                || status.genesis.voters.contains(NodeId(node)) || status.genesis.learners.contains(
                NodeId(node),
            );
            let taken = exists|id: NodeId| #[trigger]
                now.dom().contains(id) && now[id].shown == peer;
            &&& own_policy != status.policy ==> plan is Err
            &&& own_policy == status.policy && (member || taken) ==> (plan matches Err(fault)
                && fault.kind == FaultKind::AlreadyExists)
            &&& own_policy == status.policy && !member && !taken ==> (plan matches Ok(found)
                && found.cluster_id == status.cluster_id && found.addresses == now
                && found.genesis.voters == status.genesis.voters && found.genesis.learners
                == status.genesis.learners && found.genesis.joint is None
                && found.genesis.active_features == status.genesis.active_features
                && found.genesis.addresses =~= then.map_values(
                |endpoint: EndpointView| endpoint.address,
            ))
        }),
{
    law_status_reads_back(status);
    let today = settled(
        status.membership.voters,
        status.membership.learners,
        now,
        status.active_features,
    );
    let first = settled(
        status.genesis.voters,
        status.genesis.learners,
        then,
        status.genesis.active_features,
    );
    assert(today.valid()) by {
        assert forall|id: NodeId| #[trigger] today.addresses.dom().contains(id) implies today.has(id)
            && today.addresses[id].usable() by {
            assert(now.dom().contains(id));
        }
    }
    assert(first.valid()) by {
        assert forall|id: NodeId| #[trigger] first.addresses.dom().contains(id) implies first.has(id)
            && first.addresses[id].usable() by {
            assert(then.dom().contains(id));
        }
    }
    if own_policy != status.policy {
        lemma_other_policies(status, own_policy);
    }
}

/// A node of another policy reads no cluster in a status.
proof fn lemma_other_policies(status: ClusterStatusView, own_policy: Seq<u8>)
    requires
        cluster_in(status.text(), status.policy) is Ok,
        own_policy != status.policy,
    ensures
        cluster_in(status.text(), own_policy) is Err,
{
}

/// A node that began to join goes on from the directory that it began in, and from no
/// other: it is still joining, under the same number, and its configuration is about that
/// directory.
pub proof fn law_joins_go_on_where_they_began(
    request: JoinRequestView,
    identity: IdentityView,
    config: ConfigView,
)
    ensures
        resume_refusal(request, identity, config) is None <==> {
            &&& identity.lifecycle == 2
            &&& identity.node_id == request.node_id
            &&& config.id == request.node_id
            &&& leads(config.data_dir) == leads(request.data_dir)
        },
        resume_refusal(request, identity, config) matches Some(fault) ==> fault.kind
            == FaultKind::AlreadyExists,
{
}

/// A request to join says whom to ask, who joins, where it is reached and where its data
/// goes. Its configuration stands with its data unless another place is named. A request
/// that leaves any of the others out, or names nobody or no endpoint that a peer can be
/// reached at, is refused.
pub proof fn law_requests_to_join_are_read(args: Seq<Seq<char>>, peer: Option<PeerAddress>)
    ensures
        ({
            let request = join_request_of(args, peer);
            let seed = flag_of(args, "--join");
            let dir = flag_of(args, "--data-dir");
            let node = match flag_of(args, "--node-id") {
                Some(text) => number_in(text),
                None => None,
            };
            let sound = seed is Some && dir is Some && flag_of(args, "--peer-addr") is Some && (
            node matches Some(id) && id != 0) && (peer matches Some(address) && address.usable());
            &&& sound <==> request is Ok
            &&& request matches Ok(read) ==> {
                &&& Some(read.seed) == seed
                &&& Some(read.node_id) == node
                &&& Some(read.peer) == peer
                &&& Some(read.data_dir) == dir
                &&& flag_of(args, "--config") matches Some(path) ==> read.config_path == path
                &&& flag_of(args, "--config") is None && read.data_dir.len() > 0
                    && read.data_dir.last() != '/' ==> read.config_path == read.data_dir
                    + "/"@ + "ccdb.toml"@
            }
        }),
{
}

/// One entry of a member list.
spec fn list_entry(addresses: Map<NodeId, EndpointView>, id: NodeId) -> Seq<char> {
    number_text(id.0 as nat) + "@"@ + addresses[id].shown
}

proof fn lemma_peers_text(order: Seq<NodeId>, addresses: Map<NodeId, EndpointView>, n: int)
    requires
        0 <= n <= order.len(),
    ensures
        peers_text(order, addresses, n) == joined_by(
            Seq::new(n as nat, |i: int| list_entry(addresses, order[i])),
            ","@,
        ),
    decreases n,
{
    let parts = Seq::new(n as nat, |i: int| list_entry(addresses, order[i]));
    if n == 0 {
        assert(joined_by(parts, ","@) =~= seq![]);
    } else {
        lemma_peers_text(order, addresses, n - 1);
        assert(parts.drop_last() =~= Seq::new(
            (n - 1) as nat,
            |i: int| list_entry(addresses, order[i]),
        ));
        assert(parts.last() == list_entry(addresses, order[n - 1]));
    }
}

/// The member list that a joining node is configured with names every member once, in
/// ascending order, at the endpoint that the cluster shows for it.
pub proof fn law_member_lists_name_everyone(addresses: Map<NodeId, EndpointView>)
    requires
        addresses.dom().finite(),
        addresses.dom() !~= Set::<NodeId>::empty(),
        forall|id: NodeId| #[trigger]
            addresses.dom().contains(id) ==> !addresses[id].shown.contains(','),
    ensures
        ({
            let entries = pieces(member_list(addresses), ',');
            let order = ascending(addresses.dom());
            &&& order.to_set() == addresses.dom()
            &&& entries.len() == order.len()
            &&& forall|i: int|
                0 <= i < order.len() ==> (#[trigger] entries[i]) == number_text(order[i].0 as nat)
                    + "@"@ + addresses[order[i]].shown
        }),
{
    let order = ascending(addresses.dom());
    lemma_ascending_set(addresses.dom());
    let n = order.len() as int;
    let parts = Seq::new(n as nat, |i: int| list_entry(addresses, order[i]));
    lemma_peers_text(order, addresses, n);
    reveal_strlit(",");
    assert(","@ =~= seq![',']);
    assert(n > 0) by {
        if n == 0 {
            assert(order.to_set() =~= Set::<NodeId>::empty());
        }
    }
    assert forall|i: int| 0 <= i < parts.len() implies !(#[trigger] parts[i]).contains(',') by {
        assert(order.to_set().contains(order[i]));
        assert(addresses.dom().contains(order[i]));
        lemma_entry_plain(order[i], addresses[order[i]].shown);
    }
    law_pieces_come_apart(parts, ',');
}

proof fn lemma_entry_plain(id: NodeId, shown: Seq<char>)
    requires
        !shown.contains(','),
    ensures
        !(number_text(id.0 as nat) + "@"@ + shown).contains(','),
{
    reveal_strlit("@");
    lemma_number_text(id.0 as nat);
    let digits = number_text(id.0 as nat);
    let text = digits + "@"@ + shown;
    if text.contains(',') {
        let i = choose|i: int| 0 <= i < text.len() && text[i] == ',';
        if i < digits.len() {
            assert(decimal_char(digits[i]));
        } else if i > digits.len() {
            assert(shown[i - digits.len() - 1] == ',');
        }
    }
}

} // verus!
