//! The membership that a node shows to operators and to nodes that join.
use vstd::prelude::*;
use vstd::string::*;
use vstd::utf8::encode_utf8;

use crate::hex::{hex_bytes, hex_of, ClusterId};
use crate::ids::{LogIndex, NodeId, Time};
use crate::membership::{MembershipState, MembershipView};
use crate::node_map::NodeMap;
use crate::node_set::{ascending, NodeSet};
use crate::prose::{append_hex, append_number, digit_char, digit_text, hex_text, number_text};
use crate::report::{above, Capability};
use crate::words::{join_texts, joined_by, texts};

verus! {

/// A number in as many hexadecimal digits as asked for.
pub open spec fn hex_fixed(value: nat, digits: nat) -> Seq<char>
    decreases digits,
{
    if digits == 0 {
        seq![]
    } else {
        hex_fixed(value / 16, (digits - 1) as nat).push(digit_char(value % 16))
    }
}

fn append_hex_fixed(text: &mut String, value: u64, digits: usize)
    ensures
        final(text)@ == old(text)@ + hex_fixed(value as nat, digits as nat),
    decreases digits,
{
    let ghost before = text@;
    if digits > 0 {
        append_hex_fixed(text, value / 16, digits - 1);
        text.append(digit_text(value % 16));
    }
    assert(text@ =~= before + hex_fixed(value as nat, digits as nat));
}

/// The members of a set by name, in ascending order.
pub open spec fn names_of(members: Set<NodeId>) -> Seq<Seq<char>> {
    ascending(members).map_values(|id: NodeId| "n"@ + number_text(id.0 as nat))
}

/// The members of a set, as text.
pub open spec fn members_text(members: Set<NodeId>) -> Seq<char> {
    joined_by(names_of(members), ","@)
}

fn render_members(members: &NodeSet) -> (text: String)
    ensures
        text@ == members_text(members@),
{
    let order = members.to_vec();
    let ghost all = names_of(members@);
    let mut names: Vec<String> = Vec::new();
    let mut i: usize = 0;
    while i < order.len()
        invariant
            i <= order@.len(),
            order@ == ascending(members@),
            all == names_of(members@),
            names@.len() == i,
            forall|k: int| 0 <= k < i ==> (#[trigger] names@[k])@ == all[k],
        decreases order@.len() - i,
    {
        let mut name = "n".to_owned();
        append_number(&mut name, order[i].get());
        assert(name@ == all[i as int]);
        names.push(name);
        i += 1;
    }
    assert(texts(names@) =~= all);
    join_texts(names.as_slice(), ",")
}

/// An address as it is written, with the member that it belongs to.
#[derive(Clone, Debug, PartialEq, Eq)]
pub struct ShownAddress {
    pub id: NodeId,
    pub text: String,
}

/// The entries of an address book, as text.
pub open spec fn book_text(book: Seq<ShownAddress>) -> Seq<char> {
    joined_by(
        book.map_values(
            |entry: ShownAddress| number_text(entry.id.0 as nat) + "@"@ + entry.text@,
        ),
        ","@,
    )
}

fn render_book(book: &[ShownAddress]) -> (text: String)
    ensures
        text@ == book_text(book@),
{
    let ghost all = book@.map_values(
        |entry: ShownAddress| number_text(entry.id.0 as nat) + "@"@ + entry.text@,
    );
    let mut entries: Vec<String> = Vec::new();
    let mut i: usize = 0;
    while i < book.len()
        invariant
            i <= book@.len(),
            all == book@.map_values(
                |entry: ShownAddress| number_text(entry.id.0 as nat) + "@"@ + entry.text@,
            ),
            entries@.len() == i,
            forall|k: int| 0 <= k < i ==> (#[trigger] entries@[k])@ == all[k],
        decreases book@.len() - i,
    {
        let mut entry = String::new();
        append_number(&mut entry, book[i].id.get());
        entry.append("@");
        entry.append(book[i].text.as_str());
        assert(entry@ =~= all[i as int]);
        entries.push(entry);
        i += 1;
    }
    assert(texts(entries@) =~= all);
    join_texts(entries.as_slice(), ",")
}

/// The address of a member, from entry `i` on.
pub open spec fn shown_from(book: Seq<ShownAddress>, id: NodeId, i: int) -> Seq<char>
    decreases book.len() - i,
{
    if i < 0 || i >= book.len() {
        "unknown"@
    } else if book[i].id == id {
        book[i].text@
    } else {
        shown_from(book, id, i + 1)
    }
}

fn find_shown(book: &[ShownAddress], id: NodeId) -> (text: String)
    ensures
        text@ == shown_from(book@, id, 0),
{
    let mut i: usize = 0;
    while i < book.len()
        invariant
            i <= book@.len(),
            shown_from(book@, id, 0) == shown_from(book@, id, i as int),
        decreases book@.len() - i,
    {
        if book[i].id.get() == id.get() {
            return book[i].text.clone();
        }
        i += 1;
    }
    "unknown".to_owned()
}

/// What a node knows of its cluster.
#[derive(Debug)]
pub struct ClusterStatus {
    pub cluster_id: ClusterId,
    pub policy: Vec<u8>,
    pub policy_hash: u64,
    pub config_index: u64,
    pub config_term: u64,
    pub node: NodeId,
    pub last_index: u64,
    pub commit: u64,
    pub now: Time,
    pub storage_fault: bool,
    pub active_features: u64,
    pub membership: MembershipState,
    pub addresses: Vec<ShownAddress>,
    pub matched: NodeMap<LogIndex>,
    pub capabilities: NodeMap<Capability>,
    pub contacts: NodeMap<Time>,
    pub transfers: NodeSet,
    pub genesis: MembershipState,
    pub genesis_addresses: Vec<ShownAddress>,
}

#[verifier::ext_equal]
pub struct ClusterStatusView {
    pub cluster_id: Seq<u8>,
    pub policy: Seq<u8>,
    pub policy_hash: u64,
    pub config_index: u64,
    pub config_term: u64,
    pub node: NodeId,
    pub last_index: u64,
    pub commit: u64,
    pub now: Time,
    pub storage_fault: bool,
    pub active_features: u64,
    pub membership: MembershipView,
    pub addresses: Seq<ShownAddress>,
    pub matched: Map<NodeId, LogIndex>,
    pub capabilities: Map<NodeId, Capability>,
    pub contacts: Map<NodeId, Time>,
    pub transfers: Set<NodeId>,
    pub genesis: MembershipView,
    pub genesis_addresses: Seq<ShownAddress>,
}

impl View for ClusterStatus {
    type V = ClusterStatusView;

    open spec fn view(&self) -> ClusterStatusView {
        ClusterStatusView {
            cluster_id: self.cluster_id@,
            policy: self.policy@,
            policy_hash: self.policy_hash,
            config_index: self.config_index,
            config_term: self.config_term,
            node: self.node,
            last_index: self.last_index,
            commit: self.commit,
            now: self.now,
            storage_fault: self.storage_fault,
            active_features: self.active_features,
            membership: self.membership@,
            addresses: self.addresses@,
            matched: self.matched@,
            capabilities: self.capabilities@,
            contacts: self.contacts@,
            transfers: self.transfers@,
            genesis: self.genesis@,
            genesis_addresses: self.genesis_addresses@,
        }
    }
}

/// The names of the fields of a status.
pub open spec fn status_names() -> Seq<Seq<char>> {
    seq![
        "cluster_id"@,
        "policy"@,
        "policy_hash"@,
        "config_index"@,
        "config_term"@,
        "voters"@,
        "learners"@,
        "joint"@,
        "addresses"@,
        "members"@,
        "active_features"@,
        "genesis_voters"@,
        "genesis_learners"@,
        "genesis_addresses"@,
        "genesis_active_features"@,
    ]
}

/// A field with its value.
pub open spec fn field(name: Seq<char>, value: Seq<char>) -> Seq<char> {
    name + "="@ + value
}

fn compose_field(name: &str, value: &str) -> (text: String)
    ensures
        text@ == field(name@, value@),
{
    let mut text = name.to_owned();
    text.append("=");
    text.append(value);
    text
}

fn features_text(features: u64) -> (text: String)
    ensures
        text@ == "0x"@ + hex_text(features as nat),
{
    let mut text = "0x".to_owned();
    append_hex(&mut text, features);
    text
}

fn number_string(value: u64) -> (text: String)
    ensures
        text@ == number_text(value as nat),
{
    let mut text = String::new();
    append_number(&mut text, value);
    assert(text@ =~= number_text(value as nat));
    text
}

impl ClusterStatusView {
    /// How far a member's log agrees with this node's.
    pub open spec fn matched_to(self, id: NodeId) -> u64 {
        if id == self.node {
            self.last_index
        } else if self.matched.dom().contains(id) {
            self.matched[id].0
        } else {
            0
        }
    }

    /// How long ago a member was heard of, in milliseconds, or a sign that it
    /// never was.
    pub open spec fn contact(self, id: NodeId) -> Seq<char> {
        if id == self.node {
            number_text(0)
        } else if self.contacts.dom().contains(id) {
            number_text((above(self.now.0, self.contacts[id].0) / 1_000_000) as nat)
        } else {
            "-1"@
        }
    }

    pub open spec fn capability(self, id: NodeId) -> Capability {
        if self.capabilities.dom().contains(id) {
            self.capabilities[id]
        } else {
            Capability { semantic: 0, features: 0 }
        }
    }

    /// What is shown of one member.
    pub open spec fn member_text(self, id: NodeId, role: &str) -> Seq<char> {
        number_text(id.0 as nat) + ":"@ + role@ + ":"@ + shown_from(self.addresses, id, 0) + ":"@
            + number_text(self.matched_to(id) as nat) + ":"@ + number_text(
            above(self.commit, self.matched_to(id)) as nat,
        ) + ":"@ + self.contact(id) + ":"@ + (if self.transfers.contains(id) {
            "active"@
        } else {
            "idle"@
        }) + ":"@ + number_text(self.capability(id).semantic as nat) + ":0x"@ + hex_text(
            self.capability(id).features as nat,
        ) + ":"@ + (if self.storage_fault {
            "1"@
        } else {
            "0"@
        })
    }

    /// What is shown of every member, voters first.
    pub open spec fn member_texts(self) -> Seq<Seq<char>> {
        ascending(self.membership.voters).map_values(
            |id: NodeId| self.member_text(id, "voter"),
        ) + ascending(self.membership.learners).map_values(
            |id: NodeId| self.member_text(id, "learner"),
        )
    }

    /// The values of the status, in the order of their names.
    pub open spec fn values(self) -> Seq<Seq<char>> {
        seq![
            hex_of(self.cluster_id),
            hex_of(self.policy),
            hex_fixed(self.policy_hash as nat, 16),
            number_text(self.config_index as nat),
            number_text(self.config_term as nat),
            members_text(self.membership.voters),
            members_text(self.membership.learners),
            if self.membership.joint is Some {
                "true"@
            } else {
                "false"@
            },
            book_text(self.addresses),
            joined_by(self.member_texts(), ","@),
            "0x"@ + hex_text(self.active_features as nat),
            members_text(self.genesis.voters),
            members_text(self.genesis.learners),
            book_text(self.genesis_addresses),
            "0x"@ + hex_text(self.genesis.active_features as nat),
        ]
    }

    /// The fields of the status.
    pub open spec fn parts(self) -> Seq<Seq<char>> {
        Seq::new(15, |i: int| field(status_names()[i], self.values()[i]))
    }

    /// The status of a cluster, as text.
    pub open spec fn text(self) -> Seq<char> {
        joined_by(self.parts(), " "@)
    }
}

impl ClusterStatus {
    fn render_member(&self, id: NodeId, role: &str) -> (text: String)
        ensures
            text@ == self@.member_text(id, role),
    {
        let own = id.get() == self.node.get();
        let matched: u64 = if own {
            self.last_index
        } else {
            match self.matched.get(id) {
                Some(index) => index.get(),
                None => 0,
            }
        };
        let capability = match self.capabilities.get(id) {
            Some(capability) => capability,
            None => Capability { semantic: 0, features: 0 },
        };
        let mut text = String::new();
        append_number(&mut text, id.get());
        assert(text@ =~= number_text(id.0 as nat));
        text.append(":");
        text.append(role);
        text.append(":");
        text.append(find_shown(self.addresses.as_slice(), id).as_str());
        text.append(":");
        append_number(&mut text, matched);
        text.append(":");
        let lag: u64 = if self.commit >= matched {
            self.commit - matched
        } else {
            0
        };
        append_number(&mut text, lag);
        text.append(":");
        if own {
            append_number(&mut text, 0);
        } else {
            match self.contacts.get(id) {
                Some(contact) => {
                    let now: u64 = self.now.as_nanos();
                    let then: u64 = contact.as_nanos();
                    let age: u64 = if now >= then {
                        now - then
                    } else {
                        0
                    };
                    append_number(&mut text, age / 1_000_000);
                },
                None => text.append("-1"),
            }
        }
        text.append(":");
        text.append(
            if self.transfers.contains(id) {
                "active"
            } else {
                "idle"
            },
        );
        text.append(":");
        append_number(&mut text, capability.semantic as u64);
        text.append(":0x");
        append_hex(&mut text, capability.features);
        text.append(":");
        text.append(
            if self.storage_fault {
                "1"
            } else {
                "0"
            },
        );
        text
    }

    fn render_all(&self) -> (text: String)
        ensures
            text@ == joined_by(self@.member_texts(), ","@),
    {
        let voters = self.membership.voters.to_vec();
        let learners = self.membership.learners.to_vec();
        let ghost all = self@.member_texts();
        let mut members: Vec<String> = Vec::new();
        let mut i: usize = 0;
        while i < voters.len()
            invariant
                i <= voters@.len(),
                voters@ == ascending(self@.membership.voters),
                all == self@.member_texts(),
                members@.len() == i,
                forall|k: int| 0 <= k < i ==> (#[trigger] members@[k])@ == all[k],
            decreases voters@.len() - i,
        {
            let member = self.render_member(voters[i], "voter");
            assert(member@ == all[i as int]);
            members.push(member);
            i += 1;
        }
        let mut j: usize = 0;
        while j < learners.len()
            invariant
                j <= learners@.len(),
                voters@ == ascending(self@.membership.voters),
                learners@ == ascending(self@.membership.learners),
                all == self@.member_texts(),
                members@.len() == voters@.len() + j,
                forall|k: int|
                    0 <= k < voters@.len() + j ==> (#[trigger] members@[k])@ == all[k],
            decreases learners@.len() - j,
        {
            let member = self.render_member(learners[j], "learner");
            assert(member@ == all[voters@.len() + j]);
            members.push(member);
            j += 1;
        }
        assert(texts(members@) =~= all);
        join_texts(members.as_slice(), ",")
    }

    /// Renders the status of a cluster.
    pub fn membership_status(&self) -> (text: String)
        ensures
            text@ == self@.text(),
    {
        let mut hash = String::new();
        append_hex_fixed(&mut hash, self.policy_hash, 16);
        assert(hash@ =~= hex_fixed(self.policy_hash as nat, 16));
        let joint = if self.membership.joint.is_some() {
            "true"
        } else {
            "false"
        };
        let voters = render_members(&self.membership.voters);
        let learners = render_members(&self.membership.learners);
        let book = render_book(self.addresses.as_slice());
        let members = self.render_all();
        let first_voters = render_members(&self.genesis.voters);
        let first_learners = render_members(&self.genesis.learners);
        let first_book = render_book(self.genesis_addresses.as_slice());
        let mut parts: Vec<String> = Vec::new();
        parts.push(compose_field("cluster_id", self.cluster_id.to_text().as_str()));
        parts.push(compose_field("policy", hex_bytes(self.policy.as_slice()).as_str()));
        parts.push(compose_field("policy_hash", hash.as_str()));
        parts.push(compose_field("config_index", number_string(self.config_index).as_str()));
        parts.push(compose_field("config_term", number_string(self.config_term).as_str()));
        parts.push(compose_field("voters", voters.as_str()));
        parts.push(compose_field("learners", learners.as_str()));
        parts.push(compose_field("joint", joint));
        parts.push(compose_field("addresses", book.as_str()));
        parts.push(compose_field("members", members.as_str()));
        parts.push(
            compose_field("active_features", features_text(self.active_features).as_str()),
        );
        parts.push(compose_field("genesis_voters", first_voters.as_str()));
        parts.push(compose_field("genesis_learners", first_learners.as_str()));
        parts.push(compose_field("genesis_addresses", first_book.as_str()));
        parts.push(
            compose_field(
                "genesis_active_features",
                features_text(self.genesis.active_features).as_str(),
            ),
        );
        assert(texts(parts@) =~= self@.parts());
        join_texts(parts.as_slice(), " ")
    }
}

} // verus!
