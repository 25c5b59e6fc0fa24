//! Joining a running cluster: who is asked, what the answer has to say, and
//! what the new node starts from.
use vstd::prelude::*;
use vstd::string::*;
use vstd::utf8::encode_utf8;

use crate::boot::{boot_step, recovered, BootStepView, FoundCheckpoint};
use crate::cli::{flag, flag_of, optional_text};
use crate::config::{Config, ConfigView};
use crate::config_text::{compose_config, config_text};
use crate::fault::{because, fault, outcome_is, Fault, FaultKind, FaultView};
use crate::hex::{cluster_id_of, decode_hex, hex_decoded, ClusterId};
use crate::identity::{
    DiskIdentity, IdentityView, IDENTITY_JOINING, MIN_SEMANTIC_READER, MIN_STORAGE_READER,
};
use crate::ids::{LogIndex, NodeId, Term};
use crate::membership::{MembershipState, MembershipView, PeerAddress};
use crate::node_map::NodeMap;
use crate::node_set::{ascending, lemma_take_next, NodeSet};
use crate::paths::{join, joined, leads, same_path};
use crate::prose::{append_number, number_text};
use crate::recovery::{
    ClusterPolicy, Genesis, GenesisView, LogView, Origin, PolicyView,
};
use crate::routes::{client_route_of, ClientRoute, ClientRouteView};
use crate::text::{number_in, read_number, same_bytes, same_text};
use crate::words::{
    behind, chars_of, find_behind, first_behind, pieces, split, split_at_first, split_once,
    split_words, strip_prefix, texts, words,
};

verus! {

/// The value of a field of a status text.
pub open spec fn field_of(status: Seq<char>, key: &str) -> Option<Seq<char>> {
    first_behind(words(status), key@ + "="@, 0)
}

/// The value of a field of a status text.
pub fn status_field(status: &str, key: &str) -> (value: Option<String>)
    ensures
        optional_text(value) == field_of(status@, key),
{
    let parts = split_words(status);
    let mut prefix = key.to_owned();
    prefix.append("=");
    find_behind(&parts, prefix.as_str())
}

/// The value of a field of an information text.
pub open spec fn info_of(response: Seq<char>, key: &str) -> Option<Seq<char>> {
    first_behind(words(response), key@ + ":"@, 0)
}

/// The value of a field of an information text.
pub fn info_field(response: &str, key: &str) -> (value: Option<String>)
    ensures
        optional_text(value) == info_of(response@, key),
{
    let parts = split_words(response);
    let mut prefix = key.to_owned();
    prefix.append(":");
    find_behind(&parts, prefix.as_str())
}

/// A member's number behind an optional `n`.
pub open spec fn plain_id(text: Seq<char>) -> Seq<char> {
    match behind(text, "n"@) {
        Some(rest) => rest,
        None => text,
    }
}

/// The member that one entry of a list names.
pub open spec fn member_of(text: Seq<char>) -> Result<NodeId, FaultView> {
    match number_in(plain_id(text)) {
        None => Err(because(FaultKind::InvalidData, "invalid membership node id")),
        Some(id) => if id == 0 {
            Err(because(FaultKind::InvalidData, "zero membership node id"))
        } else {
            Ok(NodeId(id))
        },
    }
}

/// The members that the first `n` entries of a list name.
pub open spec fn member_set(parts: Seq<Seq<char>>, n: int) -> Result<Set<NodeId>, FaultView>
    decreases n,
{
    if n <= 0 {
        Ok(Set::empty())
    } else {
        match member_set(parts, n - 1) {
            Err(fault) => Err(fault),
            Ok(before) => if parts[n - 1].len() == 0 {
                Ok(before)
            } else {
                match member_of(parts[n - 1]) {
                    Err(fault) => Err(fault),
                    Ok(id) => Ok(before.insert(id)),
                }
            },
        }
    }
}

/// The members that a list names.
pub open spec fn members_in(value: Seq<char>) -> Result<Set<NodeId>, FaultView> {
    member_set(pieces(value, ','), pieces(value, ',').len() as int)
}

proof fn lemma_members_fail(parts: Seq<Seq<char>>, m: int, n: int)
    requires
        0 <= m <= n,
        member_set(parts, m) is Err,
    ensures
        member_set(parts, n) == member_set(parts, m),
    decreases n - m,
{
    if m < n {
        lemma_members_fail(parts, m, n - 1);
    }
}

/// Reads a list of members.
pub fn parse_member_ids(value: &str) -> (result: Result<NodeSet, Fault>)
    ensures
        match result {
            Ok(members) => members_in(value@) == Ok::<Set<NodeId>, FaultView>(members@),
            Err(error) => members_in(value@) == Err::<Set<NodeId>, FaultView>(error@),
        },
{
    let parts = split(value, ',');
    let ghost all = texts(parts@);
    let mut members = NodeSet::new();
    let mut i: usize = 0;
    while i < parts.len()
        invariant
            i <= parts@.len(),
            all == texts(parts@),
            all == pieces(value@, ','),
            member_set(all, i as int) == Ok::<Set<NodeId>, FaultView>(members@),
        decreases parts@.len() - i,
    {
        assert(all[i as int] == parts@[i as int]@);
        let part = parts[i].as_str();
        i += 1;
        if part.unicode_len() == 0 {
            continue;
        }
        let plain = match strip_prefix(part, "n") {
            Some(rest) => rest,
            None => part,
        };
        let id: u64 = match read_number(plain) {
            Some(id) => id,
            None => {
                proof {
                    lemma_members_fail(all, i as int, all.len() as int);
                }
                return Err(fault(FaultKind::InvalidData, "invalid membership node id"));
            },
        };
        if id == 0 {
            proof {
                lemma_members_fail(all, i as int, all.len() as int);
            }
            return Err(fault(FaultKind::InvalidData, "zero membership node id"));
        }
        members.insert(NodeId::new(id));
    }
    Ok(members)
}

/// A text that is a numeric endpoint: which one, and how it is written
/// canonically.
#[derive(Clone, Debug, PartialEq, Eq)]
pub struct Endpoint {
    pub text: String,
    pub address: PeerAddress,
    pub shown: String,
}

#[verifier::ext_equal]
pub struct EndpointView {
    pub text: Seq<char>,
    pub address: PeerAddress,
    pub shown: Seq<char>,
}

impl View for Endpoint {
    type V = EndpointView;

    open spec fn view(&self) -> EndpointView {
        EndpointView { text: self.text@, address: self.address, shown: self.shown@ }
    }
}

pub open spec fn endpoint_views(endpoints: Seq<Endpoint>) -> Seq<EndpointView> {
    endpoints.map_values(|endpoint: Endpoint| endpoint@)
}

/// The position of the endpoint with a text, from `i` on.
pub open spec fn endpoint_from(known: Seq<EndpointView>, text: Seq<char>, i: int) -> Option<int>
    decreases known.len() - i,
{
    if i < 0 || i >= known.len() {
        None
    } else if known[i].text == text {
        Some(i)
    } else {
        endpoint_from(known, text, i + 1)
    }
}

fn find_endpoint(known: &[Endpoint], text: &str) -> (at: Option<usize>)
    ensures
        match at {
            Some(at) => at < known@.len() && endpoint_from(endpoint_views(known@), text@, 0)
                == Some(at as int),
            None => endpoint_from(endpoint_views(known@), text@, 0) is None,
        },
{
    let ghost all = endpoint_views(known@);
    let mut i: usize = 0;
    while i < known.len()
        invariant
            i <= known@.len(),
            all == endpoint_views(known@),
            endpoint_from(all, text@, 0) == endpoint_from(all, text@, i as int),
        decreases known@.len() - i,
    {
        assert(all[i as int] == known@[i as int]@);
        if same_text(known[i].text.as_str(), text) {
            return Some(i);
        }
        i += 1;
    }
    None
}

/// The member and the address that one entry of a list names. `known` are the
/// texts that are numeric endpoints.
pub open spec fn addressed_member(text: Seq<char>, known: Seq<EndpointView>) -> Result<
    (NodeId, EndpointView),
    FaultView,
> {
    match split_at_first(text, '@') {
        None => Err(because(FaultKind::InvalidData, "invalid membership address")),
        Some((id, address)) => match number_in(id) {
            None => Err(because(FaultKind::InvalidData, "invalid membership address id")),
            Some(id) => match endpoint_from(known, address, 0) {
                None => Err(because(FaultKind::InvalidData, "non-numeric membership address")),
                Some(at) => Ok((NodeId(id), known[at])),
            },
        },
    }
}

/// The addresses that the first `n` entries of a list name.
pub open spec fn address_map(parts: Seq<Seq<char>>, n: int, known: Seq<EndpointView>) -> Result<
    Map<NodeId, EndpointView>,
    FaultView,
>
    decreases n,
{
    if n <= 0 {
        Ok(Map::empty())
    } else {
        match address_map(parts, n - 1, known) {
            Err(fault) => Err(fault),
            Ok(before) => if parts[n - 1].len() == 0 {
                Ok(before)
            } else {
                match addressed_member(parts[n - 1], known) {
                    Err(fault) => Err(fault),
                    Ok((id, endpoint)) => Ok(before.insert(id, endpoint)),
                }
            },
        }
    }
}

/// The addresses that a list names.
pub open spec fn addresses_in(value: Seq<char>, known: Seq<EndpointView>) -> Result<
    Map<NodeId, EndpointView>,
    FaultView,
> {
    address_map(pieces(value, ','), pieces(value, ',').len() as int, known)
}

proof fn lemma_addresses_fail(parts: Seq<Seq<char>>, m: int, n: int, known: Seq<EndpointView>)
    requires
        0 <= m <= n,
        address_map(parts, m, known) is Err,
    ensures
        address_map(parts, n, known) == address_map(parts, m, known),
    decreases n - m,
{
    if m < n {
        lemma_addresses_fail(parts, m, n - 1, known);
    }
}

/// What positions among endpoints stand for.
pub open spec fn placed(at: Map<NodeId, usize>, known: Seq<EndpointView>) -> Map<
    NodeId,
    EndpointView,
> {
    at.map_values(|k: usize| known[k as int])
}

/// Whether every position is one of `count` endpoints.
pub open spec fn placed_within(at: Map<NodeId, usize>, count: nat) -> bool {
    forall|id: NodeId| #[trigger] at.dom().contains(id) ==> at[id] < count
}

/// Reads a list of addresses: for each member the position of its endpoint
/// among `known`.
#[verifier::spinoff_prover]
#[verifier::rlimit(40)]
pub fn parse_member_addresses(value: &str, known: &[Endpoint]) -> (result: Result<
    NodeMap<usize>,
    Fault,
>)
    ensures
        match result {
            Ok(at) => {
                &&& placed_within(at@, known@.len())
                &&& addresses_in(value@, endpoint_views(known@)) == Ok::<
                    Map<NodeId, EndpointView>,
                    FaultView,
                >(placed(at@, endpoint_views(known@)))
            },
            Err(error) => addresses_in(value@, endpoint_views(known@)) == Err::<
                Map<NodeId, EndpointView>,
                FaultView,
            >(error@),
        },
{
    let parts = split(value, ',');
    let ghost all = texts(parts@);
    let ghost table = endpoint_views(known@);
    let mut at: NodeMap<usize> = NodeMap::new();
    let mut i: usize = 0;
    assert(placed(at@, table) =~= Map::<NodeId, EndpointView>::empty());
    while i < parts.len()
        invariant
            i <= parts@.len(),
            all == texts(parts@),
            all == pieces(value@, ','),
            table == endpoint_views(known@),
            placed_within(at@, known@.len()),
            address_map(all, i as int, table) == Ok::<Map<NodeId, EndpointView>, FaultView>(
                placed(at@, table),
            ),
        decreases parts@.len() - i,
    {
        assert(all[i as int] == parts@[i as int]@);
        let part = parts[i].as_str();
        i += 1;
        if part.unicode_len() == 0 {
            continue;
        }
        let (raw, address) = match split_once(part, '@') {
            Some(halves) => halves,
            None => {
                proof {
                    lemma_addresses_fail(all, i as int, all.len() as int, table);
                }
                return Err(fault(FaultKind::InvalidData, "invalid membership address"));
            },
        };
        let id: u64 = match read_number(raw) {
            Some(id) => id,
            None => {
                proof {
                    lemma_addresses_fail(all, i as int, all.len() as int, table);
                }
                return Err(fault(FaultKind::InvalidData, "invalid membership address id"));
            },
        };
        let place: usize = match find_endpoint(known, address) {
            Some(place) => place,
            None => {
                proof {
                    lemma_addresses_fail(all, i as int, all.len() as int, table);
                }
                return Err(fault(FaultKind::InvalidData, "non-numeric membership address"));
            },
        };
        let ghost before = at@;
        at.insert(NodeId::new(id), place);
        assert(placed(at@, table) =~= placed(before, table).insert(
            NodeId(id),
            table[place as int],
        ));
    }
    Ok(at)
}

/// The address texts of a list, as far as they are written.
pub open spec fn address_texts(parts: Seq<Seq<char>>, n: int) -> Seq<Seq<char>>
    decreases n,
{
    if n <= 0 {
        seq![]
    } else {
        match split_at_first(parts[n - 1], '@') {
            Some((_, address)) => address_texts(parts, n - 1).push(address),
            None => address_texts(parts, n - 1),
        }
    }
}

/// The address texts of a list: the texts that `parse_member_addresses` asks
/// about.
pub fn member_address_texts(value: &str) -> (found: Vec<String>)
    ensures
        texts(found@) == address_texts(pieces(value@, ','), pieces(value@, ',').len() as int),
{
    let parts = split(value, ',');
    let ghost all = texts(parts@);
    let mut found: Vec<String> = Vec::new();
    let mut i: usize = 0;
    assert(texts(found@) =~= seq![]);
    while i < parts.len()
        invariant
            i <= parts@.len(),
            all == texts(parts@),
            texts(found@) == address_texts(all, i as int),
        decreases parts@.len() - i,
    {
        assert(all[i as int] == parts@[i as int]@);
        let ghost before = texts(found@);
        if let Some((_, address)) = split_once(parts[i].as_str(), '@') {
            found.push(address.to_owned());
            assert(texts(found@) =~= before.push(address@));
        }
        i += 1;
    }
    found
}

/// The value of a hexadecimal digit of either case.
pub open spec fn hex_digit(c: char) -> Option<nat> {
    if '0' <= c <= '9' {
        Some((c as int - '0' as int) as nat)
    } else if 'a' <= c <= 'f' {
        Some((c as int - 'a' as int + 10) as nat)
    } else if 'A' <= c <= 'F' {
        Some((c as int - 'A' as int + 10) as nat)
    } else {
        None
    }
}

/// The number that hexadecimal digits write.
pub open spec fn hex_number(digits: Seq<char>) -> Option<nat>
    decreases digits.len(),
{
    if digits.len() == 0 {
        Some(0)
    } else {
        match hex_number(digits.drop_last()) {
            None => None,
            Some(before) => match hex_digit(digits.last()) {
                None => None,
                Some(digit) => Some(before * 16 + digit),
            },
        }
    }
}

/// The `u64` that a hexadecimal text writes behind an optional `+`.
pub open spec fn hex_value(text: Seq<char>) -> Option<u64> {
    let body = if text.len() > 0 && text[0] == '+' {
        text.drop_first()
    } else {
        text
    };
    match hex_number(body) {
        Some(value) => if body.len() > 0 && value <= u64::MAX {
            Some(value as u64)
        } else {
            None
        },
        None => None,
    }
}

proof fn lemma_hex_grows(digits: Seq<char>, n: int)
    requires
        0 <= n <= digits.len(),
    ensures
        hex_number(digits) matches Some(value) ==> (hex_number(digits.take(n)) matches Some(part)
            && part <= value),
    decreases digits.len() - n,
{
    if n < digits.len() {
        lemma_hex_grows(digits, n + 1);
        assert(digits.take(n + 1).drop_last() =~= digits.take(n));
    } else {
        assert(digits.take(n) =~= digits);
    }
}

fn read_hex_digit(c: char) -> (value: Option<u64>)
    ensures
        match value {
            Some(value) => value < 16 && hex_digit(c) == Some(value as nat),
            None => hex_digit(c) is None,
        },
{
    if '0' <= c && c <= '9' {
        Some((c as u64) - 48)
    } else if 'a' <= c && c <= 'f' {
        Some((c as u64) - 87)
    } else if 'A' <= c && c <= 'F' {
        Some((c as u64) - 55)
    } else {
        None
    }
}

/// Reads a hexadecimal `u64`.
pub fn read_hex(text: &str) -> (value: Option<u64>)
    ensures
        value == hex_value(text@),
{
    let chars = chars_of(text);
    let start: usize = if chars.len() > 0 && chars[0] == '+' {
        1
    } else {
        0
    };
    let ghost body = text@.skip(start as int);
    proof {
        if start == 1 {
            assert(body =~= text@.drop_first());
        } else {
            assert(body =~= text@);
        }
        assert(body.take(0) =~= seq![]);
    }
    if start == chars.len() {
        return None;
    }
    let mut value: u64 = 0;
    let mut i: usize = start;
    while i < chars.len()
        invariant
            start <= i <= chars@.len(),
            start < chars@.len(),
            chars@ == text@,
            body == text@.skip(start as int),
            hex_value(text@) == (match hex_number(body) {
                Some(value) => if body.len() > 0 && value <= u64::MAX {
                    Some(value as u64)
                } else {
                    None
                },
                None => None,
            }),
            hex_number(body.take(i - start)) == Some(value as nat),
        decreases chars@.len() - i,
    {
        let ghost next = body.take(i - start + 1);
        proof {
            assert(next.drop_last() =~= body.take(i - start));
            assert(next.last() == chars@[i as int]);
            lemma_hex_grows(body, i - start + 1);
        }
        let digit: u64 = match read_hex_digit(chars[i]) {
            Some(digit) => digit,
            None => return None,
        };
        if value > (u64::MAX - digit) / 16 {
            return None;
        }
        value = value * 16 + digit;
        i += 1;
    }
    assert(body.take(i - start) =~= body);
    Some(value)
}

/// The features that a field of a status text lists.
pub open spec fn features_in(status: Seq<char>, key: &str) -> u64 {
    match field_of(status, key) {
        None => 0,
        Some(value) => match behind(value, "0x"@) {
            None => 0,
            Some(digits) => match hex_value(digits) {
                None => 0,
                Some(features) => features,
            },
        },
    }
}

fn read_features(status: &str, key: &str) -> (features: u64)
    ensures
        features == features_in(status@, key),
{
    match status_field(status, key) {
        None => 0,
        Some(value) => match strip_prefix(value.as_str(), "0x") {
            None => 0,
            Some(digits) => match read_hex(digits) {
                None => 0,
                Some(features) => features,
            },
        },
    }
}

/// How a node asks to join.
#[derive(Clone, Debug, PartialEq, Eq)]
pub struct JoinRequest {
    pub seed: String,
    pub node_id: u64,
    pub peer: PeerAddress,
    pub data_dir: String,
    pub config_path: String,
}

#[verifier::ext_equal]
pub struct JoinRequestView {
    pub seed: Seq<char>,
    pub node_id: u64,
    pub peer: PeerAddress,
    pub data_dir: Seq<char>,
    pub config_path: Seq<char>,
}

impl View for JoinRequest {
    type V = JoinRequestView;

    open spec fn view(&self) -> JoinRequestView {
        JoinRequestView {
            seed: self.seed@,
            node_id: self.node_id,
            peer: self.peer,
            data_dir: self.data_dir@,
            config_path: self.config_path@,
        }
    }
}

/// What a request to join says, or what is wrong with it. `peer` is the
/// numeric endpoint that the peer address is.
pub open spec fn join_request_of(args: Seq<Seq<char>>, peer: Option<PeerAddress>) -> Result<
    JoinRequestView,
    FaultView,
> {
    match flag_of(args, "--join") {
        None => Err(because(FaultKind::InvalidInput, "run --join requires a seed address")),
        Some(seed) => match flag_of(args, "--node-id") {
            None => Err(because(FaultKind::InvalidInput, "join requires --node-id")),
            Some(node) => match number_in(node) {
                None => Err(because(FaultKind::InvalidInput, "join node id")),
                Some(node_id) => if node_id == 0 {
                    Err(because(FaultKind::InvalidInput, "join node id must be nonzero"))
                } else {
                    match flag_of(args, "--peer-addr") {
                        None => Err(because(FaultKind::InvalidInput, "join requires --peer-addr")),
                        Some(_) => match peer {
                            None => Err(
                                because(
                                    FaultKind::InvalidInput,
                                    "join peer address must be a numeric IP:port",
                                ),
                            ),
                            Some(peer) => if !peer.usable() {
                                Err(
                                    because(
                                        FaultKind::InvalidInput,
                                        "join peer address must be a canonical unicast endpoint",
                                    ),
                                )
                            } else {
                                match flag_of(args, "--data-dir") {
                                    None => Err(
                                        because(
                                            FaultKind::InvalidInput,
                                            "join requires --data-dir",
                                        ),
                                    ),
                                    Some(data_dir) => Ok(
                                        JoinRequestView {
                                            seed,
                                            node_id,
                                            peer,
                                            data_dir,
                                            config_path: match flag_of(args, "--config") {
                                                Some(path) => path,
                                                None => joined(data_dir, "ccdb.toml"@),
                                            },
                                        },
                                    ),
                                }
                            },
                        },
                    }
                },
            },
        },
    }
}

/// Reads how a node asks to join.
pub fn join_request(args: &[String], peer: Option<PeerAddress>) -> (result: Result<
    JoinRequest,
    Fault,
>)
    ensures
        match result {
            Ok(request) => join_request_of(texts(args@), peer) == Ok::<JoinRequestView, FaultView>(
                request@,
            ),
            Err(error) => join_request_of(texts(args@), peer) == Err::<JoinRequestView, FaultView>(
                error@,
            ),
        },
{
    let seed = match flag(args, "--join") {
        Some(value) => value,
        None => return Err(
            fault(FaultKind::InvalidInput, "run --join requires a seed address"),
        ),
    };
    let node = match flag(args, "--node-id") {
        Some(value) => value,
        None => return Err(fault(FaultKind::InvalidInput, "join requires --node-id")),
    };
    let node_id: u64 = match read_number(node.as_str()) {
        Some(node_id) => node_id,
        None => return Err(fault(FaultKind::InvalidInput, "join node id")),
    };
    if node_id == 0 {
        return Err(fault(FaultKind::InvalidInput, "join node id must be nonzero"));
    }
    if flag(args, "--peer-addr").is_none() {
        return Err(fault(FaultKind::InvalidInput, "join requires --peer-addr"));
    }
    let peer = match peer {
        Some(peer) => peer,
        None => return Err(
            fault(FaultKind::InvalidInput, "join peer address must be a numeric IP:port"),
        ),
    };
    if !peer.validate() {
        return Err(
            fault(
                FaultKind::InvalidInput,
                "join peer address must be a canonical unicast endpoint",
            ),
        );
    }
    let data_dir = match flag(args, "--data-dir") {
        Some(value) => value,
        None => return Err(fault(FaultKind::InvalidInput, "join requires --data-dir")),
    };
    let config_path = match flag(args, "--config") {
        Some(path) => path,
        None => join(data_dir.as_str(), "ccdb.toml"),
    };
    Ok(JoinRequest { seed, node_id, peer, data_dir, config_path })
}

/// Why a directory that was begun is not taken up again, if it is not.
pub open spec fn resume_refusal(
    request: JoinRequestView,
    identity: IdentityView,
    config: ConfigView,
) -> Option<FaultView> {
    if identity.lifecycle != IDENTITY_JOINING || identity.node_id != request.node_id || config.id
        != request.node_id || leads(config.data_dir) != leads(request.data_dir) {
        Some(
            because(
                FaultKind::AlreadyExists,
                "join directory is not a resumable Joining identity",
            ),
        )
    } else {
        None
    }
}

/// Decides whether a directory that was begun is taken up again.
pub fn resume_join(request: &JoinRequest, identity: &DiskIdentity, config: &Config) -> (result:
    Result<(), Fault>)
    ensures
        outcome_is(result, resume_refusal(request@, identity@, config@)),
{
    if identity.lifecycle != IDENTITY_JOINING || identity.node_id != request.node_id || config.id
        != request.node_id || !same_path(config.data_dir.as_str(), request.data_dir.as_str()) {
        return Err(
            fault(
                FaultKind::AlreadyExists,
                "join directory is not a resumable Joining identity",
            ),
        );
    }
    Ok(())
}

/// Why a discovered policy is refused, if it is: a node honors only its own.
pub open spec fn policy_refusal(policy: Seq<u8>, own: Seq<u8>) -> Option<FaultView> {
    if policy != own {
        Some(
            because(
                FaultKind::InvalidData,
                "this build/HostLimits cannot honor the discovered cluster policy",
            ),
        )
    } else {
        None
    }
}

/// Decides whether a discovered policy is one that this node honors.
pub fn validate_join_policy(policy: &[u8], own: &[u8]) -> (result: Result<(), Fault>)
    ensures
        outcome_is(result, policy_refusal(policy@, own@)),
{
    if !same_bytes(policy, own) {
        return Err(
            fault(
                FaultKind::InvalidData,
                "this build/HostLimits cannot honor the discovered cluster policy",
            ),
        );
    }
    Ok(())
}

/// The field of a status text, or nothing where it lacks.
pub open spec fn field_or_empty(status: Seq<char>, key: &str) -> Seq<char> {
    match field_of(status, key) {
        Some(value) => value,
        None => seq![],
    }
}

fn field_default(status: &str, key: &str) -> (value: String)
    ensures
        value@ == field_or_empty(status@, key),
{
    match status_field(status, key) {
        Some(value) => value,
        None => {
            let value = String::new();
            assert(value@ =~= seq![]);
            value
        },
    }
}

/// The cluster that a status text speaks of, where the policy that it shows is
/// this node's own.
pub open spec fn cluster_in(status: Seq<char>, own_policy: Seq<u8>) -> Result<Seq<u8>, FaultView> {
    match field_of(status, "cluster_id") {
        None => Err(because(FaultKind::InvalidData, "join response lacks cluster_id")),
        Some(id) => match cluster_id_of(encode_utf8(id)) {
            Err(fault) => Err(fault),
            Ok(cluster) => match field_of(status, "policy") {
                None => Err(
                    because(FaultKind::InvalidData, "join response lacks cluster policy"),
                ),
                Some(policy) => match hex_decoded(encode_utf8(policy)) {
                    Err(fault) => Err(fault),
                    Ok(bytes) => match policy_refusal(bytes, own_policy) {
                        Some(fault) => Err(fault),
                        None => Ok(cluster),
                    },
                },
            },
        },
    }
}

fn read_cluster(status: &str, own_policy: &[u8]) -> (result: Result<ClusterId, Fault>)
    ensures
        match result {
            Ok(cluster) => cluster_in(status@, own_policy@) == Ok::<Seq<u8>, FaultView>(cluster@),
            Err(error) => cluster_in(status@, own_policy@) == Err::<Seq<u8>, FaultView>(error@),
        },
{
    let id = match status_field(status, "cluster_id") {
        Some(value) => value,
        None => return Err(fault(FaultKind::InvalidData, "join response lacks cluster_id")),
    };
    let cluster = match ClusterId::from_hex(id.as_str()) {
        Ok(cluster) => cluster,
        Err(error) => return Err(error),
    };
    let policy = match status_field(status, "policy") {
        Some(value) => value,
        None => return Err(fault(FaultKind::InvalidData, "join response lacks cluster policy")),
    };
    let bytes = match decode_hex(policy.as_str()) {
        Ok(bytes) => bytes,
        Err(error) => return Err(error),
    };
    match validate_join_policy(bytes.as_slice(), own_policy) {
        Ok(_) => Ok(cluster),
        Err(error) => Err(error),
    }
}

/// The endpoints' addresses.
pub open spec fn plain_addresses(addresses: Map<NodeId, EndpointView>) -> Map<NodeId, PeerAddress> {
    addresses.map_values(|endpoint: EndpointView| endpoint.address)
}

/// A membership without a change underway.
pub open spec fn settled(
    voters: Set<NodeId>,
    learners: Set<NodeId>,
    addresses: Map<NodeId, EndpointView>,
    active_features: u64,
) -> MembershipView {
    MembershipView {
        voters,
        learners,
        joint: None,
        addresses: plain_addresses(addresses),
        active_features,
    }
}

/// Composes a membership. Voters without a member, or a zero among them, make
/// none.
fn compose_membership(
    voters: NodeSet,
    learners: NodeSet,
    at: &NodeMap<usize>,
    known: &[Endpoint],
    active_features: u64,
) -> (state: Option<MembershipState>)
    requires
        placed_within(at@, known@.len()),
    ensures
        match state {
            Some(state) => state@ == settled(
                voters@,
                learners@,
                placed(at@, endpoint_views(known@)),
                active_features,
            ),
            None => voters@ == Set::<NodeId>::empty() || voters@.contains(NodeId(0)),
        },
        state is None ==> !settled(
            voters@,
            learners@,
            placed(at@, endpoint_views(known@)),
            active_features,
        ).valid(),
{
    let ghost table = endpoint_views(known@);
    let ghost full = plain_addresses(placed(at@, table));
    let mut state = match MembershipState::new(voters) {
        Ok(state) => state,
        Err(_) => return None,
    };
    state.learners = learners;
    state.active_features = active_features;
    let count: usize = at.len();
    let ghost order = ascending(at@.dom());
    let mut i: usize = 0;
    assert(full.restrict(order.take(0).to_set()) =~= Map::<NodeId, PeerAddress>::empty());
    while i < count
        invariant
            i <= count == order.len() == at@.dom().len(),
            order == ascending(at@.dom()),
            table == endpoint_views(known@),
            full == plain_addresses(placed(at@, table)),
            placed_within(at@, known@.len()),
            state@ == (MembershipView {
                voters: voters@,
                learners: learners@,
                joint: None,
                addresses: full.restrict(order.take(i as int).to_set()),
                active_features,
            }),
        decreases count - i,
    {
        let id = at.key_at(i);
        let place: usize = at.value_at(i);
        proof {
            lemma_take_next(order, i as int);
            assert(table[place as int] == known@[place as int]@);
            assert(full.dom().contains(id));
            assert(full[id] == known@[place as int].address);
        }
        let ghost before = state@.addresses;
        state.addresses.insert(id, known[place].address);
        assert(before.insert(id, full[id]) =~= full.restrict(order.take(i + 1).to_set()));
        i += 1;
    }
    assert(order.take(i as int) =~= order);
    assert(full.restrict(order.to_set()) =~= full);
    Some(state)
}

/// The addresses of the membership that a status text shows, where it is a
/// valid one that the new node can join.
pub open spec fn current_in(
    status: Seq<char>,
    node: u64,
    peer: Seq<char>,
    known: Seq<EndpointView>,
) -> Result<Map<NodeId, EndpointView>, FaultView> {
    match members_in(field_or_empty(status, "voters")) {
        Err(fault) => Err(fault),
        Ok(voters) => match members_in(field_or_empty(status, "learners")) {
            Err(fault) => Err(fault),
            Ok(learners) => if voters.contains(NodeId(node)) || learners.contains(NodeId(node)) {
                Err(
                    because(
                        FaultKind::AlreadyExists,
                        "join node id already exists in membership",
                    ),
                )
            } else {
                match addresses_in(field_or_empty(status, "addresses"), known) {
                    Err(fault) => Err(fault),
                    Ok(addresses) => if shows(addresses, peer) {
                        Err(
                            because(
                                FaultKind::AlreadyExists,
                                "join peer address already exists in membership",
                            ),
                        )
                    } else if !settled(
                        voters,
                        learners,
                        addresses,
                        features_in(status, "active_features"),
                    ).valid() {
                        Err(because(FaultKind::Other, "invalid membership"))
                    } else {
                        Ok(addresses)
                    },
                }
            },
        },
    }
}

/// Whether an address is written so.
pub open spec fn shows(addresses: Map<NodeId, EndpointView>, shown: Seq<char>) -> bool {
    exists|id: NodeId| #[trigger]
        addresses.dom().contains(id) && addresses[id].shown == shown
}

fn find_shown(at: &NodeMap<usize>, known: &[Endpoint], shown: &str) -> (r: bool)
    requires
        placed_within(at@, known@.len()),
    ensures
        r == shows(placed(at@, endpoint_views(known@)), shown@),
{
    let ghost table = endpoint_views(known@);
    let ghost all = placed(at@, table);
    let count: usize = at.len();
    let ghost order = ascending(at@.dom());
    let mut i: usize = 0;
    while i < count
        invariant
            i <= count == order.len() == at@.dom().len(),
            order == ascending(at@.dom()),
            table == endpoint_views(known@),
            all == placed(at@, table),
            placed_within(at@, known@.len()),
            forall|k: int| 0 <= k < i ==> all[#[trigger] order[k]].shown != shown@,
        decreases count - i,
    {
        let id = at.key_at(i);
        let place: usize = at.value_at(i);
        assert(table[place as int] == known@[place as int]@);
        assert(all.dom().contains(id));
        assert(all[id] == table[place as int]);
        if same_text(known[place].shown.as_str(), shown) {
            return true;
        }
        i += 1;
    }
    proof {
        if shows(all, shown@) {
            let id = choose|id: NodeId| #[trigger]
                all.dom().contains(id) && all[id].shown == shown@;
            assert(order.to_set().contains(id));
            let k = choose|k: int| 0 <= k < order.len() && order[k] == id;
            assert(all[order[k]].shown != shown@);
        }
    }
    false
}

fn read_current(status: &str, node: u64, peer: &str, known: &[Endpoint]) -> (result: Result<
    NodeMap<usize>,
    Fault,
>)
    ensures
        match result {
            Ok(at) => {
                &&& placed_within(at@, known@.len())
                &&& current_in(status@, node, peer@, endpoint_views(known@)) == Ok::<
                    Map<NodeId, EndpointView>,
                    FaultView,
                >(placed(at@, endpoint_views(known@)))
            },
            Err(error) => current_in(status@, node, peer@, endpoint_views(known@)) == Err::<
                Map<NodeId, EndpointView>,
                FaultView,
            >(error@),
        },
{
    let voters = match parse_member_ids(field_default(status, "voters").as_str()) {
        Ok(voters) => voters,
        Err(error) => return Err(error),
    };
    let learners = match parse_member_ids(field_default(status, "learners").as_str()) {
        Ok(learners) => learners,
        Err(error) => return Err(error),
    };
    if voters.contains(NodeId::new(node)) || learners.contains(NodeId::new(node)) {
        return Err(fault(FaultKind::AlreadyExists, "join node id already exists in membership"));
    }
    let at = match parse_member_addresses(field_default(status, "addresses").as_str(), known) {
        Ok(at) => at,
        Err(error) => return Err(error),
    };
    if find_shown(&at, known, peer) {
        return Err(
            fault(FaultKind::AlreadyExists, "join peer address already exists in membership"),
        );
    }
    let features: u64 = read_features(status, "active_features");
    match compose_membership(voters, learners, &at, known, features) {
        None => Err(fault(FaultKind::Other, "invalid membership")),
        Some(state) => match state.validate() {
            Err(_) => Err(fault(FaultKind::Other, "invalid membership")),
            Ok(_) => Ok(at),
        },
    }
}

/// The membership that the cluster began with, as a status text shows it,
/// where the new node is not among it.
pub open spec fn genesis_in(status: Seq<char>, node: u64, known: Seq<EndpointView>) -> Result<
    MembershipView,
    FaultView,
> {
    match field_of(status, "genesis_voters") {
        None => Err(because(FaultKind::InvalidData, "join response lacks Genesis voters")),
        Some(voters) => match members_in(voters) {
            Err(fault) => Err(fault),
            Ok(voters) => match members_in(field_or_empty(status, "genesis_learners")) {
                Err(fault) => Err(fault),
                Ok(learners) => match field_of(status, "genesis_addresses") {
                    None => Err(
                        because(FaultKind::InvalidData, "join response lacks Genesis addresses"),
                    ),
                    Some(addresses) => match addresses_in(addresses, known) {
                        Err(fault) => Err(fault),
                        Ok(addresses) => {
                            let genesis = settled(
                                voters,
                                learners,
                                addresses,
                                features_in(status, "genesis_active_features"),
                            );
                            if voters == Set::<NodeId>::empty() {
                                Err(because(FaultKind::Other, "invalid membership"))
                            } else if genesis.has(NodeId(node)) {
                                Err(
                                    because(
                                        FaultKind::AlreadyExists,
                                        "join node id already exists in Genesis membership",
                                    ),
                                )
                            } else if !genesis.valid() {
                                Err(because(FaultKind::Other, "invalid membership"))
                            } else {
                                Ok(genesis)
                            }
                        },
                    },
                },
            },
        },
    }
}

fn read_genesis(status: &str, node: u64, known: &[Endpoint]) -> (result: Result<
    MembershipState,
    Fault,
>)
    ensures
        match result {
            Ok(state) => genesis_in(status@, node, endpoint_views(known@)) == Ok::<
                MembershipView,
                FaultView,
            >(state@),
            Err(error) => genesis_in(status@, node, endpoint_views(known@)) == Err::<
                MembershipView,
                FaultView,
            >(error@),
        },
{
    let voters = match status_field(status, "genesis_voters") {
        Some(value) => value,
        None => return Err(fault(FaultKind::InvalidData, "join response lacks Genesis voters")),
    };
    let ghost named = voters@;
    let voters = match parse_member_ids(voters.as_str()) {
        Ok(voters) => voters,
        Err(error) => return Err(error),
    };
    proof {
        lemma_members_nonzero(pieces(named, ','), pieces(named, ',').len() as int);
    }
    let learners = match parse_member_ids(field_default(status, "genesis_learners").as_str()) {
        Ok(learners) => learners,
        Err(error) => return Err(error),
    };
    let addresses = match status_field(status, "genesis_addresses") {
        Some(value) => value,
        None => return Err(
            fault(FaultKind::InvalidData, "join response lacks Genesis addresses"),
        ),
    };
    let at = match parse_member_addresses(addresses.as_str(), known) {
        Ok(at) => at,
        Err(error) => return Err(error),
    };
    let features: u64 = read_features(status, "genesis_active_features");
    let state = match compose_membership(voters, learners, &at, known, features) {
        None => return Err(fault(FaultKind::Other, "invalid membership")),
        Some(state) => state,
    };
    if state.voters.is_empty() {
        return Err(fault(FaultKind::Other, "invalid membership"));
    }
    if state.has(NodeId::new(node)) {
        return Err(
            fault(FaultKind::AlreadyExists, "join node id already exists in Genesis membership"),
        );
    }
    match state.validate() {
        Err(_) => Err(fault(FaultKind::Other, "invalid membership")),
        Ok(_) => Ok(state),
    }
}

proof fn lemma_members_nonzero(parts: Seq<Seq<char>>, n: int)
    ensures
        member_set(parts, n) matches Ok(members) ==> !members.contains(NodeId(0)),
    decreases n,
{
    if n > 0 {
        lemma_members_nonzero(parts, n - 1);
    }
}

/// What a joining node starts from.
#[derive(Debug, PartialEq, Eq)]
pub struct JoinPlan {
    pub cluster_id: ClusterId,
    pub addresses: NodeMap<usize>,
    pub genesis: MembershipState,
}

#[verifier::ext_equal]
pub struct JoinPlanView {
    pub cluster_id: Seq<u8>,
    pub addresses: Map<NodeId, EndpointView>,
    pub genesis: MembershipView,
}

/// What a joining node starts from. The genesis is where the retained log is
/// replayed from, so it is not a copy of today's membership.
pub open spec fn join_plan_of(
    status: Seq<char>,
    node: u64,
    peer: Seq<char>,
    known: Seq<EndpointView>,
    own_policy: Seq<u8>,
) -> Result<JoinPlanView, FaultView> {
    match cluster_in(status, own_policy) {
        Err(fault) => Err(fault),
        Ok(cluster_id) => match current_in(status, node, peer, known) {
            Err(fault) => Err(fault),
            Ok(addresses) => match genesis_in(status, node, known) {
                Err(fault) => Err(fault),
                Ok(genesis) => Ok(JoinPlanView { cluster_id, addresses, genesis }),
            },
        },
    }
}

/// Decides from the answer of the leader what a joining node starts from.
/// `peer` is how the node's own endpoint is written, and `known` are the texts
/// of the answer that are numeric endpoints.
pub fn prepare_join_config(
    status: &str,
    node: u64,
    peer: &str,
    known: &[Endpoint],
    own_policy: &[u8],
) -> (result: Result<JoinPlan, Fault>)
    ensures
        match result {
            Ok(plan) => {
                &&& placed_within(plan.addresses@, known@.len())
                &&& join_plan_of(status@, node, peer@, endpoint_views(known@), own_policy@) == Ok::<
                    JoinPlanView,
                    FaultView,
                >(
                    JoinPlanView {
                        cluster_id: plan.cluster_id@,
                        addresses: placed(plan.addresses@, endpoint_views(known@)),
                        genesis: plan.genesis@,
                    },
                )
            },
            Err(error) => join_plan_of(
                status@,
                node,
                peer@,
                endpoint_views(known@),
                own_policy@,
            ) == Err::<JoinPlanView, FaultView>(error@),
        },
{
    let cluster_id = match read_cluster(status, own_policy) {
        Ok(cluster_id) => cluster_id,
        Err(error) => return Err(error),
    };
    let addresses = match read_current(status, node, peer, known) {
        Ok(addresses) => addresses,
        Err(error) => return Err(error),
    };
    let genesis = match read_genesis(status, node, known) {
        Ok(genesis) => genesis,
        Err(error) => return Err(error),
    };
    Ok(JoinPlan { cluster_id, addresses, genesis })
}

/// A joining node starts outside of what it joins: it is no member of the
/// genesis that it replays from, and that genesis is valid.
pub proof fn law_joining_starts_outside(
    status: Seq<char>,
    node: u64,
    peer: Seq<char>,
    known: Seq<EndpointView>,
    own_policy: Seq<u8>,
)
    ensures
        join_plan_of(status, node, peer, known, own_policy) matches Ok(plan) ==> {
            &&& !plan.genesis.has(NodeId(node))
            &&& plan.genesis.valid()
            &&& !shows(plan.addresses, peer)
        },
{
}

/// The first record of the log of a node that joins.
pub fn joining_genesis(plan: &JoinPlan, policy: &ClusterPolicy) -> (genesis: Genesis)
    ensures
        genesis@ == (GenesisView {
            origin: Origin::Join,
            cluster_id: plan.cluster_id@,
            policy: policy@,
            membership: plan.genesis@,
        }),
{
    Genesis {
        origin: Origin::Join,
        cluster_id: plan.cluster_id,
        policy: policy.clone(),
        membership: plan.genesis.clone(),
    }
}

/// A node that joins boots from the genesis that it joined with, whatever its
/// configuration says of the members.
pub proof fn law_joining_nodes_boot(
    status: Seq<char>,
    node: u64,
    peer: Seq<char>,
    known: Seq<EndpointView>,
    policy: PolicyView,
    log: LogView,
    base: (LogIndex, Term),
    configured: MembershipView,
    max_snapshot_bytes: u64,
    found: FoundCheckpoint,
)
    requires
        join_plan_of(status, node, peer, known, policy.encoded) matches Ok(plan) && log.genesis == (
        GenesisView {
            origin: Origin::Join,
            cluster_id: plan.cluster_id,
            policy,
            membership: plan.genesis,
        }),
        log.snapshot is None,
    ensures
        boot_step(
            log,
            base,
            node,
            log.genesis.cluster_id,
            policy.encoded,
            configured,
            max_snapshot_bytes,
            found,
        ) == (BootStepView::Start {
            node: recovered(log, base, log.genesis.membership),
            compact: false,
        }),
{
    law_joining_starts_outside(status, node, peer, known, policy.encoded);
}

/// The member list of the first `n` members in order.
pub open spec fn peers_text(order: Seq<NodeId>, addresses: Map<NodeId, EndpointView>, n: int) -> Seq<
    char,
>
    decreases n,
{
    if n <= 0 {
        seq![]
    } else {
        let entry = number_text(order[n - 1].0 as nat) + "@"@ + addresses[order[n - 1]].shown;
        if n == 1 {
            entry
        } else {
            peers_text(order, addresses, n - 1) + ","@ + entry
        }
    }
}

/// The member list of a cluster, in ascending order.
pub open spec fn member_list(addresses: Map<NodeId, EndpointView>) -> Seq<char> {
    let order = ascending(addresses.dom());
    peers_text(order, addresses, order.len() as int)
}

fn compose_member_list(at: &NodeMap<usize>, known: &[Endpoint]) -> (text: String)
    requires
        placed_within(at@, known@.len()),
    ensures
        text@ == member_list(placed(at@, endpoint_views(known@))),
{
    let ghost table = endpoint_views(known@);
    let ghost all = placed(at@, table);
    let mut text = String::new();
    let count: usize = at.len();
    let ghost order = ascending(at@.dom());
    assert(all.dom() =~= at@.dom());
    let mut i: usize = 0;
    assert(text@ =~= seq![]);
    while i < count
        invariant
            i <= count == order.len() == at@.dom().len(),
            order == ascending(at@.dom()),
            table == endpoint_views(known@),
            all == placed(at@, table),
            placed_within(at@, known@.len()),
            text@ == peers_text(order, all, i as int),
        decreases count - i,
    {
        let id = at.key_at(i);
        let place: usize = at.value_at(i);
        assert(table[place as int] == known@[place as int]@);
        assert(all[id] == table[place as int]);
        if i > 0 {
            text.append(",");
        }
        append_number(&mut text, id.get());
        text.append("@");
        text.append(known[place].shown.as_str());
        i += 1;
        assert(text@ =~= peers_text(order, all, i as int));
    }
    text
}

/// Composes the configuration of a joining node.
pub fn join_config(
    request: &JoinRequest,
    plan: &JoinPlan,
    known: &[Endpoint],
    client: &str,
    peer: &str,
    metrics: &str,
) -> (text: String)
    requires
        placed_within(plan.addresses@, known@.len()),
    ensures
        text@ == config_text(
            request.node_id,
            plan.cluster_id@,
            request.data_dir@,
            client@,
            peer@,
            metrics@,
            member_list(placed(plan.addresses@, endpoint_views(known@))),
        ),
{
    let peers = compose_member_list(&plan.addresses, known);
    compose_config(
        request.node_id,
        &plan.cluster_id,
        request.data_dir.as_str(),
        client,
        peer,
        metrics,
        peers.as_str(),
    )
}

/// The identity of a joining node.
pub fn joining_identity(plan: &JoinPlan, node: u64, policy_hash: u64) -> (identity: DiskIdentity)
    ensures
        identity@ == (IdentityView {
            cluster_id: plan.cluster_id@,
            node_id: node,
            lifecycle: IDENTITY_JOINING,
            policy_hash,
            min_storage_reader: MIN_STORAGE_READER,
            min_semantic_reader: MIN_SEMANTIC_READER,
            migration_epoch: 0,
        }),
{
    let mut identity = DiskIdentity::fresh(plan.cluster_id, node, policy_hash);
    identity.lifecycle = IDENTITY_JOINING;
    identity
}

/// Where a joining node listens for clients: as asked, or a hundred ports below
/// its peer endpoint.
pub fn join_client_listener(args: &[String], peer: &PeerAddress) -> (route: ClientRoute)
    ensures
        route@ == match flag_of(texts(args@), "--client-addr") {
            Some(text) => ClientRouteView::Text(text),
            None => ClientRouteView::Address(
                peer.at_port(
                    if peer.spec_port() >= 100 {
                        (peer.spec_port() - 100) as u16
                    } else {
                        0
                    },
                ),
            ),
        },
        flag_of(texts(args@), "--client-addr") is None && peer.spec_port() >= 100 ==> forall|
            config: ConfigView,
            node: u64,
        |
            config.id != node ==> #[trigger] client_route_of(config, node, Some(*peer)) == route@,
{
    match flag(args, "--client-addr") {
        Some(text) => ClientRoute::Text(text),
        None => {
            let port: u16 = peer.port();
            ClientRoute::Address(
                peer.with_port(
                    if port >= 100 {
                        port - 100
                    } else {
                        0
                    },
                ),
            )
        },
    }
}

/// Where a joining node listens for metrics: as asked, or a hundred ports above
/// its peer endpoint.
pub fn join_metrics_listener(args: &[String], peer: &PeerAddress) -> (route: ClientRoute)
    ensures
        route@ == match flag_of(texts(args@), "--metrics-addr") {
            Some(text) => ClientRouteView::Text(text),
            None => ClientRouteView::Address(
                peer.at_port(
                    if peer.spec_port() + 100 <= u16::MAX {
                        (peer.spec_port() + 100) as u16
                    } else {
                        u16::MAX
                    },
                ),
            ),
        },
{
    match flag(args, "--metrics-addr") {
        Some(text) => ClientRoute::Text(text),
        None => {
            let port: u16 = peer.port();
            ClientRoute::Address(
                peer.with_port(
                    if port <= 65435 {
                        port + 100
                    } else {
                        65535
                    },
                ),
            )
        },
    }
}

} // verus!
