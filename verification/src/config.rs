//! The configuration file of a node.
use vstd::prelude::*;
use vstd::string::*;
use vstd::utf8::encode_utf8;

use crate::fault::{because, fault, fault_of, Fault, FaultKind, FaultView};
use crate::hex::{cluster_id_of, ClusterId};
use crate::prose::{append_number, number_text};
use crate::text::{number_in, read_number, same_text};
use crate::words::{
    bare, before_first, holds_text, lines, pieces, split, split_at_first, split_lines, split_once,
    strip, texts, trim, trimmed, until,
};

verus! {

/// A member as the configuration names it.
#[derive(Clone, Debug, PartialEq, Eq)]
pub struct Peer {
    pub id: u64,
    pub address: String,
}

#[verifier::ext_equal]
pub struct PeerView {
    pub id: u64,
    pub address: Seq<char>,
}

impl View for Peer {
    type V = PeerView;

    open spec fn view(&self) -> PeerView {
        PeerView { id: self.id, address: self.address@ }
    }
}

pub open spec fn peer_views(peers: Seq<Peer>) -> Seq<PeerView> {
    peers.map_values(|peer: Peer| peer@)
}

/// The configuration of a node.
#[derive(Clone, Debug, PartialEq, Eq)]
pub struct Config {
    pub id: u64,
    pub cluster_id: ClusterId,
    pub data_dir: String,
    pub listen_client: String,
    pub listen_peer: String,
    pub listen_metrics: String,
    pub peers: Vec<Peer>,
}

#[verifier::ext_equal]
pub struct ConfigView {
    pub id: u64,
    pub cluster_id: Seq<u8>,
    pub data_dir: Seq<char>,
    pub listen_client: Seq<char>,
    pub listen_peer: Seq<char>,
    pub listen_metrics: Seq<char>,
    pub peers: Seq<PeerView>,
}

impl View for Config {
    type V = ConfigView;

    open spec fn view(&self) -> ConfigView {
        ConfigView {
            id: self.id,
            cluster_id: self.cluster_id@,
            data_dir: self.data_dir@,
            listen_client: self.listen_client@,
            listen_peer: self.listen_peer@,
            listen_metrics: self.listen_metrics@,
            peers: peer_views(self.peers@),
        }
    }
}

/// Settings in the order of the file, each under its section and key.
pub struct Settings {
    pub names: Vec<String>,
    pub values: Vec<String>,
}

/// Names with their values.
pub open spec fn paired_texts(names: Seq<Seq<char>>, values: Seq<Seq<char>>) -> Seq<
    (Seq<char>, Seq<char>),
> {
    Seq::new(names.len(), |i: int| (names[i], values[i]))
}

impl Settings {
    pub open spec fn wf(self) -> bool {
        self.names@.len() == self.values@.len()
    }
}

impl View for Settings {
    type V = Seq<(Seq<char>, Seq<char>)>;

    open spec fn view(&self) -> Seq<(Seq<char>, Seq<char>)> {
        paired_texts(texts(self.names@), texts(self.values@))
    }
}

/// The value of the first setting with a name, from position `i` on.
pub open spec fn setting_from(pairs: Seq<(Seq<char>, Seq<char>)>, name: Seq<char>, i: int) -> Option<
    Seq<char>,
>
    decreases pairs.len() - i,
{
    if i < 0 || i >= pairs.len() {
        None
    } else if pairs[i].0 == name {
        Some(pairs[i].1)
    } else {
        setting_from(pairs, name, i + 1)
    }
}

pub open spec fn setting(pairs: Seq<(Seq<char>, Seq<char>)>, name: Seq<char>) -> Option<Seq<char>> {
    setting_from(pairs, name, 0)
}

/// A fault with its line.
pub open spec fn at_line(reason: Seq<char>, index: int) -> FaultView {
    FaultView {
        kind: FaultKind::InvalidInput,
        message: reason + " at line "@ + number_text((index + 1) as nat),
    }
}

/// Whether a section may hold a key.
pub open spec fn allowed(section: Seq<char>, key: Seq<char>) -> bool {
    if section == "node"@ {
        ||| key == "id"@
        ||| key == "cluster_id"@
        ||| key == "data_dir"@
        ||| key == "listen_client"@
        ||| key == "listen_peer"@
        ||| key == "listen_metrics"@
        ||| key == "peer_nodes"@
    } else {
        section == "storage"@ && key == "fsync"@
    }
}

pub open spec fn is_heading(line: Seq<char>) -> bool {
    line.len() > 0 && line[0] == '[' && line.last() == ']'
}

pub open spec fn heading(line: Seq<char>) -> Seq<char> {
    line.subrange(1, line.len() - 1)
}

/// What the lines from `i` on add to the settings so far.
pub open spec fn settings_from(
    all: Seq<Seq<char>>,
    i: int,
    section: Seq<char>,
    pairs: Seq<(Seq<char>, Seq<char>)>,
) -> Result<Seq<(Seq<char>, Seq<char>)>, FaultView>
    decreases all.len() - i,
{
    if i < 0 || i >= all.len() {
        Ok(pairs)
    } else {
        let line = trimmed(before_first(all[i], '#'));
        if line.len() == 0 {
            settings_from(all, i + 1, section, pairs)
        } else if is_heading(line) {
            if heading(line) == "node"@ || heading(line) == "storage"@ {
                settings_from(all, i + 1, heading(line), pairs)
            } else {
                Err(at_line("unknown config section "@ + heading(line), i))
            }
        } else {
            match split_at_first(line, '=') {
                None => Err(at_line("invalid config assignment"@, i)),
                Some((left, right)) => {
                    let key = trimmed(left);
                    let name = section + "."@ + key;
                    if !allowed(section, key) {
                        Err(at_line("unknown safety-critical config key "@ + key, i))
                    } else if setting(pairs, name) is Some {
                        Err(at_line("duplicate config key "@ + key, i))
                    } else {
                        settings_from(
                            all,
                            i + 1,
                            section,
                            pairs.push((name, bare(trimmed(right), '"'))),
                        )
                    }
                },
            }
        }
    }
}

/// The settings of a file, or what is wrong with it.
pub open spec fn settings_of(text: Seq<char>) -> Result<
    Seq<(Seq<char>, Seq<char>)>,
    FaultView,
> {
    settings_from(lines(text), 0, seq![], seq![])
}

/// A setting of the node that has to be there.
pub open spec fn required(pairs: Seq<(Seq<char>, Seq<char>)>, key: &str) -> Result<
    Seq<char>,
    FaultView,
> {
    match setting(pairs, "node."@ + key@) {
        Some(value) => Ok(value),
        None => Err(
            FaultView {
                kind: FaultKind::InvalidInput,
                message: "missing required node."@ + key@,
            },
        ),
    }
}

/// The node's own number.
pub open spec fn node_id_of(pairs: Seq<(Seq<char>, Seq<char>)>) -> Result<u64, FaultView> {
    match required(pairs, "id") {
        Err(fault) => Err(fault),
        Ok(value) => match number_in(value) {
            None => Err(because(FaultKind::InvalidInput, "node.id must be a nonzero u64")),
            Some(id) => if id == 0 {
                Err(because(FaultKind::InvalidInput, "node.id must be nonzero"))
            } else {
                Ok(id)
            },
        },
    }
}

pub open spec fn configured_cluster(pairs: Seq<(Seq<char>, Seq<char>)>) -> Result<
    Seq<u8>,
    FaultView,
> {
    match required(pairs, "cluster_id") {
        Err(fault) => Err(fault),
        Ok(value) => cluster_id_of(encode_utf8(value)),
    }
}

/// Whether a path climbs out of a directory.
pub open spec fn climbs(path: Seq<char>) -> bool {
    pieces(path, '/').contains(".."@)
}

pub open spec fn configured_dir(pairs: Seq<(Seq<char>, Seq<char>)>) -> Result<
    Seq<char>,
    FaultView,
> {
    match required(pairs, "data_dir") {
        Err(fault) => Err(fault),
        Ok(path) => if path.len() == 0 || climbs(path) {
            Err(
                because(
                    FaultKind::InvalidInput,
                    "node.data_dir must not contain a parent traversal",
                ),
            )
        } else {
            Ok(path)
        },
    }
}

pub open spec fn unresolvable(name: &str) -> FaultView {
    FaultView {
        kind: FaultKind::InvalidInput,
        message: "node."@ + name@ + " is not a resolvable socket address"@,
    }
}

/// The three addresses that a node listens on. `known` are the addresses
/// that resolve.
pub open spec fn listeners_of(pairs: Seq<(Seq<char>, Seq<char>)>, known: Seq<Seq<char>>) -> Result<
    (Seq<char>, Seq<char>, Seq<char>),
    FaultView,
> {
    match required(pairs, "listen_client") {
        Err(fault) => Err(fault),
        Ok(client) => match required(pairs, "listen_peer") {
            Err(fault) => Err(fault),
            Ok(peer) => match required(pairs, "listen_metrics") {
                Err(fault) => Err(fault),
                Ok(metrics) => if client.len() == 0 || !known.contains(client) {
                    Err(unresolvable("listen_client"))
                } else if peer.len() == 0 || !known.contains(peer) {
                    Err(unresolvable("listen_peer"))
                } else if metrics.len() == 0 || !known.contains(metrics) {
                    Err(unresolvable("listen_metrics"))
                } else {
                    Ok((client, peer, metrics))
                },
            },
        },
    }
}

/// The entries of a list, without white space around them and without empty
/// ones.
pub open spec fn entries_of(parts: Seq<Seq<char>>) -> Seq<Seq<char>>
    decreases parts.len(),
{
    if parts.len() == 0 {
        seq![]
    } else {
        let before = entries_of(parts.drop_last());
        let entry = trimmed(parts.last());
        if entry.len() == 0 {
            before
        } else {
            before.push(entry)
        }
    }
}

/// The address that a member's entry names.
pub open spec fn entry_address(entry: Seq<char>) -> Seq<char> {
    match split_at_first(entry, '@') {
        Some((_, address)) => address,
        None => entry,
    }
}

/// The member that the entry at `index` names. An entry without a number
/// takes its position, or the node's own number where it stands alone.
pub open spec fn peer_of(
    entries: Seq<Seq<char>>,
    index: int,
    id: u64,
    known: Seq<Seq<char>>,
) -> Result<PeerView, FaultView> {
    let entry = entries[index];
    let number = match split_at_first(entry, '@') {
        Some((raw, _)) => number_in(raw),
        None => Some(
            if entries.len() == 1 {
                id
            } else {
                (index + 1) as u64
            },
        ),
    };
    match number {
        None => Err(
            because(
                FaultKind::InvalidInput,
                "node.peer_nodes member id must be a nonzero u64",
            ),
        ),
        Some(number) => if number == 0 || !known.contains(entry_address(entry)) {
            Err(
                because(
                    FaultKind::InvalidInput,
                    "node.peer_nodes entries must use nonzero-id@resolvable-address",
                ),
            )
        } else {
            Ok(PeerView { id: number, address: entry_address(entry) })
        },
    }
}

/// The members that the first `n` entries name.
pub open spec fn peers_of(
    entries: Seq<Seq<char>>,
    n: int,
    id: u64,
    known: Seq<Seq<char>>,
) -> Result<Seq<PeerView>, FaultView>
    decreases n,
{
    if n <= 0 {
        Ok(seq![])
    } else {
        match peers_of(entries, n - 1, id, known) {
            Err(fault) => Err(fault),
            Ok(before) => match peer_of(entries, n - 1, id, known) {
                Err(fault) => Err(fault),
                Ok(peer) => Ok(before.push(peer)),
            },
        }
    }
}

/// Whether no two members share a number or an address.
pub open spec fn distinct_peers(peers: Seq<PeerView>) -> bool {
    forall|i: int, j: int|
        0 <= i < j < peers.len() ==> (#[trigger] peers[i]).id != (#[trigger] peers[j]).id
            && peers[i].address != peers[j].address
}

/// The members that a list names.
pub open spec fn listed_members(value: Seq<char>, id: u64, known: Seq<Seq<char>>) -> Result<
    Seq<PeerView>,
    FaultView,
> {
    let entries = entries_of(pieces(value, ','));
    if entries.len() == 0 {
        Err(because(FaultKind::InvalidInput, "node.peer_nodes must be nonempty"))
    } else {
        match peers_of(entries, entries.len() as int, id, known) {
            Err(fault) => Err(fault),
            Ok(peers) => if distinct_peers(peers) {
                Ok(peers)
            } else {
                Err(
                    because(
                        FaultKind::InvalidInput,
                        "node.peer_nodes member ids and addresses must be unique",
                    ),
                )
            },
        }
    }
}

/// The members of the cluster.
pub open spec fn members_of(
    pairs: Seq<(Seq<char>, Seq<char>)>,
    id: u64,
    known: Seq<Seq<char>>,
) -> Result<Seq<PeerView>, FaultView> {
    match required(pairs, "peer_nodes") {
        Err(fault) => Err(fault),
        Ok(value) => listed_members(value, id, known),
    }
}

/// The configuration that settings make.
pub open spec fn configured(pairs: Seq<(Seq<char>, Seq<char>)>, known: Seq<Seq<char>>) -> Result<
    ConfigView,
    FaultView,
> {
    match node_id_of(pairs) {
        Err(fault) => Err(fault),
        Ok(id) => match configured_cluster(pairs) {
            Err(fault) => Err(fault),
            Ok(cluster_id) => match configured_dir(pairs) {
                Err(fault) => Err(fault),
                Ok(data_dir) => match listeners_of(pairs, known) {
                    Err(fault) => Err(fault),
                    Ok((listen_client, listen_peer, listen_metrics)) => match members_of(
                        pairs,
                        id,
                        known,
                    ) {
                        Err(fault) => Err(fault),
                        Ok(peers) => Ok(
                            ConfigView {
                                id,
                                cluster_id,
                                data_dir,
                                listen_client,
                                listen_peer,
                                listen_metrics,
                                peers,
                            },
                        ),
                    },
                },
            },
        },
    }
}

/// What a configuration file says, where `known` are the addresses that
/// resolve.
pub open spec fn config_of(text: Seq<char>, known: Seq<Seq<char>>) -> Result<ConfigView, FaultView> {
    match settings_of(text) {
        Err(fault) => Err(fault),
        Ok(pairs) => configured(pairs, known),
    }
}

/// Finds a setting.
pub fn find_setting(settings: &Settings, name: &str) -> (value: Option<String>)
    requires
        settings.wf(),
    ensures
        match value {
            Some(value) => setting(settings@, name@) == Some(value@),
            None => setting(settings@, name@) is None,
        },
{
    let mut i: usize = 0;
    while i < settings.names.len()
        invariant
            settings.wf(),
            i <= settings.names@.len(),
            setting(settings@, name@) == setting_from(settings@, name@, i as int),
        decreases settings.names@.len() - i,
    {
        assert(settings@[i as int].0 == settings.names@[i as int]@);
        assert(settings@[i as int].1 == settings.values@[i as int]@);
        if same_text(settings.names[i].as_str(), name) {
            return Some(settings.values[i].clone());
        }
        i += 1;
    }
    None
}

fn line_fault(reason: String, index: usize) -> (fault: Fault)
    requires
        index < usize::MAX,
    ensures
        fault@ == at_line(reason@, index as int),
{
    let mut message = reason;
    message.append(" at line ");
    append_number(&mut message, (index + 1) as u64);
    fault_of(FaultKind::InvalidInput, message)
}

fn is_allowed(section: &str, key: &str) -> (r: bool)
    ensures
        r == allowed(section@, key@),
{
    if same_text(section, "node") {
        same_text(key, "id") || same_text(key, "cluster_id") || same_text(key, "data_dir")
            || same_text(key, "listen_client") || same_text(key, "listen_peer") || same_text(
            key,
            "listen_metrics",
        ) || same_text(key, "peer_nodes")
    } else {
        same_text(section, "storage") && same_text(key, "fsync")
    }
}

pub open spec fn settings_result(
    result: Result<Settings, Fault>,
    expected: Result<Seq<(Seq<char>, Seq<char>)>, FaultView>,
) -> bool {
    match result {
        Ok(settings) => settings.wf() && expected == Ok::<Seq<(Seq<char>, Seq<char>)>, FaultView>(
            settings@,
        ),
        Err(error) => expected == Err::<Seq<(Seq<char>, Seq<char>)>, FaultView>(error@),
    }
}

/// Reads the settings of a file.
pub fn read_settings(text: &str) -> (result: Result<Settings, Fault>)
    ensures
        settings_result(result, settings_of(text@)),
{
    let rows = split_lines(text);
    let ghost all = texts(rows@);
    let mut settings = Settings { names: Vec::new(), values: Vec::new() };
    let mut section = String::new();
    let mut i: usize = 0;
    assert(settings@ =~= seq![]);
    assert(section@ =~= seq![]);
    while i < rows.len()
        invariant
            i <= rows@.len(),
            all == texts(rows@),
            all == lines(text@),
            settings.wf(),
            settings_of(text@) == settings_from(all, i as int, section@, settings@),
        decreases rows@.len() - i,
    {
        assert(all[i as int] == rows@[i as int]@);
        let line = trim(until(rows[i].as_str(), '#'));
        let size: usize = line.unicode_len();
        if size == 0 {
            i += 1;
            continue;
        }
        if line.get_char(0) == '[' && line.get_char(size - 1) == ']' {
            assert(size >= 2) by {
                if size == 1 {
                    assert(line@[0] == '[' && line@[0] == ']');
                }
            }
            let name = line.substring_char(1, size - 1);
            if !same_text(name, "node") && !same_text(name, "storage") {
                let mut reason = "unknown config section ".to_owned();
                reason.append(name);
                return Err(line_fault(reason, i));
            }
            section = name.to_owned();
            i += 1;
            continue;
        }
        let (left, right) = match split_once(line, '=') {
            Some(halves) => halves,
            None => return Err(line_fault("invalid config assignment".to_owned(), i)),
        };
        let key = trim(left);
        let value = strip(trim(right), '"');
        if !is_allowed(section.as_str(), key) {
            let mut reason = "unknown safety-critical config key ".to_owned();
            reason.append(key);
            return Err(line_fault(reason, i));
        }
        let mut name = section.clone();
        name.append(".");
        name.append(key);
        if find_setting(&settings, name.as_str()).is_some() {
            let mut reason = "duplicate config key ".to_owned();
            reason.append(key);
            return Err(line_fault(reason, i));
        }
        let ghost before = settings@;
        let ghost added = (name@, value@);
        settings.names.push(name);
        settings.values.push(value.to_owned());
        assert(settings@ =~= before.push(added));
        i += 1;
    }
    Ok(settings)
}

fn require(settings: &Settings, key: &str) -> (result: Result<String, Fault>)
    requires
        settings.wf(),
    ensures
        match result {
            Ok(value) => required(settings@, key) == Ok::<Seq<char>, FaultView>(value@),
            Err(error) => required(settings@, key) == Err::<Seq<char>, FaultView>(error@),
        },
{
    let mut name = "node.".to_owned();
    name.append(key);
    match find_setting(settings, name.as_str()) {
        Some(value) => Ok(value),
        None => {
            let mut message = "missing required node.".to_owned();
            message.append(key);
            Err(fault_of(FaultKind::InvalidInput, message))
        },
    }
}

fn read_node_id(settings: &Settings) -> (result: Result<u64, Fault>)
    requires
        settings.wf(),
    ensures
        match result {
            Ok(id) => node_id_of(settings@) == Ok::<u64, FaultView>(id),
            Err(error) => node_id_of(settings@) == Err::<u64, FaultView>(error@),
        },
{
    let value = match require(settings, "id") {
        Ok(value) => value,
        Err(error) => return Err(error),
    };
    match read_number(value.as_str()) {
        None => Err(fault(FaultKind::InvalidInput, "node.id must be a nonzero u64")),
        Some(id) => if id == 0 {
            Err(fault(FaultKind::InvalidInput, "node.id must be nonzero"))
        } else {
            Ok(id)
        },
    }
}

fn read_dir(settings: &Settings) -> (result: Result<String, Fault>)
    requires
        settings.wf(),
    ensures
        match result {
            Ok(path) => configured_dir(settings@) == Ok::<Seq<char>, FaultView>(path@),
            Err(error) => configured_dir(settings@) == Err::<Seq<char>, FaultView>(error@),
        },
{
    let path = match require(settings, "data_dir") {
        Ok(value) => value,
        Err(error) => return Err(error),
    };
    let parts = split(path.as_str(), '/');
    if path.as_str().unicode_len() == 0 || holds_text(parts.as_slice(), "..") {
        return Err(
            fault(
                FaultKind::InvalidInput,
                "node.data_dir must not contain a parent traversal",
            ),
        );
    }
    Ok(path)
}

fn unresolvable_fault(name: &str) -> (fault: Fault)
    ensures
        fault@ == unresolvable(name),
{
    let mut message = "node.".to_owned();
    message.append(name);
    message.append(" is not a resolvable socket address");
    fault_of(FaultKind::InvalidInput, message)
}

fn read_listeners(settings: &Settings, known: &[String]) -> (result: Result<
    (String, String, String),
    Fault,
>)
    requires
        settings.wf(),
    ensures
        match result {
            Ok(found) => listeners_of(settings@, texts(known@)) == Ok::<
                (Seq<char>, Seq<char>, Seq<char>),
                FaultView,
            >((found.0@, found.1@, found.2@)),
            Err(error) => listeners_of(settings@, texts(known@)) == Err::<
                (Seq<char>, Seq<char>, Seq<char>),
                FaultView,
            >(error@),
        },
{
    let client = match require(settings, "listen_client") {
        Ok(value) => value,
        Err(error) => return Err(error),
    };
    let peer = match require(settings, "listen_peer") {
        Ok(value) => value,
        Err(error) => return Err(error),
    };
    let metrics = match require(settings, "listen_metrics") {
        Ok(value) => value,
        Err(error) => return Err(error),
    };
    if client.as_str().unicode_len() == 0 || !holds_text(known, client.as_str()) {
        return Err(unresolvable_fault("listen_client"));
    }
    if peer.as_str().unicode_len() == 0 || !holds_text(known, peer.as_str()) {
        return Err(unresolvable_fault("listen_peer"));
    }
    if metrics.as_str().unicode_len() == 0 || !holds_text(known, metrics.as_str()) {
        return Err(unresolvable_fault("listen_metrics"));
    }
    Ok((client, peer, metrics))
}

/// The entries of a list.
pub fn list_entries(value: &str) -> (entries: Vec<String>)
    ensures
        texts(entries@) == entries_of(pieces(value@, ',')),
{
    let parts = split(value, ',');
    let ghost all = texts(parts@);
    let mut entries: Vec<String> = Vec::new();
    let mut i: usize = 0;
    assert(texts(entries@) =~= entries_of(all.take(0)));
    while i < parts.len()
        invariant
            i <= parts@.len(),
            all == texts(parts@),
            all == pieces(value@, ','),
            texts(entries@) == entries_of(all.take(i as int)),
        decreases parts@.len() - i,
    {
        let ghost before = texts(entries@);
        let ghost next = all.take(i + 1);
        assert(all[i as int] == parts@[i as int]@);
        assert(next.drop_last() =~= all.take(i as int));
        assert(next.last() == all[i as int]);
        let entry = trim(parts[i].as_str());
        if entry.unicode_len() != 0 {
            entries.push(entry.to_owned());
            assert(texts(entries@) =~= before.push(entry@));
        }
        i += 1;
    }
    assert(all.take(i as int) =~= all);
    entries
}

fn read_peer(entries: &Vec<String>, index: usize, id: u64, known: &[String]) -> (result: Result<
    Peer,
    Fault,
>)
    requires
        index < entries@.len(),
    ensures
        match result {
            Ok(peer) => peer_of(texts(entries@), index as int, id, texts(known@)) == Ok::<
                PeerView,
                FaultView,
            >(peer@),
            Err(error) => peer_of(texts(entries@), index as int, id, texts(known@)) == Err::<
                PeerView,
                FaultView,
            >(error@),
        },
{
    assert(texts(entries@)[index as int] == entries@[index as int]@);
    let entry = entries[index].as_str();
    let (number, address): (u64, &str) = match split_once(entry, '@') {
        Some((raw, address)) => match read_number(raw) {
            Some(number) => (number, address),
            None => return Err(
                fault(FaultKind::InvalidInput, "node.peer_nodes member id must be a nonzero u64"),
            ),
        },
        None => (
            if entries.len() == 1 {
                id
            } else {
                (index + 1) as u64
            },
            entry,
        ),
    };
    if number == 0 || !holds_text(known, address) {
        return Err(
            fault(
                FaultKind::InvalidInput,
                "node.peer_nodes entries must use nonzero-id@resolvable-address",
            ),
        );
    }
    Ok(Peer { id: number, address: address.to_owned() })
}

fn peers_differ(peers: &Vec<Peer>) -> (r: bool)
    ensures
        r == distinct_peers(peer_views(peers@)),
{
    let ghost all = peer_views(peers@);
    let mut i: usize = 0;
    while i < peers.len()
        invariant
            i <= peers@.len(),
            all == peer_views(peers@),
            forall|a: int, b: int|
                0 <= a < i && a < b < peers@.len() ==> (#[trigger] all[a]).id != (
                #[trigger] all[b]).id && all[a].address != all[b].address,
        decreases peers@.len() - i,
    {
        let mut j: usize = i + 1;
        while j < peers.len()
            invariant
                i < j <= peers@.len(),
                all == peer_views(peers@),
                forall|b: int|
                    i < b < j ==> all[i as int].id != (#[trigger] all[b]).id
                        && all[i as int].address != all[b].address,
            decreases peers@.len() - j,
        {
            assert(all[i as int] == peers@[i as int]@);
            assert(all[j as int] == peers@[j as int]@);
            if peers[i].id == peers[j].id || same_text(
                peers[i].address.as_str(),
                peers[j].address.as_str(),
            ) {
                assert(!distinct_peers(all));
                return false;
            }
            j += 1;
        }
        i += 1;
    }
    true
}

fn read_members(settings: &Settings, id: u64, known: &[String]) -> (result: Result<
    Vec<Peer>,
    Fault,
>)
    requires
        settings.wf(),
    ensures
        match result {
            Ok(peers) => members_of(settings@, id, texts(known@)) == Ok::<
                Seq<PeerView>,
                FaultView,
            >(peer_views(peers@)),
            Err(error) => members_of(settings@, id, texts(known@)) == Err::<
                Seq<PeerView>,
                FaultView,
            >(error@),
        },
{
    let value = match require(settings, "peer_nodes") {
        Ok(value) => value,
        Err(error) => return Err(error),
    };
    let entries = list_entries(value.as_str());
    if entries.len() == 0 {
        return Err(fault(FaultKind::InvalidInput, "node.peer_nodes must be nonempty"));
    }
    let ghost all = texts(entries@);
    let ghost resolved = texts(known@);
    let mut peers: Vec<Peer> = Vec::new();
    let mut i: usize = 0;
    assert(peer_views(peers@) =~= seq![]);
    while i < entries.len()
        invariant
            i <= entries@.len(),
            all == texts(entries@),
            resolved == texts(known@),
            entries@.len() > 0,
            required(settings@, "peer_nodes") == Ok::<Seq<char>, FaultView>(value@),
            all == entries_of(pieces(value@, ',')),
            peers_of(all, i as int, id, resolved) == Ok::<Seq<PeerView>, FaultView>(
                peer_views(peers@),
            ),
        decreases entries@.len() - i,
    {
        let ghost before = peer_views(peers@);
        match read_peer(&entries, i, id, known) {
            Ok(peer) => {
                let ghost shown = peer@;
                peers.push(peer);
                assert(peer_views(peers@) =~= before.push(shown));
            },
            Err(error) => {
                proof {
                    lemma_peers_fail(all, i + 1, all.len() as int, id, resolved);
                }
                return Err(error);
            },
        }
        i += 1;
    }
    if !peers_differ(&peers) {
        return Err(
            fault(
                FaultKind::InvalidInput,
                "node.peer_nodes member ids and addresses must be unique",
            ),
        );
    }
    Ok(peers)
}

/// A fault among the first entries is the fault of all of them.
proof fn lemma_peers_fail(entries: Seq<Seq<char>>, m: int, n: int, id: u64, known: Seq<Seq<char>>)
    requires
        0 <= m <= n,
        peers_of(entries, m, id, known) is Err,
    ensures
        peers_of(entries, n, id, known) == peers_of(entries, m, id, known),
    decreases n - m,
{
    if m < n {
        lemma_peers_fail(entries, m, n - 1, id, known);
    }
}

/// Reads a configuration file. `known` are the addresses that resolve.
pub fn parse_config(text: &str, known: &[String]) -> (result: Result<Config, Fault>)
    ensures
        match result {
            Ok(config) => config_of(text@, texts(known@)) == Ok::<ConfigView, FaultView>(config@),
            Err(error) => config_of(text@, texts(known@)) == Err::<ConfigView, FaultView>(error@),
        },
{
    let settings = match read_settings(text) {
        Ok(settings) => settings,
        Err(error) => return Err(error),
    };
    let id: u64 = match read_node_id(&settings) {
        Ok(id) => id,
        Err(error) => return Err(error),
    };
    let cluster_id = match require(&settings, "cluster_id") {
        Ok(value) => match ClusterId::from_hex(value.as_str()) {
            Ok(cluster_id) => cluster_id,
            Err(error) => return Err(error),
        },
        Err(error) => return Err(error),
    };
    let data_dir = match read_dir(&settings) {
        Ok(path) => path,
        Err(error) => return Err(error),
    };
    let (listen_client, listen_peer, listen_metrics) = match read_listeners(&settings, known) {
        Ok(found) => found,
        Err(error) => return Err(error),
    };
    let peers = match read_members(&settings, id, known) {
        Ok(peers) => peers,
        Err(error) => return Err(error),
    };
    Ok(Config { id, cluster_id, data_dir, listen_client, listen_peer, listen_metrics, peers })
}

/// A setting of the node, where it is there.
pub open spec fn present(pairs: Seq<(Seq<char>, Seq<char>)>, key: &str) -> Seq<Seq<char>> {
    match required(pairs, key) {
        Ok(value) => seq![value],
        Err(_) => seq![],
    }
}

/// The addresses that a member list names.
pub open spec fn listed_addresses(pairs: Seq<(Seq<char>, Seq<char>)>) -> Seq<Seq<char>> {
    match required(pairs, "peer_nodes") {
        Ok(value) => entries_of(pieces(value, ',')).map_values(
            |entry: Seq<char>| entry_address(entry),
        ),
        Err(_) => seq![],
    }
}

/// The addresses of a configuration file that have to resolve.
pub open spec fn asked(text: Seq<char>) -> Seq<Seq<char>> {
    match settings_of(text) {
        Ok(pairs) => present(pairs, "listen_client") + present(pairs, "listen_peer") + present(
            pairs,
            "listen_metrics",
        ) + listed_addresses(pairs),
        Err(_) => seq![],
    }
}

/// The addresses of a configuration file that have to resolve.
pub fn config_addresses(text: &str) -> (addresses: Vec<String>)
    ensures
        texts(addresses@) == asked(text@),
{
    let mut addresses: Vec<String> = Vec::new();
    let settings = match read_settings(text) {
        Ok(settings) => settings,
        Err(_) => {
            assert(texts(addresses@) =~= seq![]);
            return addresses;
        },
    };
    if let Ok(value) = require(&settings, "listen_client") {
        addresses.push(value);
    }
    assert(texts(addresses@) =~= present(settings@, "listen_client"));
    if let Ok(value) = require(&settings, "listen_peer") {
        addresses.push(value);
    }
    assert(texts(addresses@) =~= present(settings@, "listen_client") + present(
        settings@,
        "listen_peer",
    ));
    if let Ok(value) = require(&settings, "listen_metrics") {
        addresses.push(value);
    }
    let ghost listeners = present(settings@, "listen_client") + present(settings@, "listen_peer")
        + present(settings@, "listen_metrics");
    assert(texts(addresses@) =~= listeners);
    if let Ok(value) = require(&settings, "peer_nodes") {
        let entries = list_entries(value.as_str());
        let ghost all = texts(entries@);
        let mut i: usize = 0;
        assert(all.take(0).map_values(|entry: Seq<char>| entry_address(entry)) =~= seq![]);
        while i < entries.len()
            invariant
                i <= entries@.len(),
                all == texts(entries@),
                texts(addresses@) == listeners + all.take(i as int).map_values(
                    |entry: Seq<char>| entry_address(entry),
                ),
            decreases entries@.len() - i,
        {
            let ghost before = texts(addresses@);
            assert(all[i as int] == entries@[i as int]@);
            let entry = entries[i].as_str();
            let address = match split_once(entry, '@') {
                Some((_, address)) => address,
                None => entry,
            };
            addresses.push(address.to_owned());
            assert(texts(addresses@) =~= before.push(address@));
            assert(texts(addresses@) =~= listeners + all.take(i + 1).map_values(
                |entry: Seq<char>| entry_address(entry),
            ));
            i += 1;
        }
        assert(all.take(i as int) =~= all);
    }
    assert(texts(addresses@) =~= asked(text@));
    addresses
}

proof fn lemma_peers_agree(
    entries: Seq<Seq<char>>,
    n: int,
    id: u64,
    known: Seq<Seq<char>>,
    other: Seq<Seq<char>>,
)
    requires
        0 <= n <= entries.len(),
        forall|i: int|
            0 <= i < entries.len() ==> known.contains(#[trigger] entry_address(entries[i]))
                == other.contains(entry_address(entries[i])),
    ensures
        peers_of(entries, n, id, known) == peers_of(entries, n, id, other),
    decreases n,
{
    if n > 0 {
        lemma_peers_agree(entries, n - 1, id, known, other);
        assert(known.contains(entry_address(entries[n - 1])) == other.contains(
            entry_address(entries[n - 1]),
        ));
    }
}

/// Only the addresses that a file asks about decide what it says: two
/// resolvers that agree on those read the same configuration.
pub proof fn law_only_asked_addresses_matter(
    text: Seq<char>,
    known: Seq<Seq<char>>,
    other: Seq<Seq<char>>,
)
    requires
        forall|address: Seq<char>| #[trigger]
            asked(text).contains(address) ==> known.contains(address) == other.contains(address),
    ensures
        config_of(text, known) == config_of(text, other),
{
    if let Ok(pairs) = settings_of(text) {
        let a = present(pairs, "listen_client");
        let b = present(pairs, "listen_peer");
        let c = present(pairs, "listen_metrics");
        let d = listed_addresses(pairs);
        let all = asked(text);
        assert(all == a + b + c + d);
        if let Ok(value) = required(pairs, "listen_client") {
            assert(all[0] == value);
            assert(all.contains(value));
        }
        if let Ok(value) = required(pairs, "listen_peer") {
            assert(all[a.len() as int] == value);
            assert(all.contains(value));
        }
        if let Ok(value) = required(pairs, "listen_metrics") {
            assert(all[(a.len() + b.len()) as int] == value);
            assert(all.contains(value));
        }
        if let Ok(value) = required(pairs, "peer_nodes") {
            let entries = entries_of(pieces(value, ','));
            assert forall|i: int| 0 <= i < entries.len() implies known.contains(
                #[trigger] entry_address(entries[i]),
            ) == other.contains(entry_address(entries[i])) by {
                assert(d[i] == entry_address(entries[i]));
                assert(all[a.len() + b.len() + c.len() + i] == entry_address(entries[i]));
                assert(all.contains(entry_address(entries[i])));
            }
            if let Ok(id) = node_id_of(pairs) {
                lemma_peers_agree(entries, entries.len() as int, id, known, other);
            }
        }
    }
}

/// A configuration that is read has members with distinct numbers and
/// addresses, and no zero among the numbers.
pub proof fn law_members_are_distinct(text: Seq<char>, known: Seq<Seq<char>>)
    ensures
        config_of(text, known) matches Ok(config) ==> {
            &&& config.id != 0
            &&& config.peers.len() > 0
            &&& distinct_peers(config.peers)
            &&& forall|i: int| 0 <= i < config.peers.len() ==> (#[trigger] config.peers[i]).id != 0
        },
{
    if let Ok(config) = config_of(text, known) {
        let pairs = settings_of(text)->Ok_0;
        let entries = entries_of(pieces(required(pairs, "peer_nodes")->Ok_0, ','));
        lemma_peers_numbered(entries, entries.len() as int, config.id, known);
    }
}

proof fn lemma_peers_numbered(entries: Seq<Seq<char>>, n: int, id: u64, known: Seq<Seq<char>>)
    requires
        0 <= n <= entries.len(),
    ensures
        peers_of(entries, n, id, known) matches Ok(peers) ==> peers.len() == n && forall|i: int|
            0 <= i < n ==> (#[trigger] peers[i]).id != 0,
    decreases n,
{
    if n > 0 {
        lemma_peers_numbered(entries, n - 1, id, known);
    }
}

} // verus!
