//! What a host shows of itself: its metrics, its information and the state of
//! its membership.
use vstd::prelude::*;
use vstd::string::*;
use vstd::utf8::{decode_utf8, encode_utf8, valid_utf8};

use crate::ids::{LogIndex, NodeId};
use crate::metrics::{Counters, HostMetrics, MetricsView, PeerMetric};
use crate::node_map::NodeMap;
use crate::node_set::{ascending, NodeSet};
use crate::prose::{append_number, number_text};
use crate::text::utf8_text;
use crate::words::{behind, lines, split_lines, strip_prefix, texts};

verus! {

/// How a metric is announced.
pub open spec fn announced(name: &str, kind: &str) -> Seq<char> {
    "# TYPE "@ + name@ + " "@ + kind@ + "\n"@
}

/// A metric with its value.
pub open spec fn metric(name: &str, kind: &str, value: nat) -> Seq<char> {
    announced(name, kind) + name@ + " "@ + number_text(value) + "\n"@
}

/// A value of a metric under a label.
pub open spec fn labelled(name: &str, label: &str, under: Seq<char>, value: Seq<char>) -> Seq<char> {
    name@ + "{"@ + label@ + "=\""@ + under + "\"} "@ + value + "\n"@
}

fn append_announced(text: &mut String, name: &str, kind: &str)
    ensures
        final(text)@ == old(text)@ + announced(name, kind),
{
    let ghost before = text@;
    text.append("# TYPE ");
    text.append(name);
    text.append(" ");
    text.append(kind);
    text.append("\n");
    assert(text@ =~= before + announced(name, kind));
}

fn append_metric(text: &mut String, name: &str, kind: &str, value: u64)
    ensures
        final(text)@ == old(text)@ + metric(name, kind, value as nat),
{
    let ghost before = text@;
    append_announced(text, name, kind);
    text.append(name);
    text.append(" ");
    append_number(text, value);
    text.append("\n");
    assert(text@ =~= before + metric(name, kind, value as nat));
}

fn append_labelled(text: &mut String, name: &str, label: &str, under: &str, value: u64)
    ensures
        final(text)@ == old(text)@ + labelled(name, label, under@, number_text(value as nat)),
{
    let ghost before = text@;
    text.append(name);
    text.append("{");
    text.append(label);
    text.append("=\"");
    text.append(under);
    text.append("\"} ");
    append_number(text, value);
    text.append("\n");
    assert(text@ =~= before + labelled(name, label, under@, number_text(value as nat)));
}

/// One for yes and zero for no.
pub open spec fn bit(flag: bool) -> nat {
    if flag {
        1
    } else {
        0
    }
}

/// The counters of a host as text.
#[verifier::opaque]
pub open spec fn counters_text(c: Counters, uptime_seconds: u64) -> Seq<char> {
    Seq::empty() + metric("ccdb_commands_total", "counter", c.commands as nat) + metric(
        "ccdb_reads_total",
        "counter",
        c.reads as nat,
    ) + metric("ccdb_writes_total", "counter", c.writes as nat) + metric(
        "ccdb_fsyncs_total",
        "counter",
        c.fsync_writes as nat,
    ) + metric("ccdb_peer_frames_total", "counter", c.peer_frames as nat) + metric(
        "ccdb_block_reads_total",
        "counter",
        c.block_reads as nat,
    ) + metric("ccdb_block_bytes_read_total", "counter", c.block_bytes_read as nat) + metric(
        "ccdb_file_reads_total",
        "counter",
        c.file_reads as nat,
    ) + metric("ccdb_file_bytes_read_total", "counter", c.file_bytes_read as nat) + metric(
        "ccdb_file_writes_total",
        "counter",
        c.file_writes as nat,
    ) + metric("ccdb_file_bytes_written_total", "counter", c.file_bytes_written as nat) + metric(
        "ccdb_file_renames_total",
        "counter",
        c.renames as nat,
    ) + metric("ccdb_directory_syncs_total", "counter", c.directory_syncs as nat) + metric(
        "ccdb_queue_rejections_total",
        "counter",
        c.queue_rejections as nat,
    ) + metric("ccdb_snapshots_created_total", "counter", c.snapshots_created as nat) + metric(
        "ccdb_snapshots_sent_total",
        "counter",
        c.snapshots_sent as nat,
    ) + metric("ccdb_snapshots_received_total", "counter", c.snapshots_received as nat) + metric(
        "ccdb_snapshots_aborted_total",
        "counter",
        c.snapshots_aborted as nat,
    ) + metric("ccdb_storage_fault", "gauge", bit(c.storage_fault)) + metric(
        "ccdb_uptime_seconds",
        "gauge",
        uptime_seconds as nat,
    )
}

impl HostMetrics {
    /// Renders the counters of a host.
    pub fn render(&self, uptime_seconds: u64) -> (text: String)
        ensures
            text@ == counters_text(self@.counters, uptime_seconds),
    {
        reveal(counters_text);
        let c = &self.counters;
        let mut text = String::new();
        append_metric(&mut text, "ccdb_commands_total", "counter", c.commands);
        append_metric(&mut text, "ccdb_reads_total", "counter", c.reads);
        append_metric(&mut text, "ccdb_writes_total", "counter", c.writes);
        append_metric(&mut text, "ccdb_fsyncs_total", "counter", c.fsync_writes);
        append_metric(&mut text, "ccdb_peer_frames_total", "counter", c.peer_frames);
        append_metric(&mut text, "ccdb_block_reads_total", "counter", c.block_reads);
        append_metric(&mut text, "ccdb_block_bytes_read_total", "counter", c.block_bytes_read);
        append_metric(&mut text, "ccdb_file_reads_total", "counter", c.file_reads);
        append_metric(&mut text, "ccdb_file_bytes_read_total", "counter", c.file_bytes_read);
        append_metric(&mut text, "ccdb_file_writes_total", "counter", c.file_writes);
        append_metric(&mut text, "ccdb_file_bytes_written_total", "counter", c.file_bytes_written);
        append_metric(&mut text, "ccdb_file_renames_total", "counter", c.renames);
        append_metric(&mut text, "ccdb_directory_syncs_total", "counter", c.directory_syncs);
        append_metric(&mut text, "ccdb_queue_rejections_total", "counter", c.queue_rejections);
        append_metric(&mut text, "ccdb_snapshots_created_total", "counter", c.snapshots_created);
        append_metric(&mut text, "ccdb_snapshots_sent_total", "counter", c.snapshots_sent);
        append_metric(&mut text, "ccdb_snapshots_received_total", "counter", c.snapshots_received);
        append_metric(&mut text, "ccdb_snapshots_aborted_total", "counter", c.snapshots_aborted);
        append_metric(
            &mut text,
            "ccdb_storage_fault",
            "gauge",
            if c.storage_fault {
                1
            } else {
                0
            },
        );
        append_metric(&mut text, "ccdb_uptime_seconds", "gauge", uptime_seconds);
        text
    }
}

/// How much of a resource is used.
#[derive(Clone, Copy, Debug, PartialEq, Eq, Structural)]
pub struct Usage {
    pub current: u64,
    pub peak: u64,
    pub limit: u64,
}

/// One value of a resource's use.
pub open spec fn usage_line(resource: &str, kind: &str, value: u64) -> Seq<char> {
    "ccdb_footprint_bytes{resource=\""@ + resource@ + "\",kind=\""@ + kind@ + "\"} "@ + number_text(
        value as nat,
    ) + "\n"@
}

/// How much of a resource is used, as text.
pub open spec fn usage_text(resource: &str, usage: Usage) -> Seq<char> {
    usage_line(resource, "current", usage.current) + usage_line(resource, "peak", usage.peak)
        + usage_line(resource, "limit", usage.limit)
}

fn append_usage_line(text: &mut String, resource: &str, kind: &str, value: u64)
    ensures
        final(text)@ == old(text)@ + usage_line(resource, kind, value),
{
    let ghost before = text@;
    text.append("ccdb_footprint_bytes{resource=\"");
    text.append(resource);
    text.append("\",kind=\"");
    text.append(kind);
    text.append("\"} ");
    append_number(text, value);
    text.append("\n");
    assert(text@ =~= before + usage_line(resource, kind, value));
}

/// Appends how much of a resource is used.
pub fn append_usage_metrics(output: &mut String, resource: &str, usage: Usage)
    ensures
        final(output)@ == old(output)@ + usage_text(resource, usage),
{
    let ghost before = output@;
    append_usage_line(output, resource, "current", usage.current);
    append_usage_line(output, resource, "peak", usage.peak);
    append_usage_line(output, resource, "limit", usage.limit);
    assert(output@ =~= before + usage_text(resource, usage));
}

/// What the engine holds in memory and in its queues.
#[derive(Clone, Copy, Debug, PartialEq, Eq, Structural)]
pub struct Footprint {
    pub log: Usage,
    pub snapshot_staging: Usage,
    pub sessions: Usage,
    pub session_tombstones: Usage,
    pub pending_reads: Usage,
    pub pending_client_routes: Usage,
    pub memtables: Usage,
    pub sst_metadata: Usage,
    pub driver_effects: Usage,
    pub outbound_frames: Usage,
    pub checkpoint_builder: Usage,
    pub compaction_builder: Usage,
    pub driver_inputs: Usage,
    pub armed_timers: u64,
    pub pending_io: u64,
    pub pending_peer_inputs: u64,
    pub pending_timer_inputs: u64,
    pub pending_io_inputs: u64,
    pub pending_client_inputs: u64,
    pub pending_input_bytes: u64,
    pub blocked: bool,
}

/// What the engine holds, as text.
#[verifier::opaque]
pub open spec fn footprint_text(f: Footprint) -> Seq<char> {
    announced("ccdb_footprint_bytes", "gauge") + usage_text("log", f.log) + usage_text(
        "snapshot_staging",
        f.snapshot_staging,
    ) + usage_text("sessions", f.sessions) + usage_text("session_tombstones", f.session_tombstones)
        + usage_text("pending_reads", f.pending_reads) + usage_text(
        "pending_client_routes",
        f.pending_client_routes,
    ) + usage_text("memtables", f.memtables) + usage_text("sst_metadata", f.sst_metadata)
        + usage_text("driver_effects", f.driver_effects) + usage_text(
        "outbound_frames",
        f.outbound_frames,
    ) + usage_text("checkpoint_builder", f.checkpoint_builder) + usage_text(
        "compaction_builder",
        f.compaction_builder,
    ) + usage_text("driver_inputs", f.driver_inputs)
}

/// What waits in the engine, as text.
#[verifier::opaque]
pub open spec fn queues_text(f: Footprint) -> Seq<char> {
    announced("ccdb_footprint_items", "gauge") + item("armed_timers", f.armed_timers) + item(
        "pending_io",
        f.pending_io,
    ) + item("pending_peer_inputs", f.pending_peer_inputs) + item(
        "pending_timer_inputs",
        f.pending_timer_inputs,
    ) + item("pending_io_inputs", f.pending_io_inputs) + item(
        "pending_client_inputs",
        f.pending_client_inputs,
    ) + item("pending_input_bytes", f.pending_input_bytes) + metric(
        "ccdb_driver_blocked",
        "gauge",
        bit(f.blocked),
    )
}

/// How many of something wait.
pub open spec fn item(resource: &str, count: u64) -> Seq<char> {
    labelled("ccdb_footprint_items", "resource", resource@, number_text(count as nat))
}

fn append_item(text: &mut String, resource: &str, count: u64)
    ensures
        final(text)@ == old(text)@ + item(resource, count),
{
    append_labelled(text, "ccdb_footprint_items", "resource", resource, count);
}

fn render_footprint(f: &Footprint) -> (text: String)
    ensures
        text@ == footprint_text(*f),
{
    reveal(footprint_text);
    let mut text = String::new();
    append_announced(&mut text, "ccdb_footprint_bytes", "gauge");
    assert(text@ =~= announced("ccdb_footprint_bytes", "gauge"));
    append_usage_metrics(&mut text, "log", f.log);
    append_usage_metrics(&mut text, "snapshot_staging", f.snapshot_staging);
    append_usage_metrics(&mut text, "sessions", f.sessions);
    append_usage_metrics(&mut text, "session_tombstones", f.session_tombstones);
    append_usage_metrics(&mut text, "pending_reads", f.pending_reads);
    append_usage_metrics(&mut text, "pending_client_routes", f.pending_client_routes);
    append_usage_metrics(&mut text, "memtables", f.memtables);
    append_usage_metrics(&mut text, "sst_metadata", f.sst_metadata);
    append_usage_metrics(&mut text, "driver_effects", f.driver_effects);
    append_usage_metrics(&mut text, "outbound_frames", f.outbound_frames);
    append_usage_metrics(&mut text, "checkpoint_builder", f.checkpoint_builder);
    append_usage_metrics(&mut text, "compaction_builder", f.compaction_builder);
    append_usage_metrics(&mut text, "driver_inputs", f.driver_inputs);
    text
}

fn render_queues(f: &Footprint) -> (text: String)
    ensures
        text@ == queues_text(*f),
{
    reveal(queues_text);
    let mut text = String::new();
    append_announced(&mut text, "ccdb_footprint_items", "gauge");
    assert(text@ =~= announced("ccdb_footprint_items", "gauge"));
    append_item(&mut text, "armed_timers", f.armed_timers);
    append_item(&mut text, "pending_io", f.pending_io);
    append_item(&mut text, "pending_peer_inputs", f.pending_peer_inputs);
    append_item(&mut text, "pending_timer_inputs", f.pending_timer_inputs);
    append_item(&mut text, "pending_io_inputs", f.pending_io_inputs);
    append_item(&mut text, "pending_client_inputs", f.pending_client_inputs);
    append_item(&mut text, "pending_input_bytes", f.pending_input_bytes);
    append_metric(
        &mut text,
        "ccdb_driver_blocked",
        "gauge",
        if f.blocked {
            1
        } else {
            0
        },
    );
    text
}

/// What the store counts.
#[derive(Clone, Copy, Debug, PartialEq, Eq, Structural)]
pub struct StoreStats {
    pub bloom_positives: u64,
    pub bloom_negatives: u64,
    pub manifest_rewrites: u64,
    pub compaction_jobs_started: u64,
    pub compaction_jobs_completed: u64,
    pub compaction_jobs_aborted: u64,
    pub expiry_proposals: u64,
    pub expiry_keys: u64,
}

/// What the store counts, as text.
#[verifier::opaque]
pub open spec fn store_text(s: StoreStats) -> Seq<char> {
    Seq::empty() + metric(
        "ccdb_store_bloom_positives_total",
        "counter",
        s.bloom_positives as nat,
    ) + metric("ccdb_store_bloom_negatives_total", "counter", s.bloom_negatives as nat) + metric(
        "ccdb_store_manifest_rewrites_total",
        "counter",
        s.manifest_rewrites as nat,
    ) + metric(
        "ccdb_store_compactions_started_total",
        "counter",
        s.compaction_jobs_started as nat,
    ) + metric(
        "ccdb_store_compactions_completed_total",
        "counter",
        s.compaction_jobs_completed as nat,
    ) + metric(
        "ccdb_store_compactions_aborted_total",
        "counter",
        s.compaction_jobs_aborted as nat,
    ) + metric("ccdb_expiry_proposals_total", "counter", s.expiry_proposals as nat) + metric(
        "ccdb_expiry_keys_total",
        "counter",
        s.expiry_keys as nat,
    )
}

fn render_store(s: &StoreStats) -> (text: String)
    ensures
        text@ == store_text(*s),
{
    reveal(store_text);
    let mut text = String::new();
    append_metric(&mut text, "ccdb_store_bloom_positives_total", "counter", s.bloom_positives);
    append_metric(&mut text, "ccdb_store_bloom_negatives_total", "counter", s.bloom_negatives);
    append_metric(&mut text, "ccdb_store_manifest_rewrites_total", "counter", s.manifest_rewrites);
    append_metric(
        &mut text,
        "ccdb_store_compactions_started_total",
        "counter",
        s.compaction_jobs_started,
    );
    append_metric(
        &mut text,
        "ccdb_store_compactions_completed_total",
        "counter",
        s.compaction_jobs_completed,
    );
    append_metric(
        &mut text,
        "ccdb_store_compactions_aborted_total",
        "counter",
        s.compaction_jobs_aborted,
    );
    append_metric(&mut text, "ccdb_expiry_proposals_total", "counter", s.expiry_proposals);
    append_metric(&mut text, "ccdb_expiry_keys_total", "counter", s.expiry_keys);
    text
}

/// The files of one level of the store.
#[derive(Clone, Copy, Debug, PartialEq, Eq, Structural)]
pub struct LevelStat {
    pub level: u64,
    pub files: u64,
    pub bytes: u64,
}

/// The files of the first `n` levels, as text.
pub open spec fn levels_text(levels: Seq<LevelStat>, n: int) -> Seq<char>
    decreases n,
{
    if n <= 0 {
        announced("ccdb_store_files", "gauge") + announced("ccdb_store_file_bytes", "gauge")
    } else {
        let level = levels[n - 1];
        let under = number_text(level.level as nat);
        levels_text(levels, n - 1) + labelled(
            "ccdb_store_files",
            "level",
            under,
            number_text(level.files as nat),
        ) + labelled("ccdb_store_file_bytes", "level", under, number_text(level.bytes as nat))
    }
}

fn number_string(value: u64) -> (text: String)
    ensures
        text@ == number_text(value as nat),
{
    let mut text = String::new();
    append_number(&mut text, value);
    assert(text@ =~= number_text(value as nat));
    text
}

fn render_levels(levels: &[LevelStat]) -> (text: String)
    ensures
        text@ == levels_text(levels@, levels@.len() as int),
{
    let mut text = String::new();
    append_announced(&mut text, "ccdb_store_files", "gauge");
    append_announced(&mut text, "ccdb_store_file_bytes", "gauge");
    assert(text@ =~= levels_text(levels@, 0));
    let mut i: usize = 0;
    while i < levels.len()
        invariant
            i <= levels@.len(),
            text@ == levels_text(levels@, i as int),
        decreases levels@.len() - i,
    {
        let under = number_string(levels[i].level);
        append_labelled(&mut text, "ccdb_store_files", "level", under.as_str(), levels[i].files);
        append_labelled(
            &mut text,
            "ccdb_store_file_bytes",
            "level",
            under.as_str(),
            levels[i].bytes,
        );
        i += 1;
    }
    text
}

/// What a peer can do.
#[derive(Clone, Copy, Debug, PartialEq, Eq, Structural)]
pub struct Capability {
    pub semantic: u16,
    pub features: u64,
}

/// How a node stands in its cluster.
#[derive(Debug)]
pub struct NodeStatus {
    pub id: u64,
    pub leader: Option<u64>,
    pub commit: u64,
    pub applied: u64,
    pub voters: NodeSet,
    pub learners: NodeSet,
    pub matched: NodeMap<LogIndex>,
    pub capabilities: NodeMap<Capability>,
}

#[verifier::ext_equal]
pub struct StatusView {
    pub id: u64,
    pub leader: Option<u64>,
    pub commit: u64,
    pub applied: u64,
    pub voters: Set<NodeId>,
    pub learners: Set<NodeId>,
    pub matched: Map<NodeId, LogIndex>,
    pub capabilities: Map<NodeId, Capability>,
}

impl View for NodeStatus {
    type V = StatusView;

    open spec fn view(&self) -> StatusView {
        StatusView {
            id: self.id,
            leader: self.leader,
            commit: self.commit,
            applied: self.applied,
            voters: self.voters@,
            learners: self.learners@,
            matched: self.matched@,
            capabilities: self.capabilities@,
        }
    }
}

/// A difference, or zero.
pub open spec fn above(a: u64, b: u64) -> u64 {
    if a >= b {
        (a - b) as u64
    } else {
        0
    }
}

fn difference(a: u64, b: u64) -> (rest: u64)
    ensures
        rest == above(a, b),
{
    if a >= b {
        a - b
    } else {
        0
    }
}

impl StatusView {
    /// How many other members there are, as far as they can be counted.
    pub open spec fn others(self) -> nat {
        let all = self.voters.len() + self.learners.len();
        if all > usize::MAX {
            (usize::MAX - 1) as nat
        } else if all > 0 {
            (all - 1) as nat
        } else {
            0
        }
    }

    /// How far a member's log agrees with this node's.
    pub open spec fn matched_to(self, peer: NodeId) -> u64 {
        if self.matched.dom().contains(peer) {
            self.matched[peer].0
        } else {
            0
        }
    }

    /// What a member can do, as far as it is known.
    pub open spec fn capability(self, peer: NodeId, observed: Map<NodeId, PeerMetric>) -> Capability {
        if self.capabilities.dom().contains(peer) {
            self.capabilities[peer]
        } else if observed.dom().contains(peer) {
            Capability {
                semantic: observed[peer].semantic_version,
                features: observed[peer].features,
            }
        } else {
            Capability { semantic: 0, features: 0 }
        }
    }
}

/// How long ago a peer was heard of, in seconds, or a sign that it never was.
pub open spec fn contact_age(peer: NodeId, observed: Map<NodeId, PeerMetric>, now_millis: u64) -> Seq<
    char,
> {
    if observed.dom().contains(peer) {
        number_text((above(now_millis, observed[peer].last_contact_millis) / 1000) as nat)
    } else {
        "-1"@
    }
}

/// What a host shows of one peer.
pub open spec fn peer_text(
    status: StatusView,
    peer: NodeId,
    observed: Map<NodeId, PeerMetric>,
    now_millis: u64,
) -> Seq<char> {
    let under = number_text(peer.0 as nat);
    let capability = status.capability(peer, observed);
    let matched = status.matched_to(peer);
    labelled(
        "ccdb_peer_semantic_version",
        "node_id",
        under,
        number_text(capability.semantic as nat),
    ) + labelled("ccdb_peer_features", "node_id", under, number_text(capability.features as nat))
        + labelled("ccdb_peer_match_index", "node_id", under, number_text(matched as nat))
        + labelled(
        "ccdb_peer_commit_lag",
        "node_id",
        under,
        number_text(above(status.commit, matched) as nat),
    ) + labelled(
        "ccdb_peer_last_contact_age_seconds",
        "node_id",
        under,
        contact_age(peer, observed, now_millis),
    )
}

/// What a host shows of the first `n` members of a walk but itself.
pub open spec fn peers_shown(
    status: StatusView,
    order: Seq<NodeId>,
    n: int,
    observed: Map<NodeId, PeerMetric>,
    now_millis: u64,
) -> Seq<char>
    decreases n,
{
    if n <= 0 {
        Seq::empty() + announced("ccdb_peer_semantic_version", "gauge") + announced(
            "ccdb_peer_features",
            "gauge",
        ) + announced("ccdb_peer_match_index", "gauge") + announced(
            "ccdb_peer_commit_lag",
            "gauge",
        ) + announced("ccdb_peer_last_contact_age_seconds", "gauge")
    } else {
        let before = peers_shown(status, order, n - 1, observed, now_millis);
        if order[n - 1].0 == status.id {
            before
        } else {
            before + peer_text(status, order[n - 1], observed, now_millis)
        }
    }
}

/// Voters first, then learners, each in ascending order.
pub open spec fn walk(voters: Set<NodeId>, learners: Set<NodeId>) -> Seq<NodeId> {
    ascending(voters) + ascending(learners)
}

fn walk_members(voters: &NodeSet, learners: &NodeSet) -> (order: Vec<NodeId>)
    ensures
        order@ == walk(voters@, learners@),
{
    let mut order = voters.to_vec();
    let rest = learners.to_vec();
    let mut i: usize = 0;
    let ghost first = order@;
    assert(first + rest@.take(0) =~= first);
    while i < rest.len()
        invariant
            i <= rest@.len(),
            order@ == first + rest@.take(i as int),
        decreases rest@.len() - i,
    {
        order.push(rest[i]);
        assert(order@ =~= first + rest@.take(i + 1));
        i += 1;
    }
    assert(rest@.take(i as int) =~= rest@);
    order
}

fn append_age(
    text: &mut String,
    under: &str,
    peer: NodeId,
    observed: &NodeMap<PeerMetric>,
    now_millis: u64,
)
    ensures
        final(text)@ == old(text)@ + labelled(
            "ccdb_peer_last_contact_age_seconds",
            "node_id",
            under@,
            contact_age(peer, observed@, now_millis),
        ),
{
    let ghost before = text@;
    match observed.get(peer) {
        Some(metric) => {
            let age: u64 = difference(now_millis, metric.last_contact_millis) / 1000;
            append_labelled(text, "ccdb_peer_last_contact_age_seconds", "node_id", under, age);
        },
        None => {
            text.append("ccdb_peer_last_contact_age_seconds");
            text.append("{");
            text.append("node_id");
            text.append("=\"");
            text.append(under);
            text.append("\"} ");
            text.append("-1");
            text.append("\n");
            assert(text@ =~= before + labelled(
                "ccdb_peer_last_contact_age_seconds",
                "node_id",
                under@,
                "-1"@,
            ));
        },
    }
}

fn render_peer(
    status: &NodeStatus,
    peer: NodeId,
    observed: &NodeMap<PeerMetric>,
    now_millis: u64,
) -> (text: String)
    ensures
        text@ == peer_text(status@, peer, observed@, now_millis),
{
    let under = number_string(peer.get());
    let capability = match status.capabilities.get(peer) {
        Some(capability) => capability,
        None => match observed.get(peer) {
            Some(metric) => Capability {
                semantic: metric.semantic_version,
                features: metric.features,
            },
            None => Capability { semantic: 0, features: 0 },
        },
    };
    let matched: u64 = match status.matched.get(peer) {
        Some(index) => index.get(),
        None => 0,
    };
    let mut text = String::new();
    append_labelled(
        &mut text,
        "ccdb_peer_semantic_version",
        "node_id",
        under.as_str(),
        capability.semantic as u64,
    );
    assert(text@ =~= labelled(
        "ccdb_peer_semantic_version",
        "node_id",
        under@,
        number_text(capability.semantic as nat),
    ));
    append_labelled(
        &mut text,
        "ccdb_peer_features",
        "node_id",
        under.as_str(),
        capability.features,
    );
    append_labelled(&mut text, "ccdb_peer_match_index", "node_id", under.as_str(), matched);
    append_labelled(
        &mut text,
        "ccdb_peer_commit_lag",
        "node_id",
        under.as_str(),
        difference(status.commit, matched),
    );
    append_age(&mut text, under.as_str(), peer, observed, now_millis);
    text
}

fn render_peers(status: &NodeStatus, observed: &NodeMap<PeerMetric>, now_millis: u64) -> (text: String)
    ensures
        ({
            let order = walk(status@.voters, status@.learners);
            text@ == peers_shown(status@, order, order.len() as int, observed@, now_millis)
        }),
{
    let order = walk_members(&status.voters, &status.learners);
    let mut text = String::new();
    append_announced(&mut text, "ccdb_peer_semantic_version", "gauge");
    append_announced(&mut text, "ccdb_peer_features", "gauge");
    append_announced(&mut text, "ccdb_peer_match_index", "gauge");
    append_announced(&mut text, "ccdb_peer_commit_lag", "gauge");
    append_announced(&mut text, "ccdb_peer_last_contact_age_seconds", "gauge");
    let mut i: usize = 0;
    while i < order.len()
        invariant
            i <= order@.len(),
            text@ == peers_shown(status@, order@, i as int, observed@, now_millis),
        decreases order@.len() - i,
    {
        if order[i].get() != status.id {
            let part = render_peer(status, order[i], observed, now_millis);
            text.append(part.as_str());
        }
        i += 1;
    }
    text
}

/// How a node stands in its cluster, as text.
#[verifier::opaque]
pub open spec fn node_text(status: StatusView) -> Seq<char> {
    Seq::empty() + metric("ccdb_up", "gauge", 1) + metric(
        "ccdb_node_id",
        "gauge",
        status.id as nat,
    ) + metric("ccdb_is_leader", "gauge", bit(status.leader == Some(status.id))) + metric(
        "ccdb_leader_node_id",
        "gauge",
        match status.leader {
            Some(leader) => leader as nat,
            None => 0,
        },
    ) + metric("ccdb_commit_index", "gauge", status.commit as nat) + metric(
        "ccdb_applied_index",
        "gauge",
        status.applied as nat,
    ) + metric("ccdb_peers_configured", "gauge", status.others())
}

fn render_node(status: &NodeStatus) -> (text: String)
    ensures
        text@ == node_text(status@),
{
    reveal(node_text);
    let mut text = String::new();
    append_metric(&mut text, "ccdb_up", "gauge", 1);
    append_metric(&mut text, "ccdb_node_id", "gauge", status.id);
    let leader: u64 = match status.leader {
        Some(leader) => leader,
        None => 0,
    };
    let leads = match status.leader {
        Some(leader) => leader == status.id,
        None => false,
    };
    append_metric(
        &mut text,
        "ccdb_is_leader",
        "gauge",
        if leads {
            1
        } else {
            0
        },
    );
    append_metric(&mut text, "ccdb_leader_node_id", "gauge", leader);
    append_metric(&mut text, "ccdb_commit_index", "gauge", status.commit);
    append_metric(&mut text, "ccdb_applied_index", "gauge", status.applied);
    let voters: usize = status.voters.len();
    let learners: usize = status.learners.len();
    let all: usize = if learners <= usize::MAX - voters {
        voters + learners
    } else {
        usize::MAX
    };
    let others: u64 = if all > 0 {
        all as u64 - 1
    } else {
        0
    };
    append_metric(&mut text, "ccdb_peers_configured", "gauge", others);
    text
}

/// How many bytes of metrics a host shows at most.
pub const METRICS_BYTE_CAP: usize = 64 * 1024;

/// What a host shows whose engine cannot be asked.
pub open spec fn down_text() -> Seq<char> {
    "# TYPE ccdb_up gauge\nccdb_up 0\n"@
}

/// What a host shows that would show too much.
pub open spec fn overflow_text() -> Seq<char> {
    "# TYPE ccdb_up gauge\nccdb_up 1\n# TYPE ccdb_metrics_overflow gauge\nccdb_metrics_overflow 1\n"@
}

/// Everything that a host counts and holds.
pub open spec fn full_metrics(
    metrics: MetricsView,
    uptime_seconds: u64,
    status: StatusView,
    store: StoreStats,
    levels: Seq<LevelStat>,
    footprint: Footprint,
    now_millis: u64,
) -> Seq<char> {
    let order = walk(status.voters, status.learners);
    counters_text(metrics.counters, uptime_seconds) + node_text(status) + store_text(store)
        + levels_text(levels, levels.len() as int) + footprint_text(footprint) + queues_text(
        footprint,
    ) + peers_shown(status, order, order.len() as int, metrics.peers, now_millis)
}

/// What a host shows of its metrics: everything, unless that is too much.
pub open spec fn metrics_shown(full: Seq<char>) -> Seq<char> {
    if encode_utf8(full).len() > METRICS_BYTE_CAP {
        overflow_text()
    } else {
        full
    }
}

/// Renders the metrics of a host.
pub fn render_metrics(
    metrics: &HostMetrics,
    uptime_seconds: u64,
    status: &NodeStatus,
    store: &StoreStats,
    levels: &[LevelStat],
    footprint: &Footprint,
    now_millis: u64,
) -> (text: String)
    ensures
        text@ == metrics_shown(
            full_metrics(
                metrics@,
                uptime_seconds,
                status@,
                *store,
                levels@,
                *footprint,
                now_millis,
            ),
        ),
{
    let mut text = metrics.render(uptime_seconds);
    text.append(render_node(status).as_str());
    text.append(render_store(store).as_str());
    text.append(render_levels(levels).as_str());
    text.append(render_footprint(footprint).as_str());
    text.append(render_queues(footprint).as_str());
    text.append(render_peers(status, &metrics.peers, now_millis).as_str());
    if text.as_str().as_bytes().len() > METRICS_BYTE_CAP {
        return "# TYPE ccdb_up gauge\nccdb_up 1\n# TYPE ccdb_metrics_overflow gauge\nccdb_metrics_overflow 1\n".to_owned();
    }
    text
}

/// Renders the metrics of a host whose engine cannot be asked.
pub fn render_down() -> (text: String)
    ensures
        text@ == down_text(),
{
    "# TYPE ccdb_up gauge\nccdb_up 0\n".to_owned()
}

/// No host shows more than the cap, whatever it counts.
pub proof fn law_metrics_are_bounded(full: Seq<char>)
    ensures
        encode_utf8(metrics_shown(full)).len() <= METRICS_BYTE_CAP,
{
    reveal_strlit(
        "# TYPE ccdb_up gauge\nccdb_up 1\n# TYPE ccdb_metrics_overflow gauge\nccdb_metrics_overflow 1\n",
    );
    vstd::utf8::is_ascii_chars_encode_utf8(overflow_text());
}

/// The page that shows the metrics: local, and without anything from elsewhere.
pub open spec fn dashboard() -> Seq<char> {
    "<!doctype html><title>ccdb / metrics</title><pre id=metrics>loading…</pre><script>fetch('/metrics').then(r=>r.text()).then(t=>document.querySelector('#metrics').textContent=t)</script>"@
}

/// The page that shows the metrics.
pub fn metrics_dashboard() -> (page: String)
    ensures
        page@ == dashboard(),
{
    "<!doctype html><title>ccdb / metrics</title><pre id=metrics>loading…</pre><script>fetch('/metrics').then(r=>r.text()).then(t=>document.querySelector('#metrics').textContent=t)</script>".to_owned()
}

/// What a request asks the metrics listener for.
#[derive(Clone, Copy, Debug, PartialEq, Eq, Structural)]
pub enum Page {
    Metrics,
    Dashboard,
    Missing,
}

/// The first line of a request, where it is a text.
pub open spec fn first_line(request: Seq<u8>) -> Seq<char> {
    if valid_utf8(request) && lines(decode_utf8(request)).len() > 0 {
        lines(decode_utf8(request))[0]
    } else {
        Seq::empty()
    }
}

/// What a request asks for.
pub open spec fn page_of(request: Seq<u8>) -> Page {
    let line = first_line(request);
    if behind(line, "GET /metrics "@) is Some {
        Page::Metrics
    } else if behind(line, "GET / "@) is Some {
        Page::Dashboard
    } else {
        Page::Missing
    }
}

/// Reads what a request asks for.
pub fn requested_page(request: &[u8]) -> (page: Page)
    ensures
        page == page_of(request@),
{
    let mut line = String::new();
    if let Some(text) = utf8_text(request) {
        let all = split_lines(text.as_str());
        if all.len() > 0 {
            assert(texts(all@)[0] == all@[0]@);
            line = all[0].clone();
        }
    }
    assert(line@ =~= first_line(request@));
    if strip_prefix(line.as_str(), "GET /metrics ").is_some() {
        Page::Metrics
    } else if strip_prefix(line.as_str(), "GET / ").is_some() {
        Page::Dashboard
    } else {
        Page::Missing
    }
}

/// The answer to a request, with the metrics as they are now.
pub open spec fn http_answer(page: Page, metrics: Seq<char>) -> Seq<char> {
    let content_type = match page {
        Page::Metrics => "text/plain; version=0.0.4"@,
        Page::Dashboard => "text/html; charset=utf-8"@,
        Page::Missing => "text/plain; charset=utf-8"@,
    };
    let status = match page {
        Page::Missing => "404 Not Found"@,
        _ => "200 OK"@,
    };
    let body = match page {
        Page::Metrics => metrics,
        Page::Dashboard => dashboard(),
        Page::Missing => "not found\n"@,
    };
    "HTTP/1.1 "@ + status + "\r\nContent-Type: "@ + content_type + "\r\nContent-Length: "@
        + number_text(encode_utf8(body).len()) + "\r\nConnection: close\r\n\r\n"@ + body
}

/// Composes the answer to a request.
pub fn serve_metrics(page: Page, metrics: &str) -> (answer: String)
    ensures
        answer@ == http_answer(page, metrics@),
{
    let content_type = match page {
        Page::Metrics => "text/plain; version=0.0.4",
        Page::Dashboard => "text/html; charset=utf-8",
        Page::Missing => "text/plain; charset=utf-8",
    };
    let status = match page {
        Page::Missing => "404 Not Found",
        _ => "200 OK",
    };
    let body = match page {
        Page::Metrics => metrics.to_owned(),
        Page::Dashboard => metrics_dashboard(),
        Page::Missing => "not found\n".to_owned(),
    };
    let mut answer = "HTTP/1.1 ".to_owned();
    answer.append(status);
    answer.append("\r\nContent-Type: ");
    answer.append(content_type);
    answer.append("\r\nContent-Length: ");
    append_number(&mut answer, body.as_str().as_bytes().len() as u64);
    answer.append("\r\nConnection: close\r\n\r\n");
    answer.append(body.as_str());
    answer
}

/// What a node says of itself to a client that asks.
pub open spec fn info_text(
    version: Seq<char>,
    id: u64,
    leader: u64,
    leader_address: Seq<char>,
    commit: u64,
    applied: u64,
) -> Seq<char> {
    "# Server\r\nccdb_version:"@ + version + "\r\nmode:shared-driver\r\nrole:"@ + (if leader
        == id {
        "leader"@
    } else {
        "follower"@
    }) + "\r\nleader:n"@ + number_text(leader as nat) + "\r\nleader_client_addr:"@ + leader_address
        + "\r\ncommit:"@ + number_text(commit as nat) + "\r\napplied:"@ + number_text(applied as nat)
        + "\r\n"@
}

/// Composes what a node says of itself.
pub fn info(
    version: &str,
    id: u64,
    leader: u64,
    leader_address: &str,
    commit: u64,
    applied: u64,
) -> (text: String)
    ensures
        text@ == info_text(version@, id, leader, leader_address@, commit, applied),
{
    let mut text = "# Server\r\nccdb_version:".to_owned();
    text.append(version);
    text.append("\r\nmode:shared-driver\r\nrole:");
    text.append(
        if leader == id {
            "leader"
        } else {
            "follower"
        },
    );
    text.append("\r\nleader:n");
    append_number(&mut text, leader);
    text.append("\r\nleader_client_addr:");
    text.append(leader_address);
    text.append("\r\ncommit:");
    append_number(&mut text, commit);
    text.append("\r\napplied:");
    append_number(&mut text, applied);
    text.append("\r\n");
    text
}

} // verus!
