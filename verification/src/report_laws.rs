//! What a host shows of itself is what it counts and holds.
use vstd::prelude::*;
use vstd::string::*;
use vstd::utf8::{encode_utf8, encode_utf8_decode_utf8, encode_utf8_valid_utf8};

use crate::ids::NodeId;
use crate::metrics::{Counters, MetricsView, PeerMetric};
use crate::node_set::{ascending, lemma_ascending_set};
use crate::prose::number_text;
use crate::report::{
    above, announced, contact_age, counters_text, first_line, footprint_text, full_metrics,
    http_answer, labelled, levels_text, metric, metrics_shown, node_text, page_of, peer_text,
    peers_shown, queues_text, store_text, walk, Footprint, LevelStat, Page, StatusView, StoreStats,
};
use crate::words::{first_at, lemma_first_at};

verus! {

/// Whether a text stands somewhere in another.
pub open spec fn stands_in(text: Seq<char>, part: Seq<char>) -> bool {
    exists|at: int| #[trigger] stands_from(text, part, at)
}

/// Whether a text stands in another from a place on.
pub open spec fn stands_from(text: Seq<char>, part: Seq<char>, at: int) -> bool {
    0 <= at && at + part.len() <= text.len() && text.subrange(at, at + part.len()) == part
}

/// A line that gives a metric its value.
pub open spec fn value_row(name: &str, value: nat) -> Seq<char> {
    name@ + " "@ + number_text(value) + "\n"@
}

/// Whether a text shows a metric with a value.
pub open spec fn shows_value(text: Seq<char>, name: &str, value: nat) -> bool {
    stands_in(text, value_row(name, value))
}

proof fn lemma_left(a: Seq<char>, b: Seq<char>, part: Seq<char>)
    requires
        stands_in(a, part),
    ensures
        stands_in(a + b, part),
{
    let at = choose|at: int| #[trigger] stands_from(a, part, at);
    assert((a + b).subrange(at, at + part.len()) =~= a.subrange(at, at + part.len()));
    assert(stands_from(a + b, part, at));
}

proof fn lemma_right(a: Seq<char>, b: Seq<char>)
    ensures
        stands_in(a + b, b),
{
    assert((a + b).subrange(a.len() as int, (a + b).len() as int) =~= b);
    assert(stands_from(a + b, b, a.len() as int));
}

/// What stands in a part stands in the whole.
proof fn lemma_within(text: Seq<char>, part: Seq<char>, row: Seq<char>)
    requires
        stands_in(text, part),
        stands_in(part, row),
    ensures
        stands_in(text, row),
{
    let at = choose|at: int| #[trigger] stands_from(text, part, at);
    let inner = choose|inner: int| #[trigger] stands_from(part, row, inner);
    assert(text.subrange(at, at + part.len()).subrange(inner, inner + row.len()) =~= text.subrange(
        at + inner,
        at + inner + row.len(),
    ));
    assert(stands_from(text, row, at + inner));
}

/// A metric shows its value.
proof fn lemma_metric(name: &str, kind: &str, value: nat)
    ensures
        stands_in(metric(name, kind, value), value_row(name, value)),
{
    let head = announced(name, kind);
    lemma_right(head, value_row(name, value));
    lemma_regrouped(head, name@, " "@, number_text(value), "\n"@);
}

proof fn lemma_regrouped(a: Seq<char>, b: Seq<char>, c: Seq<char>, d: Seq<char>, e: Seq<char>)
    ensures
        a + b + c + d + e == a + (b + c + d + e),
{
    assert(a + b + c + d + e =~= a + (b + c + d + e));
}

/// Texts one behind the other.
spec fn gathered(parts: Seq<Seq<char>>) -> Seq<char>
    decreases parts.len(),
{
    if parts.len() == 0 {
        Seq::empty()
    } else {
        gathered(parts.drop_last()) + parts.last()
    }
}

proof fn lemma_push(parts: Seq<Seq<char>>, part: Seq<char>)
    ensures
        gathered(parts.push(part)) == gathered(parts) + part,
{
    assert(parts.push(part).drop_last() =~= parts);
}

proof fn lemma_gathered(parts: Seq<Seq<char>>, i: int)
    requires
        0 <= i < parts.len(),
    ensures
        stands_in(gathered(parts), parts[i]),
    decreases parts.len(),
{
    let front = gathered(parts.drop_last());
    if i == parts.len() - 1 {
        lemma_right(front, parts.last());
    } else {
        lemma_gathered(parts.drop_last(), i);
        lemma_left(front, parts.last(), parts[i]);
    }
}

/// A metric among texts that stand one behind the other is shown by them.
proof fn lemma_shown(
    text: Seq<char>,
    parts: Seq<Seq<char>>,
    i: int,
    name: &str,
    kind: &str,
    value: nat,
)
    requires
        text == gathered(parts),
        0 <= i < parts.len(),
        parts[i] == metric(name, kind, value),
    ensures
        shows_value(text, name, value),
{
    lemma_gathered(parts, i);
    lemma_metric(name, kind, value);
    lemma_within(text, parts[i], value_row(name, value));
}

/// Every counter of a host is shown under its own name.
pub proof fn law_counters_are_shown(c: Counters, uptime_seconds: u64)
    ensures
        shows_value(counters_text(c, uptime_seconds), "ccdb_commands_total", c.commands as nat),
        shows_value(counters_text(c, uptime_seconds), "ccdb_reads_total", c.reads as nat),
        shows_value(counters_text(c, uptime_seconds), "ccdb_writes_total", c.writes as nat),
        shows_value(counters_text(c, uptime_seconds), "ccdb_fsyncs_total", c.fsync_writes as nat),
        shows_value(counters_text(c, uptime_seconds), "ccdb_peer_frames_total", c.peer_frames as nat),
        shows_value(counters_text(c, uptime_seconds), "ccdb_block_reads_total", c.block_reads as nat),
        shows_value(counters_text(c, uptime_seconds), "ccdb_block_bytes_read_total", c.block_bytes_read as nat),
        shows_value(counters_text(c, uptime_seconds), "ccdb_file_reads_total", c.file_reads as nat),
        shows_value(counters_text(c, uptime_seconds), "ccdb_file_bytes_read_total", c.file_bytes_read as nat),
        shows_value(counters_text(c, uptime_seconds), "ccdb_file_writes_total", c.file_writes as nat),
        shows_value(counters_text(c, uptime_seconds), "ccdb_file_bytes_written_total", c.file_bytes_written as nat),
        shows_value(counters_text(c, uptime_seconds), "ccdb_file_renames_total", c.renames as nat),
        shows_value(counters_text(c, uptime_seconds), "ccdb_directory_syncs_total", c.directory_syncs as nat),
        shows_value(counters_text(c, uptime_seconds), "ccdb_queue_rejections_total", c.queue_rejections as nat),
        shows_value(counters_text(c, uptime_seconds), "ccdb_snapshots_created_total", c.snapshots_created as nat),
        shows_value(counters_text(c, uptime_seconds), "ccdb_snapshots_sent_total", c.snapshots_sent as nat),
        shows_value(counters_text(c, uptime_seconds), "ccdb_snapshots_received_total", c.snapshots_received as nat),
        shows_value(counters_text(c, uptime_seconds), "ccdb_snapshots_aborted_total", c.snapshots_aborted as nat),
        shows_value(
            counters_text(c, uptime_seconds),
            "ccdb_storage_fault",
            if c.storage_fault {
                1
            } else {
                0
            },
        ),
        shows_value(counters_text(c, uptime_seconds), "ccdb_uptime_seconds", uptime_seconds as nat),
{
    reveal(counters_text);
    let none = Seq::<Seq<char>>::empty();
    let m0 = metric("ccdb_commands_total", "counter", c.commands as nat);
    let m1 = metric("ccdb_reads_total", "counter", c.reads as nat);
    let m2 = metric("ccdb_writes_total", "counter", c.writes as nat);
    let m3 = metric("ccdb_fsyncs_total", "counter", c.fsync_writes as nat);
    let m4 = metric("ccdb_peer_frames_total", "counter", c.peer_frames as nat);
    let m5 = metric("ccdb_block_reads_total", "counter", c.block_reads as nat);
    let m6 = metric("ccdb_block_bytes_read_total", "counter", c.block_bytes_read as nat);
    let m7 = metric("ccdb_file_reads_total", "counter", c.file_reads as nat);
    let m8 = metric("ccdb_file_bytes_read_total", "counter", c.file_bytes_read as nat);
    let m9 = metric("ccdb_file_writes_total", "counter", c.file_writes as nat);
    let m10 = metric("ccdb_file_bytes_written_total", "counter", c.file_bytes_written as nat);
    let m11 = metric("ccdb_file_renames_total", "counter", c.renames as nat);
    let m12 = metric("ccdb_directory_syncs_total", "counter", c.directory_syncs as nat);
    let m13 = metric("ccdb_queue_rejections_total", "counter", c.queue_rejections as nat);
    let m14 = metric("ccdb_snapshots_created_total", "counter", c.snapshots_created as nat);
    let m15 = metric("ccdb_snapshots_sent_total", "counter", c.snapshots_sent as nat);
    let m16 = metric("ccdb_snapshots_received_total", "counter", c.snapshots_received as nat);
    let m17 = metric("ccdb_snapshots_aborted_total", "counter", c.snapshots_aborted as nat);
    let m18 = metric("ccdb_storage_fault", "gauge", if c.storage_fault {
        1
    } else {
        0
    });
    let m19 = metric("ccdb_uptime_seconds", "gauge", uptime_seconds as nat);
    let q0 = none.push(m0);
    lemma_push(none, m0);
    let q1 = q0.push(m1);
    lemma_push(q0, m1);
    let q2 = q1.push(m2);
    lemma_push(q1, m2);
    let q3 = q2.push(m3);
    lemma_push(q2, m3);
    let q4 = q3.push(m4);
    lemma_push(q3, m4);
    let q5 = q4.push(m5);
    lemma_push(q4, m5);
    let q6 = q5.push(m6);
    lemma_push(q5, m6);
    let q7 = q6.push(m7);
    lemma_push(q6, m7);
    let q8 = q7.push(m8);
    lemma_push(q7, m8);
    let q9 = q8.push(m9);
    lemma_push(q8, m9);
    let q10 = q9.push(m10);
    lemma_push(q9, m10);
    let q11 = q10.push(m11);
    lemma_push(q10, m11);
    let q12 = q11.push(m12);
    lemma_push(q11, m12);
    let q13 = q12.push(m13);
    lemma_push(q12, m13);
    let q14 = q13.push(m14);
    lemma_push(q13, m14);
    let q15 = q14.push(m15);
    lemma_push(q14, m15);
    let q16 = q15.push(m16);
    lemma_push(q15, m16);
    let q17 = q16.push(m17);
    lemma_push(q16, m17);
    let q18 = q17.push(m18);
    lemma_push(q17, m18);
    let q19 = q18.push(m19);
    lemma_push(q18, m19);
    let text = counters_text(c, uptime_seconds);
    assert(text == gathered(q19));
    lemma_shown(text, q19, 0, "ccdb_commands_total", "counter", c.commands as nat);
    lemma_shown(text, q19, 1, "ccdb_reads_total", "counter", c.reads as nat);
    lemma_shown(text, q19, 2, "ccdb_writes_total", "counter", c.writes as nat);
    lemma_shown(text, q19, 3, "ccdb_fsyncs_total", "counter", c.fsync_writes as nat);
    lemma_shown(text, q19, 4, "ccdb_peer_frames_total", "counter", c.peer_frames as nat);
    lemma_shown(text, q19, 5, "ccdb_block_reads_total", "counter", c.block_reads as nat);
    lemma_shown(text, q19, 6, "ccdb_block_bytes_read_total", "counter", c.block_bytes_read as nat);
    lemma_shown(text, q19, 7, "ccdb_file_reads_total", "counter", c.file_reads as nat);
    lemma_shown(text, q19, 8, "ccdb_file_bytes_read_total", "counter", c.file_bytes_read as nat);
    lemma_shown(text, q19, 9, "ccdb_file_writes_total", "counter", c.file_writes as nat);
    lemma_shown(
        text,
        q19,
        10,
        "ccdb_file_bytes_written_total",
        "counter",
        c.file_bytes_written as nat,
    );
    lemma_shown(text, q19, 11, "ccdb_file_renames_total", "counter", c.renames as nat);
    lemma_shown(text, q19, 12, "ccdb_directory_syncs_total", "counter", c.directory_syncs as nat);
    lemma_shown(
        text,
        q19,
        13,
        "ccdb_queue_rejections_total",
        "counter",
        c.queue_rejections as nat,
    );
    lemma_shown(
        text,
        q19,
        14,
        "ccdb_snapshots_created_total",
        "counter",
        c.snapshots_created as nat,
    );
    lemma_shown(text, q19, 15, "ccdb_snapshots_sent_total", "counter", c.snapshots_sent as nat);
    lemma_shown(
        text,
        q19,
        16,
        "ccdb_snapshots_received_total",
        "counter",
        c.snapshots_received as nat,
    );
    lemma_shown(
        text,
        q19,
        17,
        "ccdb_snapshots_aborted_total",
        "counter",
        c.snapshots_aborted as nat,
    );
    lemma_shown(
        text,
        q19,
        18,
        "ccdb_storage_fault",
        "gauge",
        if c.storage_fault {
            1
        } else {
            0
        },
    );
    lemma_shown(text, q19, 19, "ccdb_uptime_seconds", "gauge", uptime_seconds as nat);
}

/// How a node stands in its cluster is shown as it is: who it is, whether it leads and who
/// does, how far it has committed and applied, and how many others there are.
pub proof fn law_standings_are_shown(status: StatusView)
    ensures
        shows_value(node_text(status), "ccdb_up", 1),
        shows_value(node_text(status), "ccdb_node_id", status.id as nat),
        shows_value(
            node_text(status),
            "ccdb_is_leader",
            if status.leader == Some(status.id) {
                1
            } else {
                0
            },
        ),
        shows_value(
            node_text(status),
            "ccdb_leader_node_id",
            match status.leader {
                Some(leader) => leader as nat,
                None => 0,
            },
        ),
        shows_value(node_text(status), "ccdb_commit_index", status.commit as nat),
        shows_value(node_text(status), "ccdb_applied_index", status.applied as nat),
        shows_value(node_text(status), "ccdb_peers_configured", status.others()),
{
    reveal(node_text);
    let none = Seq::<Seq<char>>::empty();
    let m0 = metric("ccdb_up", "gauge", 1);
    let m1 = metric("ccdb_node_id", "gauge", status.id as nat);
    let m2 = metric("ccdb_is_leader", "gauge", if status.leader == Some(status.id) {
        1
    } else {
        0
    });
    let m3 = metric("ccdb_leader_node_id", "gauge", match status.leader {
        Some(leader) => leader as nat,
        None => 0,
    });
    let m4 = metric("ccdb_commit_index", "gauge", status.commit as nat);
    let m5 = metric("ccdb_applied_index", "gauge", status.applied as nat);
    let m6 = metric("ccdb_peers_configured", "gauge", status.others());
    let q0 = none.push(m0);
    lemma_push(none, m0);
    let q1 = q0.push(m1);
    lemma_push(q0, m1);
    let q2 = q1.push(m2);
    lemma_push(q1, m2);
    let q3 = q2.push(m3);
    lemma_push(q2, m3);
    let q4 = q3.push(m4);
    lemma_push(q3, m4);
    let q5 = q4.push(m5);
    lemma_push(q4, m5);
    let q6 = q5.push(m6);
    lemma_push(q5, m6);
    let text = node_text(status);
    assert(text == gathered(q6));
    lemma_shown(text, q6, 0, "ccdb_up", "gauge", 1);
    lemma_shown(text, q6, 1, "ccdb_node_id", "gauge", status.id as nat);
    lemma_shown(
        text,
        q6,
        2,
        "ccdb_is_leader",
        "gauge",
        if status.leader == Some(status.id) {
            1
        } else {
            0
        },
    );
    lemma_shown(
        text,
        q6,
        3,
        "ccdb_leader_node_id",
        "gauge",
        match status.leader {
            Some(leader) => leader as nat,
            None => 0,
        },
    );
    lemma_shown(text, q6, 4, "ccdb_commit_index", "gauge", status.commit as nat);
    lemma_shown(text, q6, 5, "ccdb_applied_index", "gauge", status.applied as nat);
    lemma_shown(text, q6, 6, "ccdb_peers_configured", "gauge", status.others());
}

/// What the store counts is shown under its own names.
pub proof fn law_store_counts_are_shown(s: StoreStats)
    ensures
        shows_value(store_text(s), "ccdb_store_bloom_positives_total", s.bloom_positives as nat),
        shows_value(store_text(s), "ccdb_store_bloom_negatives_total", s.bloom_negatives as nat),
        shows_value(store_text(s), "ccdb_store_manifest_rewrites_total", s.manifest_rewrites as nat),
        shows_value(store_text(s), "ccdb_store_compactions_started_total", s.compaction_jobs_started as nat),
        shows_value(store_text(s), "ccdb_store_compactions_completed_total", s.compaction_jobs_completed as nat),
        shows_value(store_text(s), "ccdb_store_compactions_aborted_total", s.compaction_jobs_aborted as nat),
        shows_value(store_text(s), "ccdb_expiry_proposals_total", s.expiry_proposals as nat),
        shows_value(store_text(s), "ccdb_expiry_keys_total", s.expiry_keys as nat),
{
    reveal(store_text);
    let none = Seq::<Seq<char>>::empty();
    let m0 = metric("ccdb_store_bloom_positives_total", "counter", s.bloom_positives as nat);
    let m1 = metric("ccdb_store_bloom_negatives_total", "counter", s.bloom_negatives as nat);
    let m2 = metric("ccdb_store_manifest_rewrites_total", "counter", s.manifest_rewrites as nat);
    let m3 = metric("ccdb_store_compactions_started_total", "counter", s.compaction_jobs_started as nat);
    let m4 = metric("ccdb_store_compactions_completed_total", "counter", s.compaction_jobs_completed as nat);
    let m5 = metric("ccdb_store_compactions_aborted_total", "counter", s.compaction_jobs_aborted as nat);
    let m6 = metric("ccdb_expiry_proposals_total", "counter", s.expiry_proposals as nat);
    let m7 = metric("ccdb_expiry_keys_total", "counter", s.expiry_keys as nat);
    let q0 = none.push(m0);
    lemma_push(none, m0);
    let q1 = q0.push(m1);
    lemma_push(q0, m1);
    let q2 = q1.push(m2);
    lemma_push(q1, m2);
    let q3 = q2.push(m3);
    lemma_push(q2, m3);
    let q4 = q3.push(m4);
    lemma_push(q3, m4);
    let q5 = q4.push(m5);
    lemma_push(q4, m5);
    let q6 = q5.push(m6);
    lemma_push(q5, m6);
    let q7 = q6.push(m7);
    lemma_push(q6, m7);
    let text = store_text(s);
    assert(text == gathered(q7));
    lemma_shown(
        text,
        q7,
        0,
        "ccdb_store_bloom_positives_total",
        "counter",
        s.bloom_positives as nat,
    );
    lemma_shown(
        text,
        q7,
        1,
        "ccdb_store_bloom_negatives_total",
        "counter",
        s.bloom_negatives as nat,
    );
    lemma_shown(
        text,
        q7,
        2,
        "ccdb_store_manifest_rewrites_total",
        "counter",
        s.manifest_rewrites as nat,
    );
    lemma_shown(
        text,
        q7,
        3,
        "ccdb_store_compactions_started_total",
        "counter",
        s.compaction_jobs_started as nat,
    );
    lemma_shown(
        text,
        q7,
        4,
        "ccdb_store_compactions_completed_total",
        "counter",
        s.compaction_jobs_completed as nat,
    );
    lemma_shown(
        text,
        q7,
        5,
        "ccdb_store_compactions_aborted_total",
        "counter",
        s.compaction_jobs_aborted as nat,
    );
    lemma_shown(text, q7, 6, "ccdb_expiry_proposals_total", "counter", s.expiry_proposals as nat);
    lemma_shown(text, q7, 7, "ccdb_expiry_keys_total", "counter", s.expiry_keys as nat);
}

/// A host shows all that it counts and holds, as long as that is no more than it may
/// show.
pub proof fn law_everything_is_shown(
    metrics: MetricsView,
    uptime_seconds: u64,
    status: StatusView,
    store: StoreStats,
    levels: Seq<LevelStat>,
    footprint: Footprint,
    now_millis: u64,
)
    requires
        encode_utf8(
            full_metrics(metrics, uptime_seconds, status, store, levels, footprint, now_millis),
        ).len() <= 65_536,
    ensures
        ({
            let text = metrics_shown(
                full_metrics(metrics, uptime_seconds, status, store, levels, footprint, now_millis),
            );
            let order = walk(status.voters, status.learners);
            &&& stands_in(text, counters_text(metrics.counters, uptime_seconds))
            &&& stands_in(text, node_text(status))
            &&& stands_in(text, store_text(store))
            &&& stands_in(text, levels_text(levels, levels.len() as int))
            &&& stands_in(text, footprint_text(footprint))
            &&& stands_in(text, queues_text(footprint))
            &&& stands_in(
                text,
                peers_shown(status, order, order.len() as int, metrics.peers, now_millis),
            )
        }),
{
    let order = walk(status.voters, status.learners);
    let none = Seq::<Seq<char>>::empty();
    let m0 = counters_text(metrics.counters, uptime_seconds);
    let m1 = node_text(status);
    let m2 = store_text(store);
    let m3 = levels_text(levels, levels.len() as int);
    let m4 = footprint_text(footprint);
    let m5 = queues_text(footprint);
    let m6 = peers_shown(status, order, order.len() as int, metrics.peers, now_millis);
    let q0 = none.push(m0);
    let q1 = q0.push(m1);
    let q2 = q1.push(m2);
    let q3 = q2.push(m3);
    let q4 = q3.push(m4);
    let q5 = q4.push(m5);
    let q6 = q5.push(m6);
    lemma_push(none, m0);
    lemma_push(q0, m1);
    lemma_push(q1, m2);
    lemma_push(q2, m3);
    lemma_push(q3, m4);
    lemma_push(q4, m5);
    lemma_push(q5, m6);
    assert(gathered(none) + m0 =~= m0);
    assert(q6[0] == m0 && q6[1] == m1 && q6[2] == m2 && q6[3] == m3 && q6[4] == m4 && q6[5] == m5
        && q6[6] == m6);
    lemma_gathered(q6, 0);
    lemma_gathered(q6, 1);
    lemma_gathered(q6, 2);
    lemma_gathered(q6, 3);
    lemma_gathered(q6, 4);
    lemma_gathered(q6, 5);
    lemma_gathered(q6, 6);
}

/// What a host shows of one of the members of a walk stands among what it shows of them.
proof fn lemma_peer_stands(
    status: StatusView,
    order: Seq<NodeId>,
    n: int,
    observed: Map<NodeId, PeerMetric>,
    now_millis: u64,
    i: int,
)
    requires
        0 <= i < n <= order.len(),
        order[i].0 != status.id,
    ensures
        stands_in(
            peers_shown(status, order, n, observed, now_millis),
            peer_text(status, order[i], observed, now_millis),
        ),
    decreases n,
{
    let before = peers_shown(status, order, n - 1, observed, now_millis);
    let last = peer_text(status, order[n - 1], observed, now_millis);
    if i == n - 1 {
        lemma_right(before, last);
    } else {
        lemma_peer_stands(status, order, n - 1, observed, now_millis, i);
        if order[n - 1].0 != status.id {
            lemma_left(before, last, peer_text(status, order[i], observed, now_millis));
        }
    }
}

/// A line that gives a metric its value for a member.
pub open spec fn member_row(name: &str, member: NodeId, value: Seq<char>) -> Seq<char> {
    name@ + "{node_id=\""@ + number_text(member.0 as nat) + "\"} "@ + value + "\n"@
}

/// Every other member is shown: how far its log agrees with the node's and how far it
/// is behind, what it speaks and can do, and how many whole seconds ago it was heard of.
pub proof fn law_members_are_shown(
    status: StatusView,
    observed: Map<NodeId, PeerMetric>,
    now_millis: u64,
    member: NodeId,
)
    requires
        status.voters.finite(),
        status.learners.finite(),
        status.voters.contains(member) || status.learners.contains(member),
        member.0 != status.id,
    ensures
        ({
            let order = walk(status.voters, status.learners);
            let text = peers_shown(status, order, order.len() as int, observed, now_millis);
            let matched = if status.matched.dom().contains(member) {
                status.matched[member].0
            } else {
                0
            };
            &&& stands_in(
                text,
                member_row("ccdb_peer_match_index", member, number_text(matched as nat)),
            )
            &&& stands_in(
                text,
                member_row(
                    "ccdb_peer_commit_lag",
                    member,
                    number_text(
                        if status.commit > matched {
                            (status.commit - matched) as nat
                        } else {
                            0
                        },
                    ),
                ),
            )
            &&& status.capabilities.dom().contains(member) ==> stands_in(
                text,
                member_row(
                    "ccdb_peer_semantic_version",
                    member,
                    number_text(status.capabilities[member].semantic as nat),
                ),
            ) && stands_in(
                text,
                member_row(
                    "ccdb_peer_features",
                    member,
                    number_text(status.capabilities[member].features as nat),
                ),
            )
            &&& observed.dom().contains(member) && observed[member].last_contact_millis
                <= now_millis ==> stands_in(
                text,
                member_row(
                    "ccdb_peer_last_contact_age_seconds",
                    member,
                    number_text(
                        ((now_millis - observed[member].last_contact_millis) / 1000) as nat,
                    ),
                ),
            )
            &&& !observed.dom().contains(member) ==> stands_in(
                text,
                member_row("ccdb_peer_last_contact_age_seconds", member, "-1"@),
            )
        }),
{
    let order = walk(status.voters, status.learners);
    let text = peers_shown(status, order, order.len() as int, observed, now_millis);
    lemma_ascending_set(status.voters);
    lemma_ascending_set(status.learners);
    let first = ascending(status.voters);
    let second = ascending(status.learners);
    let i = if status.voters.contains(member) {
        assert(first.to_set().contains(member));
        choose|i: int| 0 <= i < first.len() && first[i] == member
    } else {
        assert(second.to_set().contains(member));
        let j = choose|j: int| 0 <= j < second.len() && second[j] == member;
        assert(order[first.len() + j] == member);
        first.len() + j
    };
    assert(order[i] == member);
    lemma_peer_stands(status, order, order.len() as int, observed, now_millis, i);
    let shown = peer_text(status, member, observed, now_millis);
    let under = number_text(member.0 as nat);
    let capability = status.capability(member, observed);
    let matched = status.matched_to(member);
    let lag = number_text(above(status.commit, matched) as nat);
    let age = contact_age(member, observed, now_millis);
    lemma_member_row("ccdb_peer_semantic_version", member, number_text(capability.semantic as nat));
    lemma_member_row("ccdb_peer_features", member, number_text(capability.features as nat));
    lemma_member_row("ccdb_peer_match_index", member, number_text(matched as nat));
    lemma_member_row("ccdb_peer_commit_lag", member, lag);
    lemma_member_row("ccdb_peer_last_contact_age_seconds", member, age);
    let m0 = member_row(
        "ccdb_peer_semantic_version",
        member,
        number_text(capability.semantic as nat),
    );
    let m1 = member_row("ccdb_peer_features", member, number_text(capability.features as nat));
    let m2 = member_row("ccdb_peer_match_index", member, number_text(matched as nat));
    let m3 = member_row("ccdb_peer_commit_lag", member, lag);
    let m4 = member_row("ccdb_peer_last_contact_age_seconds", member, age);
    let q0 = Seq::<Seq<char>>::empty().push(m0);
    let q1 = q0.push(m1);
    let q2 = q1.push(m2);
    let q3 = q2.push(m3);
    let q4 = q3.push(m4);
    lemma_push(Seq::<Seq<char>>::empty(), m0);
    lemma_push(q0, m1);
    lemma_push(q1, m2);
    lemma_push(q2, m3);
    lemma_push(q3, m4);
    assert(gathered(Seq::<Seq<char>>::empty()) + m0 =~= m0);
    assert(shown == gathered(q4));
    assert(q4[0] == m0 && q4[1] == m1 && q4[2] == m2 && q4[3] == m3 && q4[4] == m4);
    lemma_gathered(q4, 0);
    lemma_gathered(q4, 1);
    lemma_gathered(q4, 2);
    lemma_gathered(q4, 3);
    lemma_gathered(q4, 4);
    lemma_within(text, shown, m0);
    lemma_within(text, shown, m1);
    lemma_within(text, shown, m2);
    lemma_within(text, shown, m3);
    lemma_within(text, shown, m4);
}

/// A value under the label of a member is the line of that member.
proof fn lemma_member_row(name: &str, member: NodeId, value: Seq<char>)
    ensures
        labelled(name, "node_id", number_text(member.0 as nat), value) == member_row(
            name,
            member,
            value,
        ),
{
    let under = number_text(member.0 as nat);
    assert("{"@ + "node_id"@ + "=\""@ =~= "{node_id=\""@) by {
        reveal_strlit("{");
        reveal_strlit("node_id");
        reveal_strlit("=\"");
        reveal_strlit("{node_id=\"");
    }
    lemma_label(name@, "{"@, "node_id"@, "=\""@);
}

proof fn lemma_label(a: Seq<char>, b: Seq<char>, c: Seq<char>, d: Seq<char>)
    ensures
        a + b + c + d == a + (b + c + d),
{
    assert(a + b + c + d =~= a + (b + c + d));
}

/// A line that begins a request begins its first line too.
proof fn lemma_first_line(head: Seq<char>, rest: Seq<char>)
    requires
        head.len() > 0,
        !head.contains('\n'),
        head.last() != '\r',
    ensures
        first_line(encode_utf8(head + rest)).len() >= head.len(),
        head.is_prefix_of(first_line(encode_utf8(head + rest))),
{
    let text = head + rest;
    encode_utf8_valid_utf8(text);
    encode_utf8_decode_utf8(text);
    lemma_first_at(text, '\n');
    let n = first_at(text, '\n');
    assert(n >= head.len()) by {
        if n < head.len() {
            assert(text[n as int] == head[n as int]);
            assert(head.contains('\n'));
        }
    }
    let line = first_line(encode_utf8(text));
    let whole = text.take(n as int);
    assert(whole.take(head.len() as int) =~= head);
    if n == head.len() && n > 0 {
        assert(whole.last() == head.last());
    }
    assert(line == whole || line == whole.drop_last() || line == text);
    assert(line.subrange(0, head.len() as int) =~= head);
}

/// The metrics are shown to whoever asks for them, and the page around them to whoever
/// asks for that, whatever else the request says.
pub proof fn law_pages_are_found(rest: Seq<char>)
    ensures
        page_of(encode_utf8("GET /metrics "@ + rest)) is Metrics,
        page_of(encode_utf8("GET / "@ + rest)) is Dashboard,
{
    reveal_strlit("GET /metrics ");
    reveal_strlit("GET / ");
    lemma_first_line("GET /metrics "@, rest);
    lemma_first_line("GET / "@, rest);
    let line = first_line(encode_utf8("GET / "@ + rest));
    assert(line[5] == "GET / "@[5]);
}

/// The answer to a request ends with the page that was asked for: the metrics as they
/// are, where those were asked for. What is not there is said to be missing.
pub proof fn law_answers_end_with_the_page(metrics: Seq<char>)
    ensures
        ({
            let answer = http_answer(Page::Metrics, metrics);
            let missing = http_answer(Page::Missing, metrics);
            &&& "HTTP/1.1 200 OK\r\n"@.is_prefix_of(answer)
            &&& ("\r\n\r\n"@ + metrics).is_suffix_of(answer)
            &&& stands_in(
                answer,
                "Content-Length: "@ + number_text(encode_utf8(metrics).len()) + "\r\n"@,
            )
            &&& "HTTP/1.1 404 Not Found\r\n"@.is_prefix_of(missing)
        }),
{
    let size = number_text(encode_utf8(metrics).len());
    let head = "HTTP/1.1 "@ + "200 OK"@ + "\r\nContent-Type: "@ + "text/plain; version=0.0.4"@;
    let answer = http_answer(Page::Metrics, metrics);
    reveal_strlit("\r\nContent-Length: ");
    reveal_strlit("Content-Length: ");
    reveal_strlit("\r\nConnection: close\r\n\r\n");
    reveal_strlit("\r\n\r\n");
    reveal_strlit("\r\n");
    assert("HTTP/1.1 200 OK\r\n"@.is_prefix_of(answer)) by {
        reveal_strlit("HTTP/1.1 ");
        reveal_strlit("200 OK");
        reveal_strlit("\r\nContent-Type: ");
        reveal_strlit("HTTP/1.1 200 OK\r\n");
        assert(answer.subrange(0, 17) =~= "HTTP/1.1 200 OK\r\n"@);
    }
    let row = "Content-Length: "@ + size + "\r\n"@;
    let at = (head.len() + 2) as int;
    assert(answer.subrange(at, at + row.len()) =~= row);
    assert(stands_from(answer, row, at));
    let tail = "\r\n\r\n"@ + metrics;
    assert(answer.subrange(answer.len() - tail.len(), answer.len() as int) =~= tail);
    let missing = http_answer(Page::Missing, metrics);
    assert("HTTP/1.1 404 Not Found\r\n"@.is_prefix_of(missing)) by {
        reveal_strlit("HTTP/1.1 ");
        reveal_strlit("404 Not Found");
        reveal_strlit("\r\nContent-Type: ");
        reveal_strlit("HTTP/1.1 404 Not Found\r\n");
        assert(missing.subrange(0, 24) =~= "HTTP/1.1 404 Not Found\r\n"@);
    }
}

} // verus!
