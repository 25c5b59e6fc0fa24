//! What the host writes as a configuration file reads back as it was meant.
use vstd::prelude::*;
use vstd::string::*;

use crate::config::{
    allowed, climbs, config_of, distinct_peers, entries_of, heading, is_heading, listed_members,
    peers_of, setting, setting_from, settings_from, settings_of, ConfigView, PeerView,
};
use crate::config_text::{
    config_text, initial_config, local_peers, local_port, restored_config,
};
use crate::fault::FaultView;
use crate::hex::{hex_of, law_cluster_id_reads_back, zero_id, ClusterId};
use crate::prose::number_text;
use crate::status_laws::{decimal_char, law_numbers_read_back, lemma_number_text};
use crate::words::{
    bare, before_first, first_at, is_space, is_word, joined_by, law_pieces_come_apart, left_bare,
    left_trimmed, lemma_first_at, lemma_first_is, lemma_run_is, lemma_split_front, lines,
    right_bare, right_trimmed, split_at_first, trimmed, without_return,
};

verus! {

/// Whether a value stands in quotes on one line and reads back as it is: it
/// holds no line end and no comment sign, and no quote stands at its ends.
pub open spec fn quotable(value: Seq<char>) -> bool {
    &&& !value.contains('\n')
    &&& !value.contains('#')
    &&& value.len() > 0 ==> value[0] != '"' && value.last() != '"'
}

/// The lines of two texts, the first of which ends with a line end.
proof fn lemma_lines_join(a: Seq<char>, b: Seq<char>)
    requires
        a.len() == 0 || a.last() == '\n',
    ensures
        lines(a + b) == lines(a) + lines(b),
    decreases a.len(),
{
    if a.len() == 0 {
        assert(a + b =~= b);
        lemma_first_at(a, '\n');
        assert(lines(a) =~= seq![]);
        assert(lines(a) + lines(b) =~= lines(b));
    } else {
        lemma_first_at(a, '\n');
        let n = first_at(a, '\n');
        if n >= a.len() {
            assert(a[a.len() - 1] == '\n');
        }
        let text = a + b;
        assert forall|i: int| 0 <= i < n implies text[i] != '\n' by {
            assert(text[i] == a[i]);
        }
        assert(text[n as int] == a[n as int]);
        lemma_first_is(text, '\n', n);
        assert(text.take(n as int) =~= a.take(n as int));
        let rest = a.skip(n as int + 1);
        assert(text.skip(n as int + 1) =~= rest + b);
        if rest.len() > 0 {
            assert(rest.last() == a.last());
        }
        lemma_lines_join(rest, b);
        assert(lines(text) =~= lines(a) + lines(b));
    }
}

/// One line with its end.
proof fn lemma_one_line(row: Seq<char>)
    requires
        !row.contains('\n'),
    ensures
        lines(row + seq!['\n']) == seq![without_return(row)],
{
    let none = Seq::<char>::empty();
    assert(row + seq!['\n'] =~= row + seq!['\n'] + none);
    lemma_split_front(row, '\n', none);
    lemma_first_at(none, '\n');
    assert(lines(none) =~= seq![]);
    assert(seq![without_return(row)] + lines(none) =~= seq![without_return(row)]);
}

proof fn lemma_nothing_to_trim(text: Seq<char>)
    requires
        text.len() > 0 ==> !is_space(text[0]) && !is_space(text.last()),
    ensures
        trimmed(text) == text,
{
    lemma_run_is(text, true, 0);
    assert(left_trimmed(text) =~= text);
}

/// A space at the front goes.
proof fn lemma_front_space(text: Seq<char>)
    requires
        text.len() > 0 && !is_space(text[0]) && !is_space(text.last()),
    ensures
        trimmed(seq![' '] + text) == text,
{
    let all = seq![' '] + text;
    assert(all[1] == text[0]);
    lemma_run_is(all, true, 1);
    assert(all.skip(1) =~= text);
}

/// A space at the end goes.
proof fn lemma_back_space(text: Seq<char>)
    requires
        text.len() > 0 && !is_space(text[0]) && !is_space(text.last()),
    ensures
        trimmed(text + seq![' ']) == text,
{
    let all = text + seq![' '];
    assert(all[0] == text[0]);
    lemma_run_is(all, true, 0);
    assert(left_trimmed(all) =~= all);
    assert(all.drop_last() =~= text);
    assert(right_trimmed(all) == right_trimmed(text));
}

proof fn lemma_unquoted(value: Seq<char>)
    requires
        value.len() > 0 ==> value[0] != '"' && value.last() != '"',
    ensures
        bare(seq!['"'] + value + seq!['"'], '"') == value,
        bare(value, '"') == value,
{
    let all = seq!['"'] + value + seq!['"'];
    let rest = value + seq!['"'];
    assert(all.drop_first() =~= rest);
    if value.len() == 0 {
        assert(rest.drop_first() =~= value);
        assert(rest[0] == '"');
        assert(left_bare(value, '"') == value);
        assert(left_bare(rest, '"') == value);
        assert(left_bare(all, '"') == left_bare(rest, '"'));
        assert(right_bare(value, '"') =~= value);
    } else {
        assert(rest[0] == value[0]);
        assert(left_bare(rest, '"') == rest);
        assert(left_bare(all, '"') == rest);
        assert(rest.drop_last() =~= value);
        assert(right_bare(rest, '"') == right_bare(value, '"'));
    }
}

proof fn lemma_no_comment(row: Seq<char>)
    requires
        !row.contains('#'),
    ensures
        before_first(row, '#') == row,
{
    lemma_first_at(row, '#');
    if first_at(row, '#') < row.len() {
        assert(row.contains(row[first_at(row, '#') as int]));
    }
    assert(row.take(row.len() as int) =~= row);
}

/// Whether a text is a key: letters and underscores.
spec fn is_key(key: Seq<char>) -> bool {
    key.len() > 0 && forall|i: int|
        0 <= i < key.len() ==> 'a' <= (#[trigger] key[i]) <= 'z' || key[i] == '_'
}

/// A quoted setting.
spec fn quoted_row(key: Seq<char>, value: Seq<char>) -> Seq<char> {
    key + seq![' ', '=', ' ', '"'] + value + seq!['"']
}

/// A setting without quotes.
spec fn plain_row(key: Seq<char>, value: Seq<char>) -> Seq<char> {
    key + seq![' ', '=', ' '] + value
}

/// What a line means: nothing, a section, or a setting.
spec fn assigns(row: Seq<char>, key: Seq<char>, value: Seq<char>) -> bool {
    let line = trimmed(before_first(row, '#'));
    &&& line.len() > 0
    &&& !is_heading(line)
    &&& split_at_first(line, '=') matches Some((left, right)) && trimmed(left) == key && bare(
        trimmed(right),
        '"',
    ) == value
}

proof fn lemma_quoted_row(key: Seq<char>, value: Seq<char>)
    requires
        is_key(key),
        quotable(value),
    ensures
        !quoted_row(key, value).contains('\n'),
        without_return(quoted_row(key, value)) == quoted_row(key, value),
        assigns(quoted_row(key, value), key, value),
{
    let row = quoted_row(key, value);
    let quoted = seq!['"'] + value + seq!['"'];
    let n = key.len() as int;
    assert(row =~= key + seq![' '] + seq!['='] + (seq![' '] + quoted));
    assert(row.last() == '"');
    assert(row[0] == key[0]);
    assert forall|i: int| 0 <= i < row.len() implies row[i] != '\n' && row[i] != '#' by {
        if i < n {
            assert(row[i] == key[i]);
        } else if i < n + 4 {
            assert(row[i] == seq![' ', '=', ' ', '"'][i - n]);
        } else if i < n + 4 + value.len() {
            assert(row[i] == value[i - n - 4]);
            assert(value.contains(value[i - n - 4]));
        }
    }
    lemma_no_comment(row);
    lemma_nothing_to_trim(row);
    let left = key + seq![' '];
    assert(!left.contains('=')) by {
        assert forall|i: int| 0 <= i < left.len() implies left[i] != '=' by {
            if i < n {
                assert(left[i] == key[i]);
            }
        }
    }
    lemma_split_front(left, '=', seq![' '] + quoted);
    lemma_back_space(key);
    assert(quoted[0] == '"' && quoted.last() == '"');
    lemma_front_space(quoted);
    lemma_unquoted(value);
}

proof fn lemma_plain_row(key: Seq<char>, value: Seq<char>)
    requires
        is_key(key),
        is_word(value),
        !value.contains('#'),
        !value.contains('"'),
    ensures
        !plain_row(key, value).contains('\n'),
        without_return(plain_row(key, value)) == plain_row(key, value),
        assigns(plain_row(key, value), key, value),
{
    let row = plain_row(key, value);
    let n = key.len() as int;
    assert(row =~= key + seq![' '] + seq!['='] + (seq![' '] + value));
    assert(row.last() == value.last());
    assert(row[0] == key[0]);
    assert(!is_space(value[value.len() - 1]));
    assert forall|i: int| 0 <= i < row.len() implies row[i] != '\n' && row[i] != '#' by {
        if i < n {
            assert(row[i] == key[i]);
        } else if i < n + 3 {
            assert(row[i] == seq![' ', '=', ' '][i - n]);
        } else {
            assert(row[i] == value[i - n - 3]);
            assert(!is_space(value[i - n - 3]));
            assert(value.contains(value[i - n - 3]));
        }
    }
    lemma_no_comment(row);
    lemma_nothing_to_trim(row);
    let left = key + seq![' '];
    assert(!left.contains('=')) by {
        assert forall|i: int| 0 <= i < left.len() implies left[i] != '=' by {
            if i < n {
                assert(left[i] == key[i]);
            }
        }
    }
    lemma_split_front(left, '=', seq![' '] + value);
    lemma_back_space(key);
    assert(!is_space(value[0]));
    lemma_front_space(value);
    assert(value.contains(value[0]) && value.contains(value.last()));
    lemma_unquoted(value);
}

/// The name of a setting.
spec fn named(section: Seq<char>, key: Seq<char>) -> Seq<char> {
    section + "."@ + key
}

proof fn lemma_names_differ(section: Seq<char>, a: Seq<char>, b: Seq<char>)
    requires
        a != b,
    ensures
        named(section, a) != named(section, b),
{
    let n = (section + "."@).len() as int;
    assert(named(section, a).skip(n) =~= a);
    assert(named(section, b).skip(n) =~= b);
}

proof fn lemma_absent(pairs: Seq<(Seq<char>, Seq<char>)>, name: Seq<char>, i: int)
    requires
        0 <= i <= pairs.len(),
        forall|k: int| i <= k < pairs.len() ==> (#[trigger] pairs[k]).0 != name,
    ensures
        setting_from(pairs, name, i) is None,
    decreases pairs.len() - i,
{
    if i < pairs.len() {
        lemma_absent(pairs, name, i + 1);
    }
}

proof fn lemma_present(pairs: Seq<(Seq<char>, Seq<char>)>, name: Seq<char>, i: int, j: int)
    requires
        0 <= i <= j < pairs.len(),
        pairs[j].0 == name,
        forall|k: int| i <= k < j ==> (#[trigger] pairs[k]).0 != name,
    ensures
        setting_from(pairs, name, i) == Some(pairs[j].1),
    decreases j - i,
{
    if i < j {
        lemma_present(pairs, name, i + 1, j);
    }
}

/// The keys of the node's section, in the order of the file.
spec fn node_keys() -> Seq<Seq<char>> {
    seq![
        "id"@,
        "cluster_id"@,
        "data_dir"@,
        "listen_client"@,
        "listen_peer"@,
        "listen_metrics"@,
        "peer_nodes"@,
    ]
}

proof fn lemma_node_keys()
    ensures
        forall|i: int| 0 <= i < 7 ==> is_key(#[trigger] node_keys()[i]),
        forall|i: int| 0 <= i < 7 ==> allowed("node"@, #[trigger] node_keys()[i]),
        forall|i: int, j: int|
            0 <= i < j < 7 ==> #[trigger] node_keys()[i] != #[trigger] node_keys()[j],
        is_key("fsync"@),
{
    reveal_strlit("id");
    reveal_strlit("cluster_id");
    reveal_strlit("data_dir");
    reveal_strlit("listen_client");
    reveal_strlit("listen_peer");
    reveal_strlit("listen_metrics");
    reveal_strlit("peer_nodes");
    reveal_strlit("fsync");
    let keys = node_keys();
    assert(keys[0] == "id"@);
    assert(keys[1] == "cluster_id"@);
    assert(keys[2] == "data_dir"@);
    assert(keys[3] == "listen_client"@);
    assert(keys[4] == "listen_peer"@);
    assert(keys[5] == "listen_metrics"@);
    assert(keys[6] == "peer_nodes"@);
    assert(keys[0].len() == 2 && keys[1].len() == 10 && keys[2].len() == 8 && keys[3].len() == 13
        && keys[4].len() == 11 && keys[5].len() == 14 && keys[6].len() == 10);
    assert(keys[1][0] == 'c' && keys[6][0] == 'p');
    assert forall|i: int| 0 <= i < 7 implies is_key(#[trigger] keys[i]) && allowed(
        "node"@,
        keys[i],
    ) by {
        assert(i == 0 || i == 1 || i == 2 || i == 3 || i == 4 || i == 5 || i == 6);
    }
    assert forall|i: int, j: int| 0 <= i < j < 7 implies #[trigger] keys[i]
        != #[trigger] keys[j] by {
        assert(i == 0 || i == 1 || i == 2 || i == 3 || i == 4 || i == 5 || i == 6);
        assert(j == 0 || j == 1 || j == 2 || j == 3 || j == 4 || j == 5 || j == 6);
    }
}

/// The values of the node's section, in the same order.
spec fn node_values(
    id: u64,
    cluster: Seq<u8>,
    dir: Seq<char>,
    client: Seq<char>,
    peer: Seq<char>,
    metrics: Seq<char>,
    peers: Seq<char>,
) -> Seq<Seq<char>> {
    seq![number_text(id as nat), hex_of(cluster), dir, client, peer, metrics, peers]
}

/// The first `n` settings of the node's section.
spec fn node_pairs(values: Seq<Seq<char>>, n: int) -> Seq<(Seq<char>, Seq<char>)> {
    Seq::new(n as nat, |i: int| (named("node"@, node_keys()[i]), values[i]))
}

/// The lines of the file.
spec fn config_rows(values: Seq<Seq<char>>) -> Seq<Seq<char>> {
    seq![
        "[node]"@,
        plain_row("id"@, values[0]),
        quoted_row("cluster_id"@, values[1]),
        quoted_row("data_dir"@, values[2]),
        quoted_row("listen_client"@, values[3]),
        quoted_row("listen_peer"@, values[4]),
        quoted_row("listen_metrics"@, values[5]),
        quoted_row("peer_nodes"@, values[6]),
        Seq::empty(),
        "[storage]"@,
        quoted_row("fsync"@, "always"@),
    ]
}

/// The rows of the node's section say what its settings are.
proof fn lemma_node_settings(values: Seq<Seq<char>>, n: int)
    requires
        values.len() == 7,
        0 <= n <= 7,
        forall|i: int|
            0 <= i < 7 ==> assigns(
                #[trigger] config_rows(values)[i + 1],
                node_keys()[i],
                values[i],
            ),
    ensures
        settings_from(config_rows(values), 1, "node"@, seq![]) == settings_from(
            config_rows(values),
            n + 1,
            "node"@,
            node_pairs(values, n),
        ),
    decreases n,
{
    lemma_node_keys();
    if n == 0 {
        assert(node_pairs(values, 0) =~= seq![]);
    } else {
        lemma_node_settings(values, n - 1);
        let all = config_rows(values);
        let before = node_pairs(values, n - 1);
        let key = node_keys()[n - 1];
        let name = named("node"@, key);
        assert(assigns(all[(n - 1) + 1], key, values[n - 1]));
        assert forall|k: int| 0 <= k < before.len() implies (#[trigger] before[k]).0 != name by {
            lemma_names_differ("node"@, node_keys()[k], key);
        }
        lemma_absent(before, name, 0);
        assert(before.push((name, values[n - 1])) =~= node_pairs(values, n));
    }
}

proof fn lemma_headings()
    ensures
        trimmed(before_first("[node]"@, '#')) == "[node]"@,
        is_heading("[node]"@),
        heading("[node]"@) == "node"@,
        trimmed(before_first("[storage]"@, '#')) == "[storage]"@,
        is_heading("[storage]"@),
        heading("[storage]"@) == "storage"@,
        "node"@ != "storage"@,
        without_return("[node]"@) == "[node]"@,
        without_return("[storage]"@) == "[storage]"@,
        !"[node]"@.contains('\n'),
        !"[storage]"@.contains('\n'),
{
    reveal_strlit("[node]");
    reveal_strlit("node");
    reveal_strlit("[storage]");
    reveal_strlit("storage");
    lemma_no_comment("[node]"@);
    lemma_no_comment("[storage]"@);
    lemma_nothing_to_trim("[node]"@);
    lemma_nothing_to_trim("[storage]"@);
    assert(heading("[node]"@) =~= "node"@);
    assert(heading("[storage]"@) =~= "storage"@);
}

/// The settings of the file.
spec fn all_pairs(values: Seq<Seq<char>>) -> Seq<(Seq<char>, Seq<char>)> {
    node_pairs(values, 7).push((named("storage"@, "fsync"@), "always"@))
}

proof fn lemma_rows_read(values: Seq<Seq<char>>)
    requires
        values.len() == 7,
        is_word(values[0]),
        !values[0].contains('#'),
        !values[0].contains('"'),
        forall|i: int| 1 <= i < 7 ==> quotable(#[trigger] values[i]),
    ensures
        settings_from(config_rows(values), 0, seq![], seq![]) == Ok::<
            Seq<(Seq<char>, Seq<char>)>,
            FaultView,
        >(all_pairs(values)),
        forall|i: int|
            0 <= i < 11 ==> !(#[trigger] config_rows(values)[i]).contains('\n') && without_return(
                config_rows(values)[i],
            ) == config_rows(values)[i],
{
    lemma_headings();
    lemma_node_keys();
    let all = config_rows(values);
    let keys = node_keys();
    assert(keys[0] == "id"@);
    lemma_plain_row(keys[0], values[0]);
    assert forall|i: int| 0 <= i < 7 implies assigns(#[trigger] all[i + 1], keys[i], values[i])
        && !all[i + 1].contains('\n') && without_return(all[i + 1]) == all[i + 1] by {
        assert(i == 0 || i == 1 || i == 2 || i == 3 || i == 4 || i == 5 || i == 6);
        if i > 0 {
            assert(quotable(values[i]));
            assert(is_key(keys[i]));
            lemma_quoted_row(keys[i], values[i]);
        }
    }
    reveal_strlit("always");
    assert(quotable("always"@));
    lemma_quoted_row("fsync"@, "always"@);
    let none = Seq::<char>::empty();
    assert(all[8] == none);
    lemma_no_comment(none);
    lemma_nothing_to_trim(none);
    assert(without_return(none) == none);
    assert(all[0] == "[node]"@);
    assert(all[9] == "[storage]"@);
    assert(all[10] == quoted_row("fsync"@, "always"@));
    assert forall|i: int| 0 <= i < 11 implies !(#[trigger] all[i]).contains('\n')
        && without_return(all[i]) == all[i] by {
        if 1 <= i <= 7 {
            assert(all[(i - 1) + 1] == all[i]);
        }
    }
    lemma_node_settings(values, 7);
    let pairs = node_pairs(values, 7);
    let name = named("storage"@, "fsync"@);
    assert forall|k: int| 0 <= k < pairs.len() implies (#[trigger] pairs[k]).0 != name by {
        reveal_strlit("node");
        reveal_strlit("storage");
        assert(pairs[k].0[0] == 'n');
        assert(name[0] == 's');
    }
    lemma_absent(pairs, name, 0);
    assert(allowed("storage"@, "fsync"@));
    assert(settings_from(all, 8, "node"@, pairs) == settings_from(all, 9, "node"@, pairs));
    assert(settings_from(all, 9, "node"@, pairs) == settings_from(all, 10, "storage"@, pairs));
    assert(settings_from(all, 10, "storage"@, pairs) == settings_from(
        all,
        11,
        "storage"@,
        all_pairs(values),
    ));
}

/// A run of lines, each with its end.
spec fn rows_text(rows: Seq<Seq<char>>) -> Seq<char>
    decreases rows.len(),
{
    if rows.len() == 0 {
        seq![]
    } else {
        rows_text(rows.drop_last()) + (rows.last() + seq!['\n'])
    }
}

proof fn lemma_rows_text(rows: Seq<Seq<char>>)
    requires
        forall|i: int|
            0 <= i < rows.len() ==> !(#[trigger] rows[i]).contains('\n') && without_return(rows[i])
                == rows[i],
    ensures
        lines(rows_text(rows)) == rows,
        rows_text(rows).len() == 0 || rows_text(rows).last() == '\n',
    decreases rows.len(),
{
    if rows.len() == 0 {
        lemma_first_at(rows_text(rows), '\n');
        assert(lines(rows_text(rows)) =~= rows);
    } else {
        let head = rows.drop_last();
        let row = rows.last();
        assert forall|i: int| 0 <= i < head.len() implies !(#[trigger] head[i]).contains('\n')
            && without_return(head[i]) == head[i] by {
            assert(head[i] == rows[i]);
        }
        lemma_rows_text(head);
        assert(row == rows[rows.len() - 1]);
        lemma_one_line(row);
        lemma_lines_join(rows_text(head), row + seq!['\n']);
        assert(head + seq![row] =~= rows);
    }
}

proof fn lemma_regroup(
    before: Seq<char>,
    key: Seq<char>,
    value: Seq<char>,
    end: Seq<char>,
    next: Seq<char>,
)
    ensures
        (before + key) + value + (end + next) == (before + (key + value + end)) + next,
{
    assert((before + key) + value + (end + next) =~= (before + (key + value + end)) + next);
}

/// A quoted setting with its end, and the front of the next one.
proof fn lemma_next_row(
    rows: Seq<Seq<char>>,
    at: int,
    key: Seq<char>,
    value: Seq<char>,
    next: Seq<char>,
)
    requires
        0 <= at < rows.len(),
        rows[at] == quoted_row(key, value),
    ensures
        (rows_text(rows.take(at)) + (key + seq![' ', '=', ' ', '"'])) + value + (seq!['"', '\n']
            + next) == rows_text(rows.take(at + 1)) + next,
{
    let before = rows_text(rows.take(at));
    let front = key + seq![' ', '=', ' ', '"'];
    lemma_regroup(before, front, value, seq!['"', '\n'], next);
    assert(front + value + seq!['"', '\n'] =~= quoted_row(key, value) + seq!['\n']);
    assert(rows.take(at + 1).drop_last() =~= rows.take(at));
    assert(rows.take(at + 1).last() == rows[at]);
}

proof fn lemma_literals()
    ensures
        "\ncluster_id = \""@ == seq!['\n'] + ("cluster_id"@ + seq![' ', '=', ' ', '"']),
        "\"\ndata_dir = \""@ == seq!['"', '\n'] + ("data_dir"@ + seq![' ', '=', ' ', '"']),
        "\"\nlisten_client = \""@ == seq!['"', '\n'] + ("listen_client"@ + seq![
            ' ',
            '=',
            ' ',
            '"',
        ]),
        "\"\nlisten_peer = \""@ == seq!['"', '\n'] + ("listen_peer"@ + seq![' ', '=', ' ', '"']),
        "\"\nlisten_metrics = \""@ == seq!['"', '\n'] + ("listen_metrics"@ + seq![
            ' ',
            '=',
            ' ',
            '"',
        ]),
        "\"\npeer_nodes = \""@ == seq!['"', '\n'] + ("peer_nodes"@ + seq![' ', '=', ' ', '"']),
        "[node]\nid = "@ == ("[node]"@ + seq!['\n']) + ("id"@ + seq![' ', '=', ' ']),
        "\"\n\n[storage]\nfsync = \"always\"\n"@ == seq!['"', '\n'] + (seq!['\n'] + ("[storage]"@
            + seq!['\n']) + (quoted_row("fsync"@, "always"@) + seq!['\n'])),
{
    reveal_strlit("\ncluster_id = \"");
    reveal_strlit("cluster_id");
    assert("\ncluster_id = \""@ =~= seq!['\n'] + ("cluster_id"@ + seq![' ', '=', ' ', '"']));
    reveal_strlit("\"\ndata_dir = \"");
    reveal_strlit("data_dir");
    assert("\"\ndata_dir = \""@ =~= seq!['"', '\n'] + ("data_dir"@ + seq![' ', '=', ' ', '"']));
    reveal_strlit("\"\nlisten_client = \"");
    reveal_strlit("listen_client");
    assert("\"\nlisten_client = \""@ =~= seq!['"', '\n'] + ("listen_client"@ + seq![
        ' ',
        '=',
        ' ',
        '"',
    ]));
    reveal_strlit("\"\nlisten_peer = \"");
    reveal_strlit("listen_peer");
    assert("\"\nlisten_peer = \""@ =~= seq!['"', '\n'] + ("listen_peer"@ + seq![
        ' ',
        '=',
        ' ',
        '"',
    ]));
    reveal_strlit("\"\nlisten_metrics = \"");
    reveal_strlit("listen_metrics");
    assert("\"\nlisten_metrics = \""@ =~= seq!['"', '\n'] + ("listen_metrics"@ + seq![
        ' ',
        '=',
        ' ',
        '"',
    ]));
    reveal_strlit("\"\npeer_nodes = \"");
    reveal_strlit("peer_nodes");
    assert("\"\npeer_nodes = \""@ =~= seq!['"', '\n'] + ("peer_nodes"@ + seq![
        ' ',
        '=',
        ' ',
        '"',
    ]));
    reveal_strlit("[node]\nid = ");
    reveal_strlit("[node]");
    reveal_strlit("id");
    assert("[node]\nid = "@ =~= ("[node]"@ + seq!['\n']) + ("id"@ + seq![' ', '=', ' ']));
    reveal_strlit("\"\n\n[storage]\nfsync = \"always\"\n");
    reveal_strlit("[storage]");
    reveal_strlit("fsync");
    reveal_strlit("always");
    assert("\"\n\n[storage]\nfsync = \"always\"\n"@ =~= seq!['"', '\n'] + (seq!['\n']
        + ("[storage]"@ + seq!['\n']) + (quoted_row("fsync"@, "always"@) + seq!['\n'])));
}

proof fn lemma_text_is_rows(
    id: u64,
    cluster: Seq<u8>,
    dir: Seq<char>,
    client: Seq<char>,
    peer: Seq<char>,
    metrics: Seq<char>,
    peers: Seq<char>,
)
    ensures
        config_text(id, cluster, dir, client, peer, metrics, peers) == rows_text(
            config_rows(node_values(id, cluster, dir, client, peer, metrics, peers)),
        ),
{
    lemma_literals();
    let values = node_values(id, cluster, dir, client, peer, metrics, peers);
    let rows = config_rows(values);
    let open = seq![' ', '=', ' ', '"'];
    assert(rows.take(0) =~= seq![]);
    assert(rows.take(1).drop_last() =~= rows.take(0));
    assert(rows.take(2).drop_last() =~= rows.take(1));
    let first = rows_text(rows.take(1));
    assert(rows_text(rows.take(0)) =~= seq![]);
    assert(rows.take(1).last() == rows[0] && rows.take(2).last() == rows[1]);
    assert(first =~= "[node]"@ + seq!['\n']);
    let number = number_text(id as nat);
    let plain = "id"@ + seq![' ', '=', ' '];
    let key1 = "cluster_id"@ + open;
    lemma_regroup(first, plain, number, seq!['\n'], key1);
    assert(plain + number + seq!['\n'] =~= rows[1] + seq!['\n']);
    let second = "[node]\nid = "@ + number + "\ncluster_id = \""@;
    assert(second == rows_text(rows.take(2)) + key1);
    lemma_next_row(rows, 2, "cluster_id"@, hex_of(cluster), "data_dir"@ + open);
    lemma_next_row(rows, 3, "data_dir"@, dir, "listen_client"@ + open);
    lemma_next_row(rows, 4, "listen_client"@, client, "listen_peer"@ + open);
    lemma_next_row(rows, 5, "listen_peer"@, peer, "listen_metrics"@ + open);
    lemma_next_row(rows, 6, "listen_metrics"@, metrics, "peer_nodes"@ + open);
    let rest = seq!['\n'] + ("[storage]"@ + seq!['\n']) + (quoted_row("fsync"@, "always"@)
        + seq!['\n']);
    lemma_next_row(rows, 7, "peer_nodes"@, peers, rest);
    assert(rows.take(9).drop_last() =~= rows.take(8));
    assert(rows.take(10).drop_last() =~= rows.take(9));
    assert(rows.take(11).drop_last() =~= rows.take(10));
    assert(rows.take(11) =~= rows);
    let head = rows_text(rows.take(8));
    assert(rows.take(9).last() == Seq::<char>::empty());
    assert(rows_text(rows.take(9)) =~= head + seq!['\n']);
    assert(rows_text(rows.take(10)) == rows_text(rows.take(9)) + ("[storage]"@ + seq!['\n']));
    assert(rows_text(rows.take(11)) == rows_text(rows.take(10)) + (quoted_row(
        "fsync"@,
        "always"@,
    ) + seq!['\n']));
    assert(head + rest =~= rows_text(rows.take(11)));
}

proof fn lemma_number_value(value: nat)
    ensures
        is_word(number_text(value)),
        quotable(number_text(value)),
        !number_text(value).contains('#'),
        !number_text(value).contains('"'),
        !number_text(value).contains(','),
        !number_text(value).contains('@'),
{
    lemma_number_text(value);
    let text = number_text(value);
    assert forall|i: int| 0 <= i < text.len() implies !is_space(#[trigger] text[i]) && text[i]
        != '#' && text[i] != '"' && text[i] != ',' && text[i] != '@' && text[i] != '\n' by {
        assert(decimal_char(text[i]));
    }
    assert(decimal_char(text[0]));
    assert(decimal_char(text[text.len() - 1]));
}

proof fn lemma_hex_value(bytes: Seq<u8>)
    ensures
        forall|i: int|
            0 <= i < hex_of(bytes).len() ==> '0' <= (#[trigger] hex_of(bytes)[i]) <= '9' || 'a'
                <= hex_of(bytes)[i] <= 'f',
    decreases bytes.len(),
{
    if bytes.len() > 0 {
        let head = hex_of(bytes.drop_last());
        lemma_hex_value(bytes.drop_last());
        assert forall|i: int| 0 <= i < hex_of(bytes).len() implies '0' <= (#[trigger] hex_of(
            bytes,
        )[i]) <= '9' || 'a' <= hex_of(bytes)[i] <= 'f' by {
            if i < head.len() {
                assert(hex_of(bytes)[i] == head[i]);
            }
        }
    }
}

proof fn lemma_hex_quotable(bytes: Seq<u8>)
    ensures
        quotable(hex_of(bytes)),
{
    lemma_hex_value(bytes);
    let text = hex_of(bytes);
    if text.len() > 0 {
        assert('0' <= text[text.len() - 1] <= '9' || 'a' <= text[text.len() - 1] <= 'f');
    }
}

proof fn lemma_text_read(
    id: u64,
    cluster: Seq<u8>,
    dir: Seq<char>,
    client: Seq<char>,
    peer: Seq<char>,
    metrics: Seq<char>,
    peers: Seq<char>,
)
    requires
        quotable(dir),
        quotable(client),
        quotable(peer),
        quotable(metrics),
        quotable(peers),
    ensures
        settings_of(config_text(id, cluster, dir, client, peer, metrics, peers)) == Ok::<
            Seq<(Seq<char>, Seq<char>)>,
            FaultView,
        >(all_pairs(node_values(id, cluster, dir, client, peer, metrics, peers))),
{
    let values = node_values(id, cluster, dir, client, peer, metrics, peers);
    lemma_number_value(id as nat);
    lemma_hex_quotable(cluster);
    assert forall|i: int| 1 <= i < 7 implies quotable(#[trigger] values[i]) by {
        assert(i == 1 || i == 2 || i == 3 || i == 4 || i == 5 || i == 6);
    }
    lemma_rows_read(values);
    lemma_text_is_rows(id, cluster, dir, client, peer, metrics, peers);
    lemma_rows_text(config_rows(values));
}

/// A setting of the node is found under its key.
proof fn lemma_found(values: Seq<Seq<char>>, j: int)
    requires
        0 <= j < 7,
    ensures
        setting(all_pairs(values), "node."@ + node_keys()[j]) == Some(values[j]),
{
    let pairs = all_pairs(values);
    let keys = node_keys();
    lemma_node_keys();
    reveal_strlit("node");
    reveal_strlit(".");
    reveal_strlit("node.");
    assert("node"@ + "."@ =~= "node."@);
    assert(pairs[j] == node_pairs(values, 7)[j]);
    assert forall|k: int| 0 <= k < j implies (#[trigger] pairs[k]).0 != named("node"@, keys[j]) by {
        assert(pairs[k] == node_pairs(values, 7)[k]);
        lemma_names_differ("node"@, keys[k], keys[j]);
    }
    lemma_present(pairs, named("node"@, keys[j]), 0, j);
}

/// A configuration file says what it was composed from: the node, the cluster,
/// the directory, the listeners and the members of the list. The values must
/// stand on one line, hold no comment sign and neither begin nor end with a
/// quote, the directory must not climb, and the listeners must resolve.
pub proof fn law_config_reads_back(
    id: u64,
    cluster: ClusterId,
    dir: Seq<char>,
    client: Seq<char>,
    peer: Seq<char>,
    metrics: Seq<char>,
    peers: Seq<char>,
    known: Seq<Seq<char>>,
)
    requires
        id != 0,
        !zero_id(cluster@),
        quotable(dir) && dir.len() > 0 && !climbs(dir),
        quotable(client) && client.len() > 0 && known.contains(client),
        quotable(peer) && peer.len() > 0 && known.contains(peer),
        quotable(metrics) && metrics.len() > 0 && known.contains(metrics),
        quotable(peers),
    ensures
        config_of(config_text(id, cluster@, dir, client, peer, metrics, peers), known)
            == match listed_members(peers, id, known) {
            Err(fault) => Err::<ConfigView, FaultView>(fault),
            Ok(members) => Ok(
                ConfigView {
                    id,
                    cluster_id: cluster@,
                    data_dir: dir,
                    listen_client: client,
                    listen_peer: peer,
                    listen_metrics: metrics,
                    peers: members,
                },
            ),
        },
{
    let values = node_values(id, cluster@, dir, client, peer, metrics, peers);
    lemma_text_read(id, cluster@, dir, client, peer, metrics, peers);
    law_numbers_read_back(id);
    law_cluster_id_reads_back(cluster);
    lemma_found(values, 0);
    lemma_found(values, 1);
    lemma_found(values, 2);
    lemma_found(values, 3);
    lemma_found(values, 4);
    lemma_found(values, 5);
    lemma_found(values, 6);
}

/// One member of a new cluster, as its list names it.
spec fn local_entry(n: nat) -> Seq<char> {
    number_text(n) + "@"@ + local_port((7200 + n) as int)
}

spec fn local_entries(n: nat) -> Seq<Seq<char>> {
    Seq::new(n, |i: int| local_entry((i + 1) as nat))
}

/// The members of a new cluster on one machine.
pub open spec fn local_members(n: nat) -> Seq<PeerView> {
    Seq::new(n, |i: int| PeerView { id: (i + 1) as u64, address: local_port(7201 + i) })
}

proof fn lemma_local_port(port: int)
    requires
        port >= 0,
    ensures
        local_port(port).len() > 0,
        quotable(local_port(port)),
        is_word(local_port(port)),
        !local_port(port).contains(','),
        !local_port(port).contains('@'),
{
    reveal_strlit("127.0.0.1:");
    lemma_number_text(port as nat);
    let host = "127.0.0.1:"@;
    let number = number_text(port as nat);
    let text = local_port(port);
    assert forall|i: int| 0 <= i < text.len() implies !is_space(#[trigger] text[i]) && text[i]
        != '#' && text[i] != '"' && text[i] != ',' && text[i] != '@' && text[i] != '\n' by {
        if i < host.len() {
            assert(text[i] == host[i]);
        } else {
            assert(text[i] == number[i - host.len()]);
            assert(decimal_char(number[i - host.len()]));
        }
    }
    assert(text[text.len() - 1] != '"');
}

proof fn lemma_local_entry(n: nat)
    ensures
        local_entry(n).len() > 0,
        is_word(local_entry(n)),
        !local_entry(n).contains(','),
        trimmed(local_entry(n)) == local_entry(n),
        split_at_first(local_entry(n), '@') == Some(
            (number_text(n), local_port((7200 + n) as int)),
        ),
        forall|i: int|
            0 <= i < local_entry(n).len() ==> (#[trigger] local_entry(n)[i]) != '#'
                && local_entry(n)[i] != '"' && local_entry(n)[i] != '\n',
{
    reveal_strlit("@");
    let entry = local_entry(n);
    let number = number_text(n);
    let address = local_port((7200 + n) as int);
    lemma_number_value(n);
    lemma_local_port((7200 + n) as int);
    assert("@"@ =~= seq!['@']);
    assert(entry =~= number + seq!['@'] + address);
    lemma_split_front(number, '@', address);
    assert forall|i: int| 0 <= i < entry.len() implies !is_space(#[trigger] entry[i]) && entry[i]
        != ',' && entry[i] != '#' && entry[i] != '"' && entry[i] != '\n' by {
        if i < number.len() {
            assert(entry[i] == number[i]);
            assert(number.contains(number[i]));
            assert(!is_space(number[i]));
        } else if i > number.len() {
            let k = i - number.len() - 1;
            assert(entry[i] == address[k]);
            assert(address.contains(address[k]));
            assert(!is_space(address[k]));
            reveal_strlit("127.0.0.1:");
            if k < "127.0.0.1:"@.len() {
                assert(address[k] == "127.0.0.1:"@[k]);
            } else {
                lemma_number_text((7200 + n) as nat);
                let port = number_text((7200 + n) as nat);
                assert(address[k] == port[k - "127.0.0.1:"@.len()]);
                assert(decimal_char(port[k - "127.0.0.1:"@.len()]));
            }
        }
    }
    assert(!is_space(entry[0]) && !is_space(entry[entry.len() - 1]));
    lemma_nothing_to_trim(entry);
}

proof fn lemma_local_list(n: nat)
    requires
        n > 0,
    ensures
        local_peers(n) == joined_by(local_entries(n), seq![',']),
        quotable(local_peers(n)),
    decreases n,
{
    reveal_strlit(",");
    assert(","@ =~= seq![',']);
    let entries = local_entries(n);
    let text = local_peers(n);
    lemma_local_entry(n);
    if n == 1 {
        assert(entries.len() == 1);
        assert(joined_by(entries, seq![',']) == entries[0]);
        assert(text == local_entry(1));
        assert(text[0] != '"' && text[text.len() - 1] != '"');
    } else {
        let before = (n - 1) as nat;
        lemma_local_list(before);
        assert(entries.drop_last() =~= local_entries(before));
        assert(entries.last() == local_entry(n));
        let head = local_peers(before);
        let entry = local_entry(n);
        assert(text =~= head + seq![','] + entry);
        lemma_local_first(before);
        assert(text[0] == head[0]);
        assert(text.last() == entry[entry.len() - 1]);
        assert forall|i: int| 0 <= i < text.len() implies text[i] != '\n' && text[i] != '#' by {
            if i < head.len() {
                assert(text[i] == head[i]);
                assert(head.contains(head[i]));
            } else if i > head.len() {
                assert(text[i] == entry[i - head.len() - 1]);
            }
        }
    }
}

proof fn lemma_local_first(n: nat)
    requires
        n > 0,
    ensures
        local_peers(n).len() > 0,
        local_peers(n)[0] != '"',
    decreases n,
{
    lemma_local_entry(n);
    if n == 1 {
        assert(local_peers(1) == local_entry(1));
        assert(local_entry(1)[0] != '"');
    } else {
        lemma_local_first((n - 1) as nat);
        assert(local_peers(n)[0] == local_peers((n - 1) as nat)[0]);
    }
}

proof fn lemma_entries_stand(parts: Seq<Seq<char>>)
    requires
        forall|i: int|
            0 <= i < parts.len() ==> (#[trigger] parts[i]).len() > 0 && trimmed(parts[i])
                == parts[i],
    ensures
        entries_of(parts) == parts,
    decreases parts.len(),
{
    if parts.len() == 0 {
        assert(entries_of(parts) =~= parts);
    } else {
        let head = parts.drop_last();
        assert forall|i: int| 0 <= i < head.len() implies (#[trigger] head[i]).len() > 0
            && trimmed(head[i]) == head[i] by {
            assert(head[i] == parts[i]);
        }
        lemma_entries_stand(head);
        assert(parts.last() == parts[parts.len() - 1]);
        assert(head.push(parts.last()) =~= parts);
    }
}

proof fn lemma_local_members(n: nat, k: int, id: u64, known: Seq<Seq<char>>)
    requires
        0 <= k <= n < u64::MAX,
        forall|i: int| 0 <= i < n ==> known.contains(#[trigger] local_port(7201 + i)),
    ensures
        peers_of(local_entries(n), k, id, known) == Ok::<Seq<PeerView>, FaultView>(
            local_members(k as nat),
        ),
    decreases k,
{
    if k == 0 {
        assert(local_members(0) =~= seq![]);
    } else {
        lemma_local_members(n, k - 1, id, known);
        lemma_local_entry(k as nat);
        let entries = local_entries(n);
        assert(entries[k - 1] == local_entry(k as nat));
        law_numbers_read_back(k as u64);
        assert(known.contains(local_port(7201 + (k - 1))));
        assert(local_members((k - 1) as nat).push(
            PeerView { id: k as u64, address: local_port(7200 + k) },
        ) =~= local_members(k as nat));
    }
}

proof fn lemma_ports_differ(a: int, b: int)
    requires
        0 <= a <= u64::MAX,
        0 <= b <= u64::MAX,
        a != b,
    ensures
        local_port(a) != local_port(b),
{
    law_numbers_read_back(a as u64);
    law_numbers_read_back(b as u64);
    let n = "127.0.0.1:"@.len() as int;
    assert(local_port(a).skip(n) =~= number_text(a as nat));
    assert(local_port(b).skip(n) =~= number_text(b as nat));
}

/// The configuration of every node of a new cluster reads back: it names the
/// node, the cluster and the directory, and all nodes as members.
pub proof fn law_initial_config_reads_back(
    node: u64,
    nodes: u64,
    cluster: ClusterId,
    dir: Seq<char>,
    known: Seq<Seq<char>>,
)
    requires
        1 <= node <= nodes <= u64::MAX - 7300,
        !zero_id(cluster@),
        quotable(dir) && dir.len() > 0 && !climbs(dir),
        known.contains(local_port(7100 + node)),
        known.contains(local_port(7300 + node)),
        forall|i: int| 0 <= i < nodes ==> known.contains(#[trigger] local_port(7201 + i)),
    ensures
        config_of(initial_config(node, nodes, cluster@, dir), known) == Ok::<ConfigView, FaultView>(
            ConfigView {
                id: node,
                cluster_id: cluster@,
                data_dir: dir,
                listen_client: local_port(7100 + node),
                listen_peer: local_port(7200 + node),
                listen_metrics: local_port(7300 + node),
                peers: local_members(nodes as nat),
            },
        ),
{
    let n = nodes as nat;
    let entries = local_entries(n);
    let list = local_peers(n);
    lemma_local_list(n);
    lemma_local_port(7100 + node);
    lemma_local_port(7200 + node);
    lemma_local_port(7300 + node);
    assert(known.contains(local_port(7201 + (node - 1))));
    assert forall|i: int| 0 <= i < entries.len() implies !(#[trigger] entries[i]).contains(',')
        && entries[i].len() > 0 && trimmed(entries[i]) == entries[i] by {
        lemma_local_entry((i + 1) as nat);
    }
    law_pieces_come_apart(entries, ',');
    lemma_entries_stand(entries);
    lemma_local_members(n, n as int, node, known);
    let members = local_members(n);
    assert forall|i: int, j: int| 0 <= i < j < members.len() implies (#[trigger] members[i]).id != (
    #[trigger] members[j]).id && members[i].address != members[j].address by {
        lemma_ports_differ(7201 + i, 7201 + j);
    }
    assert(distinct_peers(members));
    law_config_reads_back(
        node,
        cluster,
        dir,
        local_port(7100 + node),
        local_port(7200 + node),
        local_port(7300 + node),
        list,
        known,
    );
}

/// The configuration of a restored node reads back: it names the node, the
/// cluster and the directory, and the node as the only member.
pub proof fn law_restored_config_reads_back(
    dir: Seq<char>,
    cluster: ClusterId,
    node: u64,
    known: Seq<Seq<char>>,
)
    requires
        1 <= node,
        !zero_id(cluster@),
        quotable(dir) && dir.len() > 0 && !climbs(dir),
        known.contains(local_port(7100 + node)),
        known.contains(local_port(7200 + node)),
        known.contains(local_port(7300 + node)),
    ensures
        restored_config(dir, cluster@, node) matches Ok(text) ==> config_of(text, known) == Ok::<
            ConfigView,
            FaultView,
        >(
            ConfigView {
                id: node,
                cluster_id: cluster@,
                data_dir: dir,
                listen_client: local_port(7100 + node),
                listen_peer: local_port(7200 + node),
                listen_metrics: local_port(7300 + node),
                peers: seq![PeerView { id: node, address: local_port(7200 + node) }],
            },
        ),
{
    lemma_local_port(7100 + node);
    lemma_local_port(7200 + node);
    lemma_local_port(7300 + node);
    let list = local_port(7200 + node);
    let entries = seq![list];
    assert(joined_by(entries, seq![',']) == list);
    law_pieces_come_apart(entries, ',');
    assert(!is_space(list[0]) && !is_space(list[list.len() - 1]));
    lemma_nothing_to_trim(list);
    lemma_entries_stand(entries);
    lemma_first_at(list, '@');
    assert(split_at_first(list, '@') is None) by {
        if first_at(list, '@') < list.len() {
            assert(list.contains(list[first_at(list, '@') as int]));
        }
    }
    let alone = seq![PeerView { id: node, address: list }];
    assert(peers_of(entries, 0, node, known) == Ok::<Seq<PeerView>, FaultView>(seq![]));
    assert(Seq::<PeerView>::empty().push(PeerView { id: node, address: list }) =~= alone);
    assert(peers_of(entries, 1, node, known) == Ok::<Seq<PeerView>, FaultView>(alone));
    law_config_reads_back(
        node,
        cluster,
        dir,
        local_port(7100 + node),
        local_port(7200 + node),
        local_port(7300 + node),
        list,
        known,
    );
}

} // verus!
