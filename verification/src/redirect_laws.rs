//! Where a client ends that is sent on: what a node that follows says is what
//! the tools go by.
use vstd::prelude::*;
use vstd::string::*;

use crate::client::{
    admin_failure, admin_shown, failure_fault, ActionView, AdminResultTag, SubmitFailure,
};
use crate::kv::KvReply;
use crate::prose::number_text;
use crate::redirect::{
    admin_reply, info_reply, leader_searched, one_line, searched, LeaderStepView, SearchView,
    StepView,
};
use crate::report::info_text;
use crate::resp::RespView;
use crate::serving::{submission_is, Submitted};
use crate::status_laws::{decimal_char, lemma_number_text};
use crate::text::lossy_of;
use crate::words::{
    first_behind, is_space, is_word, joined_by, law_words_come_apart, lemma_word_front, words,
};

verus! {

/// A number is one word, alone and behind another.
proof fn lemma_numbered_word(head: Seq<char>, value: nat)
    requires
        is_word(head),
    ensures
        is_word(head + number_text(value)),
{
    lemma_number_text(value);
    let digits = number_text(value);
    let text = head + digits;
    assert forall|i: int| 0 <= i < text.len() implies !is_space(#[trigger] text[i]) by {
        if i < head.len() {
            assert(text[i] == head[i]);
        } else {
            assert(text[i] == digits[i - head.len()]);
            assert(decimal_char(digits[i - head.len()]));
        }
    }
}

/// Two words without a space between them are one.
proof fn lemma_words_join(a: Seq<char>, b: Seq<char>)
    requires
        is_word(a),
        is_word(b),
    ensures
        is_word(a + b),
{
    let text = a + b;
    assert forall|i: int| 0 <= i < text.len() implies !is_space(#[trigger] text[i]) by {
        if i < a.len() {
            assert(text[i] == a[i]);
        } else {
            assert(text[i] == b[i - a.len()]);
        }
    }
}

/// A word alone is the only one.
proof fn lemma_lone_word(word: Seq<char>)
    requires
        is_word(word),
    ensures
        words(word) == seq![word],
{
    let parts = seq![word];
    assert forall|i: int| 0 <= i < parts.len() implies is_word(#[trigger] parts[i]) by {}
    law_words_come_apart(parts);
    assert(joined_by(parts, seq![' ']) =~= word);
}

/// A refusal of a node that does not lead names an address.
proof fn lemma_refusal_names(leader: u64, address: Seq<char>)
    requires
        is_word(address),
    ensures
        first_behind(
            words("NOTLEADER leader=n"@ + number_text(leader as nat) + " addr="@ + address),
            "addr="@,
            0,
        ) == Some(address),
{
    let message = "NOTLEADER leader=n"@ + number_text(leader as nat) + " addr="@ + address;
    let name = "NOTLEADER"@;
    let led = "leader=n"@ + number_text(leader as nat);
    let at = "addr="@ + address;
    reveal_strlit("NOTLEADER");
    reveal_strlit("leader=n");
    reveal_strlit("addr=");
    reveal_strlit("NOTLEADER leader=n");
    reveal_strlit(" addr=");
    lemma_numbered_word("leader=n"@, leader as nat);
    lemma_words_join("addr="@, address);
    let rest = led + seq![' '] + at;
    assert(message =~= name + seq![' '] + rest);
    lemma_word_front(name, rest);
    lemma_word_front(led, at);
    lemma_lone_word(at);
    let parts = words(message);
    assert(parts =~= seq![name, led, at]);
    assert(parts[0][0] == 'N');
    assert(parts[1][0] == 'l');
    assert("addr="@[0] == 'a');
    assert("addr="@.is_prefix_of(at));
    assert(at.skip(5) =~= address);
    assert(first_behind(parts, "addr="@, 2) == Some(address));
    assert(first_behind(parts, "addr="@, 1) == Some(address));
}

/// A submission to a node that does not lead is refused, and the refusal sends a
/// search to the node that leads, at the address where its clients go, as long as
/// that address was not asked before and one more may be. Where nobody is known to
/// lead, the search ends with the refusal.
pub proof fn law_refusals_send_to_the_leader(
    search: SearchView,
    known: Option<(u64, String)>,
    result: Result<KvReply, SubmitFailure>,
)
    requires
        submission_is(result, Submitted::NotLeader(known)),
        known matches Some(leader) ==> is_word(leader.1@) && leader.1@ != "unknown"@
            && !search.seen.contains(leader.1@),
        search.seen.len() < 4,
    ensures
        result matches Err(failure) && {
            let step = searched(search, Some(Err(failure_fault(failure)))).1;
            match known {
                Some(leader) => step == StepView::Ask(leader.1@),
                None => step == StepView::Fail(failure_fault(failure)),
            }
        },
{
    assert(is_word("unknown"@)) by {
        reveal_strlit("unknown");
    }
    if let Err(SubmitFailure::NotLeader { leader, address }) = result {
        lemma_refusal_names(leader, address@);
    }
}

/// Texts that follow one another are put on one line each.
proof fn lemma_one_line_join(a: Seq<char>, b: Seq<char>)
    ensures
        one_line(a + b) == one_line(a) + one_line(b),
    decreases b.len(),
{
    if b.len() == 0 {
        assert(a + b =~= a);
        assert(one_line(a) + one_line(b) =~= one_line(a));
    } else {
        lemma_one_line_join(a, b.drop_last());
        assert((a + b).drop_last() =~= a + b.drop_last());
        assert((a + b).last() == b.last());
        assert(one_line(a + b) =~= one_line(a) + one_line(b));
    }
}

/// A word stands on one line.
proof fn lemma_one_line_word(word: Seq<char>)
    requires
        is_word(word),
    ensures
        one_line(word) == word,
    decreases word.len(),
{
    assert(!is_space(word[word.len() - 1]));
    let front = word.drop_last();
    if front.len() == 0 {
        assert(one_line(front) =~= front);
    } else {
        assert forall|i: int| 0 <= i < front.len() implies !is_space(#[trigger] front[i]) by {
            assert(front[i] == word[i]);
        }
        lemma_one_line_word(front);
    }
    assert(one_line(word) =~= front.push(word.last()));
    assert(front.push(word.last()) =~= word);
}

/// A word with a line's end in front of it is a word behind a space.
proof fn lemma_row(row: Seq<char>, rest: Seq<char>)
    requires
        is_word(row),
    ensures
        one_line(row + seq!['\r', '\n'] + rest) == row + seq![' '] + one_line(rest),
        words(one_line(row + seq!['\r', '\n'] + rest)) == seq![row] + words(one_line(rest)),
{
    let end = seq!['\r', '\n'];
    assert(end.drop_last() =~= seq!['\r']);
    assert(seq!['\r'].drop_last() =~= Seq::<char>::empty());
    assert(one_line(Seq::<char>::empty()) =~= Seq::<char>::empty());
    assert(one_line(seq!['\r']) =~= Seq::<char>::empty());
    assert(one_line(end) =~= seq![' ']);
    lemma_one_line_join(row + end, rest);
    lemma_one_line_join(row, end);
    lemma_one_line_word(row);
    lemma_word_front(row, one_line(rest));
}

/// The rows of a text, each with its end.
spec fn rows(items: Seq<Seq<char>>) -> Seq<char>
    decreases items.len(),
{
    if items.len() == 0 {
        seq![]
    } else {
        items[0] + seq!['\r', '\n'] + rows(items.drop_first())
    }
}

/// Rows of one word each come apart into those words.
proof fn lemma_rows(items: Seq<Seq<char>>)
    requires
        forall|i: int| 0 <= i < items.len() ==> is_word(#[trigger] items[i]),
    ensures
        words(one_line(rows(items))) == items,
    decreases items.len(),
{
    if items.len() == 0 {
        law_words_come_apart(items);
        assert(joined_by(items, seq![' ']) =~= seq![]);
        assert(one_line(rows(items)) =~= seq![]);
    } else {
        let rest = items.drop_first();
        assert forall|i: int| 0 <= i < rest.len() implies is_word(#[trigger] rest[i]) by {
            assert(rest[i] == items[i + 1]);
        }
        lemma_rows(rest);
        assert(is_word(items[0]));
        lemma_row(items[0], rows(rest));
        assert(seq![items[0]] + rest =~= items);
    }
}

/// One row more, in front of rows that follow.
proof fn lemma_row_front(front: Seq<char>, key: Seq<char>, value: Seq<char>, items: Seq<Seq<char>>)
    ensures
        front + key + value + seq!['\r', '\n'] + rows(items) == front + rows(
            seq![key + value] + items,
        ),
{
    assert((seq![key + value] + items).drop_first() =~= items);
    assert(front + key + value + seq!['\r', '\n'] + rows(items) =~= front + (key + value + seq![
        '\r',
        '\n',
    ] + rows(items)));
}

/// What a node says of itself, as rows.
proof fn lemma_info_rows(
    version: Seq<char>,
    id: u64,
    leader: u64,
    address: Seq<char>,
    commit: u64,
    applied: u64,
)
    ensures
        info_text(version, id, leader, address, commit, applied) == seq!['#', ' '] + rows(
            seq![
                "Server"@,
                "ccdb_version:"@ + version,
                "mode:shared-driver"@,
                "role:"@ + (if leader == id {
                    "leader"@
                } else {
                    "follower"@
                }),
                "leader:n"@ + number_text(leader as nat),
                "leader_client_addr:"@ + address,
                "commit:"@ + number_text(commit as nat),
                "applied:"@ + number_text(applied as nat),
            ],
        ),
{
    let role = if leader == id {
        "leader"@
    } else {
        "follower"@
    };
    let n = number_text(leader as nat);
    let c = number_text(commit as nat);
    let a = number_text(applied as nat);
    let end = seq!['\r', '\n'];
    let f0 = seq!['#', ' '];
    assert("# Server\r\nccdb_version:"@ =~= f0 + "Server"@ + end + "ccdb_version:"@) by {
        reveal_strlit("# Server\r\nccdb_version:");
        reveal_strlit("Server");
        reveal_strlit("ccdb_version:");
    }
    assert("\r\nmode:shared-driver\r\nrole:"@ =~= end + "mode:shared-driver"@ + end + "role:"@) by {
        reveal_strlit("\r\nmode:shared-driver\r\nrole:");
        reveal_strlit("mode:shared-driver");
        reveal_strlit("role:");
    }
    assert("\r\nleader:n"@ =~= end + "leader:n"@) by {
        reveal_strlit("\r\nleader:n");
        reveal_strlit("leader:n");
    }
    assert("\r\nleader_client_addr:"@ =~= end + "leader_client_addr:"@) by {
        reveal_strlit("\r\nleader_client_addr:");
        reveal_strlit("leader_client_addr:");
    }
    assert("\r\ncommit:"@ =~= end + "commit:"@) by {
        reveal_strlit("\r\ncommit:");
        reveal_strlit("commit:");
    }
    assert("\r\napplied:"@ =~= end + "applied:"@) by {
        reveal_strlit("\r\napplied:");
        reveal_strlit("applied:");
    }
    assert("\r\n"@ =~= end) by {
        reveal_strlit("\r\n");
    }
    let nil = Seq::<char>::empty();
    let f1 = f0 + "Server"@ + nil + end;
    let f2 = f1 + "ccdb_version:"@ + version + end;
    let f3 = f2 + "mode:shared-driver"@ + nil + end;
    let f4 = f3 + "role:"@ + role + end;
    let f5 = f4 + "leader:n"@ + n + end;
    let f6 = f5 + "leader_client_addr:"@ + address + end;
    let f7 = f6 + "commit:"@ + c + end;
    let f8 = f7 + "applied:"@ + a + end;
    let head = "# Server\r\nccdb_version:"@ + version + "\r\nmode:shared-driver\r\nrole:"@ + role;
    assert(head =~= f3 + "role:"@ + role);
    let told = head + "\r\nleader:n"@ + n;
    assert(told =~= f4 + "leader:n"@ + n);
    let routed = told + "\r\nleader_client_addr:"@ + address;
    assert(routed =~= f5 + "leader_client_addr:"@ + address);
    let counted = routed + "\r\ncommit:"@ + c;
    assert(counted =~= f6 + "commit:"@ + c);
    let done = counted + "\r\napplied:"@ + a;
    assert(done =~= f7 + "applied:"@ + a);
    assert(info_text(version, id, leader, address, commit, applied) == f8);
    let r8 = Seq::<Seq<char>>::empty();
    let r7 = seq!["applied:"@ + a] + r8;
    let r6 = seq!["commit:"@ + c] + r7;
    let r5 = seq!["leader_client_addr:"@ + address] + r6;
    let r4 = seq!["leader:n"@ + n] + r5;
    let r3 = seq!["role:"@ + role] + r4;
    let r2 = seq!["mode:shared-driver"@ + nil] + r3;
    let r1 = seq!["ccdb_version:"@ + version] + r2;
    let r0 = seq!["Server"@ + nil] + r1;
    assert(f8 + rows(r8) =~= f8);
    lemma_row_front(f7, "applied:"@, a, r8);
    lemma_row_front(f6, "commit:"@, c, r7);
    lemma_row_front(f5, "leader_client_addr:"@, address, r6);
    lemma_row_front(f4, "leader:n"@, n, r5);
    lemma_row_front(f3, "role:"@, role, r4);
    lemma_row_front(f2, "mode:shared-driver"@, nil, r3);
    lemma_row_front(f1, "ccdb_version:"@, version, r2);
    lemma_row_front(f0, "Server"@, nil, r1);
    assert("Server"@ + nil =~= "Server"@);
    assert("mode:shared-driver"@ + nil =~= "mode:shared-driver"@);
    assert(r0 =~= seq![
        "Server"@,
        "ccdb_version:"@ + version,
        "mode:shared-driver"@,
        "role:"@ + role,
        "leader:n"@ + n,
        "leader_client_addr:"@ + address,
        "commit:"@ + c,
        "applied:"@ + a,
    ]);
}

/// What a node says of itself comes apart into a heading and the fields.
proof fn lemma_info_words(
    version: Seq<char>,
    id: u64,
    leader: u64,
    address: Seq<char>,
    commit: u64,
    applied: u64,
)
    requires
        is_word(version),
        is_word(address),
    ensures
        words(one_line(info_text(version, id, leader, address, commit, applied))) == seq![
            "#"@,
            "Server"@,
            "ccdb_version:"@ + version,
            "mode:shared-driver"@,
            "role:"@ + (if leader == id {
                "leader"@
            } else {
                "follower"@
            }),
            "leader:n"@ + number_text(leader as nat),
            "leader_client_addr:"@ + address,
            "commit:"@ + number_text(commit as nat),
            "applied:"@ + number_text(applied as nat),
        ],
{
    let text = info_text(version, id, leader, address, commit, applied);
    let role = if leader == id {
        "leader"@
    } else {
        "follower"@
    };
    let n = number_text(leader as nat);
    let c = number_text(commit as nat);
    let a = number_text(applied as nat);
    let i7 = "applied:"@ + a;
    let i6 = "commit:"@ + c;
    let i5 = "leader_client_addr:"@ + address;
    let i4 = "leader:n"@ + n;
    let i3 = "role:"@ + role;
    let i2 = "mode:shared-driver"@;
    let i1 = "ccdb_version:"@ + version;
    let i0 = "Server"@;
    assert(is_word("#"@) && "#"@ =~= seq!['#']) by {
        reveal_strlit("#");
    }
    assert(is_word(i0)) by {
        reveal_strlit("Server");
    }
    assert(is_word(i1)) by {
        reveal_strlit("ccdb_version:");
        lemma_words_join("ccdb_version:"@, version);
    }
    assert(is_word(i2)) by {
        reveal_strlit("mode:shared-driver");
    }
    assert(is_word(i3)) by {
        reveal_strlit("role:");
        reveal_strlit("leader");
        reveal_strlit("follower");
        lemma_words_join("role:"@, role);
    }
    assert(is_word(i4)) by {
        reveal_strlit("leader:n");
        lemma_numbered_word("leader:n"@, leader as nat);
    }
    assert(is_word(i5)) by {
        reveal_strlit("leader_client_addr:");
        lemma_words_join("leader_client_addr:"@, address);
    }
    assert(is_word(i6)) by {
        reveal_strlit("commit:");
        lemma_numbered_word("commit:"@, commit as nat);
    }
    assert(is_word(i7)) by {
        reveal_strlit("applied:");
        lemma_numbered_word("applied:"@, applied as nat);
    }
    let items = seq![i0, i1, i2, i3, i4, i5, i6, i7];
    lemma_rows(items);
    let body = rows(items);
    lemma_info_rows(version, id, leader, address, commit, applied);
    assert(text =~= seq!['#', ' '] + body);
    lemma_one_line_join(seq!['#', ' '], body);
    assert(one_line(seq!['#', ' ']) =~= seq!['#', ' ']) by {
        assert(seq!['#', ' '].drop_last() =~= seq!['#']);
        assert(seq!['#'].drop_last() =~= Seq::<char>::empty());
        assert(one_line(Seq::<char>::empty()) =~= Seq::<char>::empty());
        assert(one_line(seq!['#']) =~= seq!['#']);
    }
    assert(one_line(text) =~= "#"@ + seq![' '] + one_line(body));
    lemma_word_front("#"@, one_line(body));
    assert(seq!["#"@] + items =~= seq!["#"@, i0, i1, i2, i3, i4, i5, i6, i7]);
}

/// A search for the leader goes from a node that follows to the address that its
/// information names, and ends at a node that leads.
pub proof fn law_information_leads_to_the_leader(
    current: Seq<char>,
    hops: nat,
    version: Seq<char>,
    id: u64,
    leader: u64,
    address: Seq<char>,
    commit: u64,
    applied: u64,
)
    requires
        is_word(version),
        is_word(address),
        address != current,
        hops < 4,
    ensures
        ({
            let response = one_line(info_text(version, id, leader, address, commit, applied));
            leader_searched(current, hops, Some(Ok(response))).2 == if leader == id {
                LeaderStepView::Found { address: current, response }
            } else {
                LeaderStepView::Ask(address)
            }
        }),
{
    lemma_info_words(version, id, leader, address, commit, applied);
    let response = one_line(info_text(version, id, leader, address, commit, applied));
    let parts = words(response);
    let role = if leader == id {
        "leader"@
    } else {
        "follower"@
    };
    assert(first_behind(parts, "role"@ + ":"@, 0) == Some(role)) by {
        assert("role"@ + ":"@ =~= "role:"@ && "role:"@.len() == 5 && "role:"@[0] == 'r') by {
            reveal_strlit("role");
            reveal_strlit(":");
            reveal_strlit("role:");
        }
        let key = "role"@ + ":"@;
        assert(parts[0][0] == '#') by {
            reveal_strlit("#");
        }
        assert(parts[1][0] == 'S') by {
            reveal_strlit("Server");
        }
        assert(parts[2][0] == 'c') by {
            reveal_strlit("ccdb_version:");
        }
        assert(parts[3][0] == 'm') by {
            reveal_strlit("mode:shared-driver");
        }
        assert(key.is_prefix_of(parts[4]));
        assert(parts[4].skip(5) =~= role);
        assert(first_behind(parts, key, 4) == Some(role));
        assert(first_behind(parts, key, 3) == Some(role));
        assert(first_behind(parts, key, 2) == Some(role));
        assert(first_behind(parts, key, 1) == Some(role));
    }
    assert("leader"@ != "follower"@) by {
        reveal_strlit("leader");
        reveal_strlit("follower");
        assert("leader"@.len() != "follower"@.len());
    }
    assert(first_behind(parts, "leader_client_addr"@ + ":"@, 0) == Some(address)) by {
        let key = "leader_client_addr"@ + ":"@;
        assert(key =~= "leader_client_addr:"@ && key.len() == 19 && key[0] == 'l' && key[6] == '_') by {
            reveal_strlit("leader_client_addr");
            reveal_strlit(":");
            reveal_strlit("leader_client_addr:");
        }
        assert(parts[0][0] == '#') by {
            reveal_strlit("#");
        }
        assert(parts[1][0] == 'S') by {
            reveal_strlit("Server");
        }
        assert(parts[2][0] == 'c') by {
            reveal_strlit("ccdb_version:");
        }
        assert(parts[3][0] == 'm') by {
            reveal_strlit("mode:shared-driver");
        }
        assert(parts[4][0] == 'r') by {
            reveal_strlit("role:");
        }
        assert(parts[5][6] == ':') by {
            reveal_strlit("leader:n");
        }
        assert(key.is_prefix_of(parts[6]));
        assert(parts[6].skip(19) =~= address);
        assert(first_behind(parts, key, 6) == Some(address));
        assert(first_behind(parts, key, 5) == Some(address));
        assert(first_behind(parts, key, 4) == Some(address));
        assert(first_behind(parts, key, 3) == Some(address));
        assert(first_behind(parts, key, 2) == Some(address));
        assert(first_behind(parts, key, 1) == Some(address));
    }
}

/// What an operator's tool makes of the reply to a change: a change that was applied and
/// a transfer that succeeded are good news, and everything else is a refusal. Either way
/// it says what came of the request, where, and why.
pub proof fn law_operators_are_told_what_came_of_it(
    tag: AdminResultTag,
    source_index: u64,
    detail: Seq<char>,
)
    ensures
        ({
            let answer = admin_reply(admin_shown(tag, source_index, detail));
            let rest = " source_index="@ + number_text(source_index as nat) + " detail="@ + detail;
            match tag {
                AdminResultTag::Applied => answer matches Some(Ok(text)) && text =~= "result="@
                    + "Applied"@ + rest,
                AdminResultTag::TransferSuccess => answer matches Some(Ok(text)) && text
                    =~= "result="@ + "TransferSuccess"@ + rest,
                AdminResultTag::InProgress => answer matches Some(Err(fault)) && fault.message
                    =~= "INPROGRESS "@ + ("result="@ + "InProgress"@ + rest),
                AdminResultTag::RequestConflict => answer matches Some(Err(fault))
                    && fault.message =~= "REQUESTCONFLICT "@ + ("result="@ + "RequestConflict"@
                    + rest),
                AdminResultTag::RequestExpired => answer matches Some(Err(fault)) && fault.message
                    =~= "REQUESTEXPIRED "@ + ("result="@ + "RequestExpired"@ + rest),
                AdminResultTag::TransferTimeout => answer matches Some(Err(fault))
                    && fault.message =~= "result="@ + "TransferTimeout"@ + rest,
                AdminResultTag::TransferSuperseded => answer matches Some(Err(fault))
                    && fault.message =~= "result="@ + "TransferSuperseded"@ + rest,
                AdminResultTag::Rejected => answer matches Some(Err(fault)) && fault.message
                    =~= "result="@ + "Rejected"@ + rest,
            }
        }),
{
}

/// An operator whose change reaches a node that does not lead is sent on: the reply is a
/// refusal, and a search that takes it up asks the address that it names. Without an
/// answer in time nobody knows what came of the request, and the reply says which one it
/// was.
pub proof fn law_operators_are_sent_to_the_leader(
    search: SearchView,
    leader: u64,
    address: String,
    operator_id: u64,
    sequence: u64,
)
    requires
        is_word(address@),
        address@ != "unknown"@,
        !search.seen.contains(address@),
        search.seen.len() < 4,
    ensures
        admin_failure(SubmitFailure::NotLeader { leader, address }, operator_id, sequence) matches
            ActionView::Reply(reply) && (admin_reply(reply) matches Some(Err(fault)) && searched(
            search,
            Some(Err(fault)),
        ).1 == StepView::Ask(address@)),
        admin_failure(SubmitFailure::Timeout, operator_id, sequence) == ActionView::Reply(
            RespView::Error(
                "UNKNOWN operator_id="@ + number_text(operator_id as nat) + " sequence="@
                    + number_text(sequence as nat),
            ),
        ),
{
    let message = "NOTLEADER addr="@ + address@;
    let name = "NOTLEADER"@;
    let at = "addr="@ + address@;
    reveal_strlit("NOTLEADER");
    reveal_strlit("addr=");
    reveal_strlit("NOTLEADER addr=");
    lemma_words_join("addr="@, address@);
    assert(message =~= name + seq![' '] + at);
    lemma_word_front(name, at);
    lemma_lone_word(at);
    let parts = words(message);
    assert(parts =~= seq![name, at]);
    assert(parts[0][0] == 'N' && "addr="@[0] == 'a');
    assert("addr="@.is_prefix_of(at));
    assert(at.skip(5) =~= address@);
    assert(first_behind(parts, "addr="@, 1) == Some(address@));
    assert(first_behind(parts, "addr="@, 0) == Some(address@));
}

/// What a node says of itself is read from the reply that carries it, on one line.
pub proof fn law_information_is_read(bytes: Seq<u8>, text: Seq<char>)
    requires
        lossy_of(bytes) == text,
    ensures
        info_reply(RespView::Bulk(Some(bytes))) matches Some(read) && {
            &&& forall|i: int| 0 <= i < read.len() ==> (#[trigger] read[i]) != '\r' && read[i] != '\n'
            &&& words(read) == words(one_line(text))
        },
{
    lemma_one_line_flat(text);
}

proof fn lemma_one_line_flat(text: Seq<char>)
    ensures
        forall|i: int|
            0 <= i < one_line(text).len() ==> (#[trigger] one_line(text)[i]) != '\r' && one_line(
                text,
            )[i] != '\n',
    decreases text.len(),
{
    if text.len() > 0 {
        lemma_one_line_flat(text.drop_last());
        let before = one_line(text.drop_last());
        let after = one_line(text);
        assert forall|i: int| 0 <= i < after.len() implies (#[trigger] after[i]) != '\r' && after[i]
            != '\n' by {
            if i < before.len() {
                assert(after[i] == before[i]);
            }
        }
    }
}

} // verus!
