//! What an operator writes is what the cluster is asked for.
use vstd::prelude::*;
use vstd::string::*;
use vstd::utf8::{
    encode_utf8, encode_utf8_valid_utf8, is_ascii_chars, is_ascii_chars_encode_utf8,
};

use crate::cli::{
    action_from, action_named, admin_plan_of, change_of, flag_from, flag_of, init_of, probe_tries,
    run_of, top_command, AdminPlanView, InitView,
};
use crate::command::{command_from, command_of, AdminView, CommandView};
use crate::command_laws::{keyword_text, law_admin_commands, law_commands_are_arrays, spelled};
use crate::fault::FaultView;
use crate::hex::cluster_id_of;
use crate::redirect::command_frame;
use crate::resp::{u64_argument, RespError, RespView};
use crate::text::number_in;

verus! {

/// A value follows its flag: it stands right behind the first place where the flag
/// is written with anything behind it.
pub proof fn law_flags_take_what_follows(args: Seq<Seq<char>>, name: &str, value: Seq<char>)
    ensures
        flag_of(args, name) == Some(value) <==> exists|i: int|
            {
                &&& 0 <= i && i + 1 < args.len()
                &&& (#[trigger] args[i]) == name@
                &&& args[i + 1] == value
                &&& forall|j: int| 0 <= j < i ==> (#[trigger] args[j]) != name@
            },
        flag_of(args, name) is None <==> forall|i: int|
            0 <= i && i + 1 < args.len() ==> (#[trigger] args[i]) != name@,
{
    lemma_flag(args, name@, 0);
    if let Some(found) = flag_of(args, name) {
        let at = choose|i: int|
            {
                &&& 0 <= i && i + 1 < args.len()
                &&& (#[trigger] args[i]) == name@
                &&& args[i + 1] == found
                &&& forall|j: int| 0 <= j < i ==> (#[trigger] args[j]) != name@
            };
        assert(args[at] == name@);
    }
}

proof fn lemma_flag(args: Seq<Seq<char>>, name: Seq<char>, from: int)
    requires
        0 <= from,
    ensures
        flag_from(args, name, from) matches Some(found) ==> exists|i: int|
            {
                &&& from <= i && i + 1 < args.len()
                &&& (#[trigger] args[i]) == name
                &&& args[i + 1] == found
                &&& forall|j: int| from <= j < i ==> (#[trigger] args[j]) != name
            },
        flag_from(args, name, from) is None ==> forall|i: int|
            from <= i && i + 1 < args.len() ==> (#[trigger] args[i]) != name,
    decreases args.len() - from,
{
    if from + 1 < args.len() {
        if args[from] == name {
            assert(args[from] == name);
        } else {
            lemma_flag(args, name, from + 1);
            if let Some(found) = flag_from(args, name, from + 1) {
                let i = choose|i: int|
                    {
                        &&& from + 1 <= i && i + 1 < args.len()
                        &&& (#[trigger] args[i]) == name
                        &&& args[i + 1] == found
                        &&& forall|j: int| from + 1 <= j < i ==> (#[trigger] args[j]) != name
                    };
                assert(args[i] == name);
                assert forall|j: int| from <= j < i implies (#[trigger] args[j]) != name by {}
            }
        }
    }
}

/// A keyword spells itself.
proof fn lemma_spells_itself(text: &str)
    requires
        keyword_text(text@),
    ensures
        spelled(encode_utf8(text@), text@),
{
    reveal(spelled);
    assert(is_ascii_chars(text@)) by {
        assert forall|i: int| 0 <= i < text@.len() implies '\0' <= #[trigger] text@[i] <= '\u{7f}' by {}
    }
    is_ascii_chars_encode_utf8(text@);
}

/// The bytes of words that are sent.
pub open spec fn sent_bytes(texts: Seq<Seq<char>>) -> Seq<Seq<u8>> {
    texts.map_values(|text: Seq<char>| encode_utf8(text))
}

/// Whether the words of a change are read as that operation, under the number of the
/// operator and of the request.
pub open spec fn read_as(
    texts: Seq<Seq<char>>,
    operator: u64,
    sequence: u64,
    operation: AdminView,
) -> bool {
    command_of(sent_bytes(texts)) == Ok::<CommandView, RespError>(
        CommandView::Admin { operator_id: operator, sequence, operation },
    )
}

/// The words of a change of a member, as they arrive.
proof fn lemma_member_words(action: &str, node: Seq<char>, operator: Seq<char>, sequence: Seq<char>)
    requires
        keyword_text(action@),
    ensures
        ({
            let sent = sent_bytes(seq!["CC.ADMIN"@, action@, node, operator, sequence]);
            &&& sent.len() == 5
            &&& spelled(sent[0], "CC.ADMIN"@)
            &&& spelled(sent[1], action@)
            &&& sent[2] == encode_utf8(node)
            &&& sent[3] == encode_utf8(operator)
            &&& sent[4] == encode_utf8(sequence)
        }),
{
    assert(keyword_text("CC.ADMIN"@)) by {
        reveal_strlit("CC.ADMIN");
    }
    lemma_spells_itself("CC.ADMIN");
    lemma_spells_itself(action);
}

/// The words of a change of an address, as they arrive.
proof fn lemma_address_words(
    action: &str,
    node: Seq<char>,
    peer: Seq<char>,
    operator: Seq<char>,
    sequence: Seq<char>,
)
    requires
        keyword_text(action@),
    ensures
        ({
            let sent = sent_bytes(seq!["CC.ADMIN"@, action@, node, peer, operator, sequence]);
            &&& sent.len() == 6
            &&& spelled(sent[0], "CC.ADMIN"@)
            &&& spelled(sent[1], action@)
            &&& sent[2] == encode_utf8(node)
            &&& sent[3] == encode_utf8(peer)
            &&& sent[4] == encode_utf8(operator)
            &&& sent[5] == encode_utf8(sequence)
        }),
{
    assert(keyword_text("CC.ADMIN"@)) by {
        reveal_strlit("CC.ADMIN");
    }
    lemma_spells_itself("CC.ADMIN");
    lemma_spells_itself(action);
}

/// A number that an operator writes is the one that the cluster reads.
proof fn lemma_number_arrives(text: Seq<char>)
    ensures
        number_in(text) matches Some(value) ==> u64_argument(encode_utf8(text)) == Ok::<
            u64,
            RespError,
        >(value),
{
    encode_utf8_valid_utf8(text);
}

/// The words of a change of a member are read as that change.
#[verifier::spinoff_prover]
proof fn lemma_member_change_read(
    action: &str,
    node: Seq<char>,
    operator: Seq<char>,
    sequence: Seq<char>,
    numbers: (u64, u64, u64),
)
    requires
        keyword_text(action@),
        action@ == "PROMOTE"@ || action@ == "REMOVE"@ || action@ == "TRANSFER"@,
        "PROMOTE"@.len() == 7 && "REMOVE"@.len() == 6 && "TRANSFER"@.len() == 8,
        number_in(node) == Some(numbers.0),
        number_in(operator) == Some(numbers.1),
        number_in(sequence) == Some(numbers.2),
    ensures
        read_as(
            seq!["CC.ADMIN"@, action@, node, operator, sequence],
            numbers.1,
            numbers.2,
            if action@ == "PROMOTE"@ {
                AdminView::Promote { id: numbers.0 }
            } else if action@ == "REMOVE"@ {
                AdminView::Remove { id: numbers.0 }
            } else {
                AdminView::TransferLeader { id: numbers.0 }
            },
        ),
{
    lemma_number_arrives(node);
    lemma_number_arrives(operator);
    lemma_number_arrives(sequence);
    lemma_member_words(action, node, operator, sequence);
    law_admin_commands(sent_bytes(seq!["CC.ADMIN"@, action@, node, operator, sequence]));
}

/// The words of a change of an address are read as that change.
#[verifier::spinoff_prover]
proof fn lemma_address_change_read(
    action: &str,
    node: Seq<char>,
    peer: Seq<char>,
    operator: Seq<char>,
    sequence: Seq<char>,
    numbers: (u64, u64, u64),
)
    requires
        keyword_text(action@),
        action@ == "ADDLEARNER"@ || action@ == "UPDATEADDRESS"@,
        "ADDLEARNER"@.len() == 10 && "UPDATEADDRESS"@.len() == 13,
        number_in(node) == Some(numbers.0),
        number_in(operator) == Some(numbers.1),
        number_in(sequence) == Some(numbers.2),
    ensures
        read_as(
            seq!["CC.ADMIN"@, action@, node, peer, operator, sequence],
            numbers.1,
            numbers.2,
            if action@ == "ADDLEARNER"@ {
                AdminView::AddLearner { id: numbers.0, peer_address: encode_utf8(peer) }
            } else {
                AdminView::UpdateAddress { id: numbers.0, peer_address: encode_utf8(peer) }
            },
        ),
{
    lemma_number_arrives(node);
    lemma_number_arrives(operator);
    lemma_number_arrives(sequence);
    lemma_address_words(action, node, peer, operator, sequence);
    law_admin_commands(sent_bytes(seq!["CC.ADMIN"@, action@, node, peer, operator, sequence]));
}

/// A change of one member, asked for with words that name the member, the operator and
/// the request, reaches the cluster as that change of that member: a promotion, a
/// removal or a transfer of the leadership.
#[verifier::spinoff_prover]
#[verifier::rlimit(30)]
pub proof fn law_member_changes_reach_the_cluster(
    args: Seq<Seq<char>>,
    action: &str,
    node: Seq<char>,
    operator: Seq<char>,
    sequence: Seq<char>,
    numeric_peer: bool,
    numbers: (u64, u64, u64),
)
    requires
        action@ == "PROMOTE"@ || action@ == "REMOVE"@ || action@ == "TRANSFER"@,
        flag_of(args, "--node-id") == Some(node),
        number_in(node) == Some(numbers.0) && numbers.0 != 0,
        number_in(operator) == Some(numbers.1),
        number_in(sequence) == Some(numbers.2),
    ensures
        change_of(args, action@, operator, sequence, numeric_peer) matches Ok(texts) && read_as(
            texts,
            numbers.1,
            numbers.2,
            if action@ == "PROMOTE"@ {
                AdminView::Promote { id: numbers.0 }
            } else if action@ == "REMOVE"@ {
                AdminView::Remove { id: numbers.0 }
            } else {
                AdminView::TransferLeader { id: numbers.0 }
            },
        ),
{
    assert(keyword_text("PROMOTE"@) && "PROMOTE"@.len() == 7) by {
        reveal_strlit("PROMOTE");
    }
    assert(keyword_text("REMOVE"@) && "REMOVE"@.len() == 6) by {
        reveal_strlit("REMOVE");
    }
    assert(keyword_text("TRANSFER"@) && "TRANSFER"@.len() == 8) by {
        reveal_strlit("TRANSFER");
    }
    assert("LEAVEJOINT"@.len() == 10) by {
        reveal_strlit("LEAVEJOINT");
    }
    assert("ADDLEARNER"@.len() == 10) by {
        reveal_strlit("ADDLEARNER");
    }
    assert("UPDATEADDRESS"@.len() == 13) by {
        reveal_strlit("UPDATEADDRESS");
    }
    let texts = seq!["CC.ADMIN"@, action@, node, operator, sequence];
    lemma_member_change_read(action, node, operator, sequence, numbers);
    assert(seq!["CC.ADMIN"@, action@].push(node).push(operator).push(sequence) =~= texts);
}

/// A change of an address, asked for with words that name the member, the address, the
/// operator and the request, reaches the cluster as that change: a new learner at that
/// address, or a member's new address. Without a numeric address it is not sent.
#[verifier::spinoff_prover]
#[verifier::rlimit(30)]
pub proof fn law_address_changes_reach_the_cluster(
    args: Seq<Seq<char>>,
    action: &str,
    node: Seq<char>,
    peer: Seq<char>,
    operator: Seq<char>,
    sequence: Seq<char>,
    numbers: (u64, u64, u64),
)
    requires
        action@ == "ADDLEARNER"@ || action@ == "UPDATEADDRESS"@,
        flag_of(args, "--node-id") == Some(node),
        flag_of(args, "--peer-addr") == Some(peer),
        number_in(node) == Some(numbers.0) && numbers.0 != 0,
        number_in(operator) == Some(numbers.1),
        number_in(sequence) == Some(numbers.2),
    ensures
        change_of(args, action@, operator, sequence, true) matches Ok(texts) && read_as(
            texts,
            numbers.1,
            numbers.2,
            if action@ == "ADDLEARNER"@ {
                AdminView::AddLearner { id: numbers.0, peer_address: encode_utf8(peer) }
            } else {
                AdminView::UpdateAddress { id: numbers.0, peer_address: encode_utf8(peer) }
            },
        ),
        change_of(args, action@, operator, sequence, false) is Err,
{
    assert(keyword_text("ADDLEARNER"@) && "ADDLEARNER"@.len() == 10 && "ADDLEARNER"@[0] == 'A') by {
        reveal_strlit("ADDLEARNER");
    }
    assert(keyword_text("UPDATEADDRESS"@) && "UPDATEADDRESS"@.len() == 13) by {
        reveal_strlit("UPDATEADDRESS");
    }
    assert("LEAVEJOINT"@.len() == 10 && "LEAVEJOINT"@[0] == 'L') by {
        reveal_strlit("LEAVEJOINT");
    }
    let texts = seq!["CC.ADMIN"@, action@, node, peer, operator, sequence];
    lemma_address_change_read(action, node, peer, operator, sequence, numbers);
    assert(seq!["CC.ADMIN"@, action@].push(node).push(peer).push(operator).push(sequence)
        =~= texts);
}

/// Leaving a joint configuration needs no member, and reaches the cluster as that.
#[verifier::spinoff_prover]
#[verifier::rlimit(30)]
pub proof fn law_leaving_reaches_the_cluster(
    args: Seq<Seq<char>>,
    operator: Seq<char>,
    sequence: Seq<char>,
    numeric_peer: bool,
    numbers: (u64, u64),
)
    requires
        number_in(operator) == Some(numbers.0),
        number_in(sequence) == Some(numbers.1),
    ensures
        change_of(args, "LEAVEJOINT"@, operator, sequence, numeric_peer) matches Ok(texts)
            && read_as(texts, numbers.0, numbers.1, AdminView::LeaveJoint),
{
    assert(keyword_text("LEAVEJOINT"@)) by {
        reveal_strlit("LEAVEJOINT");
    }
    assert(keyword_text("CC.ADMIN"@)) by {
        reveal_strlit("CC.ADMIN");
    }
    lemma_spells_itself("CC.ADMIN");
    lemma_spells_itself("LEAVEJOINT");
    lemma_number_arrives(operator);
    lemma_number_arrives(sequence);
    let texts = seq!["CC.ADMIN"@, "LEAVEJOINT"@, operator, sequence];
    let sent = sent_bytes(texts);
    assert(sent.len() == 4 && sent[0] == encode_utf8("CC.ADMIN"@) && sent[1] == encode_utf8(
        "LEAVEJOINT"@,
    ) && sent[2] == encode_utf8(operator) && sent[3] == encode_utf8(sequence));
    law_admin_commands(sent);
    assert(seq!["CC.ADMIN"@, "LEAVEJOINT"@].push(operator).push(sequence) =~= texts);
}

/// The change that a word of an operator stands for.
pub open spec fn meant(text: Seq<char>) -> Option<Seq<char>> {
    if text == "add-learner"@ {
        Some("ADDLEARNER"@)
    } else if text == "promote"@ || text == "promote-learner"@ {
        Some("PROMOTE"@)
    } else if text == "remove"@ {
        Some("REMOVE"@)
    } else if text == "update-address"@ {
        Some("UPDATEADDRESS"@)
    } else if text == "transfer-leader"@ {
        Some("TRANSFER"@)
    } else if text == "leave-joint"@ {
        Some("LEAVEJOINT"@)
    } else {
        None
    }
}

/// Whether an operator asks for something else than a change or a report.
pub open spec fn asks_otherwise(args: Seq<Seq<char>>) -> bool {
    ||| args.contains("backup"@)
    ||| args.contains("restore"@)
    ||| args.contains("feature"@) && args.contains("activate"@) && args.contains("atomic-batch"@)
}

/// The first word of an operator that stands for a change decides which one it is. It
/// needs an operator and a request with a number other than zero, and goes to the
/// address that is named.
pub proof fn law_words_choose_the_change(args: Seq<Seq<char>>, i: int)
    requires
        0 <= i < args.len(),
        meant(args[i]) is Some,
        forall|j: int| 0 <= j < i ==> meant(#[trigger] args[j]) is None,
        !asks_otherwise(args),
    ensures
        match (flag_of(args, "--operator-id"), flag_of(args, "--sequence")) {
            (Some(operator), Some(sequence)) => if (number_in(operator) matches Some(n) && n != 0)
                && (number_in(sequence) matches Some(n) && n != 0) {
                admin_plan_of(args) matches Ok(
                    AdminPlanView::Change { address, action, operator: asker, sequence: number },
                ) && action@ == meant(args[i])->0 && asker == operator && number == sequence
                    && address == match flag_of(args, "--addr") {
                    Some(given) => given,
                    None => "127.0.0.1:7101"@,
                }
            } else {
                admin_plan_of(args) is Err
            },
            _ => admin_plan_of(args) is Err,
        },
{
    lemma_action(args, 0, i);
}

proof fn lemma_action(args: Seq<Seq<char>>, from: int, i: int)
    requires
        0 <= from <= i < args.len(),
        meant(args[i]) is Some,
        forall|j: int| 0 <= j < i ==> meant(#[trigger] args[j]) is None,
    ensures
        action_from(args, from) matches Some(action) && Some(action@) == meant(args[i]),
    decreases i - from,
{
    assert(action_named(args[from]) is Some <==> meant(args[from]) is Some);
    if from < i {
        assert(meant(args[from]) is None);
        lemma_action(args, from + 1, i);
    }
}

/// A run lasts as long as it is asked to, and without a word for ever. It records
/// where a path is given, up to a limit; a limit or a demand without a path is refused.
pub proof fn law_runs_are_as_asked(args: Seq<Seq<char>>)
    ensures
        ({
            let length = flag_of(args, "--run-for-ms");
            let limit = flag_of(args, "--record-max-bytes");
            let path = flag_of(args, "--record");
            let required = args.contains("--record-required"@);
            let sound = (length matches Some(text) ==> (number_in(text) matches Some(n) && n != 0))
                && (limit matches Some(text) ==> (number_in(text) matches Some(n) && n != 0)) && (
            path is Some || (limit is None && !required));
            &&& sound <==> run_of(args) is Ok
            &&& run_of(args) matches Ok(run) ==> {
                &&& run.run_for_ms == match length {
                    Some(text) => number_in(text),
                    None => None,
                }
                &&& limit matches Some(text) ==> Some(run.record_max_bytes) == number_in(text)
                &&& limit is None ==> run.record_max_bytes == 134_217_728
                &&& run.record_path == path
                &&& run.record_required == required
                &&& run.allow_unsafe == args.contains("--i-know-this-is-unauthenticated"@)
            }
        }),
{
}

/// A directory of its own makes a single node, which needs a number other than zero;
/// otherwise a cluster is made, of three nodes where no number is given.
pub proof fn law_initializations_are_as_asked(args: Seq<Seq<char>>)
    ensures
        ({
            let id = match flag_of(args, "--cluster-id") {
                Some(text) => match cluster_id_of(encode_utf8(text)) {
                    Ok(id) => Some(id),
                    Err(_) => None,
                },
                None => None,
            };
            let nodes = match flag_of(args, "--nodes") {
                Some(text) => match number_in(text) {
                    Some(n) => n,
                    None => 3,
                },
                None => 3,
            };
            let named = match flag_of(args, "--cluster") {
                Some(text) => text,
                None => "demo"@,
            };
            &&& id is None ==> init_of(args) is Err
            &&& id matches Some(id) ==> match flag_of(args, "--data-dir") {
                Some(dir) => match flag_of(args, "--node-id") {
                    Some(text) => match number_in(text) {
                        Some(n) => if n != 0 {
                            init_of(args) == Ok::<InitView, FaultView>(
                                InitView::Single {
                                    cluster: named,
                                    cluster_id: id,
                                    node: n,
                                    data_dir: dir,
                                },
                            )
                        } else {
                            init_of(args) is Err
                        },
                        None => init_of(args) is Err,
                    },
                    None => init_of(args) is Err,
                },
                None => if nodes != 0 {
                    init_of(args) == Ok::<InitView, FaultView>(
                        InitView::Cluster {
                            cluster: named,
                            cluster_id: id,
                            nodes,
                            base: match flag_of(args, "--base-dir") {
                                Some(text) => text,
                                None => "ccdb-data"@,
                            },
                        },
                    )
                } else {
                    init_of(args) is Err
                },
            }
        }),
{
}

/// The words of a command are read as they were written: the frame that carries them is
/// the command of those words.
pub proof fn law_frames_carry_their_words(texts: Seq<Seq<char>>)
    requires
        texts.len() > 0,
    ensures
        command_from(command_frame(texts)) == command_of(sent_bytes(texts)),
{
    let items = command_frame(texts)->Array_0;
    let sent = sent_bytes(texts);
    law_commands_are_arrays(sent);
    assert(items =~= sent.map_values(|arg: Seq<u8>| RespView::Bulk(Some(arg))));
}

/// The first word of an operator names what is done, and no other word does. Without a
/// word, or by any name of it, help is shown.
pub proof fn law_the_first_word_names_the_operation(args: Seq<Seq<char>>)
    ensures
        ({
            let command = top_command(args);
            let first = args[0];
            &&& args.len() == 0 ==> command is Help
            &&& args.len() > 0 ==> {
                &&& command is Init <==> first == "init"@
                &&& command is Run <==> first == "run"@
                &&& command is Peer <==> first == "peer"@
                &&& command is Selfcheck <==> first == "selfcheck"@
                &&& command is Doctor <==> first == "doctor"@
                &&& command is Admin <==> first == "admin"@
                &&& command is Help <==> first == "--help"@ || first == "-h"@ || first == "help"@
                &&& command is Version <==> first == "--version"@
            }
        }),
{
    assert("init"@.len() == 4 && "init"@[0] == 'i') by {
        reveal_strlit("init");
    }
    assert("run"@.len() == 3) by {
        reveal_strlit("run");
    }
    assert("peer"@.len() == 4 && "peer"@[0] == 'p') by {
        reveal_strlit("peer");
    }
    assert("selfcheck"@.len() == 9 && "selfcheck"@[0] == 's') by {
        reveal_strlit("selfcheck");
    }
    assert("doctor"@.len() == 6 && "doctor"@[0] == 'd') by {
        reveal_strlit("doctor");
    }
    assert("admin"@.len() == 5) by {
        reveal_strlit("admin");
    }
    assert("--help"@.len() == 6 && "--help"@[0] == '-') by {
        reveal_strlit("--help");
    }
    assert("-h"@.len() == 2) by {
        reveal_strlit("-h");
    }
    assert("help"@.len() == 4 && "help"@[0] == 'h') by {
        reveal_strlit("help");
    }
    assert("--version"@.len() == 9 && "--version"@[0] == '-') by {
        reveal_strlit("--version");
    }
}

/// A probe tries as often as it is asked to, at least once, and five times without a
/// number.
pub proof fn law_probes_try_at_least_once(args: Seq<Seq<char>>)
    ensures
        probe_tries(args) >= 1,
        flag_of(args, "--retries") matches Some(text) ==> (number_in(text) matches Some(n) ==> n
            >= 1 ==> probe_tries(args) == n),
        flag_of(args, "--retries") is None ==> probe_tries(args) == 5,
        flag_of(args, "--retries") matches Some(text) ==> (number_in(text) is None
            ==> probe_tries(args) == 5),
{
}

} // verus!
