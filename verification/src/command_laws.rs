//! What the command table promises of each command, whatever its arguments.
use vstd::prelude::*;
use vstd::string::*;
use vstd::utf8::{encode_utf8, is_ascii_chars, is_ascii_chars_encode_utf8};

use crate::command::{
    admin_of, command_from, command_of, flat_command, pair_of, scan_of, set_of, triple_of, upper,
    word, AdminView, CommandView,
};
use crate::ids::Duration;
use crate::resp::{i64_argument, u64_argument, RespError, RespView};

verus! {

/// Whether bytes spell a keyword, with its letters in either case.
#[verifier::opaque]
pub open spec fn spelled(bytes: Seq<u8>, keyword: Seq<char>) -> bool {
    &&& bytes.len() == keyword.len()
    &&& forall|i: int|
        0 <= i < keyword.len() ==> (#[trigger] bytes[i]) as int == keyword[i] as int || ('A'
            <= keyword[i] <= 'Z' && bytes[i] as int == keyword[i] as int + 32)
}

/// Whether a text is a keyword: ASCII, and no letter of it in lower case.
pub open spec fn keyword_text(text: Seq<char>) -> bool {
    forall|i: int| 0 <= i < text.len() ==> '\0' <= (#[trigger] text[i]) < 'a'
}

proof fn lemma_ascii_word(text: &str)
    requires
        keyword_text(text@),
    ensures
        word(text).len() == text@.len(),
        forall|i: int| 0 <= i < text@.len()
            ==> (#[trigger] word(text)[i]) as int == text@[i] as int,
{
    reveal(word);
    assert(is_ascii_chars(text@));
    is_ascii_chars_encode_utf8(text@);
}

proof fn lemma_spelled(bytes: Seq<u8>, text: &str)
    requires
        spelled(bytes, text@),
        keyword_text(text@),
    ensures
        upper(bytes) == word(text),
{
    reveal(spelled);
    lemma_ascii_word(text);
    assert forall|i: int| 0 <= i < bytes.len() implies upper(bytes)[i] == word(text)[i] by {
        let byte = bytes[i];
        assert(word(text)[i] as int == text@[i] as int);
    }
    assert(upper(bytes) =~= word(text));
}

/// How the commands without arguments are written.
proof fn lemma_bare_words()
    ensures
        word("PING").len() == 4 && word("PING")[0] == 80 && word("PING")[1] == 73
            && word("PING")[2] == 78 && word("PING")[3] == 71,
        word("INFO").len() == 4 && word("INFO")[0] == 73 && word("INFO")[1] == 78
            && word("INFO")[2] == 70 && word("INFO")[3] == 79,
        word("MULTI").len() == 5 && word("MULTI")[0] == 77 && word("MULTI")[1] == 85
            && word("MULTI")[2] == 76 && word("MULTI")[3] == 84 && word("MULTI")[4] == 73,
        word("EXEC").len() == 4 && word("EXEC")[0] == 69 && word("EXEC")[1] == 88
            && word("EXEC")[2] == 69 && word("EXEC")[3] == 67,
        word("DISCARD").len() == 7 && word("DISCARD")[0] == 68 && word("DISCARD")[1] == 73
            && word("DISCARD")[2] == 83 && word("DISCARD")[3] == 67 && word("DISCARD")[4] == 65
            && word("DISCARD")[5] == 82 && word("DISCARD")[6] == 68,
{
    reveal_strlit("PING");
    lemma_ascii_word("PING");
    reveal_strlit("INFO");
    lemma_ascii_word("INFO");
    reveal_strlit("MULTI");
    lemma_ascii_word("MULTI");
    reveal_strlit("EXEC");
    lemma_ascii_word("EXEC");
    reveal_strlit("DISCARD");
    lemma_ascii_word("DISCARD");
}

/// How the commands of one argument are written.
proof fn lemma_pair_words()
    ensures
        word("ECHO").len() == 4 && word("ECHO")[0] == 69 && word("ECHO")[1] == 67
            && word("ECHO")[2] == 72 && word("ECHO")[3] == 79,
        word("GET").len() == 3 && word("GET")[0] == 71 && word("GET")[1] == 69
            && word("GET")[2] == 84,
        word("DEL").len() == 3 && word("DEL")[0] == 68 && word("DEL")[1] == 69
            && word("DEL")[2] == 76,
        word("EXISTS").len() == 6 && word("EXISTS")[0] == 69 && word("EXISTS")[1] == 88
            && word("EXISTS")[2] == 73 && word("EXISTS")[3] == 83 && word("EXISTS")[4] == 84
            && word("EXISTS")[5] == 83,
        word("INCR").len() == 4 && word("INCR")[0] == 73 && word("INCR")[1] == 78
            && word("INCR")[2] == 67 && word("INCR")[3] == 82,
        word("DECR").len() == 4 && word("DECR")[0] == 68 && word("DECR")[1] == 69
            && word("DECR")[2] == 67 && word("DECR")[3] == 82,
        word("GETDEL").len() == 6 && word("GETDEL")[0] == 71 && word("GETDEL")[1] == 69
            && word("GETDEL")[2] == 84 && word("GETDEL")[3] == 68 && word("GETDEL")[4] == 69
            && word("GETDEL")[5] == 76,
        word("TTL").len() == 3 && word("TTL")[0] == 84 && word("TTL")[1] == 84
            && word("TTL")[2] == 76,
        word("PERSIST").len() == 7 && word("PERSIST")[0] == 80 && word("PERSIST")[1] == 69
            && word("PERSIST")[2] == 82 && word("PERSIST")[3] == 83 && word("PERSIST")[4] == 73
            && word("PERSIST")[5] == 83 && word("PERSIST")[6] == 84,
        word("SCAN").len() == 4 && word("SCAN")[0] == 83 && word("SCAN")[1] == 67
            && word("SCAN")[2] == 65 && word("SCAN")[3] == 78,
        word("CC.ADMIN").len() == 8 && word("CC.ADMIN")[0] == 67 && word("CC.ADMIN")[1] == 67
            && word("CC.ADMIN")[2] == 46 && word("CC.ADMIN")[3] == 65 && word("CC.ADMIN")[4] == 68
            && word("CC.ADMIN")[5] == 77 && word("CC.ADMIN")[6] == 73
            && word("CC.ADMIN")[7] == 78,
{
    reveal_strlit("ECHO");
    lemma_ascii_word("ECHO");
    reveal_strlit("GET");
    lemma_ascii_word("GET");
    reveal_strlit("DEL");
    lemma_ascii_word("DEL");
    reveal_strlit("EXISTS");
    lemma_ascii_word("EXISTS");
    reveal_strlit("INCR");
    lemma_ascii_word("INCR");
    reveal_strlit("DECR");
    lemma_ascii_word("DECR");
    reveal_strlit("GETDEL");
    lemma_ascii_word("GETDEL");
    reveal_strlit("TTL");
    lemma_ascii_word("TTL");
    reveal_strlit("PERSIST");
    lemma_ascii_word("PERSIST");
    reveal_strlit("SCAN");
    lemma_ascii_word("SCAN");
    reveal_strlit("CC.ADMIN");
    lemma_ascii_word("CC.ADMIN");
}

/// How the longer commands are written.
proof fn lemma_longer_words()
    ensures
        word("SET").len() == 3 && word("SET")[0] == 83 && word("SET")[1] == 69
            && word("SET")[2] == 84,
        word("CC.REQUEST").len() == 10 && word("CC.REQUEST")[0] == 67
            && word("CC.REQUEST")[1] == 67 && word("CC.REQUEST")[2] == 46
            && word("CC.REQUEST")[3] == 82 && word("CC.REQUEST")[4] == 69
            && word("CC.REQUEST")[5] == 81 && word("CC.REQUEST")[6] == 85
            && word("CC.REQUEST")[7] == 69 && word("CC.REQUEST")[8] == 83
            && word("CC.REQUEST")[9] == 84,
        word("READ").len() == 4 && word("READ")[0] == 82 && word("READ")[1] == 69
            && word("READ")[2] == 65 && word("READ")[3] == 68,
        word("FOLLOWER").len() == 8 && word("FOLLOWER")[0] == 70 && word("FOLLOWER")[1] == 79
            && word("FOLLOWER")[2] == 76 && word("FOLLOWER")[3] == 76 && word("FOLLOWER")[4] == 79
            && word("FOLLOWER")[5] == 87 && word("FOLLOWER")[6] == 69
            && word("FOLLOWER")[7] == 82,
        word("STALE").len() == 5 && word("STALE")[0] == 83 && word("STALE")[1] == 84
            && word("STALE")[2] == 65 && word("STALE")[3] == 76 && word("STALE")[4] == 69,
        word("INCRBY").len() == 6 && word("INCRBY")[0] == 73 && word("INCRBY")[1] == 78
            && word("INCRBY")[2] == 67 && word("INCRBY")[3] == 82 && word("INCRBY")[4] == 66
            && word("INCRBY")[5] == 89,
        word("APPEND").len() == 6 && word("APPEND")[0] == 65 && word("APPEND")[1] == 80
            && word("APPEND")[2] == 80 && word("APPEND")[3] == 69 && word("APPEND")[4] == 78
            && word("APPEND")[5] == 68,
        word("GETSET").len() == 6 && word("GETSET")[0] == 71 && word("GETSET")[1] == 69
            && word("GETSET")[2] == 84 && word("GETSET")[3] == 83 && word("GETSET")[4] == 69
            && word("GETSET")[5] == 84,
        word("SETNX").len() == 5 && word("SETNX")[0] == 83 && word("SETNX")[1] == 69
            && word("SETNX")[2] == 84 && word("SETNX")[3] == 78 && word("SETNX")[4] == 88,
        word("EXPIRE").len() == 6 && word("EXPIRE")[0] == 69 && word("EXPIRE")[1] == 88
            && word("EXPIRE")[2] == 80 && word("EXPIRE")[3] == 73 && word("EXPIRE")[4] == 82
            && word("EXPIRE")[5] == 69,
        word("EXPIREAT").len() == 8 && word("EXPIREAT")[0] == 69 && word("EXPIREAT")[1] == 88
            && word("EXPIREAT")[2] == 80 && word("EXPIREAT")[3] == 73 && word("EXPIREAT")[4] == 82
            && word("EXPIREAT")[5] == 69 && word("EXPIREAT")[6] == 65
            && word("EXPIREAT")[7] == 84,
        word("CAS").len() == 3 && word("CAS")[0] == 67 && word("CAS")[1] == 65
            && word("CAS")[2] == 83,
{
    reveal_strlit("SET");
    lemma_ascii_word("SET");
    reveal_strlit("CC.REQUEST");
    lemma_ascii_word("CC.REQUEST");
    reveal_strlit("READ");
    lemma_ascii_word("READ");
    reveal_strlit("FOLLOWER");
    lemma_ascii_word("FOLLOWER");
    reveal_strlit("STALE");
    lemma_ascii_word("STALE");
    reveal_strlit("INCRBY");
    lemma_ascii_word("INCRBY");
    reveal_strlit("APPEND");
    lemma_ascii_word("APPEND");
    reveal_strlit("GETSET");
    lemma_ascii_word("GETSET");
    reveal_strlit("SETNX");
    lemma_ascii_word("SETNX");
    reveal_strlit("EXPIRE");
    lemma_ascii_word("EXPIRE");
    reveal_strlit("EXPIREAT");
    lemma_ascii_word("EXPIREAT");
    reveal_strlit("CAS");
    lemma_ascii_word("CAS");
}

/// How options are written.
proof fn lemma_option_words()
    ensures
        word("EX").len() == 2 && word("EX")[0] == 69 && word("EX")[1] == 88,
        word("PX").len() == 2 && word("PX")[0] == 80 && word("PX")[1] == 88,
        word("NX").len() == 2 && word("NX")[0] == 78 && word("NX")[1] == 88,
        word("XX").len() == 2 && word("XX")[0] == 88 && word("XX")[1] == 88,
        word("MATCH").len() == 5 && word("MATCH")[0] == 77 && word("MATCH")[1] == 65
            && word("MATCH")[2] == 84 && word("MATCH")[3] == 67 && word("MATCH")[4] == 72,
        word("COUNT").len() == 5 && word("COUNT")[0] == 67 && word("COUNT")[1] == 79
            && word("COUNT")[2] == 85 && word("COUNT")[3] == 78 && word("COUNT")[4] == 84,
        word("BATCH").len() == 5 && word("BATCH")[0] == 66 && word("BATCH")[1] == 65
            && word("BATCH")[2] == 84 && word("BATCH")[3] == 67 && word("BATCH")[4] == 72,
{
    reveal_strlit("EX");
    lemma_ascii_word("EX");
    reveal_strlit("PX");
    lemma_ascii_word("PX");
    reveal_strlit("NX");
    lemma_ascii_word("NX");
    reveal_strlit("XX");
    lemma_ascii_word("XX");
    reveal_strlit("MATCH");
    lemma_ascii_word("MATCH");
    reveal_strlit("COUNT");
    lemma_ascii_word("COUNT");
    reveal_strlit("BATCH");
    lemma_ascii_word("BATCH");
}

/// How the changes of an operator are written.
proof fn lemma_admin_words()
    ensures
        word("MEMBERS").len() == 7 && word("MEMBERS")[0] == 77 && word("MEMBERS")[1] == 69
            && word("MEMBERS")[2] == 77 && word("MEMBERS")[3] == 66 && word("MEMBERS")[4] == 69
            && word("MEMBERS")[5] == 82 && word("MEMBERS")[6] == 83,
        word("CONSISTENT").len() == 10 && word("CONSISTENT")[0] == 67
            && word("CONSISTENT")[1] == 79 && word("CONSISTENT")[2] == 78
            && word("CONSISTENT")[3] == 83 && word("CONSISTENT")[4] == 73
            && word("CONSISTENT")[5] == 83 && word("CONSISTENT")[6] == 84
            && word("CONSISTENT")[7] == 69 && word("CONSISTENT")[8] == 78
            && word("CONSISTENT")[9] == 84,
        word("ACTIVATE").len() == 8 && word("ACTIVATE")[0] == 65 && word("ACTIVATE")[1] == 67
            && word("ACTIVATE")[2] == 84 && word("ACTIVATE")[3] == 73 && word("ACTIVATE")[4] == 86
            && word("ACTIVATE")[5] == 65 && word("ACTIVATE")[6] == 84
            && word("ACTIVATE")[7] == 69,
        word("ATOMIC-BATCH").len() == 12 && word("ATOMIC-BATCH")[0] == 65
            && word("ATOMIC-BATCH")[1] == 84 && word("ATOMIC-BATCH")[2] == 79
            && word("ATOMIC-BATCH")[3] == 77 && word("ATOMIC-BATCH")[4] == 73
            && word("ATOMIC-BATCH")[5] == 67 && word("ATOMIC-BATCH")[6] == 45
            && word("ATOMIC-BATCH")[7] == 66 && word("ATOMIC-BATCH")[8] == 65
            && word("ATOMIC-BATCH")[9] == 84 && word("ATOMIC-BATCH")[10] == 67
            && word("ATOMIC-BATCH")[11] == 72,
        word("LEAVEJOINT").len() == 10 && word("LEAVEJOINT")[0] == 76
            && word("LEAVEJOINT")[1] == 69 && word("LEAVEJOINT")[2] == 65
            && word("LEAVEJOINT")[3] == 86 && word("LEAVEJOINT")[4] == 69
            && word("LEAVEJOINT")[5] == 74 && word("LEAVEJOINT")[6] == 79
            && word("LEAVEJOINT")[7] == 73 && word("LEAVEJOINT")[8] == 78
            && word("LEAVEJOINT")[9] == 84,
        word("ADDLEARNER").len() == 10 && word("ADDLEARNER")[0] == 65
            && word("ADDLEARNER")[1] == 68 && word("ADDLEARNER")[2] == 68
            && word("ADDLEARNER")[3] == 76 && word("ADDLEARNER")[4] == 69
            && word("ADDLEARNER")[5] == 65 && word("ADDLEARNER")[6] == 82
            && word("ADDLEARNER")[7] == 78 && word("ADDLEARNER")[8] == 69
            && word("ADDLEARNER")[9] == 82,
        word("UPDATEADDRESS").len() == 13 && word("UPDATEADDRESS")[0] == 85
            && word("UPDATEADDRESS")[1] == 80 && word("UPDATEADDRESS")[2] == 68
            && word("UPDATEADDRESS")[3] == 65 && word("UPDATEADDRESS")[4] == 84
            && word("UPDATEADDRESS")[5] == 69 && word("UPDATEADDRESS")[6] == 65
            && word("UPDATEADDRESS")[7] == 68 && word("UPDATEADDRESS")[8] == 68
            && word("UPDATEADDRESS")[9] == 82 && word("UPDATEADDRESS")[10] == 69
            && word("UPDATEADDRESS")[11] == 83 && word("UPDATEADDRESS")[12] == 83,
        word("PROMOTE").len() == 7 && word("PROMOTE")[0] == 80 && word("PROMOTE")[1] == 82
            && word("PROMOTE")[2] == 79 && word("PROMOTE")[3] == 77 && word("PROMOTE")[4] == 79
            && word("PROMOTE")[5] == 84 && word("PROMOTE")[6] == 69,
        word("REMOVE").len() == 6 && word("REMOVE")[0] == 82 && word("REMOVE")[1] == 69
            && word("REMOVE")[2] == 77 && word("REMOVE")[3] == 79 && word("REMOVE")[4] == 86
            && word("REMOVE")[5] == 69,
        word("TRANSFER").len() == 8 && word("TRANSFER")[0] == 84 && word("TRANSFER")[1] == 82
            && word("TRANSFER")[2] == 65 && word("TRANSFER")[3] == 78 && word("TRANSFER")[4] == 83
            && word("TRANSFER")[5] == 70 && word("TRANSFER")[6] == 69
            && word("TRANSFER")[7] == 82,
{
    reveal_strlit("MEMBERS");
    lemma_ascii_word("MEMBERS");
    reveal_strlit("CONSISTENT");
    lemma_ascii_word("CONSISTENT");
    reveal_strlit("ACTIVATE");
    lemma_ascii_word("ACTIVATE");
    reveal_strlit("ATOMIC-BATCH");
    lemma_ascii_word("ATOMIC-BATCH");
    reveal_strlit("LEAVEJOINT");
    lemma_ascii_word("LEAVEJOINT");
    reveal_strlit("ADDLEARNER");
    lemma_ascii_word("ADDLEARNER");
    reveal_strlit("UPDATEADDRESS");
    lemma_ascii_word("UPDATEADDRESS");
    reveal_strlit("PROMOTE");
    lemma_ascii_word("PROMOTE");
    reveal_strlit("REMOVE");
    lemma_ascii_word("REMOVE");
    reveal_strlit("TRANSFER");
    lemma_ascii_word("TRANSFER");
}

/// The commands without arguments differ.
proof fn lemma_bare_apart()
    ensures
        word("PING") != word("INFO"),
        word("PING") != word("MULTI"),
        word("PING") != word("EXEC"),
        word("PING") != word("DISCARD"),
        word("INFO") != word("MULTI"),
        word("INFO") != word("EXEC"),
        word("INFO") != word("DISCARD"),
        word("MULTI") != word("EXEC"),
        word("MULTI") != word("DISCARD"),
        word("EXEC") != word("DISCARD"),
{
    lemma_bare_words();
}

/// The commands of one argument differ.
proof fn lemma_pairs_apart()
    ensures
        word("ECHO") != word("GET"),
        word("ECHO") != word("DEL"),
        word("ECHO") != word("EXISTS"),
        word("ECHO") != word("INCR"),
        word("ECHO") != word("DECR"),
        word("ECHO") != word("GETDEL"),
        word("ECHO") != word("TTL"),
        word("ECHO") != word("PERSIST"),
        word("ECHO") != word("SCAN"),
        word("ECHO") != word("CC.ADMIN"),
        word("GET") != word("DEL"),
        word("GET") != word("EXISTS"),
        word("GET") != word("INCR"),
        word("GET") != word("DECR"),
        word("GET") != word("GETDEL"),
        word("GET") != word("TTL"),
        word("GET") != word("PERSIST"),
        word("GET") != word("SCAN"),
        word("GET") != word("CC.ADMIN"),
        word("DEL") != word("EXISTS"),
        word("DEL") != word("INCR"),
        word("DEL") != word("DECR"),
        word("DEL") != word("GETDEL"),
        word("DEL") != word("TTL"),
        word("DEL") != word("PERSIST"),
        word("DEL") != word("SCAN"),
        word("DEL") != word("CC.ADMIN"),
        word("EXISTS") != word("INCR"),
        word("EXISTS") != word("DECR"),
        word("EXISTS") != word("GETDEL"),
        word("EXISTS") != word("TTL"),
        word("EXISTS") != word("PERSIST"),
        word("EXISTS") != word("SCAN"),
        word("EXISTS") != word("CC.ADMIN"),
        word("INCR") != word("DECR"),
        word("INCR") != word("GETDEL"),
        word("INCR") != word("TTL"),
        word("INCR") != word("PERSIST"),
        word("INCR") != word("SCAN"),
        word("INCR") != word("CC.ADMIN"),
        word("DECR") != word("GETDEL"),
        word("DECR") != word("TTL"),
        word("DECR") != word("PERSIST"),
        word("DECR") != word("SCAN"),
        word("DECR") != word("CC.ADMIN"),
        word("GETDEL") != word("TTL"),
        word("GETDEL") != word("PERSIST"),
        word("GETDEL") != word("SCAN"),
        word("GETDEL") != word("CC.ADMIN"),
        word("TTL") != word("PERSIST"),
        word("TTL") != word("SCAN"),
        word("TTL") != word("CC.ADMIN"),
        word("PERSIST") != word("SCAN"),
        word("PERSIST") != word("CC.ADMIN"),
        word("SCAN") != word("CC.ADMIN"),
{
    lemma_pair_words();
}

/// The longer commands differ.
proof fn lemma_longer_apart()
    ensures
        word("SET") != word("DEL"),
        word("SET") != word("SCAN"),
        word("SET") != word("CC.ADMIN"),
        word("SET") != word("CC.REQUEST"),
        word("SET") != word("READ"),
        word("SET") != word("INCRBY"),
        word("SET") != word("APPEND"),
        word("SET") != word("GETSET"),
        word("SET") != word("SETNX"),
        word("SET") != word("EXPIRE"),
        word("SET") != word("EXPIREAT"),
        word("SET") != word("CAS"),
        word("DEL") != word("SCAN"),
        word("DEL") != word("CC.ADMIN"),
        word("DEL") != word("CC.REQUEST"),
        word("DEL") != word("READ"),
        word("DEL") != word("INCRBY"),
        word("DEL") != word("APPEND"),
        word("DEL") != word("GETSET"),
        word("DEL") != word("SETNX"),
        word("DEL") != word("EXPIRE"),
        word("DEL") != word("EXPIREAT"),
        word("DEL") != word("CAS"),
        word("SCAN") != word("CC.ADMIN"),
        word("SCAN") != word("CC.REQUEST"),
        word("SCAN") != word("READ"),
        word("SCAN") != word("INCRBY"),
        word("SCAN") != word("APPEND"),
        word("SCAN") != word("GETSET"),
        word("SCAN") != word("SETNX"),
        word("SCAN") != word("EXPIRE"),
        word("SCAN") != word("EXPIREAT"),
        word("SCAN") != word("CAS"),
        word("CC.ADMIN") != word("CC.REQUEST"),
        word("CC.ADMIN") != word("READ"),
        word("CC.ADMIN") != word("INCRBY"),
        word("CC.ADMIN") != word("APPEND"),
        word("CC.ADMIN") != word("GETSET"),
        word("CC.ADMIN") != word("SETNX"),
        word("CC.ADMIN") != word("EXPIRE"),
        word("CC.ADMIN") != word("EXPIREAT"),
        word("CC.ADMIN") != word("CAS"),
        word("CC.REQUEST") != word("READ"),
        word("CC.REQUEST") != word("INCRBY"),
        word("CC.REQUEST") != word("APPEND"),
        word("CC.REQUEST") != word("GETSET"),
        word("CC.REQUEST") != word("SETNX"),
        word("CC.REQUEST") != word("EXPIRE"),
        word("CC.REQUEST") != word("EXPIREAT"),
        word("CC.REQUEST") != word("CAS"),
        word("READ") != word("INCRBY"),
        word("READ") != word("APPEND"),
        word("READ") != word("GETSET"),
        word("READ") != word("SETNX"),
        word("READ") != word("EXPIRE"),
        word("READ") != word("EXPIREAT"),
        word("READ") != word("CAS"),
        word("INCRBY") != word("APPEND"),
        word("INCRBY") != word("GETSET"),
        word("INCRBY") != word("SETNX"),
        word("INCRBY") != word("EXPIRE"),
        word("INCRBY") != word("EXPIREAT"),
        word("INCRBY") != word("CAS"),
        word("APPEND") != word("GETSET"),
        word("APPEND") != word("SETNX"),
        word("APPEND") != word("EXPIRE"),
        word("APPEND") != word("EXPIREAT"),
        word("APPEND") != word("CAS"),
        word("GETSET") != word("SETNX"),
        word("GETSET") != word("EXPIRE"),
        word("GETSET") != word("EXPIREAT"),
        word("GETSET") != word("CAS"),
        word("SETNX") != word("EXPIRE"),
        word("SETNX") != word("EXPIREAT"),
        word("SETNX") != word("CAS"),
        word("EXPIRE") != word("EXPIREAT"),
        word("EXPIRE") != word("CAS"),
        word("EXPIREAT") != word("CAS"),
{
    lemma_pair_words();
    lemma_longer_words();
}

/// The two ways to read differ.
proof fn lemma_modes_apart()
    ensures
        word("FOLLOWER") != word("STALE"),
{
    lemma_longer_words();
}

/// The options differ.
proof fn lemma_options_apart()
    ensures
        word("EX") != word("PX"),
        word("EX") != word("NX"),
        word("EX") != word("XX"),
        word("EX") != word("MATCH"),
        word("EX") != word("COUNT"),
        word("EX") != word("BATCH"),
        word("PX") != word("NX"),
        word("PX") != word("XX"),
        word("PX") != word("MATCH"),
        word("PX") != word("COUNT"),
        word("PX") != word("BATCH"),
        word("NX") != word("XX"),
        word("NX") != word("MATCH"),
        word("NX") != word("COUNT"),
        word("NX") != word("BATCH"),
        word("XX") != word("MATCH"),
        word("XX") != word("COUNT"),
        word("XX") != word("BATCH"),
        word("MATCH") != word("COUNT"),
        word("MATCH") != word("BATCH"),
        word("COUNT") != word("BATCH"),
{
    lemma_option_words();
}

/// The changes of an operator differ.
proof fn lemma_admin_apart()
    ensures
        word("MEMBERS") != word("CONSISTENT"),
        word("MEMBERS") != word("ACTIVATE"),
        word("MEMBERS") != word("ATOMIC-BATCH"),
        word("MEMBERS") != word("LEAVEJOINT"),
        word("MEMBERS") != word("ADDLEARNER"),
        word("MEMBERS") != word("UPDATEADDRESS"),
        word("MEMBERS") != word("PROMOTE"),
        word("MEMBERS") != word("REMOVE"),
        word("MEMBERS") != word("TRANSFER"),
        word("CONSISTENT") != word("ACTIVATE"),
        word("CONSISTENT") != word("ATOMIC-BATCH"),
        word("CONSISTENT") != word("LEAVEJOINT"),
        word("CONSISTENT") != word("ADDLEARNER"),
        word("CONSISTENT") != word("UPDATEADDRESS"),
        word("CONSISTENT") != word("PROMOTE"),
        word("CONSISTENT") != word("REMOVE"),
        word("CONSISTENT") != word("TRANSFER"),
        word("ACTIVATE") != word("ATOMIC-BATCH"),
        word("ACTIVATE") != word("LEAVEJOINT"),
        word("ACTIVATE") != word("ADDLEARNER"),
        word("ACTIVATE") != word("UPDATEADDRESS"),
        word("ACTIVATE") != word("PROMOTE"),
        word("ACTIVATE") != word("REMOVE"),
        word("ACTIVATE") != word("TRANSFER"),
        word("ATOMIC-BATCH") != word("LEAVEJOINT"),
        word("ATOMIC-BATCH") != word("ADDLEARNER"),
        word("ATOMIC-BATCH") != word("UPDATEADDRESS"),
        word("ATOMIC-BATCH") != word("PROMOTE"),
        word("ATOMIC-BATCH") != word("REMOVE"),
        word("ATOMIC-BATCH") != word("TRANSFER"),
        word("LEAVEJOINT") != word("ADDLEARNER"),
        word("LEAVEJOINT") != word("UPDATEADDRESS"),
        word("LEAVEJOINT") != word("PROMOTE"),
        word("LEAVEJOINT") != word("REMOVE"),
        word("LEAVEJOINT") != word("TRANSFER"),
        word("ADDLEARNER") != word("UPDATEADDRESS"),
        word("ADDLEARNER") != word("PROMOTE"),
        word("ADDLEARNER") != word("REMOVE"),
        word("ADDLEARNER") != word("TRANSFER"),
        word("UPDATEADDRESS") != word("PROMOTE"),
        word("UPDATEADDRESS") != word("REMOVE"),
        word("UPDATEADDRESS") != word("TRANSFER"),
        word("PROMOTE") != word("REMOVE"),
        word("PROMOTE") != word("TRANSFER"),
        word("REMOVE") != word("TRANSFER"),
{
    lemma_admin_words();
}

/// The commands that stand alone.
pub proof fn law_bare_commands(args: Seq<Seq<u8>>)
    requires
        args.len() == 1,
    ensures
        spelled(args[0], "PING"@) ==> command_of(args) == Ok::<CommandView, RespError>(
            CommandView::Ping,
        ),
        spelled(args[0], "INFO"@) ==> command_of(args) == Ok::<CommandView, RespError>(
            CommandView::Info,
        ),
        spelled(args[0], "MULTI"@) ==> command_of(args) == Ok::<CommandView, RespError>(
            CommandView::Multi,
        ),
        spelled(args[0], "EXEC"@) ==> command_of(args) == Ok::<CommandView, RespError>(
            CommandView::Exec,
        ),
        spelled(args[0], "DISCARD"@) ==> command_of(args) == Ok::<CommandView, RespError>(
            CommandView::Discard,
        ),
{
    lemma_bare_apart();
    if spelled(args[0], "PING"@) {
        assert(upper(args[0]) == word("PING")) by {
            reveal_strlit("PING");
            lemma_spelled(args[0], "PING");
        }
    }
    if spelled(args[0], "INFO"@) {
        assert(upper(args[0]) == word("INFO")) by {
            reveal_strlit("INFO");
            lemma_spelled(args[0], "INFO");
        }
    }
    if spelled(args[0], "MULTI"@) {
        assert(upper(args[0]) == word("MULTI")) by {
            reveal_strlit("MULTI");
            lemma_spelled(args[0], "MULTI");
        }
    }
    if spelled(args[0], "EXEC"@) {
        assert(upper(args[0]) == word("EXEC")) by {
            reveal_strlit("EXEC");
            lemma_spelled(args[0], "EXEC");
        }
    }
    if spelled(args[0], "DISCARD"@) {
        assert(upper(args[0]) == word("DISCARD")) by {
            reveal_strlit("DISCARD");
            lemma_spelled(args[0], "DISCARD");
        }
    }
}

/// The commands of one argument act on that argument: what is asked for, told,
/// removed or counted is the key that was written.
pub proof fn law_commands_of_one_key(args: Seq<Seq<u8>>)
    requires
        args.len() == 2,
    ensures
        spelled(args[0], "ECHO"@) ==> command_of(args) == Ok::<CommandView, RespError>(
            CommandView::Echo(args[1]),
        ),
        spelled(args[0], "GET"@) ==> command_of(args) == Ok::<CommandView, RespError>(
            CommandView::Get(args[1]),
        ),
        spelled(args[0], "DEL"@) ==> command_of(args) == Ok::<CommandView, RespError>(
            CommandView::Del(seq![args[1]]),
        ),
        spelled(args[0], "EXISTS"@) ==> command_of(args) == Ok::<CommandView, RespError>(
            CommandView::Exists(args[1]),
        ),
        spelled(args[0], "INCR"@) ==> command_of(args) == Ok::<CommandView, RespError>(
            CommandView::IncrBy { key: args[1], delta: 1 },
        ),
        spelled(args[0], "DECR"@) ==> command_of(args) == Ok::<CommandView, RespError>(
            CommandView::IncrBy { key: args[1], delta: -1i64 as i64 },
        ),
        spelled(args[0], "GETDEL"@) ==> command_of(args) == Ok::<CommandView, RespError>(
            CommandView::GetDel(args[1]),
        ),
        spelled(args[0], "TTL"@) ==> command_of(args) == Ok::<CommandView, RespError>(
            CommandView::Ttl(args[1]),
        ),
        spelled(args[0], "PERSIST"@) ==> command_of(args) == Ok::<CommandView, RespError>(
            CommandView::Persist(args[1]),
        ),
{
    lemma_pairs_apart();
    assert(args.skip(1) =~= seq![args[1]]);
    if spelled(args[0], "ECHO"@) {
        assert(upper(args[0]) == word("ECHO")) by {
            reveal_strlit("ECHO");
            lemma_spelled(args[0], "ECHO");
        }
        assert(command_of(args) == pair_of(word("ECHO"), args));
    }
    if spelled(args[0], "GET"@) {
        assert(upper(args[0]) == word("GET")) by {
            reveal_strlit("GET");
            lemma_spelled(args[0], "GET");
        }
        assert(command_of(args) == pair_of(word("GET"), args));
    }
    if spelled(args[0], "DEL"@) {
        assert(upper(args[0]) == word("DEL")) by {
            reveal_strlit("DEL");
            lemma_spelled(args[0], "DEL");
        }
        assert(command_of(args) == pair_of(word("DEL"), args));
    }
    if spelled(args[0], "EXISTS"@) {
        assert(upper(args[0]) == word("EXISTS")) by {
            reveal_strlit("EXISTS");
            lemma_spelled(args[0], "EXISTS");
        }
        assert(command_of(args) == pair_of(word("EXISTS"), args));
    }
    if spelled(args[0], "INCR"@) {
        assert(upper(args[0]) == word("INCR")) by {
            reveal_strlit("INCR");
            lemma_spelled(args[0], "INCR");
        }
        assert(command_of(args) == pair_of(word("INCR"), args));
    }
    if spelled(args[0], "DECR"@) {
        assert(upper(args[0]) == word("DECR")) by {
            reveal_strlit("DECR");
            lemma_spelled(args[0], "DECR");
        }
        assert(command_of(args) == pair_of(word("DECR"), args));
    }
    if spelled(args[0], "GETDEL"@) {
        assert(upper(args[0]) == word("GETDEL")) by {
            reveal_strlit("GETDEL");
            lemma_spelled(args[0], "GETDEL");
        }
        assert(command_of(args) == pair_of(word("GETDEL"), args));
    }
    if spelled(args[0], "TTL"@) {
        assert(upper(args[0]) == word("TTL")) by {
            reveal_strlit("TTL");
            lemma_spelled(args[0], "TTL");
        }
        assert(command_of(args) == pair_of(word("TTL"), args));
    }
    if spelled(args[0], "PERSIST"@) {
        assert(upper(args[0]) == word("PERSIST")) by {
            reveal_strlit("PERSIST");
            lemma_spelled(args[0], "PERSIST");
        }
        assert(command_of(args) == pair_of(word("PERSIST"), args));
    }
}

/// DECR undoes INCR: on every key they write the same command with opposite
/// steps, and each is INCRBY with the step written out.
pub proof fn law_decr_undoes_incr(up: Seq<u8>, down: Seq<u8>, by: Seq<u8>, key: Seq<u8>, step: Seq<u8>)
    requires
        spelled(up, "INCR"@),
        spelled(down, "DECR"@),
        spelled(by, "INCRBY"@),
    ensures
        ({
            let raised = command_of(seq![up, key]);
            let lowered = command_of(seq![down, key]);
            let stepped = command_of(seq![by, key, step]);
            &&& raised matches Ok(CommandView::IncrBy { key: raised_key, delta: raise })
            &&& lowered matches Ok(CommandView::IncrBy { key: lowered_key, delta: lower })
            &&& raised_key == key && lowered_key == key
            &&& raise + lower == 0
            &&& i64_argument(step) == Ok::<i64, RespError>(1) ==> stepped == raised
            &&& i64_argument(step) == Ok::<i64, RespError>((-1) as i64) ==> stepped == lowered
        }),
{
    law_commands_of_one_key(seq![up, key]);
    law_commands_of_one_key(seq![down, key]);
    law_commands_of_two_arguments(seq![by, key, step]);
}

/// The commands of two arguments act on the key that was written, with the other
/// argument as it stands or as the number that it writes; what is no number is
/// refused. Lifetimes are in seconds.
pub proof fn law_commands_of_two_arguments(args: Seq<Seq<u8>>)
    requires
        args.len() == 3,
    ensures
        spelled(args[0], "APPEND"@) ==> command_of(args) == Ok::<CommandView, RespError>(
            CommandView::Append { key: args[1], value: args[2] },
        ),
        spelled(args[0], "GETSET"@) ==> command_of(args) == Ok::<CommandView, RespError>(
            CommandView::GetSet { key: args[1], value: args[2] },
        ),
        spelled(args[0], "SETNX"@) ==> command_of(args) == Ok::<CommandView, RespError>(
            CommandView::SetNx { key: args[1], value: args[2] },
        ),
        spelled(args[0], "INCRBY"@) ==> match i64_argument(args[2]) {
            Ok(delta) => command_of(args) == Ok::<CommandView, RespError>(
                CommandView::IncrBy { key: args[1], delta },
            ),
            Err(error) => command_of(args) == Err::<CommandView, RespError>(error),
        },
        spelled(args[0], "EXPIRE"@) ==> match u64_argument(args[2]) {
            Ok(seconds) => command_of(args) matches Ok(CommandView::Expire { key, ttl }) && key
                == args[1] && (if seconds * 1_000_000_000 <= u64::MAX {
                ttl.0 == seconds * 1_000_000_000
            } else {
                ttl.0 == u64::MAX
            }),
            Err(error) => command_of(args) == Err::<CommandView, RespError>(error),
        },
        spelled(args[0], "EXPIREAT"@) ==> match u64_argument(args[2]) {
            Ok(at_seconds) => command_of(args) == Ok::<CommandView, RespError>(
                CommandView::ExpireAt { key: args[1], at_seconds },
            ),
            Err(error) => command_of(args) == Err::<CommandView, RespError>(error),
        },
{
    lemma_longer_apart();
    if spelled(args[0], "APPEND"@) {
        assert(upper(args[0]) == word("APPEND")) by {
            reveal_strlit("APPEND");
            lemma_spelled(args[0], "APPEND");
        }
        assert(command_of(args) == triple_of(word("APPEND"), args));
    }
    if spelled(args[0], "GETSET"@) {
        assert(upper(args[0]) == word("GETSET")) by {
            reveal_strlit("GETSET");
            lemma_spelled(args[0], "GETSET");
        }
        assert(command_of(args) == triple_of(word("GETSET"), args));
    }
    if spelled(args[0], "SETNX"@) {
        assert(upper(args[0]) == word("SETNX")) by {
            reveal_strlit("SETNX");
            lemma_spelled(args[0], "SETNX");
        }
        assert(command_of(args) == triple_of(word("SETNX"), args));
    }
    if spelled(args[0], "INCRBY"@) {
        assert(upper(args[0]) == word("INCRBY")) by {
            reveal_strlit("INCRBY");
            lemma_spelled(args[0], "INCRBY");
        }
        assert(command_of(args) == triple_of(word("INCRBY"), args));
    }
    if spelled(args[0], "EXPIRE"@) {
        assert(upper(args[0]) == word("EXPIRE")) by {
            reveal_strlit("EXPIRE");
            lemma_spelled(args[0], "EXPIRE");
        }
        assert(command_of(args) == triple_of(word("EXPIRE"), args));
    }
    if spelled(args[0], "EXPIREAT"@) {
        assert(upper(args[0]) == word("EXPIREAT")) by {
            reveal_strlit("EXPIREAT");
            lemma_spelled(args[0], "EXPIREAT");
        }
        assert(command_of(args) == triple_of(word("EXPIREAT"), args));
    }
}

/// CAS compares with the first value and writes the second; DEL takes every key,
/// in order.
pub proof fn law_commands_of_many_arguments(args: Seq<Seq<u8>>)
    ensures
        args.len() == 4 && spelled(args[0], "CAS"@) ==> command_of(args) == Ok::<
            CommandView,
            RespError,
        >(CommandView::Cas { key: args[1], expected: args[2], value: args[3] }),
        args.len() >= 2 && spelled(args[0], "DEL"@) ==> (command_of(args) matches Ok(
            CommandView::Del(keys),
        ) && keys.len() == args.len() - 1 && forall|i: int|
            0 <= i < keys.len() ==> (#[trigger] keys[i]) == args[i + 1]),
{
    lemma_longer_apart();
    lemma_pairs_apart();
    if args.len() == 4 && spelled(args[0], "CAS"@) {
        assert(upper(args[0]) == word("CAS")) by {
            reveal_strlit("CAS");
            lemma_spelled(args[0], "CAS");
        }
    }
    if args.len() >= 2 && spelled(args[0], "DEL"@) {
        assert(upper(args[0]) == word("DEL")) by {
            reveal_strlit("DEL");
            lemma_spelled(args[0], "DEL");
        }
    }
}

/// A wrapped command is the command that stands behind the wrapping: with a retry
/// identity, or read at a follower, or read without asking the leader.
pub proof fn law_wrapped_commands(args: Seq<Seq<u8>>)
    ensures
        args.len() >= 4 && spelled(args[0], "CC.REQUEST"@) ==> match (
            u64_argument(args[1]),
            u64_argument(args[2]),
            command_of(args.skip(3)),
        ) {
            (Ok(client), Ok(sequence), Ok(inner)) => command_of(args) == Ok::<
                CommandView,
                RespError,
            >(CommandView::Request { client, sequence, command: Box::new(inner) }),
            _ => command_of(args) is Err,
        },
        args.len() >= 3 && spelled(args[0], "READ"@) && spelled(args[1], "FOLLOWER"@) ==> match (
        command_of(args.skip(2))) {
            Ok(inner) => command_of(args) == Ok::<CommandView, RespError>(
                CommandView::ReadFollower(Box::new(inner)),
            ),
            Err(error) => command_of(args) == Err::<CommandView, RespError>(error),
        },
        args.len() >= 3 && spelled(args[0], "READ"@) && spelled(args[1], "STALE"@) ==> match (
        command_of(args.skip(2))) {
            Ok(inner) => command_of(args) == Ok::<CommandView, RespError>(
                CommandView::ReadStale(Box::new(inner)),
            ),
            Err(error) => command_of(args) == Err::<CommandView, RespError>(error),
        },
{
    lemma_longer_apart();
    lemma_modes_apart();
    if args.len() >= 4 && spelled(args[0], "CC.REQUEST"@) {
        assert(upper(args[0]) == word("CC.REQUEST")) by {
            reveal_strlit("CC.REQUEST");
            lemma_spelled(args[0], "CC.REQUEST");
        }
    }
    if args.len() >= 3 && spelled(args[0], "READ"@) {
        assert(upper(args[0]) == word("READ")) by {
            reveal_strlit("READ");
            lemma_spelled(args[0], "READ");
        }
        if spelled(args[1], "FOLLOWER"@) {
            assert(upper(args[1]) == word("FOLLOWER")) by {
                reveal_strlit("FOLLOWER");
                lemma_spelled(args[1], "FOLLOWER");
            }
        }
        if spelled(args[1], "STALE"@) {
            assert(upper(args[1]) == word("STALE")) by {
                reveal_strlit("STALE");
                lemma_spelled(args[1], "STALE");
            }
        }
    }
}

proof fn lemma_set_head(args: Seq<Seq<u8>>)
    requires
        args.len() >= 3,
        spelled(args[0], "SET"@),
    ensures
        command_of(args) == set_of(args, 3, None, false, false),
{
    lemma_longer_apart();
    assert(upper(args[0]) == word("SET")) by {
        reveal_strlit("SET");
        lemma_spelled(args[0], "SET");
    }
}

proof fn lemma_set_grows(
    args: Seq<Seq<u8>>,
    more: Seq<Seq<u8>>,
    i: int,
    ttl: Option<Duration>,
    nx: bool,
    xx: bool,
)
    requires
        3 <= i <= args.len(),
        set_of(args, i, ttl, nx, xx) is Ok,
    ensures
        ({
            let whole = args + more;
            let found = set_of(args, i, ttl, nx, xx)->Ok_0;
            &&& found is SetKey
            &&& set_of(whole, i, ttl, nx, xx) == set_of(
                whole,
                args.len() as int,
                found->SetKey_ttl,
                found->nx,
                found->xx,
            )
        }),
    decreases args.len() - i,
{
    let whole = args + more;
    lemma_options_apart();
    if i < args.len() {
        assert(whole[i] == args[i]);
        let flag = upper(args[i]);
        if (flag == word("EX") || flag == word("PX")) && i + 1 < args.len() {
            assert(whole[i + 1] == args[i + 1]);
            let amount = u64_argument(args[i + 1])->Ok_0;
            lemma_set_grows(args, more, i + 2, Some(crate::command::lifetime(flag, amount)), nx, xx);
        } else if flag == word("NX") {
            lemma_set_grows(args, more, i + 1, ttl, true, xx);
        } else if flag == word("XX") {
            lemma_set_grows(args, more, i + 1, ttl, nx, true);
        }
    }
}

/// SET writes the value under the key, for good and whatever was there, unless an
/// option says otherwise: whatever options came before, NX adds that the key must
/// be absent, XX that it must be there, and EX and PX replace the lifetime, in
/// seconds and in milliseconds. Nothing can be both absent and there.
pub proof fn law_set_options(args: Seq<Seq<u8>>, option: Seq<u8>, amount: Seq<u8>)
    requires
        args.len() >= 3,
        spelled(args[0], "SET"@),
    ensures
        args.len() == 3 ==> command_of(args) == Ok::<CommandView, RespError>(
            CommandView::SetKey { key: args[1], value: args[2], ttl: None, nx: false, xx: false },
        ),
        command_of(args) matches Ok(before) ==> {
            &&& before matches CommandView::SetKey { key, value, ttl, nx, xx }
            &&& key == args[1] && value == args[2] && !(nx && xx)
            &&& spelled(option, "NX"@) ==> if xx {
                command_of(args.push(option)) is Err
            } else {
                command_of(args.push(option)) == Ok::<CommandView, RespError>(
                    CommandView::SetKey { key, value, ttl, nx: true, xx: false },
                )
            }
            &&& spelled(option, "XX"@) ==> if nx {
                command_of(args.push(option)) is Err
            } else {
                command_of(args.push(option)) == Ok::<CommandView, RespError>(
                    CommandView::SetKey { key, value, ttl, nx: false, xx: true },
                )
            }
            &&& spelled(option, "EX"@) || spelled(option, "PX"@) ==> match u64_argument(amount) {
                Err(_) => command_of(args.push(option).push(amount)) is Err,
                Ok(number) => {
                    let unit: int = if spelled(option, "EX"@) {
                        1_000_000_000
                    } else {
                        1_000_000
                    };
                    command_of(args.push(option).push(amount)) == Ok::<CommandView, RespError>(
                        CommandView::SetKey {
                            key,
                            value,
                            ttl: Some(
                                Duration(
                                    if number * unit <= u64::MAX {
                                        (number * unit) as u64
                                    } else {
                                        u64::MAX
                                    },
                                ),
                            ),
                            nx,
                            xx,
                        },
                    )
                },
            }
        },
{
    lemma_set_head(args);
    if command_of(args) is Ok {
        lemma_set_keeps(args, 3, None, false, false);
        lemma_options_apart();
        let n = args.len() as int;
        let one = args.push(option);
        let two = one.push(amount);
        lemma_set_grows(args, seq![option], 3, None, false, false);
        assert(args + seq![option] =~= one);
        lemma_set_grows(args, seq![option, amount], 3, None, false, false);
        assert(args + seq![option, amount] =~= two);
        lemma_set_head(one);
        lemma_set_head(two);
        assert(one[n] == option && two[n] == option && two[n + 1] == amount);
        assert(one[1] == args[1] && one[2] == args[2] && two[1] == args[1] && two[2] == args[2]);
        let found = command_of(args)->Ok_0;
        if spelled(option, "NX"@) {
            assert(upper(option) == word("NX")) by {
                reveal_strlit("NX");
                lemma_spelled(option, "NX");
            }
            assert(set_of(one, n, found->SetKey_ttl, found->nx, found->xx) == set_of(
                one,
                n + 1,
                found->SetKey_ttl,
                true,
                found->xx,
            ));
        }
        if spelled(option, "XX"@) {
            assert(upper(option) == word("XX")) by {
                reveal_strlit("XX");
                lemma_spelled(option, "XX");
            }
            assert(set_of(one, n, found->SetKey_ttl, found->nx, found->xx) == set_of(
                one,
                n + 1,
                found->SetKey_ttl,
                found->nx,
                true,
            ));
        }
        if spelled(option, "EX"@) {
            assert(upper(option) == word("EX")) by {
                reveal_strlit("EX");
                lemma_spelled(option, "EX");
            }
            assert(!spelled(option, "PX"@)) by {
                if spelled(option, "PX"@) {
                    assert(upper(option) == word("PX")) by {
                        reveal_strlit("PX");
                        lemma_spelled(option, "PX");
                    }
                }
            }
            if let Ok(number) = u64_argument(amount) {
                let ttl = Some(crate::command::lifetime(word("EX"), number));
                assert(set_of(two, n, found->SetKey_ttl, found->nx, found->xx) == set_of(
                    two,
                    n + 2,
                    ttl,
                    found->nx,
                    found->xx,
                ));
            }
        }
        if spelled(option, "PX"@) {
            assert(upper(option) == word("PX")) by {
                reveal_strlit("PX");
                lemma_spelled(option, "PX");
            }
            assert(!spelled(option, "EX"@)) by {
                if spelled(option, "EX"@) {
                    assert(upper(option) == word("EX")) by {
                        reveal_strlit("EX");
                        lemma_spelled(option, "EX");
                    }
                }
            }
            if let Ok(number) = u64_argument(amount) {
                let ttl = Some(crate::command::lifetime(word("PX"), number));
                assert(set_of(two, n, found->SetKey_ttl, found->nx, found->xx) == set_of(
                    two,
                    n + 2,
                    ttl,
                    found->nx,
                    found->xx,
                ));
            }
        }
    }
}

proof fn lemma_set_keeps(args: Seq<Seq<u8>>, i: int, ttl: Option<Duration>, nx: bool, xx: bool)
    requires
        3 <= i,
    ensures
        set_of(args, i, ttl, nx, xx) matches Ok(found) ==> (found matches CommandView::SetKey {
            key,
            value,
            nx,
            xx,
            ..
        } && key == args[1] && value == args[2] && !(nx && xx)),
    decreases args.len() - i,
{
    if i < args.len() {
        let flag = upper(args[i]);
        if (flag == word("EX") || flag == word("PX")) && i + 1 < args.len() {
            if let Ok(amount) = u64_argument(args[i + 1]) {
                lemma_set_keeps(args, i + 2, Some(crate::command::lifetime(flag, amount)), nx, xx);
            }
        } else if flag == word("NX") {
            lemma_set_keeps(args, i + 1, ttl, true, xx);
        } else if flag == word("XX") {
            lemma_set_keeps(args, i + 1, ttl, nx, true);
        }
    }
}

proof fn lemma_scan_head(args: Seq<Seq<u8>>)
    requires
        args.len() >= 2,
        spelled(args[0], "SCAN"@),
    ensures
        command_of(args) == match u64_argument(args[1]) {
            Err(error) => Err::<CommandView, RespError>(error),
            Ok(cursor) => scan_of(args, cursor, 2, None, 10),
        },
{
    lemma_longer_apart();
    lemma_pairs_apart();
    assert(upper(args[0]) == word("SCAN")) by {
        reveal_strlit("SCAN");
        lemma_spelled(args[0], "SCAN");
    }
}

proof fn lemma_scan_grows(
    args: Seq<Seq<u8>>,
    more: Seq<Seq<u8>>,
    cursor: u64,
    i: int,
    prefix: Option<Seq<u8>>,
    count: usize,
)
    requires
        2 <= i <= args.len(),
        scan_of(args, cursor, i, prefix, count) is Ok,
    ensures
        ({
            let whole = args + more;
            let found = scan_of(args, cursor, i, prefix, count)->Ok_0;
            &&& found matches CommandView::Scan { cursor: kept, .. }
            &&& kept == cursor
            &&& scan_of(whole, cursor, i, prefix, count) == scan_of(
                whole,
                cursor,
                args.len() as int,
                found->prefix,
                found->count,
            )
        }),
    decreases args.len() - i,
{
    let whole = args + more;
    if i < args.len() {
        assert(whole[i] == args[i]);
        let flag = upper(args[i]);
        if flag == word("MATCH") && i + 1 < args.len() {
            assert(whole[i + 1] == args[i + 1]);
            lemma_scan_grows(
                args,
                more,
                cursor,
                i + 2,
                crate::command::prefix_of(args[i + 1]),
                count,
            );
        } else if flag == word("COUNT") && i + 1 < args.len() {
            assert(whole[i + 1] == args[i + 1]);
            let amount = u64_argument(args[i + 1])->Ok_0;
            lemma_scan_grows(args, more, cursor, i + 2, prefix, crate::command::as_count(amount));
        }
    }
}

/// SCAN goes on from its cursor through every key, ten at a time, unless an option
/// says otherwise: whatever options came before, MATCH keeps the keys that begin
/// with what stands before the closing star, and COUNT replaces the number.
pub proof fn law_scan_options(args: Seq<Seq<u8>>, option: Seq<u8>, value: Seq<u8>)
    requires
        args.len() >= 2,
        spelled(args[0], "SCAN"@),
    ensures
        args.len() == 2 ==> match u64_argument(args[1]) {
            Ok(cursor) => command_of(args) == Ok::<CommandView, RespError>(
                CommandView::Scan { cursor, prefix: None, count: 10 },
            ),
            Err(error) => command_of(args) == Err::<CommandView, RespError>(error),
        },
        command_of(args) matches Ok(before) ==> {
            &&& before matches CommandView::Scan { cursor, prefix, count }
            &&& u64_argument(args[1]) == Ok::<u64, RespError>(cursor)
            &&& forall|start: Seq<u8>|
                spelled(option, "MATCH"@) && value == #[trigger] start.push(42) ==> command_of(
                    args.push(option).push(value),
                ) == Ok::<CommandView, RespError>(
                    CommandView::Scan { cursor, prefix: Some(start), count },
                )
            &&& spelled(option, "COUNT"@) ==> match u64_argument(value) {
                Err(_) => command_of(args.push(option).push(value)) is Err,
                Ok(number) => number <= usize::MAX ==> command_of(
                    args.push(option).push(value),
                ) == Ok::<CommandView, RespError>(
                    CommandView::Scan { cursor, prefix, count: number as usize },
                ),
            }
        },
{
    lemma_scan_head(args);
    if command_of(args) is Ok {
        lemma_options_apart();
        let n = args.len() as int;
        let two = args.push(option).push(value);
        let cursor = u64_argument(args[1])->Ok_0;
        lemma_scan_grows(args, seq![option, value], cursor, 2, None, 10);
        assert(args + seq![option, value] =~= two);
        assert(two[0] == args[0] && two[1] == args[1]);
        lemma_scan_head(two);
        assert(two[n] == option && two[n + 1] == value);
        let found = command_of(args)->Ok_0;
        if spelled(option, "MATCH"@) {
            assert(upper(option) == word("MATCH")) by {
                reveal_strlit("MATCH");
                lemma_spelled(option, "MATCH");
            }
            let prefix = crate::command::prefix_of(value);
            assert(scan_of(two, cursor, n, found->prefix, found->count) == scan_of(
                two,
                cursor,
                n + 2,
                prefix,
                found->count,
            ));
            assert forall|start: Seq<u8>| value == #[trigger] start.push(42) implies command_of(
                two,
            ) == Ok::<CommandView, RespError>(
                CommandView::Scan { cursor, prefix: Some(start), count: found->count },
            ) by {
                assert(value.drop_last() =~= start);
            }
        }
        if spelled(option, "COUNT"@) {
            assert(upper(option) == word("COUNT")) by {
                reveal_strlit("COUNT");
                lemma_spelled(option, "COUNT");
            }
            if let Ok(number) = u64_argument(value) {
                assert(scan_of(two, cursor, n, found->prefix, found->count) == scan_of(
                    two,
                    cursor,
                    n + 2,
                    found->prefix,
                    crate::command::as_count(number),
                ));
            }
        }
    }
}

proof fn lemma_admin_head(args: Seq<Seq<u8>>)
    requires
        args.len() >= 2,
        spelled(args[0], "CC.ADMIN"@),
    ensures
        command_of(args) == admin_of(args),
{
    lemma_longer_apart();
    lemma_pairs_apart();
    assert(upper(args[0]) == word("CC.ADMIN")) by {
        reveal_strlit("CC.ADMIN");
        lemma_spelled(args[0], "CC.ADMIN");
    }
}

/// The changes of an operator name the member and the address that were written,
/// and end with the operator and the number of the request.
pub proof fn law_admin_commands(args: Seq<Seq<u8>>)
    requires
        args.len() >= 2,
        spelled(args[0], "CC.ADMIN"@),
    ensures
        args.len() == 2 && spelled(args[1], "MEMBERS"@) ==> command_of(args) == Ok::<
            CommandView,
            RespError,
        >(CommandView::AdminMembers { consistent: false }),
        args.len() == 3 && spelled(args[1], "MEMBERS"@) && spelled(args[2], "CONSISTENT"@)
            ==> command_of(args) == Ok::<CommandView, RespError>(
            CommandView::AdminMembers { consistent: true },
        ),
        args.len() == 6 && spelled(args[1], "ADDLEARNER"@)
            ==> match (u64_argument(args[2]), u64_argument(args[4]), u64_argument(args[5])) {
            (Ok(id), Ok(operator_id), Ok(sequence)) => command_of(args) == Ok::<CommandView, RespError>(
                CommandView::Admin { operator_id, sequence, operation: AdminView::AddLearner { id, peer_address: args[3] } },
            ),
            _ => command_of(args) is Err,
        },
        args.len() == 6 && spelled(args[1], "UPDATEADDRESS"@)
            ==> match (u64_argument(args[2]), u64_argument(args[4]), u64_argument(args[5])) {
            (Ok(id), Ok(operator_id), Ok(sequence)) => command_of(args) == Ok::<CommandView, RespError>(
                CommandView::Admin { operator_id, sequence, operation: AdminView::UpdateAddress { id, peer_address: args[3] } },
            ),
            _ => command_of(args) is Err,
        },
        args.len() == 5 && spelled(args[1], "PROMOTE"@)
            ==> match (u64_argument(args[2]), u64_argument(args[3]), u64_argument(args[4])) {
            (Ok(id), Ok(operator_id), Ok(sequence)) => command_of(args) == Ok::<CommandView, RespError>(
                CommandView::Admin { operator_id, sequence, operation: AdminView::Promote { id } },
            ),
            _ => command_of(args) is Err,
        },
        args.len() == 5 && spelled(args[1], "REMOVE"@)
            ==> match (u64_argument(args[2]), u64_argument(args[3]), u64_argument(args[4])) {
            (Ok(id), Ok(operator_id), Ok(sequence)) => command_of(args) == Ok::<CommandView, RespError>(
                CommandView::Admin { operator_id, sequence, operation: AdminView::Remove { id } },
            ),
            _ => command_of(args) is Err,
        },
        args.len() == 5 && spelled(args[1], "TRANSFER"@)
            ==> match (u64_argument(args[2]), u64_argument(args[3]), u64_argument(args[4])) {
            (Ok(id), Ok(operator_id), Ok(sequence)) => command_of(args) == Ok::<CommandView, RespError>(
                CommandView::Admin { operator_id, sequence, operation: AdminView::TransferLeader { id } },
            ),
            _ => command_of(args) is Err,
        },
        args.len() == 4 && spelled(args[1], "LEAVEJOINT"@)
            ==> match (u64_argument(args[2]), u64_argument(args[3])) {
            (Ok(operator_id), Ok(sequence)) => command_of(args) == Ok::<CommandView, RespError>(
                CommandView::Admin { operator_id, sequence, operation: AdminView::LeaveJoint },
            ),
            _ => command_of(args) is Err,
        },
        args.len() == 5 && spelled(args[1], "ACTIVATE"@) && spelled(args[2], "ATOMIC-BATCH"@)
            ==> match (u64_argument(args[3]), u64_argument(args[4])) {
            (Ok(operator_id), Ok(sequence)) => command_of(args) == Ok::<CommandView, RespError>(
                CommandView::Admin { operator_id, sequence, operation: AdminView::ActivateAtomicBatch },
            ),
            _ => command_of(args) is Err,
        },
{
    lemma_admin_head(args);
    lemma_admin_apart();
    if spelled(args[1], "MEMBERS"@) {
        assert(upper(args[1]) == word("MEMBERS")) by {
            reveal_strlit("MEMBERS");
            lemma_spelled(args[1], "MEMBERS");
        }
    }
    if spelled(args[1], "ACTIVATE"@) {
        assert(upper(args[1]) == word("ACTIVATE")) by {
            reveal_strlit("ACTIVATE");
            lemma_spelled(args[1], "ACTIVATE");
        }
    }
    if spelled(args[1], "LEAVEJOINT"@) {
        assert(upper(args[1]) == word("LEAVEJOINT")) by {
            reveal_strlit("LEAVEJOINT");
            lemma_spelled(args[1], "LEAVEJOINT");
        }
    }
    if spelled(args[1], "ADDLEARNER"@) {
        assert(upper(args[1]) == word("ADDLEARNER")) by {
            reveal_strlit("ADDLEARNER");
            lemma_spelled(args[1], "ADDLEARNER");
        }
    }
    if spelled(args[1], "UPDATEADDRESS"@) {
        assert(upper(args[1]) == word("UPDATEADDRESS")) by {
            reveal_strlit("UPDATEADDRESS");
            lemma_spelled(args[1], "UPDATEADDRESS");
        }
    }
    if spelled(args[1], "PROMOTE"@) {
        assert(upper(args[1]) == word("PROMOTE")) by {
            reveal_strlit("PROMOTE");
            lemma_spelled(args[1], "PROMOTE");
        }
    }
    if spelled(args[1], "REMOVE"@) {
        assert(upper(args[1]) == word("REMOVE")) by {
            reveal_strlit("REMOVE");
            lemma_spelled(args[1], "REMOVE");
        }
    }
    if spelled(args[1], "TRANSFER"@) {
        assert(upper(args[1]) == word("TRANSFER")) by {
            reveal_strlit("TRANSFER");
            lemma_spelled(args[1], "TRANSFER");
        }
    }
    if args.len() >= 3 && spelled(args[2], "CONSISTENT"@) {
        assert(upper(args[2]) == word("CONSISTENT")) by {
            reveal_strlit("CONSISTENT");
            lemma_spelled(args[2], "CONSISTENT");
        }
    }
    if args.len() >= 3 && spelled(args[2], "ATOMIC-BATCH"@) {
        assert(upper(args[2]) == word("ATOMIC-BATCH")) by {
            reveal_strlit("ATOMIC-BATCH");
            lemma_spelled(args[2], "ATOMIC-BATCH");
        }
    }
}

/// A command is an array of its arguments, each written as a bulk string.
pub proof fn law_commands_are_arrays(args: Seq<Seq<u8>>)
    requires
        args.len() != 0,
    ensures
        command_from(RespView::Array(args.map_values(|arg: Seq<u8>| RespView::Bulk(Some(arg)))))
            == command_of(args),
{
    let items = args.map_values(|arg: Seq<u8>| RespView::Bulk(Some(arg)));
    lemma_bulk_arguments(args);
    assert forall|at: int| 0 <= at < items.len() implies !((#[trigger] items[at]) is Array) by {}
    if items.len() == 2 {
        assert(!(items[1] is Array));
    }
    if items.len() == 5 {
        assert(!(items[4] is Array));
    }
    assert(command_from(RespView::Array(items)) == flat_command(items));
}

proof fn lemma_bulk_arguments(args: Seq<Seq<u8>>)
    ensures
        crate::command::arguments(args.map_values(|arg: Seq<u8>| RespView::Bulk(Some(arg))))
            == Some(args),
    decreases args.len(),
{
    let items = args.map_values(|arg: Seq<u8>| RespView::Bulk(Some(arg)));
    if args.len() > 0 {
        lemma_bulk_arguments(args.drop_last());
        assert(items.drop_last() =~= args.drop_last().map_values(
            |arg: Seq<u8>| RespView::Bulk(Some(arg)),
        ));
        assert(items.last() == RespView::Bulk(Some(args.last())));
        assert(args.drop_last().push(args.last()) =~= args);
    } else {
        assert(args =~= Seq::empty());
    }
}

} // verus!
