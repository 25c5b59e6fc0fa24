//! What a node that joins reads in the status is what the status shows.
use vstd::prelude::*;
use vstd::string::*;
use vstd::utf8::{encode_utf8, is_ascii_chars};

use crate::fault::FaultView;
use crate::hex::{cluster_id_of, hex_of, law_hex_reads_back, lemma_hex_chars, zero_id};
use crate::ids::NodeId;
use crate::join::{
    cluster_in, features_in, field_of, field_or_empty, hex_digit, hex_number, member_of, member_set,
    members_in,
};
use crate::node_set::{ascending, lemma_ascending_set, lemma_take_next};
use crate::prose::{based_text, digit_char, hex_text, number_text};
use crate::report::above;
use crate::status::{
    book_text, field, hex_fixed, members_text, names_of, shown_from, status_names,
    ClusterStatusView, ShownAddress,
};
use crate::text::{decimal, lemma_decimal_reads_back, number_in};
use crate::words::{
    behind, first_behind, is_space, is_word, joined_by, law_pieces_come_apart,
    law_words_come_apart, pieces, words,
};

verus! {

/// Whether a character is a decimal digit.
pub(crate) open spec fn decimal_char(c: char) -> bool {
    '0' <= c <= '9'
}

/// The text of a number is its decimal digits.
pub(crate) proof fn lemma_number_text(value: nat)
    ensures
        number_text(value).len() > 0,
        forall|i: int| 0 <= i < number_text(value).len() ==> decimal_char(#[trigger] number_text(value)[i]),
        is_ascii_chars(number_text(value)),
        encode_utf8(number_text(value)) == decimal(value),
    decreases value,
{
    let text = number_text(value);
    if value >= 10 {
        lemma_number_text(value / 10);
        let head = number_text(value / 10);
        assert(text == head.push(digit_char(value % 10)));
        assert forall|i: int| 0 <= i < text.len() implies decimal_char(#[trigger] text[i]) by {
            if i < head.len() {
                assert(text[i] == head[i]);
                assert(decimal_char(head[i]));
            }
        }
    } else {
        assert(text =~= seq![digit_char(value)]);
    }
    assert(is_ascii_chars(text)) by {
        assert forall|i: int| 0 <= i < text.len() implies (text[i] as nat) < 128 by {
            assert(decimal_char(text[i]));
        }
    }
    vstd::utf8::is_ascii_chars_encode_utf8(text);
    if value >= 10 {
        let head = number_text(value / 10);
        vstd::utf8::is_ascii_chars_encode_utf8(head);
        assert(encode_utf8(text) =~= decimal(value)) by {
            assert forall|i: int| 0 <= i < text.len() implies encode_utf8(text)[i] == decimal(
                value,
            )[i] by {
                if i < head.len() {
                    assert(text[i] == head[i]);
                    assert(encode_utf8(head)[i] == decimal(value / 10)[i]);
                }
            }
        }
    } else {
        assert(encode_utf8(text) =~= decimal(value));
    }
}

/// Reading the text of a number gives it back.
pub proof fn law_numbers_read_back(value: u64)
    ensures
        number_in(number_text(value as nat)) == Some(value),
{
    lemma_number_text(value as nat);
    lemma_decimal_reads_back(value as int);
}

/// A member's name, and what it names.
proof fn lemma_name(id: NodeId)
    requires
        id.0 != 0,
    ensures
        ({
            let name = "n"@ + number_text(id.0 as nat);
            &&& member_of(name) == Ok::<NodeId, FaultView>(id)
            &&& name.len() > 0
            &&& !name.contains(',')
            &&& forall|i: int| 0 <= i < name.len() ==> !is_space(#[trigger] name[i])
        }),
{
    reveal_strlit("n");
    let digits = number_text(id.0 as nat);
    let name = "n"@ + digits;
    lemma_number_text(id.0 as nat);
    law_numbers_read_back(id.0);
    assert("n"@ =~= seq!['n']);
    assert("n"@.is_prefix_of(name)) by {
        assert(name.subrange(0, 1) =~= "n"@);
    }
    assert(name.skip(1) =~= digits);
    assert forall|i: int| 0 <= i < name.len() implies name[i] != ',' && !is_space(
        #[trigger] name[i],
    ) by {
        if i > 0 {
            assert(name[i] == digits[i - 1]);
            assert(decimal_char(digits[i - 1]));
        }
    }
}

/// The first members of a list are those that stand there.
proof fn lemma_member_names(order: Seq<NodeId>, names: Seq<Seq<char>>, n: int)
    requires
        0 <= n <= order.len(),
        names == order.map_values(|id: NodeId| "n"@ + number_text(id.0 as nat)),
        forall|i: int| 0 <= i < order.len() ==> (#[trigger] order[i]).0 != 0,
    ensures
        member_set(names, n) == Ok::<Set<NodeId>, FaultView>(order.take(n).to_set()),
    decreases n,
{
    if n == 0 {
        assert(order.take(0).to_set() =~= Set::<NodeId>::empty());
    } else {
        lemma_member_names(order, names, n - 1);
        let id = order[n - 1];
        assert(names[n - 1] == "n"@ + number_text(id.0 as nat));
        lemma_name(id);
        lemma_take_next(order, n - 1);
    }
}

/// Reading a list of members gives back the members that it was written of.
pub proof fn law_member_lists_read_back(members: Set<NodeId>)
    requires
        members.finite(),
        !members.contains(NodeId(0)),
    ensures
        members_in(members_text(members)) == Ok::<Set<NodeId>, FaultView>(members),
{
    reveal_strlit(",");
    assert(","@ =~= seq![',']);
    lemma_ascending_set(members);
    let order = ascending(members);
    let names = names_of(members);
    let text = members_text(members);
    assert forall|i: int| 0 <= i < order.len() implies (#[trigger] order[i]).0 != 0 by {
        assert(order.to_set().contains(order[i]));
    }
    if order.len() == 0 {
        assert(names =~= seq![]);
        assert(text =~= seq![]);
        assert(pieces(text, ',') =~= seq![text]);
        assert(member_set(pieces(text, ','), 0) == Ok::<Set<NodeId>, FaultView>(Set::empty()));
        assert(order.to_set() =~= Set::<NodeId>::empty());
    } else {
        assert forall|i: int| 0 <= i < names.len() implies !(#[trigger] names[i]).contains(',') by {
            assert(names[i] == "n"@ + number_text(order[i].0 as nat));
            lemma_name(order[i]);
        }
        law_pieces_come_apart(names, ',');
        lemma_member_names(order, names, order.len() as int);
        assert(order.take(order.len() as int) =~= order);
    }
}

/// Whether a text has no white space in it.
pub open spec fn plain(text: Seq<char>) -> bool {
    forall|i: int| 0 <= i < text.len() ==> !is_space(#[trigger] text[i])
}

proof fn lemma_plain_add(a: Seq<char>, b: Seq<char>)
    requires
        plain(a),
        plain(b),
    ensures
        plain(a + b),
{
    let text = a + b;
    assert forall|i: int| 0 <= i < text.len() implies !is_space(#[trigger] text[i]) by {
        if i < a.len() {
            assert(text[i] == a[i]);
        } else {
            assert(text[i] == b[i - a.len()]);
        }
    }
}

proof fn lemma_plain_joined(parts: Seq<Seq<char>>, separator: Seq<char>)
    requires
        forall|i: int| 0 <= i < parts.len() ==> plain(#[trigger] parts[i]),
        plain(separator),
    ensures
        plain(joined_by(parts, separator)),
    decreases parts.len(),
{
    if parts.len() >= 2 {
        let rest = parts.drop_last();
        assert forall|i: int| 0 <= i < rest.len() implies plain(#[trigger] rest[i]) by {
            assert(rest[i] == parts[i]);
        }
        lemma_plain_joined(rest, separator);
        assert(plain(parts[parts.len() - 1]));
        lemma_plain_add(joined_by(rest, separator), separator);
        lemma_plain_add(joined_by(rest, separator) + separator, parts.last());
    } else if parts.len() == 1 {
        assert(plain(parts[0]));
    }
}

proof fn lemma_plain_digits(value: nat, base: nat)
    requires
        2 <= base <= 16,
    ensures
        plain(based_text(value, base)),
    decreases value,
{
    let text = based_text(value, base);
    if value < base {
        assert(text =~= seq![digit_char(value)]);
    } else {
        assert(value / base < value) by (nonlinear_arith)
            requires
                base >= 2,
                value >= base,
        ;
        assert(value % base < base) by (nonlinear_arith)
            requires
                base >= 2,
        ;
        lemma_plain_digits(value / base, base);
        let head = based_text(value / base, base);
        assert(text == head.push(digit_char(value % base)));
        assert forall|i: int| 0 <= i < text.len() implies !is_space(#[trigger] text[i]) by {
            if i < head.len() {
                assert(text[i] == head[i]);
            }
        }
    }
}

proof fn lemma_plain_fixed(value: nat, digits: nat)
    ensures
        plain(hex_fixed(value, digits)),
    decreases digits,
{
    if digits > 0 {
        lemma_plain_fixed(value / 16, (digits - 1) as nat);
        let head = hex_fixed(value / 16, (digits - 1) as nat);
        let text = hex_fixed(value, digits);
        assert forall|i: int| 0 <= i < text.len() implies !is_space(#[trigger] text[i]) by {
            if i < head.len() {
                assert(text[i] == head[i]);
            }
        }
    }
}

proof fn lemma_plain_hex(bytes: Seq<u8>)
    ensures
        plain(hex_of(bytes)),
    decreases bytes.len(),
{
    if bytes.len() > 0 {
        lemma_plain_hex(bytes.drop_last());
        let head = hex_of(bytes.drop_last());
        let text = hex_of(bytes);
        assert forall|i: int| 0 <= i < text.len() implies !is_space(#[trigger] text[i]) by {
            if i < head.len() {
                assert(text[i] == head[i]);
            }
        }
    }
}

proof fn lemma_plain_literals()
    ensures
        plain(","@),
        plain("@"@),
        plain(":"@),
        plain(":0x"@),
        plain("0x"@),
        plain("="@),
        plain("n"@),
        plain("-1"@),
        plain("0"@),
        plain("1"@),
        plain("true"@),
        plain("false"@),
        plain("active"@),
        plain("idle"@),
        plain("voter"@),
        plain("learner"@),
        plain("unknown"@),
{
    reveal_strlit(",");
    reveal_strlit("@");
    reveal_strlit(":");
    reveal_strlit(":0x");
    reveal_strlit("0x");
    reveal_strlit("=");
    reveal_strlit("n");
    reveal_strlit("-1");
    reveal_strlit("0");
    reveal_strlit("1");
    reveal_strlit("true");
    reveal_strlit("false");
    reveal_strlit("active");
    reveal_strlit("idle");
    reveal_strlit("voter");
    reveal_strlit("learner");
    reveal_strlit("unknown");
}

proof fn lemma_plain_members(members: Set<NodeId>)
    ensures
        plain(members_text(members)),
{
    lemma_plain_literals();
    let order = ascending(members);
    let names = names_of(members);
    assert forall|i: int| 0 <= i < names.len() implies plain(#[trigger] names[i]) by {
        lemma_plain_digits(order[i].0 as nat, 10);
        lemma_plain_add("n"@, number_text(order[i].0 as nat));
    }
    lemma_plain_joined(names, ","@);
}

/// Whether every address of a book is written without white space.
pub open spec fn plain_book(book: Seq<ShownAddress>) -> bool {
    forall|i: int| 0 <= i < book.len() ==> plain((#[trigger] book[i]).text@)
}

proof fn lemma_plain_book(book: Seq<ShownAddress>)
    requires
        plain_book(book),
    ensures
        plain(book_text(book)),
{
    lemma_plain_literals();
    let entries = book.map_values(
        |entry: ShownAddress| number_text(entry.id.0 as nat) + "@"@ + entry.text@,
    );
    assert forall|i: int| 0 <= i < entries.len() implies plain(#[trigger] entries[i]) by {
        let entry = book[i];
        lemma_plain_digits(entry.id.0 as nat, 10);
        lemma_plain_add(number_text(entry.id.0 as nat), "@"@);
        lemma_plain_add(number_text(entry.id.0 as nat) + "@"@, entry.text@);
    }
    lemma_plain_joined(entries, ","@);
}

proof fn lemma_plain_shown(book: Seq<ShownAddress>, id: NodeId, i: int)
    requires
        plain_book(book),
    ensures
        plain(shown_from(book, id, i)),
    decreases book.len() - i,
{
    lemma_plain_literals();
    if 0 <= i < book.len() && book[i].id != id {
        lemma_plain_shown(book, id, i + 1);
    }
}

proof fn lemma_plain_member(status: ClusterStatusView, id: NodeId, role: &str)
    requires
        plain_book(status.addresses),
        plain(role@),
    ensures
        plain(status.member_text(id, role)),
{
    lemma_plain_literals();
    lemma_plain_shown(status.addresses, id, 0);
    let number = number_text(id.0 as nat);
    let address = shown_from(status.addresses, id, 0);
    let matched = number_text(status.matched_to(id) as nat);
    let lag = number_text(above(status.commit, status.matched_to(id)) as nat);
    let contact = status.contact(id);
    let transfer = if status.transfers.contains(id) {
        "active"@
    } else {
        "idle"@
    };
    let semantic = number_text(status.capability(id).semantic as nat);
    let features = hex_text(status.capability(id).features as nat);
    let fault = if status.storage_fault {
        "1"@
    } else {
        "0"@
    };
    lemma_plain_digits(id.0 as nat, 10);
    lemma_plain_digits(status.matched_to(id) as nat, 10);
    lemma_plain_digits(above(status.commit, status.matched_to(id)) as nat, 10);
    lemma_plain_digits(status.capability(id).semantic as nat, 10);
    lemma_plain_digits(status.capability(id).features as nat, 16);
    lemma_plain_digits(0, 10);
    if status.contacts.dom().contains(id) {
        lemma_plain_digits(
            (above(status.now.0, status.contacts[id].0) / 1_000_000) as nat,
            10,
        );
    }
    let t1 = number + ":"@;
    let t2 = t1 + role@;
    let t3 = t2 + ":"@;
    let t4 = t3 + address;
    let t5 = t4 + ":"@;
    let t6 = t5 + matched;
    let t7 = t6 + ":"@;
    let t8 = t7 + lag;
    let t9 = t8 + ":"@;
    let t10 = t9 + contact;
    let t11 = t10 + ":"@;
    let t12 = t11 + transfer;
    let t13 = t12 + ":"@;
    let t14 = t13 + semantic;
    let t15 = t14 + ":0x"@;
    let t16 = t15 + features;
    let t17 = t16 + ":"@;
    lemma_plain_add(number, ":"@);
    lemma_plain_add(t1, role@);
    lemma_plain_add(t2, ":"@);
    lemma_plain_add(t3, address);
    lemma_plain_add(t4, ":"@);
    lemma_plain_add(t5, matched);
    lemma_plain_add(t6, ":"@);
    lemma_plain_add(t7, lag);
    lemma_plain_add(t8, ":"@);
    lemma_plain_add(t9, contact);
    lemma_plain_add(t10, ":"@);
    lemma_plain_add(t11, transfer);
    lemma_plain_add(t12, ":"@);
    lemma_plain_add(t13, semantic);
    lemma_plain_add(t14, ":0x"@);
    lemma_plain_add(t15, features);
    lemma_plain_add(t16, ":"@);
    lemma_plain_add(t17, fault);
}

/// No value of a status has white space in it.
proof fn lemma_plain_values(status: ClusterStatusView)
    requires
        plain_book(status.addresses),
        plain_book(status.genesis_addresses),
    ensures
        forall|i: int| 0 <= i < 15 ==> plain(#[trigger] status.values()[i]),
{
    lemma_plain_literals();
    lemma_plain_hex(status.cluster_id);
    lemma_plain_hex(status.policy);
    lemma_plain_fixed(status.policy_hash as nat, 16);
    lemma_plain_digits(status.config_index as nat, 10);
    lemma_plain_digits(status.config_term as nat, 10);
    lemma_plain_members(status.membership.voters);
    lemma_plain_members(status.membership.learners);
    lemma_plain_members(status.genesis.voters);
    lemma_plain_members(status.genesis.learners);
    lemma_plain_book(status.addresses);
    lemma_plain_book(status.genesis_addresses);
    lemma_plain_digits(status.active_features as nat, 16);
    lemma_plain_digits(status.genesis.active_features as nat, 16);
    lemma_plain_add("0x"@, hex_text(status.active_features as nat));
    lemma_plain_add("0x"@, hex_text(status.genesis.active_features as nat));
    let members = status.member_texts();
    assert forall|i: int| 0 <= i < members.len() implies plain(#[trigger] members[i]) by {
        let voters = ascending(status.membership.voters);
        let learners = ascending(status.membership.learners);
        if i < voters.len() {
            lemma_plain_member(status, voters[i], "voter");
        } else {
            lemma_plain_member(status, learners[i - voters.len()], "learner");
        }
    }
    lemma_plain_joined(members, ","@);
}

/// The names of a status are plain words without a sign of equality, and no two
/// are the same.
proof fn lemma_names()
    ensures
        forall|i: int| 0 <= i < 15 ==> plain(#[trigger] status_names()[i]),
        forall|i: int| 0 <= i < 15 ==> (#[trigger] status_names()[i]).len() > 0,
        forall|i: int| 0 <= i < 15 ==> !(#[trigger] status_names()[i]).contains('='),
        forall|i: int, j: int|
            0 <= i < j < 15 ==> #[trigger] status_names()[i] != #[trigger] status_names()[j],
{
    reveal_strlit("cluster_id");
    reveal_strlit("policy");
    reveal_strlit("policy_hash");
    reveal_strlit("config_index");
    reveal_strlit("config_term");
    reveal_strlit("voters");
    reveal_strlit("learners");
    reveal_strlit("joint");
    reveal_strlit("addresses");
    reveal_strlit("members");
    reveal_strlit("active_features");
    reveal_strlit("genesis_voters");
    reveal_strlit("genesis_learners");
    reveal_strlit("genesis_addresses");
    reveal_strlit("genesis_active_features");
    assert("policy"@[0] == 'p' && "voters"@[0] == 'v');
    assert("policy_hash"@[0] == 'p' && "config_term"@[0] == 'c');
    let names = status_names();
    let sizes: Seq<nat> = seq![10, 6, 11, 12, 11, 6, 8, 5, 9, 7, 15, 14, 16, 17, 23];
    assert(names[0].len() == sizes[0] && names[1].len() == sizes[1] && names[2].len() == sizes[2]);
    assert(names[3].len() == sizes[3] && names[4].len() == sizes[4] && names[5].len() == sizes[5]);
    assert(names[6].len() == sizes[6] && names[7].len() == sizes[7] && names[8].len() == sizes[8]);
    assert(names[9].len() == sizes[9] && names[10].len() == sizes[10]);
    assert(names[11].len() == sizes[11] && names[12].len() == sizes[12]);
    assert(names[13].len() == sizes[13] && names[14].len() == sizes[14]);
    assert forall|i: int, j: int| 0 <= i < j < 15 implies #[trigger] names[i] != #[trigger] names[j] by {
        assert(names[i].len() == sizes[i] && names[j].len() == sizes[j]);
        assert(sizes[i] != sizes[j] || (i == 1 && j == 5) || (i == 2 && j == 4));
    }
}

/// What follows a field's name is its value, and no other name fits.
proof fn lemma_behind_field(name: Seq<char>, key: Seq<char>, value: Seq<char>)
    requires
        !name.contains('='),
        !key.contains('='),
    ensures
        behind(field(name, value), key + "="@) == if name == key {
            Some(value)
        } else {
            None::<Seq<char>>
        },
{
    reveal_strlit("=");
    assert("="@ =~= seq!['=']);
    let text = field(name, value);
    let prefix = key + "="@;
    if name == key {
        assert(text.subrange(0, prefix.len() as int) =~= prefix);
        assert(text.skip(prefix.len() as int) =~= value);
    } else if prefix.is_prefix_of(text) {
        assert(text.subrange(0, prefix.len() as int) == prefix);
        assert(prefix[key.len() as int] == '=');
        assert(text[key.len() as int] == '=');
        assert(text[name.len() as int] == '=');
        if key.len() < name.len() {
            assert(text[key.len() as int] == name[key.len() as int]);
            assert(name.contains(name[key.len() as int]));
        } else if name.len() < key.len() {
            assert(prefix[name.len() as int] == key[name.len() as int]);
            assert(key.contains(key[name.len() as int]));
        } else {
            assert(name =~= key) by {
                assert forall|i: int| 0 <= i < name.len() implies name[i] == key[i] by {
                    assert(text[i] == name[i]);
                    assert(prefix[i] == key[i]);
                }
            }
        }
    }
}

/// The first field with a name from `i` on is the one that has it.
proof fn lemma_first_field(status: ClusterStatusView, k: int, i: int)
    requires
        0 <= i <= k < 15,
    ensures
        first_behind(status.parts(), status_names()[k] + "="@, i) == Some(status.values()[k]),
    decreases k - i,
{
    lemma_names();
    let name = status_names()[i];
    let key = status_names()[k];
    assert(!name.contains('=') && !key.contains('='));
    lemma_behind_field(name, key, status.values()[i]);
    assert(status.parts()[i] == field(name, status.values()[i]));
    if i < k {
        assert(status_names()[i] != status_names()[k]);
        lemma_first_field(status, k, i + 1);
    }
}

/// A field of a status holds what the status shows under its name.
proof fn lemma_status_fields(status: ClusterStatusView)
    requires
        plain_book(status.addresses),
        plain_book(status.genesis_addresses),
    ensures
        forall|k: int|
            0 <= k < 15 ==> first_behind(
                words(status.text()),
                #[trigger] status_names()[k] + "="@,
                0,
            ) == Some(status.values()[k]),
{
    reveal_strlit(" ");
    reveal_strlit("=");
    assert(" "@ =~= seq![' ']);
    let parts = status.parts();
    lemma_names();
    lemma_plain_values(status);
    lemma_plain_literals();
    assert forall|i: int| 0 <= i < parts.len() implies is_word(#[trigger] parts[i]) by {
        let name = status_names()[i];
        assert(plain(name) && name.len() > 0);
        assert(plain(status.values()[i]));
        lemma_plain_add(name, "="@);
        lemma_plain_add(name + "="@, status.values()[i]);
    }
    law_words_come_apart(parts);
    assert forall|k: int| 0 <= k < 15 implies first_behind(
        words(status.text()),
        #[trigger] status_names()[k] + "="@,
        0,
    ) == Some(status.values()[k]) by {
        lemma_first_field(status, k, 0);
    }
}

/// Hexadecimal digits write their number.
proof fn lemma_hex_text(value: nat)
    ensures
        hex_number(hex_text(value)) == Some(value),
        hex_text(value).len() > 0,
        hex_text(value)[0] != '+',
    decreases value,
{
    let text = hex_text(value);
    if value < 16 {
        assert(text =~= seq![digit_char(value)]);
        assert(text.drop_last() =~= Seq::<char>::empty());
        assert(hex_number(Seq::<char>::empty()) == Some(0nat));
        assert(hex_digit(digit_char(value)) == Some(value));
    } else {
        lemma_hex_text(value / 16);
        let head = hex_text(value / 16);
        assert(text == head.push(digit_char(value % 16)));
        assert(text.drop_last() =~= head);
        assert(hex_digit(digit_char(value % 16)) == Some(value % 16));
        assert(text[0] == head[0]);
    }
}

proof fn lemma_features_read(status: Seq<char>, key: &str, features: u64)
    requires
        field_of(status, key) == Some("0x"@ + hex_text(features as nat)),
    ensures
        features_in(status, key) == features,
{
    let digits = hex_text(features as nat);
    let text = "0x"@ + digits;
    assert(text.subrange(0, "0x"@.len() as int) =~= "0x"@);
    assert(text.skip("0x"@.len() as int) =~= digits);
    lemma_hex_text(features as nat);
}

/// A node that joins reads in the status exactly what the status shows: the
/// cluster and its policy, today's members and features, and those that the
/// cluster began with.
pub proof fn law_status_reads_back(status: ClusterStatusView)
    requires
        status.cluster_id.len() == 16,
        !zero_id(status.cluster_id),
        status.membership.voters.finite(),
        status.membership.learners.finite(),
        !status.membership.has(NodeId(0)),
        status.genesis.voters.finite(),
        status.genesis.learners.finite(),
        !status.genesis.has(NodeId(0)),
        plain_book(status.addresses),
        plain_book(status.genesis_addresses),
    ensures
        cluster_in(status.text(), status.policy) == Ok::<Seq<u8>, FaultView>(status.cluster_id),
        members_in(field_or_empty(status.text(), "voters")) == Ok::<Set<NodeId>, FaultView>(
            status.membership.voters,
        ),
        members_in(field_or_empty(status.text(), "learners")) == Ok::<Set<NodeId>, FaultView>(
            status.membership.learners,
        ),
        field_of(status.text(), "addresses") == Some(book_text(status.addresses)),
        features_in(status.text(), "active_features") == status.active_features,
        members_in(field_or_empty(status.text(), "genesis_voters")) == Ok::<
            Set<NodeId>,
            FaultView,
        >(status.genesis.voters),
        members_in(field_or_empty(status.text(), "genesis_learners")) == Ok::<
            Set<NodeId>,
            FaultView,
        >(status.genesis.learners),
        field_of(status.text(), "genesis_voters") is Some,
        field_of(status.text(), "genesis_addresses") == Some(book_text(status.genesis_addresses)),
        features_in(status.text(), "genesis_active_features") == status.genesis.active_features,
{
    let text = status.text();
    lemma_status_fields(status);
    let names = status_names();
    assert(names[0] == "cluster_id"@ && names[1] == "policy"@);
    assert(names[5] == "voters"@ && names[6] == "learners"@ && names[8] == "addresses"@);
    assert(names[10] == "active_features"@ && names[11] == "genesis_voters"@);
    assert(names[12] == "genesis_learners"@ && names[13] == "genesis_addresses"@);
    assert(names[14] == "genesis_active_features"@);
    assert(field_of(text, "cluster_id") == Some(hex_of(status.cluster_id)));
    assert(field_of(text, "policy") == Some(hex_of(status.policy)));
    law_hex_reads_back(status.policy);
    lemma_cluster_read(status.cluster_id);
    law_member_lists_read_back(status.membership.voters);
    law_member_lists_read_back(status.membership.learners);
    law_member_lists_read_back(status.genesis.voters);
    law_member_lists_read_back(status.genesis.learners);
    lemma_features_read(text, "active_features", status.active_features);
    lemma_features_read(text, "genesis_active_features", status.genesis.active_features);
}

proof fn lemma_cluster_read(id: Seq<u8>)
    requires
        id.len() == 16,
        !zero_id(id),
    ensures
        cluster_id_of(encode_utf8(hex_of(id))) == Ok::<Seq<u8>, FaultView>(id),
{
    law_hex_reads_back(id);
    lemma_hex_chars(id);
    vstd::utf8::is_ascii_chars_encode_utf8(hex_of(id));
}

} // verus!
