//! The canonical bytes of a configuration change.
use vstd::prelude::*;

use crate::ids::{ClientId, LogIndex, NodeId, Time};
use crate::membership::{
    ConfigEnvelope, ConfigOperation, EnvelopeView, OperationView, PeerAddress, SessionKey,
    TransferResult,
};
use crate::node_set::{ascending, increasing, lemma_ascending, lemma_increasing_unique, NodeSet};
use crate::text::write_bytes;
use crate::wire::{
    le16, le64, lemma_le_len, lemma_stands_byte, lemma_stands_split, lemma_u16_at, lemma_u64_at,
    read_u16, read_u64, read_u8, stands_at, u16_at, u64_at, u8_at, write_u16, write_u64,
    DecodeError,
};

verus! {

/// `CCCF` and the format version.
pub open spec fn envelope_header() -> Seq<u8> {
    seq![67u8, 67, 67, 70, 1, 0]
}

pub open spec fn session_bytes(session: Option<(SessionKey, u64)>) -> Seq<u8> {
    match session {
        None => seq![0u8],
        Some(owner) => seq![1u8, owner.0.namespace] + le64(owner.0.client.0) + le64(owner.1),
    }
}

pub open spec fn address_bytes(address: PeerAddress) -> Seq<u8> {
    match address {
        PeerAddress::V4 { ip, port } => seq![4u8] + ip@ + le16(port),
        PeerAddress::V6 { ip, port } => seq![6u8] + ip@ + le16(port),
    }
}

pub open spec fn optional_address_bytes(address: Option<PeerAddress>) -> Seq<u8> {
    match address {
        None => seq![0u8],
        Some(address) => seq![1u8] + address_bytes(address),
    }
}

/// Member ids one behind the other.
pub open spec fn ids_bytes(ids: Seq<NodeId>) -> Seq<u8>
    decreases ids.len(),
{
    if ids.len() == 0 {
        Seq::empty()
    } else {
        ids_bytes(ids.drop_last()) + le64(ids.last().0)
    }
}

pub open spec fn result_code(result: TransferResult) -> u8 {
    match result {
        TransferResult::Success => 1,
        TransferResult::Timeout => 2,
        TransferResult::Superseded => 3,
    }
}

pub open spec fn operation_bytes(operation: OperationView) -> Seq<u8> {
    match operation {
        OperationView::AddLearner { id, address } => seq![1u8] + le64(id.0)
            + optional_address_bytes(address),
        OperationView::RemoveLearner { id } => seq![2u8] + le64(id.0),
        OperationView::UpdateAddress { id, address } => seq![3u8] + le64(id.0) + address_bytes(
            address,
        ),
        OperationView::EnterJoint { new_voters } => seq![4u8] + le64(new_voters.len() as u64)
            + ids_bytes(ascending(new_voters)),
        OperationView::LeaveJoint { enter_index } => seq![5u8] + le64(enter_index.0),
        OperationView::BeginLeaderTransfer { target } => seq![6u8] + le64(target.0),
        OperationView::FinishLeaderTransfer { intent_index, result } => seq![7u8] + le64(
            intent_index.0,
        ) + seq![result_code(result)],
        OperationView::ActivateFeature { feature } => seq![8u8] + le64(feature),
    }
}

/// The canonical bytes of a configuration change.
pub open spec fn envelope_bytes(envelope: EnvelopeView) -> Seq<u8> {
    envelope_header() + session_bytes(envelope.admin_session) + le64(envelope.leader_time.0)
        + operation_bytes(envelope.operation)
}

/// Whether a configuration change has bytes: the voter set of a joint change
/// is finite and can be counted.
pub open spec fn encodable(envelope: EnvelopeView) -> bool {
    envelope.operation matches OperationView::EnterJoint { new_voters } ==> {
        &&& increasing(ascending(new_voters))
        &&& ascending(new_voters).to_set() == new_voters
        &&& new_voters.len() <= u64::MAX
    }
}

/// The array of four bytes with the given contents.
pub open spec fn array4(bytes: Seq<u8>) -> [u8; 4] {
    choose|ip: [u8; 4]| ip@ == bytes
}

pub open spec fn array16(bytes: Seq<u8>) -> [u8; 16] {
    choose|ip: [u8; 16]| ip@ == bytes
}

/// The session at a position and where it ends.
pub open spec fn session_at(input: Seq<u8>, at: int) -> Option<(Option<(SessionKey, u64)>, int)> {
    match u8_at(input, at) {
        Some(0) => Some((None, at + 1)),
        Some(1) => match (u8_at(input, at + 1), u64_at(input, at + 2), u64_at(input, at + 10)) {
            (Some(namespace), Some(client), Some(sequence)) => Some(
                (Some((SessionKey { namespace, client: ClientId(client) }, sequence)), at + 18),
            ),
            _ => None,
        },
        _ => None,
    }
}

/// The address at a position and where it ends.
pub open spec fn address_at(input: Seq<u8>, at: int) -> Option<(PeerAddress, int)> {
    match u8_at(input, at) {
        Some(4) => match u16_at(input, at + 5) {
            Some(port) => Some(
                (PeerAddress::V4 { ip: array4(input.subrange(at + 1, at + 5)), port }, at + 7),
            ),
            None => None,
        },
        Some(6) => match u16_at(input, at + 17) {
            Some(port) => Some(
                (PeerAddress::V6 { ip: array16(input.subrange(at + 1, at + 17)), port }, at + 19),
            ),
            None => None,
        },
        _ => None,
    }
}

/// `count` member ids at a position.
pub open spec fn ids_at(input: Seq<u8>, at: int, count: nat) -> Seq<NodeId> {
    Seq::new(count, |i: int| NodeId(u64_at(input, at + 8 * i)->0))
}

/// The operation at a position and where it ends.
pub open spec fn operation_at(input: Seq<u8>, at: int) -> Option<(OperationView, int)> {
    match (u8_at(input, at), u64_at(input, at + 1)) {
        (Some(tag), Some(word)) => {
            let next = at + 9;
            if tag == 1 {
                match u8_at(input, next) {
                    Some(0) => Some(
                        (OperationView::AddLearner { id: NodeId(word), address: None }, next + 1),
                    ),
                    Some(1) => match address_at(input, next + 1) {
                        Some(found) => Some(
                            (
                                OperationView::AddLearner {
                                    id: NodeId(word),
                                    address: Some(found.0),
                                },
                                found.1,
                            ),
                        ),
                        None => None,
                    },
                    _ => None,
                }
            } else if tag == 2 {
                Some((OperationView::RemoveLearner { id: NodeId(word) }, next))
            } else if tag == 3 {
                match address_at(input, next) {
                    Some(found) => Some(
                        (
                            OperationView::UpdateAddress { id: NodeId(word), address: found.0 },
                            found.1,
                        ),
                    ),
                    None => None,
                }
            } else if tag == 4 {
                let ids = ids_at(input, next, word as nat);
                if next + 8 * word <= input.len() && increasing(ids) {
                    Some((OperationView::EnterJoint { new_voters: ids.to_set() }, next + 8 * word))
                } else {
                    None
                }
            } else if tag == 5 {
                Some((OperationView::LeaveJoint { enter_index: LogIndex(word) }, next))
            } else if tag == 6 {
                Some((OperationView::BeginLeaderTransfer { target: NodeId(word) }, next))
            } else if tag == 7 {
                match u8_at(input, next) {
                    Some(1) => Some(
                        (
                            OperationView::FinishLeaderTransfer {
                                intent_index: LogIndex(word),
                                result: TransferResult::Success,
                            },
                            next + 1,
                        ),
                    ),
                    Some(2) => Some(
                        (
                            OperationView::FinishLeaderTransfer {
                                intent_index: LogIndex(word),
                                result: TransferResult::Timeout,
                            },
                            next + 1,
                        ),
                    ),
                    Some(3) => Some(
                        (
                            OperationView::FinishLeaderTransfer {
                                intent_index: LogIndex(word),
                                result: TransferResult::Superseded,
                            },
                            next + 1,
                        ),
                    ),
                    _ => None,
                }
            } else if tag == 8 {
                Some((OperationView::ActivateFeature { feature: word }, next))
            } else {
                None
            }
        },
        _ => None,
    }
}

/// The configuration change that canonical bytes write.
pub open spec fn envelope_of(input: Seq<u8>) -> Option<EnvelopeView> {
    if !stands_at(input, 0, envelope_header()) {
        None
    } else {
        match session_at(input, 6) {
            None => None,
            Some(session) => match (u64_at(input, session.1), operation_at(input, session.1 + 8)) {
                (Some(time), Some(operation)) => if operation.1 == input.len() {
                    Some(
                        EnvelopeView {
                            admin_session: session.0,
                            leader_time: Time(time),
                            operation: operation.0,
                        },
                    )
                } else {
                    None
                },
                _ => None,
            },
        }
    }
}

proof fn lemma_session_stands(input: Seq<u8>, at: int, session: Option<(SessionKey, u64)>)
    ensures
        stands_at(input, at, session_bytes(session)) <==> session_at(input, at) == Some(
            (session, at + session_bytes(session).len()),
        ),
{
    match session {
        None => {
            lemma_stands_byte(input, at, 0);
        },
        Some(owner) => {
            let head = seq![1u8, owner.0.namespace];
            assert(head =~= seq![1u8] + seq![owner.0.namespace]);
            lemma_stands_split(input, at, head + le64(owner.0.client.0), le64(owner.1));
            lemma_stands_split(input, at, head, le64(owner.0.client.0));
            lemma_stands_split(input, at, seq![1u8], seq![owner.0.namespace]);
            lemma_stands_byte(input, at, 1);
            lemma_stands_byte(input, at + 1, owner.0.namespace);
            lemma_u64_at(input, at + 2);
            lemma_u64_at(input, at + 10);
            lemma_le_len(owner.0.client.0 as nat, 8);
            lemma_le_len(owner.1 as nat, 8);
        },
    }
}

proof fn lemma_array4(ip: [u8; 4])
    ensures
        array4(ip@) == ip,
{
    let chosen = array4(ip@);
    assert(chosen@ == ip@);
    assert(chosen =~= ip);
}

proof fn lemma_array16(ip: [u8; 16])
    ensures
        array16(ip@) == ip,
{
    let chosen = array16(ip@);
    assert(chosen@ == ip@);
    assert(chosen =~= ip);
}

/// Any four bytes are the contents of an array.
proof fn lemma_array4_exists(bytes: Seq<u8>)
    requires
        bytes.len() == 4,
    ensures
        array4(bytes)@ == bytes,
{
    let ip: [u8; 4] = [bytes[0], bytes[1], bytes[2], bytes[3]];
    assert(ip@ =~= bytes);
}

proof fn lemma_array16_exists(bytes: Seq<u8>)
    requires
        bytes.len() == 16,
    ensures
        array16(bytes)@ == bytes,
{
    let ip: [u8; 16] = [
        bytes[0],
        bytes[1],
        bytes[2],
        bytes[3],
        bytes[4],
        bytes[5],
        bytes[6],
        bytes[7],
        bytes[8],
        bytes[9],
        bytes[10],
        bytes[11],
        bytes[12],
        bytes[13],
        bytes[14],
        bytes[15],
    ];
    assert(ip@ =~= bytes);
}

proof fn lemma_address_stands(input: Seq<u8>, at: int, address: PeerAddress)
    ensures
        stands_at(input, at, address_bytes(address)) <==> address_at(input, at) == Some(
            (address, at + address_bytes(address).len()),
        ),
{
    match address {
        PeerAddress::V4 { ip, port } => {
            lemma_stands_split(input, at, seq![4u8] + ip@, le16(port));
            lemma_stands_split(input, at, seq![4u8], ip@);
            lemma_stands_byte(input, at, 4);
            lemma_u16_at(input, at + 5);
            lemma_le_len(port as nat, 2);
            lemma_array4(ip);
            if 0 <= at && at + 5 <= input.len() {
                lemma_array4_exists(input.subrange(at + 1, at + 5));
            }
        },
        PeerAddress::V6 { ip, port } => {
            lemma_stands_split(input, at, seq![6u8] + ip@, le16(port));
            lemma_stands_split(input, at, seq![6u8], ip@);
            lemma_stands_byte(input, at, 6);
            lemma_u16_at(input, at + 17);
            lemma_le_len(port as nat, 2);
            lemma_array16(ip);
            if 0 <= at && at + 17 <= input.len() {
                lemma_array16_exists(input.subrange(at + 1, at + 17));
            }
        },
    }
}

proof fn lemma_address_len(address: PeerAddress)
    ensures
        address_bytes(address).len() == match address {
            PeerAddress::V4 { .. } => 7int,
            PeerAddress::V6 { .. } => 19int,
        },
{
    match address {
        PeerAddress::V4 { ip, port } => {
            lemma_le_len(port as nat, 2);
        },
        PeerAddress::V6 { ip, port } => {
            lemma_le_len(port as nat, 2);
        },
    }
}

proof fn lemma_ids_len(ids: Seq<NodeId>)
    ensures
        ids_bytes(ids).len() == 8 * ids.len(),
    decreases ids.len(),
{
    if ids.len() > 0 {
        lemma_ids_len(ids.drop_last());
        lemma_le_len(ids.last().0 as nat, 8);
    }
}

proof fn lemma_ids_stand(input: Seq<u8>, at: int, ids: Seq<NodeId>)
    requires
        0 <= at,
    ensures
        stands_at(input, at, ids_bytes(ids)) <==> at + 8 * ids.len() <= input.len() && ids_at(
            input,
            at,
            ids.len(),
        ) == ids,
    decreases ids.len(),
{
    lemma_ids_len(ids);
    let found = ids_at(input, at, ids.len());
    if ids.len() == 0 {
        assert(found =~= ids);
        if at <= input.len() {
            assert(input.subrange(at, at) =~= ids_bytes(ids));
        }
    } else {
        let head = ids.drop_last();
        let n = head.len();
        lemma_ids_len(head);
        lemma_ids_stand(input, at, head);
        lemma_stands_split(input, at, ids_bytes(head), le64(ids.last().0));
        lemma_u64_at(input, at + 8 * n);
        lemma_le_len(ids.last().0 as nat, 8);
        let found_head = ids_at(input, at, n);
        assert(found.drop_last() =~= found_head);
        if found == ids {
            assert(found[n as int] == ids.last());
        }
        if found_head == head && u64_at(input, at + 8 * n) == Some(ids.last().0) {
            assert forall|i: int| 0 <= i < ids.len() implies found[i] == ids[i] by {
                if i < n {
                    assert(found_head[i] == head[i]);
                }
            }
            assert(found =~= ids);
        }
    }
}

/// Whether an operation has bytes.
spec fn operation_encodable(operation: OperationView) -> bool {
    operation matches OperationView::EnterJoint { new_voters } ==> {
        &&& increasing(ascending(new_voters))
        &&& ascending(new_voters).to_set() == new_voters
        &&& new_voters.len() <= u64::MAX
    }
}

/// What stands at a position is what is read there, and the other way round.
proof fn lemma_operation_stands(input: Seq<u8>, at: int, operation: OperationView)
    requires
        operation_encodable(operation),
    ensures
        stands_at(input, at, operation_bytes(operation)) <==> operation_at(input, at) == Some(
            (operation, at + operation_bytes(operation).len()),
        ),
{
    lemma_u64_at(input, at + 1);
    match operation {
        OperationView::AddLearner { id, address } => {
            let head = seq![1u8] + le64(id.0);
            lemma_stands_split(input, at, head, optional_address_bytes(address));
            lemma_stands_split(input, at, seq![1u8], le64(id.0));
            lemma_stands_byte(input, at, 1);
            lemma_le_len(id.0 as nat, 8);
            match address {
                None => {
                    lemma_stands_byte(input, at + 9, 0);
                },
                Some(address) => {
                    lemma_stands_split(input, at + 9, seq![1u8], address_bytes(address));
                    lemma_stands_byte(input, at + 9, 1);
                    lemma_address_stands(input, at + 10, address);
                },
            }
        },
        OperationView::RemoveLearner { id } => {
            lemma_stands_split(input, at, seq![2u8], le64(id.0));
            lemma_stands_byte(input, at, 2);
            lemma_le_len(id.0 as nat, 8);
        },
        OperationView::UpdateAddress { id, address } => {
            let head = seq![3u8] + le64(id.0);
            lemma_stands_split(input, at, head, address_bytes(address));
            lemma_stands_split(input, at, seq![3u8], le64(id.0));
            lemma_stands_byte(input, at, 3);
            lemma_le_len(id.0 as nat, 8);
            lemma_address_stands(input, at + 9, address);
        },
        OperationView::EnterJoint { new_voters } => {
            let ids = ascending(new_voters);
            lemma_ascending(ids);
            let count = new_voters.len() as u64;
            let head = seq![4u8] + le64(count);
            lemma_stands_split(input, at, head, ids_bytes(ids));
            lemma_stands_split(input, at, seq![4u8], le64(count));
            lemma_stands_byte(input, at, 4);
            lemma_le_len(count as nat, 8);
            lemma_ids_len(ids);
            if 0 <= at {
                lemma_ids_stand(input, at + 9, ids);
                if let Some(found) = operation_at(input, at) {
                    if found.0 == operation {
                        let read = ids_at(input, at + 9, (u64_at(input, at + 1)->0) as nat);
                        lemma_increasing_unique(read, ids);
                    }
                }
            }
        },
        OperationView::LeaveJoint { enter_index } => {
            lemma_stands_split(input, at, seq![5u8], le64(enter_index.0));
            lemma_stands_byte(input, at, 5);
            lemma_le_len(enter_index.0 as nat, 8);
        },
        OperationView::BeginLeaderTransfer { target } => {
            lemma_stands_split(input, at, seq![6u8], le64(target.0));
            lemma_stands_byte(input, at, 6);
            lemma_le_len(target.0 as nat, 8);
        },
        OperationView::FinishLeaderTransfer { intent_index, result } => {
            let head = seq![7u8] + le64(intent_index.0);
            lemma_stands_split(input, at, head, seq![result_code(result)]);
            lemma_stands_split(input, at, seq![7u8], le64(intent_index.0));
            lemma_stands_byte(input, at, 7);
            lemma_stands_byte(input, at + 9, result_code(result));
            lemma_le_len(intent_index.0 as nat, 8);
        },
        OperationView::ActivateFeature { feature } => {
            lemma_stands_split(input, at, seq![8u8], le64(feature));
            lemma_stands_byte(input, at, 8);
            lemma_le_len(feature as nat, 8);
        },
    }
}

/// What is read at a position has bytes, and they end where reading ended.
proof fn lemma_operation_read(input: Seq<u8>, at: int)
    ensures
        operation_at(input, at) matches Some(found) ==> operation_encodable(found.0) && found.1
            == at + operation_bytes(found.0).len(),
{
    if let Some(found) = operation_at(input, at) {
        let word = u64_at(input, at + 1)->0;
        lemma_le_len(word as nat, 8);
        match found.0 {
            OperationView::AddLearner { id, address } => {
                if let Some(address) = address {
                    lemma_address_len(address);
                }
            },
            OperationView::UpdateAddress { id, address } => {
                lemma_address_len(address);
            },
            OperationView::EnterJoint { new_voters } => {
                let ids = ids_at(input, at + 9, word as nat);
                lemma_ascending(ids);
                lemma_ids_len(ids);
                lemma_le_len(new_voters.len(), 8);
            },
            _ => {},
        }
    }
}

/// Reading the bytes of a configuration change gives it back.
#[verifier::rlimit(80)]
#[verifier::spinoff_prover]
pub proof fn law_envelope_reads_back(envelope: EnvelopeView)
    requires
        encodable(envelope),
    ensures
        envelope_of(envelope_bytes(envelope)) == Some(envelope),
{
    let input = envelope_bytes(envelope);
    let session = session_bytes(envelope.admin_session);
    let head = envelope_header() + session;
    let timed = head + le64(envelope.leader_time.0);
    assert(input.subrange(0, input.len() as int) =~= input);
    assert(stands_at(input, 0, input));
    lemma_stands_split(input, 0, timed, operation_bytes(envelope.operation));
    lemma_stands_split(input, 0, head, le64(envelope.leader_time.0));
    lemma_stands_split(input, 0, envelope_header(), session);
    lemma_session_stands(input, 6, envelope.admin_session);
    lemma_u64_at(input, head.len() as int);
    lemma_le_len(envelope.leader_time.0 as nat, 8);
    lemma_operation_stands(input, timed.len() as int, envelope.operation);
}

/// Only the canonical bytes of a configuration change are read as it.
#[verifier::rlimit(80)]
#[verifier::spinoff_prover]
pub proof fn law_envelope_bytes_are_canonical(input: Seq<u8>)
    ensures
        envelope_of(input) matches Some(envelope) ==> encodable(envelope) && envelope_bytes(
            envelope,
        ) == input,
{
    if let Some(envelope) = envelope_of(input) {
        let session = session_bytes(envelope.admin_session);
        let head = envelope_header() + session;
        let timed = head + le64(envelope.leader_time.0);
        let found = session_at(input, 6)->0;
        if let Some(owner) = envelope.admin_session {
            lemma_le_len(owner.0.client.0 as nat, 8);
            lemma_le_len(owner.1 as nat, 8);
        }
        assert(found.1 == 6 + session.len());
        lemma_session_stands(input, 6, envelope.admin_session);
        lemma_u64_at(input, head.len() as int);
        lemma_le_len(envelope.leader_time.0 as nat, 8);
        lemma_operation_read(input, timed.len() as int);
        lemma_operation_stands(input, timed.len() as int, envelope.operation);
        lemma_stands_split(input, 0, envelope_header(), session);
        lemma_stands_split(input, 0, head, le64(envelope.leader_time.0));
        lemma_stands_split(input, 0, timed, operation_bytes(envelope.operation));
        assert(input.subrange(0, input.len() as int) =~= input);
    }
}

fn write_address(address: &PeerAddress, output: &mut Vec<u8>)
    ensures
        final(output)@ == old(output)@ + address_bytes(*address),
{
    let ghost before = output@;
    match address {
        PeerAddress::V4 { ip, port } => {
            output.push(4);
            write_bytes(ip.as_slice(), output);
            write_u16(*port, output);
        },
        PeerAddress::V6 { ip, port } => {
            output.push(6);
            write_bytes(ip.as_slice(), output);
            write_u16(*port, output);
        },
    }
    assert(output@ =~= before + address_bytes(*address));
}

fn write_operation(operation: &ConfigOperation, output: &mut Vec<u8>)
    ensures
        final(output)@ == old(output)@ + operation_bytes(operation@),
        operation_encodable(operation@),
{
    let ghost before = output@;
    match operation {
        ConfigOperation::AddLearner { id, address } => {
            output.push(1);
            write_u64(id.0, output);
            match address {
                None => {
                    output.push(0);
                },
                Some(address) => {
                    output.push(1);
                    write_address(address, output);
                },
            }
            assert(output@ =~= before + operation_bytes(operation@));
        },
        ConfigOperation::RemoveLearner { id } => {
            output.push(2);
            write_u64(id.0, output);
            assert(output@ =~= before + operation_bytes(operation@));
        },
        ConfigOperation::UpdateAddress { id, address } => {
            output.push(3);
            write_u64(id.0, output);
            write_address(address, output);
            assert(output@ =~= before + operation_bytes(operation@));
        },
        ConfigOperation::EnterJoint { new_voters } => {
            let count: usize = new_voters.len();
            output.push(4);
            write_u64(count as u64, output);
            let ghost order = ascending(new_voters@);
            let ghost head = output@;
            let mut i: usize = 0;
            assert(order.take(0) =~= Seq::<NodeId>::empty());
            assert(output@ =~= head + ids_bytes(order.take(0)));
            while i < count
                invariant
                    i <= count == order.len() == new_voters@.len(),
                    order == ascending(new_voters@),
                    output@ == head + ids_bytes(order.take(i as int)),
                decreases count - i,
            {
                let ghost sofar = output@;
                let id = new_voters.at(i);
                write_u64(id.0, output);
                proof {
                    let next = order.take(i as int + 1);
                    assert(next.drop_last() =~= order.take(i as int));
                    assert(next.last() == id);
                    assert(output@ =~= head + ids_bytes(next));
                }
                i += 1;
            }
            proof {
                assert(order.take(i as int) =~= order);
                assert(output@ =~= before + operation_bytes(operation@));
            }
        },
        ConfigOperation::LeaveJoint { enter_index } => {
            output.push(5);
            write_u64(enter_index.0, output);
            assert(output@ =~= before + operation_bytes(operation@));
        },
        ConfigOperation::BeginLeaderTransfer { target } => {
            output.push(6);
            write_u64(target.0, output);
            assert(output@ =~= before + operation_bytes(operation@));
        },
        ConfigOperation::FinishLeaderTransfer { intent_index, result } => {
            output.push(7);
            write_u64(intent_index.0, output);
            output.push(
                match result {
                    TransferResult::Success => 1,
                    TransferResult::Timeout => 2,
                    TransferResult::Superseded => 3,
                },
            );
            assert(output@ =~= before + operation_bytes(operation@));
        },
        ConfigOperation::ActivateFeature { feature } => {
            output.push(8);
            write_u64(*feature, output);
            assert(output@ =~= before + operation_bytes(operation@));
        },
    }
}

fn read_session(bytes: &[u8], at: usize) -> (found: Option<(Option<(SessionKey, u64)>, usize)>)
    ensures
        match found {
            Some(session) => session_at(bytes@, at as int) == Some((session.0, session.1 as int))
                && session.1 <= bytes@.len(),
            None => session_at(bytes@, at as int) is None,
        },
{
    let length: usize = bytes.len();
    match read_u8(bytes, at) {
        Some(0) => Some((None, at + 1)),
        Some(1) => {
            let namespace: u8 = read_u8(bytes, at + 1)?;
            let client: u64 = read_u64(bytes, at + 2)?;
            let sequence: u64 = read_u64(bytes, at + 10)?;
            Some((Some((SessionKey { namespace, client: ClientId(client) }, sequence)), at + 18))
        },
        _ => None,
    }
}

fn read_address(bytes: &[u8], at: usize) -> (found: Option<(PeerAddress, usize)>)
    ensures
        match found {
            Some(address) => address_at(bytes@, at as int) == Some((address.0, address.1 as int))
                && address.1 <= bytes@.len(),
            None => address_at(bytes@, at as int) is None,
        },
{
    let length: usize = bytes.len();
    match read_u8(bytes, at) {
        Some(4) => {
            if length - at < 7 {
                return None;
            }
            let port: u16 = read_u16(bytes, at + 5)?;
            let ip: [u8; 4] = [bytes[at + 1], bytes[at + 2], bytes[at + 3], bytes[at + 4]];
            proof {
                assert(ip@ =~= bytes@.subrange(at + 1, at + 5));
                lemma_array4(ip);
            }
            Some((PeerAddress::V4 { ip, port }, at + 7))
        },
        Some(6) => {
            if length - at < 19 {
                return None;
            }
            let port: u16 = read_u16(bytes, at + 17)?;
            let ip: [u8; 16] = [
                bytes[at + 1],
                bytes[at + 2],
                bytes[at + 3],
                bytes[at + 4],
                bytes[at + 5],
                bytes[at + 6],
                bytes[at + 7],
                bytes[at + 8],
                bytes[at + 9],
                bytes[at + 10],
                bytes[at + 11],
                bytes[at + 12],
                bytes[at + 13],
                bytes[at + 14],
                bytes[at + 15],
                bytes[at + 16],
            ];
            proof {
                assert(ip@ =~= bytes@.subrange(at + 1, at + 17));
                lemma_array16(ip);
            }
            Some((PeerAddress::V6 { ip, port }, at + 19))
        },
        _ => None,
    }
}

/// Reads `count` ascending member ids.
fn read_ids(bytes: &[u8], at: usize, count: usize) -> (found: Option<NodeSet>)
    requires
        at + 8 * count <= bytes@.len(),
    ensures
        match found {
            Some(set) => increasing(ids_at(bytes@, at as int, count as nat)) && set@ == ids_at(
                bytes@,
                at as int,
                count as nat,
            ).to_set(),
            None => !increasing(ids_at(bytes@, at as int, count as nat)),
        },
{
    let length: usize = bytes.len();
    let ghost all = ids_at(bytes@, at as int, count as nat);
    let mut ids: Vec<NodeId> = Vec::new();
    let mut i: usize = 0;
    while i < count
        invariant
            length == bytes@.len(),
            at + 8 * count <= length,
            i <= count,
            all == ids_at(bytes@, at as int, count as nat),
            ids@ == all.take(i as int),
            increasing(ids@),
        decreases count - i,
    {
        let id: u64 = match read_u64(bytes, at + 8 * i) {
            Some(id) => id,
            None => 0,
        };
        assert(all[i as int] == NodeId(id));
        if i > 0 && ids[i - 1].0 >= id {
            assert(all[i - 1] == ids@[i - 1]);
            return None;
        }
        ids.push(NodeId(id));
        assert(ids@ =~= all.take(i as int + 1));
        i += 1;
    }
    assert(all.take(i as int) =~= all);
    Some(NodeSet::from_ids(ids.as_slice()))
}

fn read_operation(bytes: &[u8], at: usize) -> (found: Option<(ConfigOperation, usize)>)
    ensures
        match found {
            Some(operation) => operation_at(bytes@, at as int) == Some(
                (operation.0@, operation.1 as int),
            ) && operation.1 <= bytes@.len(),
            None => operation_at(bytes@, at as int) is None,
        },
{
    let length: usize = bytes.len();
    let tag: u8 = read_u8(bytes, at)?;
    let word: u64 = read_u64(bytes, at + 1)?;
    let next: usize = at + 9;
    match tag {
        1 => match read_u8(bytes, next) {
            Some(0) => Some(
                (ConfigOperation::AddLearner { id: NodeId(word), address: None }, next + 1),
            ),
            Some(1) => {
                let address = read_address(bytes, next + 1)?;
                Some(
                    (
                        ConfigOperation::AddLearner { id: NodeId(word), address: Some(address.0) },
                        address.1,
                    ),
                )
            },
            _ => None,
        },
        2 => Some((ConfigOperation::RemoveLearner { id: NodeId(word) }, next)),
        3 => {
            let address = read_address(bytes, next)?;
            Some(
                (
                    ConfigOperation::UpdateAddress { id: NodeId(word), address: address.0 },
                    address.1,
                ),
            )
        },
        4 => {
            if word > ((length - next) / 8) as u64 {
                return None;
            }
            let count: usize = word as usize;
            let new_voters = read_ids(bytes, next, count)?;
            Some((ConfigOperation::EnterJoint { new_voters }, next + 8 * count))
        },
        5 => Some((ConfigOperation::LeaveJoint { enter_index: LogIndex(word) }, next)),
        6 => Some((ConfigOperation::BeginLeaderTransfer { target: NodeId(word) }, next)),
        7 => {
            let result = match read_u8(bytes, next) {
                Some(1) => TransferResult::Success,
                Some(2) => TransferResult::Timeout,
                Some(3) => TransferResult::Superseded,
                _ => return None,
            };
            Some(
                (
                    ConfigOperation::FinishLeaderTransfer { intent_index: LogIndex(word), result },
                    next + 1,
                ),
            )
        },
        8 => Some((ConfigOperation::ActivateFeature { feature: word }, next)),
        _ => None,
    }
}

fn read_envelope(bytes: &[u8]) -> (found: Option<ConfigEnvelope>)
    ensures
        match found {
            Some(envelope) => envelope_of(bytes@) == Some(envelope@),
            None => envelope_of(bytes@) is None,
        },
{
    let length: usize = bytes.len();
    if length < 6 {
        return None;
    }
    proof {
        assert(bytes@.subrange(0, 6) =~= envelope_header() <==> (bytes@[0] == 67 && bytes@[1] == 67
            && bytes@[2] == 67 && bytes@[3] == 70 && bytes@[4] == 1 && bytes@[5] == 0)) by {
            if bytes@.subrange(0, 6) == envelope_header() {
                let s = bytes@.subrange(0, 6);
                assert(s[0] == 67 && s[1] == 67 && s[2] == 67 && s[3] == 70 && s[4] == 1 && s[5]
                    == 0);
            }
        }
    }
    if bytes[0] != 67 || bytes[1] != 67 || bytes[2] != 67 || bytes[3] != 70 || bytes[4] != 1
        || bytes[5] != 0 {
        return None;
    }
    let session = read_session(bytes, 6)?;
    let time: u64 = read_u64(bytes, session.1)?;
    let operation = read_operation(bytes, session.1 + 8)?;
    if operation.1 != length {
        return None;
    }
    Some(
        ConfigEnvelope {
            admin_session: session.0,
            leader_time: Time(time),
            operation: operation.0,
        },
    )
}

impl ConfigEnvelope {
    /// The canonical bytes of this change.
    pub fn encode(&self) -> (bytes: Vec<u8>)
        ensures
            bytes@ == envelope_bytes(self@),
            encodable(self@),
            envelope_of(bytes@) == Some(self@),
    {
        let mut output: Vec<u8> = Vec::new();
        output.push(67);
        output.push(67);
        output.push(67);
        output.push(70);
        output.push(1);
        output.push(0);
        match &self.admin_session {
            None => {
                output.push(0);
            },
            Some(owner) => {
                output.push(1);
                output.push(owner.0.namespace);
                write_u64(owner.0.client.0, &mut output);
                write_u64(owner.1, &mut output);
            },
        }
        assert(output@ =~= envelope_header() + session_bytes(self.admin_session));
        write_u64(self.leader_time.0, &mut output);
        write_operation(&self.operation, &mut output);
        proof {
            assert(output@ =~= envelope_bytes(self@));
            law_envelope_reads_back(self@);
        }
        output
    }

    /// The change that bytes write, where they are canonical.
    pub fn decode(bytes: &[u8]) -> (result: Result<ConfigEnvelope, DecodeError>)
        ensures
            match envelope_of(bytes@) {
                Some(envelope) => result matches Ok(found) && found@ == envelope,
                None => result == Err::<ConfigEnvelope, DecodeError>(DecodeError::Malformed),
            },
    {
        match read_envelope(bytes) {
            Some(envelope) => Ok(envelope),
            None => Err(DecodeError::Malformed),
        }
    }
}

} // verus!
