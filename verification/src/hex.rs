//! Lowercase hexadecimal text, and the cluster identity written in it.
use vstd::prelude::*;
use vstd::string::*;
use vstd::utf8::encode_utf8;

use crate::fault::{because, fault, Fault, FaultKind, FaultView};
use crate::prose::{digit_char, digit_text};
use crate::text::same_bytes;

verus! {

/// The hexadecimal digits of some bytes, two for each.
pub open spec fn hex_of(bytes: Seq<u8>) -> Seq<char>
    decreases bytes.len(),
{
    if bytes.len() == 0 {
        Seq::empty()
    } else {
        hex_of(bytes.drop_last()).push(digit_char((bytes.last() / 16) as nat)).push(
            digit_char((bytes.last() % 16) as nat),
        )
    }
}

/// The value of a lowercase hexadecimal digit.
pub open spec fn nibble_of(byte: u8) -> Option<u8> {
    if 48 <= byte <= 57 {
        Some((byte - 48) as u8)
    } else if 97 <= byte <= 102 {
        Some((byte - 87) as u8)
    } else {
        None
    }
}

/// The bytes that pairs of hexadecimal digits write.
pub open spec fn unhex(text: Seq<u8>) -> Option<Seq<u8>>
    decreases text.len(),
{
    if text.len() == 0 {
        Some(Seq::empty())
    } else if text.len() == 1 {
        None
    } else {
        let n = text.len() as int;
        match (unhex(text.take(n - 2)), nibble_of(text[n - 2]), nibble_of(text[n - 1])) {
            (Some(head), Some(high), Some(low)) => Some(head.push((high * 16 + low) as u8)),
            _ => None,
        }
    }
}

/// What decoding a hexadecimal text gives.
pub open spec fn hex_decoded(text: Seq<u8>) -> Result<Seq<u8>, FaultView> {
    if text.len() % 2 != 0 {
        Err(because(FaultKind::InvalidData, "odd hex length"))
    } else {
        match unhex(text) {
            Some(bytes) => Ok(bytes),
            None => Err(because(FaultKind::InvalidData, "invalid hex")),
        }
    }
}

pub(crate) proof fn lemma_hex_chars(bytes: Seq<u8>)
    ensures
        hex_of(bytes).len() == 2 * bytes.len(),
        vstd::utf8::is_ascii_chars(hex_of(bytes)),
        unhex(hex_of(bytes).map_values(|c: char| c as u8)) == Some(bytes),
    decreases bytes.len(),
{
    let text = hex_of(bytes).map_values(|c: char| c as u8);
    if bytes.len() == 0 {
        assert(text =~= Seq::<u8>::empty());
        assert(bytes =~= Seq::<u8>::empty());
    } else {
        let before = bytes.drop_last();
        lemma_hex_chars(before);
        let n = text.len() as int;
        let high = bytes.last() / 16;
        let low = bytes.last() % 16;
        assert(text.take(n - 2) =~= hex_of(before).map_values(|c: char| c as u8));
        assert(nibble_of(text[n - 2]) == Some(high));
        assert(nibble_of(text[n - 1]) == Some(low));
        assert(before.push((high * 16 + low) as u8) =~= bytes);
    }
}

/// Decoding gives back what encoding wrote.
pub proof fn law_hex_reads_back(bytes: Seq<u8>)
    ensures
        hex_decoded(encode_utf8(hex_of(bytes))) == Ok::<Seq<u8>, FaultView>(bytes),
{
    lemma_hex_chars(bytes);
    let chars = hex_of(bytes);
    vstd::utf8::is_ascii_chars_encode_utf8(chars);
    assert(encode_utf8(chars) =~= chars.map_values(|c: char| c as u8));
}

/// A digit that is none spoils every longer text.
proof fn lemma_unhex_prefix(text: Seq<u8>, n: int)
    requires
        0 <= n <= text.len(),
        n % 2 == 0,
        text.len() % 2 == 0,
        unhex(text.take(n)) is None,
    ensures
        unhex(text) is None,
    decreases text.len() - n,
{
    if n < text.len() {
        let next = text.take(n + 2);
        assert(next.take(n) =~= text.take(n));
        lemma_unhex_prefix(text, n + 2);
    } else {
        assert(text.take(n) =~= text);
    }
}

fn nibble(byte: u8) -> (value: Option<u8>)
    ensures
        value == nibble_of(byte),
{
    if 48 <= byte && byte <= 57 {
        Some(byte - 48)
    } else if 97 <= byte && byte <= 102 {
        Some(byte - 87)
    } else {
        None
    }
}

/// The hexadecimal digits of some bytes.
pub fn hex_bytes(bytes: &[u8]) -> (text: String)
    ensures
        text@ == hex_of(bytes@),
{
    let mut text = String::new();
    let mut i: usize = 0;
    assert(bytes@.take(0) =~= Seq::<u8>::empty());
    while i < bytes.len()
        invariant
            i <= bytes@.len(),
            text@ == hex_of(bytes@.take(i as int)),
        decreases bytes@.len() - i,
    {
        proof {
            let next = bytes@.take(i as int + 1);
            assert(next.drop_last() =~= bytes@.take(i as int));
            assert(next.last() == bytes@[i as int]);
        }
        let byte: u8 = bytes[i];
        let ghost before = text@;
        let high: u8 = byte / 16;
        let low: u8 = byte % 16;
        text.append(digit_text(high as u64));
        text.append(digit_text(low as u64));
        assert(text@ =~= before.push(digit_char(high as nat)).push(digit_char(low as nat)));
        i += 1;
    }
    assert(bytes@.take(i as int) =~= bytes@);
    text
}

/// The bytes that a hexadecimal text writes.
pub fn decode_hex(value: &str) -> (result: Result<Vec<u8>, Fault>)
    ensures
        match result {
            Ok(bytes) => hex_decoded(encode_utf8(value@)) == Ok::<Seq<u8>, FaultView>(bytes@),
            Err(error) => hex_decoded(encode_utf8(value@)) == Err::<Seq<u8>, FaultView>(error@),
        },
{
    let text = value.as_bytes();
    let size: usize = text.len();
    if size % 2 != 0 {
        return Err(fault(FaultKind::InvalidData, "odd hex length"));
    }
    let mut bytes: Vec<u8> = Vec::new();
    let mut i: usize = 0;
    assert(text@.take(0) =~= Seq::<u8>::empty());
    assert(bytes@ =~= Seq::<u8>::empty());
    while i < size
        invariant
            i <= size == text@.len(),
            i % 2 == 0,
            size % 2 == 0,
            text@ == encode_utf8(value@),
            unhex(text@.take(i as int)) == Some(bytes@),
        decreases size - i,
    {
        proof {
            let next = text@.take(i as int + 2);
            assert(next.take(i as int) =~= text@.take(i as int));
            assert(next[i as int] == text@[i as int]);
            assert(next[i + 1] == text@[i + 1]);
        }
        match (nibble(text[i]), nibble(text[i + 1])) {
            (Some(high), Some(low)) => {
                bytes.push(high * 16 + low);
            },
            _ => {
                proof {
                    lemma_unhex_prefix(text@, i as int + 2);
                }
                return Err(fault(FaultKind::InvalidData, "invalid hex"));
            },
        }
        i += 2;
    }
    assert(text@.take(i as int) =~= text@);
    Ok(bytes)
}

/// The identity of a cluster.
#[derive(Clone, Copy, Debug, PartialEq, Eq, PartialOrd, Ord, Hash)]
pub struct ClusterId {
    pub bytes: [u8; 16],
}

impl View for ClusterId {
    type V = Seq<u8>;

    open spec fn view(&self) -> Seq<u8> {
        self.bytes@
    }
}

/// Whether every byte of an identity is zero.
pub open spec fn zero_id(id: Seq<u8>) -> bool {
    forall|i: int| 0 <= i < id.len() ==> id[i] == 0
}

/// What reading a cluster identity gives. Nothing but zeros is none.
pub open spec fn cluster_id_of(text: Seq<u8>) -> Result<Seq<u8>, FaultView> {
    if text.len() != 32 || unhex(text) is None {
        Err(
            because(
                FaultKind::InvalidInput,
                "cluster id must be 32 lowercase hexadecimal characters",
            ),
        )
    } else if zero_id(unhex(text)->0) {
        Err(because(FaultKind::InvalidInput, "cluster id must not be zero"))
    } else {
        Ok(unhex(text)->0)
    }
}

proof fn lemma_unhex_len(text: Seq<u8>)
    ensures
        unhex(text) matches Some(bytes) ==> 2 * bytes.len() == text.len(),
    decreases text.len(),
{
    if text.len() >= 2 {
        lemma_unhex_len(text.take(text.len() - 2));
    }
}

/// Sixteen bytes as an array.
pub(crate) fn to_array16(bytes: &[u8], at: usize) -> (array: [u8; 16])
    requires
        at + 16 <= bytes@.len(),
        bytes@.len() <= usize::MAX,
    ensures
        array@ == bytes@.subrange(at as int, at + 16),
{
    let array: [u8; 16] = [
        bytes[at],
        bytes[at + 1],
        bytes[at + 2],
        bytes[at + 3],
        bytes[at + 4],
        bytes[at + 5],
        bytes[at + 6],
        bytes[at + 7],
        bytes[at + 8],
        bytes[at + 9],
        bytes[at + 10],
        bytes[at + 11],
        bytes[at + 12],
        bytes[at + 13],
        bytes[at + 14],
        bytes[at + 15],
    ];
    assert(array@ =~= bytes@.subrange(at as int, at + 16));
    array
}

impl ClusterId {
    pub fn new(bytes: [u8; 16]) -> (id: Self)
        ensures
            id@ == bytes@,
    {
        ClusterId { bytes }
    }

    /// The identity that 32 lowercase hexadecimal characters write.
    pub fn from_hex(value: &str) -> (result: Result<ClusterId, Fault>)
        ensures
            match result {
                Ok(id) => cluster_id_of(encode_utf8(value@)) == Ok::<Seq<u8>, FaultView>(id@),
                Err(error) => cluster_id_of(encode_utf8(value@)) == Err::<Seq<u8>, FaultView>(
                    error@,
                ),
            },
    {
        let size: usize = value.as_bytes().len();
        if size == 32 {
            if let Ok(bytes) = decode_hex(value) {
                proof {
                    lemma_unhex_len(encode_utf8(value@));
                    assert(bytes@.subrange(0, 16) =~= bytes@);
                }
                let id = ClusterId { bytes: to_array16(bytes.as_slice(), 0) };
                if id.is_zero() {
                    return Err(fault(FaultKind::InvalidInput, "cluster id must not be zero"));
                }
                return Ok(id);
            }
        }
        Err(
            fault(
                FaultKind::InvalidInput,
                "cluster id must be 32 lowercase hexadecimal characters",
            ),
        )
    }

    /// The 32 hexadecimal characters of this identity.
    pub fn to_text(&self) -> (text: String)
        ensures
            text@ == hex_of(self@),
    {
        hex_bytes(self.bytes.as_slice())
    }

    pub fn is_zero(&self) -> (r: bool)
        ensures
            r == zero_id(self@),
    {
        let mut i: usize = 0;
        while i < 16
            invariant
                i <= 16,
                forall|k: int| 0 <= k < i ==> self.bytes@[k] == 0,
            decreases 16 - i,
        {
            if self.bytes[i] != 0 {
                return false;
            }
            i += 1;
        }
        true
    }

    /// Whether two identities are the same.
    pub fn same(&self, other: &ClusterId) -> (r: bool)
        ensures
            r == (self@ == other@),
    {
        same_bytes(self.bytes.as_slice(), other.bytes.as_slice())
    }
}

/// Reading the text of an identity gives it back.
pub proof fn law_cluster_id_reads_back(id: ClusterId)
    requires
        !zero_id(id@),
    ensures
        cluster_id_of(encode_utf8(hex_of(id@))) == Ok::<Seq<u8>, FaultView>(id@),
{
    law_hex_reads_back(id@);
    lemma_hex_chars(id@);
    let chars = hex_of(id@);
    vstd::utf8::is_ascii_chars_encode_utf8(chars);
}

} // verus!
