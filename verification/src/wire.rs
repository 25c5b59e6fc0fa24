//! Little-endian fields of the binary formats.
use vstd::prelude::*;

verus! {

/// The longest byte string that a binary format holds.
pub const MAX_CODEC_BYTES: usize = 64 * 1024 * 1024;

/// Why bytes are not a value of a binary format.
#[derive(Clone, Copy, Debug, Eq, PartialEq)]
pub enum DecodeError {
    UnexpectedEnd,
    BadMagic,
    UnsupportedVersion,
    InvalidTag { offset: usize, tag: u8 },
    LengthLimit,
    TrailingBytes,
    Malformed,
}

impl DecodeError {
    pub open spec fn shown(self) -> &'static str {
        match self {
            DecodeError::UnexpectedEnd => "unexpected end of input",
            DecodeError::BadMagic => "bad magic",
            DecodeError::UnsupportedVersion => "unsupported version",
            DecodeError::InvalidTag { .. } => "invalid tag",
            DecodeError::LengthLimit => "length limit exceeded",
            DecodeError::TrailingBytes => "trailing bytes",
            DecodeError::Malformed => "malformed input",
        }
    }

    /// The message shown to an operator.
    pub fn message(&self) -> (text: &'static str)
        ensures
            text == self.shown(),
    {
        match self {
            DecodeError::UnexpectedEnd => "unexpected end of input",
            DecodeError::BadMagic => "bad magic",
            DecodeError::UnsupportedVersion => "unsupported version",
            DecodeError::InvalidTag { .. } => "invalid tag",
            DecodeError::LengthLimit => "length limit exceeded",
            DecodeError::TrailingBytes => "trailing bytes",
            DecodeError::Malformed => "malformed input",
        }
    }
}

pub open spec fn pow256(n: nat) -> nat
    decreases n,
{
    if n == 0 {
        1
    } else {
        256 * pow256((n - 1) as nat)
    }
}

/// The `n` low bytes of a number, least significant first.
pub open spec fn le_bytes(value: nat, n: nat) -> Seq<u8>
    decreases n,
{
    if n == 0 {
        Seq::empty()
    } else {
        seq![(value % 256) as u8] + le_bytes(value / 256, (n - 1) as nat)
    }
}

/// The number that bytes write, least significant first.
pub open spec fn le_value(bytes: Seq<u8>) -> nat
    decreases bytes.len(),
{
    if bytes.len() == 0 {
        0
    } else {
        bytes[0] as nat + 256 * le_value(bytes.drop_first())
    }
}

pub open spec fn le16(value: u16) -> Seq<u8> {
    le_bytes(value as nat, 2)
}

pub open spec fn le32(value: u32) -> Seq<u8> {
    le_bytes(value as nat, 4)
}

pub open spec fn le64(value: u64) -> Seq<u8> {
    le_bytes(value as nat, 8)
}

pub proof fn lemma_pow256()
    ensures
        pow256(1) == 0x100,
        pow256(2) == 0x1_0000,
        pow256(4) == 0x1_0000_0000,
        pow256(8) == 0x1_0000_0000_0000_0000,
{
    assert(pow256(0) == 1);
    assert(pow256(1) == 256 * pow256(0));
    assert(pow256(2) == 256 * pow256(1));
    assert(pow256(3) == 256 * pow256(2));
    assert(pow256(4) == 256 * pow256(3));
    assert(pow256(5) == 256 * pow256(4));
    assert(pow256(6) == 256 * pow256(5));
    assert(pow256(7) == 256 * pow256(6));
    assert(pow256(8) == 256 * pow256(7));
}

pub proof fn lemma_le_len(value: nat, n: nat)
    ensures
        le_bytes(value, n).len() == n,
    decreases n,
{
    if n > 0 {
        lemma_le_len(value / 256, (n - 1) as nat);
    }
}

/// Reading what was written gives the number back.
pub proof fn lemma_le_read(value: nat, n: nat)
    requires
        value < pow256(n),
    ensures
        le_value(le_bytes(value, n)) == value,
    decreases n,
{
    if n > 0 {
        let rest = le_bytes(value / 256, (n - 1) as nat);
        let all = le_bytes(value, n);
        assert(all.drop_first() =~= rest);
        lemma_le_read(value / 256, (n - 1) as nat);
    }
}

/// Writing what was read gives the bytes back.
pub proof fn lemma_le_write(bytes: Seq<u8>)
    ensures
        le_value(bytes) < pow256(bytes.len()),
        le_bytes(le_value(bytes), bytes.len()) == bytes,
    decreases bytes.len(),
{
    if bytes.len() > 0 {
        let rest = bytes.drop_first();
        lemma_le_write(rest);
        let value = le_value(bytes);
        assert(value % 256 == bytes[0] as nat);
        assert(value / 256 == le_value(rest));
        assert(le_bytes(value, bytes.len()) =~= bytes);
    } else {
        assert(le_bytes(le_value(bytes), bytes.len()) =~= bytes);
    }
}

/// Whether `part` stands in `input` at a position.
pub open spec fn stands_at(input: Seq<u8>, at: int, part: Seq<u8>) -> bool {
    &&& 0 <= at
    &&& at + part.len() <= input.len()
    &&& input.subrange(at, at + part.len()) == part
}

pub proof fn lemma_stands_split(input: Seq<u8>, at: int, a: Seq<u8>, b: Seq<u8>)
    ensures
        stands_at(input, at, a + b) <==> stands_at(input, at, a) && stands_at(
            input,
            at + a.len(),
            b,
        ),
{
    let both = a + b;
    if stands_at(input, at, both) {
        let found = input.subrange(at, at + both.len());
        assert(input.subrange(at, at + a.len()) =~= a) by {
            assert forall|i: int| 0 <= i < a.len() implies input.subrange(at, at + a.len())[i]
                == a[i] by {
                assert(found[i] == both[i]);
            }
        }
        assert(input.subrange(at + a.len(), at + a.len() + b.len()) =~= b) by {
            assert forall|i: int| 0 <= i < b.len() implies input.subrange(
                at + a.len(),
                at + a.len() + b.len(),
            )[i] == b[i] by {
                assert(found[a.len() + i] == both[a.len() + i]);
            }
        }
    }
    if stands_at(input, at, a) && stands_at(input, at + a.len(), b) {
        let first = input.subrange(at, at + a.len());
        let second = input.subrange(at + a.len(), at + a.len() + b.len());
        assert(input.subrange(at, at + both.len()) =~= both) by {
            assert forall|i: int| 0 <= i < both.len() implies input.subrange(
                at,
                at + both.len(),
            )[i] == both[i] by {
                if i < a.len() {
                    assert(first[i] == a[i]);
                } else {
                    assert(second[i - a.len()] == b[i - a.len()]);
                }
            }
        }
    }
}

pub proof fn lemma_stands_byte(input: Seq<u8>, at: int, byte: u8)
    ensures
        stands_at(input, at, seq![byte]) <==> 0 <= at < input.len() && input[at] == byte,
{
    if stands_at(input, at, seq![byte]) {
        assert(input.subrange(at, at + 1)[0] == seq![byte][0]);
    }
    if 0 <= at < input.len() && input[at] == byte {
        assert(input.subrange(at, at + 1) =~= seq![byte]);
    }
}

/// The number of `n` bytes at a position, where there are that many.
pub open spec fn le_at(input: Seq<u8>, at: int, n: nat) -> Option<nat> {
    if 0 <= at && at + n <= input.len() {
        Some(le_value(input.subrange(at, at + n)))
    } else {
        None
    }
}

pub open spec fn u8_at(input: Seq<u8>, at: int) -> Option<u8> {
    if 0 <= at < input.len() {
        Some(input[at])
    } else {
        None
    }
}

pub open spec fn u16_at(input: Seq<u8>, at: int) -> Option<u16> {
    match le_at(input, at, 2) {
        Some(value) => Some(value as u16),
        None => None,
    }
}

pub open spec fn u32_at(input: Seq<u8>, at: int) -> Option<u32> {
    match le_at(input, at, 4) {
        Some(value) => Some(value as u32),
        None => None,
    }
}

pub open spec fn u64_at(input: Seq<u8>, at: int) -> Option<u64> {
    match le_at(input, at, 8) {
        Some(value) => Some(value as u64),
        None => None,
    }
}

/// A number stands at a position exactly where it is read from there.
pub proof fn lemma_u64_at(input: Seq<u8>, at: int)
    ensures
        forall|value: u64| #[trigger] stands_at(input, at, le64(value)) <==> u64_at(input, at)
            == Some(value),
{
    lemma_pow256();
    assert forall|value: u64| #[trigger] stands_at(input, at, le64(value)) <==> u64_at(input, at)
        == Some(value) by {
        lemma_le_len(value as nat, 8);
        lemma_le_read(value as nat, 8);
        if 0 <= at && at + 8 <= input.len() {
            lemma_le_write(input.subrange(at, at + 8));
        }
    }
}

pub proof fn lemma_u32_at(input: Seq<u8>, at: int)
    ensures
        forall|value: u32| #[trigger] stands_at(input, at, le32(value)) <==> u32_at(input, at)
            == Some(value),
{
    lemma_pow256();
    assert forall|value: u32| #[trigger] stands_at(input, at, le32(value)) <==> u32_at(input, at)
        == Some(value) by {
        lemma_le_len(value as nat, 4);
        lemma_le_read(value as nat, 4);
        if 0 <= at && at + 4 <= input.len() {
            lemma_le_write(input.subrange(at, at + 4));
        }
    }
}

pub proof fn lemma_u16_at(input: Seq<u8>, at: int)
    ensures
        forall|value: u16| #[trigger] stands_at(input, at, le16(value)) <==> u16_at(input, at)
            == Some(value),
{
    lemma_pow256();
    assert forall|value: u16| #[trigger] stands_at(input, at, le16(value)) <==> u16_at(input, at)
        == Some(value) by {
        lemma_le_len(value as nat, 2);
        lemma_le_read(value as nat, 2);
        if 0 <= at && at + 2 <= input.len() {
            lemma_le_write(input.subrange(at, at + 2));
        }
    }
}

/// Appends the `n` low bytes of a number.
fn write_le(value: u64, n: usize, output: &mut Vec<u8>)
    ensures
        final(output)@ == old(output)@ + le_bytes(value as nat, n as nat),
    decreases n,
{
    let ghost before = output@;
    if n > 0 {
        output.push((value % 256) as u8);
        write_le(value / 256, n - 1, output);
    }
    assert(output@ =~= before + le_bytes(value as nat, n as nat));
}

pub fn write_u16(value: u16, output: &mut Vec<u8>)
    ensures
        final(output)@ == old(output)@ + le16(value),
{
    write_le(value as u64, 2, output);
}

pub fn write_u32(value: u32, output: &mut Vec<u8>)
    ensures
        final(output)@ == old(output)@ + le32(value),
{
    write_le(value as u64, 4, output);
}

pub fn write_u64(value: u64, output: &mut Vec<u8>)
    ensures
        final(output)@ == old(output)@ + le64(value),
{
    write_le(value, 8, output);
}

/// Reads the number of `n` bytes at a position.
fn read_le(bytes: &[u8], at: usize, n: usize) -> (value: u64)
    requires
        at + n <= bytes@.len(),
        n <= 8,
    ensures
        value == le_value(bytes@.subrange(at as int, at + n)),
    decreases n,
{
    let ghost here = bytes@.subrange(at as int, at + n);
    let length: usize = bytes.len();
    if n == 0 {
        return 0;
    }
    assert(at < length);
    let rest: u64 = read_le(bytes, at + 1, n - 1);
    proof {
        let tail = bytes@.subrange(at + 1, at + n);
        assert(here.drop_first() =~= tail);
        lemma_le_write(tail);
        lemma_pow256();
        lemma_pow256_grows((n - 1) as nat, 7);
        assert(pow256(8) == 256 * pow256(7));
    }
    bytes[at] as u64 + 256 * rest
}

proof fn lemma_pow256_grows(a: nat, b: nat)
    requires
        a <= b,
    ensures
        pow256(a) <= pow256(b),
    decreases b,
{
    if a < b {
        lemma_pow256_grows(a, (b - 1) as nat);
    }
}

pub fn read_u8(bytes: &[u8], at: usize) -> (value: Option<u8>)
    ensures
        value == u8_at(bytes@, at as int),
{
    if at < bytes.len() {
        Some(bytes[at])
    } else {
        None
    }
}

pub fn read_u16(bytes: &[u8], at: usize) -> (value: Option<u16>)
    ensures
        value == u16_at(bytes@, at as int),
{
    if at <= bytes.len() && bytes.len() - at >= 2 {
        let value: u64 = read_le(bytes, at, 2);
        proof {
            lemma_pow256();
            lemma_le_write(bytes@.subrange(at as int, at + 2));
        }
        Some(value as u16)
    } else {
        None
    }
}

pub fn read_u32(bytes: &[u8], at: usize) -> (value: Option<u32>)
    ensures
        value == u32_at(bytes@, at as int),
{
    if at <= bytes.len() && bytes.len() - at >= 4 {
        let value: u64 = read_le(bytes, at, 4);
        proof {
            lemma_pow256();
            lemma_le_write(bytes@.subrange(at as int, at + 4));
        }
        Some(value as u32)
    } else {
        None
    }
}

pub fn read_u64(bytes: &[u8], at: usize) -> (value: Option<u64>)
    ensures
        value == u64_at(bytes@, at as int),
        value is Some ==> at + 8 <= bytes@.len(),
{
    if at <= bytes.len() && bytes.len() - at >= 8 {
        Some(read_le(bytes, at, 8))
    } else {
        None
    }
}

} // verus!
