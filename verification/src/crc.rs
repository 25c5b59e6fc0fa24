//! The CRC-32C (Castagnoli) checksum.
use vstd::prelude::*;

verus! {

/// The reflected Castagnoli polynomial.
pub const CRC32C_POLYNOMIAL: u32 = 0x82F6_3B78;

/// The register after `bits` further message bits have been shifted through.
pub open spec fn crc_shifted(register: u32, bits: nat) -> u32
    decreases bits,
{
    if bits == 0 {
        register
    } else {
        crc_shifted(
            if register & 1 == 1 {
                (register >> 1) ^ CRC32C_POLYNOMIAL
            } else {
                register >> 1
            },
            (bits - 1) as nat,
        )
    }
}

/// The register after some bytes, starting from all ones.
pub open spec fn crc_register(bytes: Seq<u8>) -> u32
    decreases bytes.len(),
{
    if bytes.len() == 0 {
        0xffff_ffff
    } else {
        crc_shifted(crc_register(bytes.drop_last()) ^ (bytes.last() as u32), 8)
    }
}

/// The CRC-32C of some bytes.
pub open spec fn crc_of(bytes: Seq<u8>) -> u32 {
    crc_register(bytes) ^ 0xffff_ffff
}

/// Shifting loses nothing: the polynomial has its top bit set, so the bit that
/// was shifted out can be told from the result.
proof fn lemma_shifts_apart(a: u32, b: u32, bits: nat)
    ensures
        crc_shifted(a, bits) == crc_shifted(b, bits) ==> a == b,
    decreases bits,
{
    if bits > 0 {
        let one: u32 = if a & 1 == 1 {
            (a >> 1) ^ CRC32C_POLYNOMIAL
        } else {
            a >> 1
        };
        let other: u32 = if b & 1 == 1 {
            (b >> 1) ^ CRC32C_POLYNOMIAL
        } else {
            b >> 1
        };
        assert((if a & 1 == 1 {
            (a >> 1) ^ 0x82F6_3B78u32
        } else {
            a >> 1
        }) == (if b & 1 == 1 {
            (b >> 1) ^ 0x82F6_3B78u32
        } else {
            b >> 1
        }) ==> a == b) by (bit_vector);
        lemma_shifts_apart(one, other, (bits - 1) as nat);
    }
}

/// Registers of sequences of one length that differ in one byte differ.
proof fn lemma_registers_apart(bytes: Seq<u8>, at: int, byte: u8)
    requires
        0 <= at < bytes.len(),
        byte != bytes[at],
    ensures
        crc_register(bytes.update(at, byte)) != crc_register(bytes),
    decreases bytes.len(),
{
    let changed = bytes.update(at, byte);
    let before = crc_register(bytes.drop_last());
    let after = crc_register(changed.drop_last());
    let last = bytes.last() as u32;
    let next = changed.last() as u32;
    if at + 1 == bytes.len() {
        assert(changed.drop_last() =~= bytes.drop_last());
        assert(last != next ==> before ^ next != before ^ last) by (bit_vector);
    } else {
        assert(changed.drop_last() =~= bytes.drop_last().update(at, byte));
        lemma_registers_apart(bytes.drop_last(), at, byte);
        assert(before != after ==> after ^ last != before ^ last) by (bit_vector);
    }
    lemma_shifts_apart(after ^ next, before ^ last, 8);
}

/// The checksum tells any change of a single byte.
pub proof fn law_checksum_tells_a_changed_byte(bytes: Seq<u8>, at: int, byte: u8)
    requires
        0 <= at < bytes.len(),
        byte != bytes[at],
    ensures
        crc_of(bytes.update(at, byte)) != crc_of(bytes),
{
    let changed = crc_register(bytes.update(at, byte));
    let register = crc_register(bytes);
    lemma_registers_apart(bytes, at, byte);
    assert(changed != register ==> changed ^ 0xffff_ffff != register ^ 0xffff_ffff)
        by (bit_vector);
}

/// The CRC-32C of some bytes.
#[must_use]
pub fn crc32c(bytes: &[u8]) -> (checksum: u32)
    ensures
        checksum == crc_of(bytes@),
{
    let mut register: u32 = 0xffff_ffff;
    let mut i: usize = 0;
    assert(bytes@.take(0) =~= Seq::<u8>::empty());
    while i < bytes.len()
        invariant
            i <= bytes@.len(),
            register == crc_register(bytes@.take(i as int)),
        decreases bytes@.len() - i,
    {
        let ghost next = bytes@.take(i as int + 1);
        proof {
            assert(next.drop_last() =~= bytes@.take(i as int));
        }
        register = register ^ (bytes[i] as u32);
        let ghost target = crc_register(next);
        let mut bits: u32 = 8;
        while bits > 0
            invariant
                bits <= 8,
                target == crc_shifted(register, bits as nat),
            decreases bits,
        {
            register = if register & 1 == 1 {
                (register >> 1) ^ CRC32C_POLYNOMIAL
            } else {
                register >> 1
            };
            bits -= 1;
        }
        i += 1;
    }
    assert(bytes@.take(i as int) =~= bytes@);
    register ^ 0xffff_ffff
}

} // verus!
