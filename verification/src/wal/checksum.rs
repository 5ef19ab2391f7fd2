//! The checksum of log entries: CRC-32 with the IEEE polynomial, bits reflected.

use vstd::prelude::*;

verus! {

/// One step of the shift register, by one bit.
pub open spec fn crc_bit(c: u32) -> u32 {
    if c & 1 == 1 {
        (c >> 1) ^ 0xEDB8_8320
    } else {
        c >> 1
    }
}

/// The register after `n` bits.
pub open spec fn crc_bits(c: u32, n: nat) -> u32
    decreases n,
{
    if n == 0 {
        c
    } else {
        crc_bits(crc_bit(c), (n - 1) as nat)
    }
}

/// The register after a byte.
pub open spec fn crc_byte(c: u32, b: u8) -> u32 {
    crc_bits(c ^ (b as u32), 8)
}

/// The register after `bytes`, which starts with every bit set.
pub open spec fn crc_register(bytes: Seq<u8>) -> u32
    decreases bytes.len(),
{
    if bytes.len() == 0 {
        0xFFFF_FFFF
    } else {
        crc_byte(crc_register(bytes.drop_last()), bytes.last())
    }
}

/// The CRC-32 checksum of a byte string.
pub open spec fn crc32(bytes: Seq<u8>) -> u32 {
    !crc_register(bytes)
}

/// `crc32fast::hash`: the CRC-32 checksum of the bytes. The crate folds whole bytes
/// by a table of what eight steps of the register make of each byte, and wider
/// blocks by further tables or by instructions of the processor, to the same
/// result.
pub assume_specification[ crc32fast::hash ](buf: &[u8]) -> (r: u32)
    ensures
        r == crc32(buf@),
;

proof fn crc_bit_one_to_one(a: u32, b: u32)
    by (bit_vector)
    ensures
        crc_bit(a) == crc_bit(b) ==> a == b,
{
}

proof fn crc_bits_one_to_one(a: u32, b: u32, n: nat)
    requires
        a != b,
    ensures
        crc_bits(a, n) != crc_bits(b, n),
    decreases n,
{
    if n > 0 {
        crc_bit_one_to_one(a, b);
        crc_bits_one_to_one(crc_bit(a), crc_bit(b), (n - 1) as nat);
    }
}

proof fn crc_byte_tells_registers(a: u32, b: u32, byte: u8)
    requires
        a != b,
    ensures
        crc_byte(a, byte) != crc_byte(b, byte),
{
    let x = byte as u32;
    assert(a != b ==> a ^ x != b ^ x) by (bit_vector);
    crc_bits_one_to_one(a ^ x, b ^ x, 8);
}

proof fn crc_byte_tells_bytes(c: u32, a: u8, b: u8)
    requires
        a != b,
    ensures
        crc_byte(c, a) != crc_byte(c, b),
{
    assert(a != b ==> c ^ (a as u32) != c ^ (b as u32)) by (bit_vector);
    crc_bits_one_to_one(c ^ (a as u32), c ^ (b as u32), 8);
}

proof fn register_tells_byte(bytes: Seq<u8>, at: int, b: u8)
    requires
        0 <= at < bytes.len(),
        b != bytes[at],
    ensures
        crc_register(bytes.update(at, b)) != crc_register(bytes),
    decreases bytes.len(),
{
    let changed = bytes.update(at, b);
    let rest = bytes.drop_last();
    if at == bytes.len() - 1 {
        assert(changed.drop_last() =~= rest);
        crc_byte_tells_bytes(crc_register(rest), b, bytes.last());
    } else {
        assert(changed.drop_last() =~= rest.update(at, b));
        register_tells_byte(rest, at, b);
        crc_byte_tells_registers(
            crc_register(rest.update(at, b)),
            crc_register(rest),
            bytes.last(),
        );
    }
}

/// The checksum tells any two byte strings apart that differ in one byte.
pub proof fn checksum_tells_byte(bytes: Seq<u8>, at: int, b: u8)
    requires
        0 <= at < bytes.len(),
        b != bytes[at],
    ensures
        crc32(bytes.update(at, b)) != crc32(bytes),
{
    register_tells_byte(bytes, at, b);
    let x = crc_register(bytes.update(at, b));
    let y = crc_register(bytes);
    assert(x != y ==> !x != !y) by (bit_vector);
}

} // verus!
