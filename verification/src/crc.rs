//! CRC-32 checksums, as GPT headers and partition arrays carry them.

use vstd::prelude::*;

verus! {

/// One bit of the reflected CRC-32 (IEEE 802.3) division: shift right, and fold in the
/// polynomial 0xEDB88320 when the bit shifted out is set.
pub open spec fn crc32_bit(c: u32) -> u32 {
    if c & 1 == 1 {
        (c >> 1u32) ^ 0xEDB8_8320u32
    } else {
        c >> 1u32
    }
}

/// The division register after `n` more bits.
pub open spec fn crc32_bits(c: u32, n: nat) -> u32
    decreases n,
{
    if n == 0 {
        c
    } else {
        crc32_bits(crc32_bit(c), (n - 1) as nat)
    }
}

/// The division register after the bytes, starting from all ones.
pub open spec fn crc32_register(bytes: Seq<u8>) -> u32
    decreases bytes.len(),
{
    if bytes.len() == 0 {
        0xFFFF_FFFFu32
    } else {
        crc32_bits(crc32_register(bytes.drop_last()) ^ (bytes.last() as u32), 8)
    }
}

/// The CRC-32 (IEEE 802.3, reflected, initial value and final XOR all ones) of a byte
/// sequence, the checksum GPT uses.
#[verifier::opaque]
pub open spec fn crc32_of(bytes: Seq<u8>) -> u32 {
    crc32_register(bytes) ^ 0xFFFF_FFFFu32
}

/// Calls `crc32fast::hash`, which computes this IEEE CRC-32 of the bytes.
#[verifier::external_body]
pub(crate) fn crc32(bytes: &[u8]) -> (r: u32)
    ensures
        r == crc32_of(bytes@),
{
    crc32fast::hash(bytes)
}

} // verus!
