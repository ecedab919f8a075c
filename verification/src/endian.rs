//! Fixed-width integers as they are laid out in bytes.

use vstd::prelude::*;

verus! {

/// The little-endian `u16` at `b[i..i + 2]`.
pub open spec fn le16(b: Seq<u8>, i: int) -> u16 {
    (b[i] + 256 * b[i + 1]) as u16
}

/// The little-endian `u32` at `b[i..i + 4]`.
pub open spec fn le32(b: Seq<u8>, i: int) -> u32 {
    (b[i] + 256 * b[i + 1] + 65536 * b[i + 2] + 16777216 * b[i + 3]) as u32
}

/// The little-endian `u64` at `b[i..i + 8]`.
pub open spec fn le64(b: Seq<u8>, i: int) -> u64 {
    (le32(b, i) + 4294967296 * le32(b, i + 4)) as u64
}

/// The big-endian `u16` at `b[i..i + 2]`.
pub open spec fn be16(b: Seq<u8>, i: int) -> u16 {
    (256 * b[i] + b[i + 1]) as u16
}

/// The big-endian `u32` at `b[i..i + 4]`.
pub open spec fn be32(b: Seq<u8>, i: int) -> u32 {
    (16777216 * b[i] + 65536 * b[i + 1] + 256 * b[i + 2] + b[i + 3]) as u32
}

/// The big-endian `u64` at `b[i..i + 8]`.
pub open spec fn be64(b: Seq<u8>, i: int) -> u64 {
    (4294967296 * be32(b, i) + be32(b, i + 4)) as u64
}

pub fn get_le16(b: &[u8], i: usize) -> (r: u16)
    requires
        i + 2 <= b@.len(),
    ensures
        r == le16(b@, i as int),
{
    b[i] as u16 + 256 * (b[i + 1] as u16)
}

pub fn get_le32(b: &[u8], i: usize) -> (r: u32)
    requires
        i + 4 <= b@.len(),
    ensures
        r == le32(b@, i as int),
{
    b[i] as u32 + 256 * (b[i + 1] as u32) + 65536 * (b[i + 2] as u32) + 16777216 * (
    b[i + 3] as u32)
}

pub fn get_le64(b: &[u8], i: usize) -> (r: u64)
    requires
        i + 8 <= b@.len(),
    ensures
        r == le64(b@, i as int),
{
    let _n = b.len();
    let lo = get_le32(b, i);
    let hi = get_le32(b, i + 4);
    lo as u64 + 4294967296 * (hi as u64)
}

pub fn get_be16(b: &[u8], i: usize) -> (r: u16)
    requires
        i + 2 <= b@.len(),
    ensures
        r == be16(b@, i as int),
{
    256 * (b[i] as u16) + b[i + 1] as u16
}

pub fn get_be32(b: &[u8], i: usize) -> (r: u32)
    requires
        i + 4 <= b@.len(),
    ensures
        r == be32(b@, i as int),
{
    16777216 * (b[i] as u32) + 65536 * (b[i + 1] as u32) + 256 * (b[i + 2] as u32) + b[i
        + 3] as u32
}

pub fn get_be64(b: &[u8], i: usize) -> (r: u64)
    requires
        i + 8 <= b@.len(),
    ensures
        r == be64(b@, i as int),
{
    let _n = b.len();
    let hi = get_be32(b, i);
    let lo = get_be32(b, i + 4);
    4294967296 * (hi as u64) + lo as u64
}

/// The number the `n` bytes at `b[i..i + n]` hold, least significant byte first.
pub open spec fn le_value(b: Seq<u8>, i: int, n: nat) -> int
    decreases n,
{
    if n == 0 {
        0
    } else {
        b[i] + 256 * le_value(b, i + 1, (n - 1) as nat)
    }
}

/// The number the `n` bytes at `b[i..i + n]` hold, most significant byte first.
pub open spec fn be_value(b: Seq<u8>, i: int, n: nat) -> int
    decreases n,
{
    if n == 0 {
        0
    } else {
        256 * be_value(b, i, (n - 1) as nat) + b[i + n - 1]
    }
}

/// The fixed-width readers read the bytes they cover in little-endian (`le*`) or big-endian
/// (`be*`) order.
pub proof fn lemma_byte_order(b: Seq<u8>, i: int)
    ensures
        le16(b, i) == le_value(b, i, 2),
        le32(b, i) == le_value(b, i, 4),
        le64(b, i) == le_value(b, i, 8),
        be16(b, i) == be_value(b, i, 2),
        be32(b, i) == be_value(b, i, 4),
        be64(b, i) == be_value(b, i, 8),
{
    reveal_with_fuel(le_value, 9);
    reveal_with_fuel(be_value, 9);
    assert(le32(b, i + 4) == le_value(b, i + 4, 4));
    assert(be32(b, i + 4) == be_value(b, i + 4, 4)) by {
        assert(be_value(b, i + 4, 4) == 16777216 * b[i + 4] + 65536 * b[i + 5] + 256 * b[i + 6]
            + b[i + 7]);
    }
    assert(be_value(b, i, 8) == 4294967296 * be_value(b, i, 4) + be_value(b, i + 4, 4)) by {
        assert(be_value(b, i + 4, 4) == 16777216 * b[i + 4] + 65536 * b[i + 5] + 256 * b[i + 6]
            + b[i + 7]);
        assert(be_value(b, i, 4) == 16777216 * b[i] + 65536 * b[i + 1] + 256 * b[i + 2] + b[i
            + 3]);
    }
}

/// Whether `data[offset..offset + pattern.len()]` exists and equals `pattern`.
pub open spec fn bytes_at(data: Seq<u8>, offset: int, pattern: Seq<u8>) -> bool {
    offset + pattern.len() <= data.len() && data.subrange(offset, offset + pattern.len())
        == pattern
}

pub fn matches_at(data: &[u8], offset: usize, pattern: &[u8]) -> (r: bool)
    ensures
        r == bytes_at(data@, offset as int, pattern@),
{
    let n = data.len();
    let m = pattern.len();
    if offset > n || m > n - offset {
        return false;
    }
    let mut i: usize = 0;
    while i < m
        invariant
            offset + m <= n == data@.len(),
            m == pattern@.len(),
            i <= m,
            forall|j: int| 0 <= j < i ==> data@[offset + j] == pattern@[j],
        decreases m - i,
    {
        if data[offset + i] != pattern[i] {
            assert(data@.subrange(offset as int, offset + m)[i as int] != pattern@[i as int]);
            return false;
        }
        i += 1;
    }
    assert(data@.subrange(offset as int, offset + m) =~= pattern@);
    true
}

} // verus!
