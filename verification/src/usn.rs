//! Update Sequence Array fixups of multi-sector NTFS records.

use vstd::prelude::*;
use crate::binary_reader::BinaryReader;
use crate::endian::le16;
use crate::error::{out_of_bounds, RecoveryError, Result};

verus! {

/// The buffer and the outcome after restoring sectors `i..n` of a record whose update
/// sequence array starts at `usa` and whose sector markers should equal `expected`.
/// The outcome is `Some((sector, found))` when a sector's marker does not match.
pub open spec fn fixup_from(
    b: Seq<u8>,
    usa: int,
    expected: u16,
    bps: int,
    i: int,
    n: int,
) -> (Seq<u8>, Option<(int, u16)>)
    decreases n - i,
{
    if i >= n || bps <= 0 {
        (b, None)
    } else {
        let end = (i + 1) * bps;
        if end > b.len() {
            (b, None)
        } else {
            let m = end - 2;
            let actual = le16(b, m);
            if actual != expected {
                (b, Some((i, actual)))
            } else {
                let o = usa + 2 * (i + 1);
                let b2 = b.update(m, b[o]).update(m + 1, b[o + 1]);
                fixup_from(b2, usa, expected, bps, i + 1, n)
            }
        }
    }
}

proof fn lemma_fixup_from_len(b: Seq<u8>, usa: int, expected: u16, bps: int, i: int, n: int)
    requires
        0 <= usa,
        0 <= i,
        bps >= 2,
        usa + 2 * n + 2 <= b.len(),
    ensures
        fixup_from(b, usa, expected, bps, i, n).0.len() == b.len(),
    decreases n - i,
{
    if i < n && bps > 0 {
        let end = (i + 1) * bps;
        assert(end >= bps) by (nonlinear_arith)
            requires
                i >= 0,
                bps >= 2,
                end == (i + 1) * bps,
        ;
        if end <= b.len() {
            let m = end - 2;
            if le16(b, m) == expected {
                let o = usa + 2 * (i + 1);
                let b2 = b.update(m, b[o]).update(m + 1, b[o + 1]);
                lemma_fixup_from_len(b2, usa, expected, bps, i + 1, n);
            }
        }
    }
}

/// The record's header passes the size checks, so the fixup walks its sectors (and needs a
/// sector size of at least two bytes to find their markers).
pub open spec fn fixup_walks(b: Seq<u8>) -> bool {
    b.len() >= 48 && usa_count(b) >= 2 && usa_offset(b) + 2 * usa_count(b) <= b.len()
}

/// The fixup never changes the length of a record.
pub proof fn lemma_fixup_len(b: Seq<u8>, bps: int)
    requires
        fixup_walks(b) ==> bps >= 2,
    ensures
        fixup_spec(b, bps).0.len() == b.len(),
{
    if b.len() >= 48 && usa_count(b) >= 2 && usa_offset(b) + 2 * usa_count(b) <= b.len() {
        lemma_fixup_from_len(b, usa_offset(b), le16(b, usa_offset(b)), bps, 0, usa_count(b) - 1);
    }
}

/// Offset of the update sequence array of a record.
pub open spec fn usa_offset(b: Seq<u8>) -> int {
    le16(b, 4) as int
}

/// Number of entries of the update sequence array of a record.
pub open spec fn usa_count(b: Seq<u8>) -> int {
    le16(b, 6) as int
}

/// The full fixup of a record whose header passed the size checks.
pub open spec fn fixup_outcome(b: Seq<u8>, bps: int) -> (Seq<u8>, Option<(int, u16)>) {
    fixup_from(b, usa_offset(b), le16(b, usa_offset(b)), bps, 0, usa_count(b) - 1)
}

/// What `apply_fixup` does to a record and what it returns.
pub open spec fn fixup_spec(b: Seq<u8>, bps: int) -> (Seq<u8>, Result<()>) {
    if b.len() < 48 {
        (b, Err(out_of_bounds(0, 48, b.len() as usize)))
    } else if usa_count(b) < 2 {
        (b, Ok(()))
    } else if usa_offset(b) + 2 * usa_count(b) > b.len() {
        (
            b,
            Err(
                out_of_bounds(
                    usa_offset(b) as usize,
                    (2 * usa_count(b)) as usize,
                    if b.len() >= usa_offset(b) {
                        (b.len() - usa_offset(b)) as usize
                    } else {
                        0
                    },
                ),
            ),
        )
    } else {
        let (fixed, failure) = fixup_outcome(b, bps);
        match failure {
            None => (fixed, Ok(())),
            Some((sector, actual)) => (
                fixed,
                Err(
                    RecoveryError::FixupFailed {
                        sector_index: sector as usize,
                        expected: le16(b, usa_offset(b)),
                        actual,
                    },
                ),
            ),
        }
    }
}

/// The end of sector `j` of a record with `bps`-byte sectors.
pub open spec fn sector_end(j: int, bps: int) -> int {
    (j + 1) * bps
}

/// Position `p` is one of the last two bytes of a sector `j` with `i <= j < n`.
pub open spec fn in_sector_tail(p: int, bps: int, i: int, n: int) -> bool {
    exists|j: int|
        i <= j < n && (p == #[trigger] sector_end(j, bps) - 2 || p == sector_end(j, bps) - 1)
}

proof fn lemma_fixup_from_effect(
    c: Seq<u8>,
    b: Seq<u8>,
    usa: int,
    expected: u16,
    bps: int,
    i: int,
    n: int,
)
    requires
        bps >= 2,
        0 <= i,
        0 <= usa,
        usa + 2 * n + 2 <= bps - 2,
        c.len() == b.len(),
        forall|p: int| 0 <= p < c.len() && p >= i * bps ==> #[trigger] c[p] == b[p],
        forall|p: int| usa <= p < usa + 2 * n + 2 ==> #[trigger] c[p] == b[p],
        fixup_from(c, usa, expected, bps, i, n).1 is None,
    ensures
        ({
            let f = fixup_from(c, usa, expected, bps, i, n).0;
            &&& f.len() == c.len()
            &&& forall|j: int|
                i <= j < n && #[trigger] sector_end(j, bps) <= b.len() ==> {
                    &&& le16(b, sector_end(j, bps) - 2) == expected
                    &&& f[sector_end(j, bps) - 2] == b[usa + 2 * (j + 1)]
                    &&& f[sector_end(j, bps) - 1] == b[usa + 2 * (j + 1) + 1]
                }
            &&& forall|p: int|
                0 <= p < c.len() && !in_sector_tail(p, bps, i, n) ==> #[trigger] f[p] == c[p]
        }),
    decreases n - i,
{
    if i < n {
        let end = (i + 1) * bps;
        assert(end == i * bps + bps) by (nonlinear_arith)
            requires end == (i + 1) * bps;
        assert(sector_end(i, bps) == end);
        if end > c.len() {
            assert forall|j: int| i <= j < n implies #[trigger] sector_end(j, bps) > b.len() by {
                assert((j + 1) * bps >= (i + 1) * bps) by (nonlinear_arith)
                    requires j >= i, bps >= 2;
            }
        } else {
            let m = end - 2;
            assert(c[m] == b[m] && c[m + 1] == b[m + 1]);
            let o = usa + 2 * (i + 1);
            let c2 = c.update(m, c[o]).update(m + 1, c[o + 1]);
            assert(o + 1 < m) by (nonlinear_arith)
                requires o == usa + 2 * (i + 1), usa + 2 * n + 2 <= bps - 2, i < n, m == (i + 1) * bps - 2, i >= 0, bps >= 2;
            assert(m >= i * bps);
            assert forall|p: int| 0 <= p < c2.len() && p >= (i + 1) * bps implies #[trigger] c2[p] == b[p] by {
                assert(c2[p] == c[p]);
                assert(p >= i * bps);
            }
            assert forall|p: int| usa <= p < usa + 2 * n + 2 implies #[trigger] c2[p] == b[p] by {
                assert(p < m) by (nonlinear_arith)
                    requires p < usa + 2 * n + 2, usa + 2 * n + 2 <= bps - 2, m == (i + 1) * bps - 2, i >= 0, bps >= 2;
                assert(c2[p] == c[p]);
            }
            lemma_fixup_from_effect(c2, b, usa, expected, bps, i + 1, n);
            let f = fixup_from(c, usa, expected, bps, i, n).0;
            assert(f == fixup_from(c2, usa, expected, bps, i + 1, n).0);
            assert(!in_sector_tail(m, bps, i + 1, n) && !in_sector_tail(m + 1, bps, i + 1, n)) by {
                if in_sector_tail(m, bps, i + 1, n) || in_sector_tail(m + 1, bps, i + 1, n) {
                    let j = choose|j: int|
                        i + 1 <= j < n && ((m == #[trigger] sector_end(j, bps) - 2 || m == sector_end(j, bps) - 1)
                            || (m + 1 == sector_end(j, bps) - 2 || m + 1 == sector_end(j, bps) - 1));
                    assert((j + 1) * bps >= (i + 2) * bps) by (nonlinear_arith)
                        requires j >= i + 1, bps >= 2;
                    assert((i + 2) * bps == (i + 1) * bps + bps) by (nonlinear_arith);
                }
            }
            assert(f[m] == c2[m]);
            assert(f[m + 1] == c2[m + 1]);
            assert forall|p: int| 0 <= p < c.len() && !in_sector_tail(p, bps, i, n) implies #[trigger] f[p] == c[p] by {
                if in_sector_tail(p, bps, i + 1, n) {
                    let j = choose|j: int|
                        i + 1 <= j < n && (p == #[trigger] sector_end(j, bps) - 2 || p == sector_end(j, bps) - 1);
                    assert(i <= j < n);
                }
                if p == m || p == m + 1 {
                    assert(sector_end(i, bps) == end);
                }
                assert(c2[p] == c[p]);
            }
        }
    }
}

/// Restoring a record's sectors, where its update sequence array lies in the first sector
/// before that sector's last two bytes, as it does on disk: when it succeeds, the last two
/// bytes of each sector that lies in the record (up to the array's count) held the update
/// sequence number, the first entry of the array, and now hold that sector's entry of the
/// array; every other byte is unchanged, and so is the length.
pub proof fn lemma_fixup_restores(b: Seq<u8>, bps: int)
    requires
        fixup_walks(b),
        bps >= 2,
        usa_offset(b) + 2 * usa_count(b) <= bps - 2,
        fixup_spec(b, bps).1 is Ok,
    ensures
        ({
            let f = fixup_spec(b, bps).0;
            let usa = usa_offset(b);
            let n = usa_count(b) - 1;
            &&& f.len() == b.len()
            &&& forall|j: int|
                0 <= j < n && #[trigger] sector_end(j, bps) <= b.len() ==> {
                    &&& b[sector_end(j, bps) - 2] == b[usa] && b[sector_end(j, bps) - 1] == b[usa + 1]
                    &&& f[sector_end(j, bps) - 2] == b[usa + 2 * (j + 1)]
                    &&& f[sector_end(j, bps) - 1] == b[usa + 2 * (j + 1) + 1]
                }
            &&& forall|p: int| 0 <= p < b.len() && #[trigger] f[p] != b[p] ==> in_sector_tail(p, bps, 0, n)
        }),
{
    let usa = usa_offset(b);
    let n = usa_count(b) - 1;
    lemma_fixup_from_effect(b, b, usa, le16(b, usa), bps, 0, n);
    let f = fixup_spec(b, bps).0;
    assert forall|j: int| 0 <= j < n && #[trigger] sector_end(j, bps) <= b.len() implies b[sector_end(j, bps) - 2]
        == b[usa] && b[sector_end(j, bps) - 1] == b[usa + 1] by {
        assert(le16(b, sector_end(j, bps) - 2) == le16(b, usa));
    }
}

pub struct UsnFixup;

impl UsnFixup {
    /// Applies the update sequence array fixups in place: the last two bytes of each sector
    /// must equal the update sequence number and are replaced by the bytes saved in the array.
    pub fn apply_fixup(record_buffer: &mut [u8], bytes_per_sector: usize) -> (r: Result<()>)
        requires
            fixup_walks(old(record_buffer)@) ==> bytes_per_sector >= 2,
        ensures
            final(record_buffer)@ == fixup_spec(old(record_buffer)@, bytes_per_sector as int).0,
            r == fixup_spec(old(record_buffer)@, bytes_per_sector as int).1,
            final(record_buffer)@.len() == old(record_buffer)@.len(),
    {
        proof {
            lemma_fixup_len(old(record_buffer)@, bytes_per_sector as int);
        }
        let len = record_buffer.len();
        if len < 48 {
            return Err(RecoveryError::BufferOutOfBounds { offset: 0, required: 48, available: len });
        }
        let usa_off = BinaryReader::peek_u16_le_at(record_buffer, 4)? as usize;
        let usa_cnt = BinaryReader::peek_u16_le_at(record_buffer, 6)? as usize;
        if usa_cnt < 2 {
            return Ok(());
        }
        let usa_bytes_needed = usa_cnt * 2;
        if usa_off + usa_bytes_needed > len {
            return Err(RecoveryError::BufferOutOfBounds {
                offset: usa_off,
                required: usa_bytes_needed,
                available: len.saturating_sub(usa_off),
            });
        }
        let expected_usn = BinaryReader::peek_u16_le_at(record_buffer, usa_off)?;
        let num_sectors = usa_cnt - 1;
        let ghost b0 = record_buffer@;
        assert(b0 == old(record_buffer)@);
        let mut i: usize = 0;
        while i < num_sectors
            invariant
                i <= num_sectors == usa_cnt - 1,
                usa_cnt <= 65535,
                usa_off + 2 * usa_cnt <= len == record_buffer@.len(),
                bytes_per_sector >= 2,
                b0.len() == len,
                b0 == old(record_buffer)@,
                len >= 48,
                usa_cnt >= 2,
                usa_off == usa_offset(b0),
                usa_cnt == usa_count(b0),
                expected_usn == le16(b0, usa_off as int),
                fixup_from(b0, usa_off as int, expected_usn, bytes_per_sector as int, 0, num_sectors as int)
                    == fixup_from(record_buffer@, usa_off as int, expected_usn, bytes_per_sector as int, i as int, num_sectors as int),
            ensures
                fixup_from(b0, usa_off as int, expected_usn, bytes_per_sector as int, 0, num_sectors as int)
                    == (record_buffer@, None::<(int, u16)>),
            decreases num_sectors - i,
        {
            assert((i + 1) * bytes_per_sector >= 2) by (nonlinear_arith)
                requires
                    i + 1 >= 1,
                    bytes_per_sector >= 2,
            ;
            let sector_end_offset = match (i + 1).checked_mul(bytes_per_sector) {
                Some(e) => e,
                None => {
                    break;
                },
            };
            if sector_end_offset > len {
                break;
            }
            let marker_offset = sector_end_offset - 2;
            let actual_marker = BinaryReader::peek_u16_le_at(record_buffer, marker_offset)?;
            if actual_marker != expected_usn {
                assert(fixup_from(record_buffer@, usa_off as int, expected_usn, bytes_per_sector as int, i as int, num_sectors as int)
                    == (record_buffer@, Some((i as int, actual_marker))));
                return Err(RecoveryError::FixupFailed {
                    sector_index: i,
                    expected: expected_usn,
                    actual: actual_marker,
                });
            }
            let saved_val_offset = usa_off + ((i + 1) * 2);
            let saved0 = record_buffer[saved_val_offset];
            let saved1 = record_buffer[saved_val_offset + 1];
            record_buffer[marker_offset] = saved0;
            record_buffer[marker_offset + 1] = saved1;
            i += 1;
        }
        Ok(())
    }
}

} // verus!
