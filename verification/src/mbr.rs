//! The classic Master Boot Record partition table.

use vstd::prelude::*;
use crate::binary_reader::BinaryReader;
use crate::endian::{le16, le32};
use crate::error::{out_of_bounds, RecoveryError, Result};
use crate::text::{hex_text, prefixed_hex};
use crate::types::Lba;

verus! {

/// One of the four primary entries of an MBR (or an entry of an extended boot record).
#[derive(Debug, Clone, PartialEq, Eq, Structural)]
pub struct MbrPartitionEntry {
    pub slot: usize,
    pub is_bootable: bool,
    pub partition_type: u8,
    pub start_lba: Lba,
    pub sector_count: u64,
    pub is_extended: bool,
}

/// The entry that the 16 bytes `d` describe in `slot`, or `None` for an empty slot.
pub open spec fn mbr_entry_of(slot: usize, d: Seq<u8>) -> Option<MbrPartitionEntry> {
    let partition_type = d[4];
    let sector_count = le32(d, 12) as u64;
    if partition_type == 0 && sector_count == 0 {
        None
    } else {
        Some(
            MbrPartitionEntry {
                slot,
                is_bootable: d[0] == 0x80,
                partition_type,
                start_lba: le32(d, 8) as u64,
                sector_count,
                is_extended: partition_type == 0x05 || partition_type == 0x0F,
            },
        )
    }
}

/// The name of an MBR partition type byte.
pub open spec fn mbr_type_name(t: u8) -> Seq<char> {
    if t == 0x00 {
        "Empty"@
    } else if t == 0x01 {
        "FAT12"@
    } else if t == 0x04 {
        "FAT16 (<32MB)"@
    } else if t == 0x05 {
        "Extended (CHS)"@
    } else if t == 0x06 {
        "FAT16 (>32MB)"@
    } else if t == 0x07 {
        "NTFS / exFAT"@
    } else if t == 0x0B {
        "FAT32 (CHS)"@
    } else if t == 0x0C {
        "FAT32 (LBA)"@
    } else if t == 0x0E {
        "FAT16 (LBA)"@
    } else if t == 0x0F {
        "Extended (LBA)"@
    } else if t == 0x27 {
        "Windows Recovery (WinRE)"@
    } else if t == 0x82 {
        "Linux Swap"@
    } else if t == 0x83 {
        "Linux Native (ext2/3/4)"@
    } else if t == 0x8E {
        "Linux LVM"@
    } else if t == 0xEE {
        "GPT Protective MBR"@
    } else if t == 0xEF {
        "EFI System Partition"@
    } else {
        "Unknown / Custom"@
    }
}

impl MbrPartitionEntry {
    pub fn parse(slot: usize, data: &[u8]) -> (r: Result<Option<Self>>)
        ensures
            data@.len() < 16 ==> r == Err::<Option<Self>, RecoveryError>(
                out_of_bounds(0, 16, data@.len() as usize),
            ),
            data@.len() >= 16 ==> r == Ok::<Option<Self>, RecoveryError>(
                mbr_entry_of(slot, data@),
            ),
    {
        if data.len() < 16 {
            return Err(RecoveryError::BufferOutOfBounds {
                offset: 0,
                required: 16,
                available: data.len(),
            });
        }
        let mut reader = BinaryReader::new(data);
        let boot_indicator = reader.read_u8()?;
        let _chs_start = reader.read_bytes(3)?;
        let partition_type = reader.read_u8()?;
        let _chs_end = reader.read_bytes(3)?;
        let start_lba = reader.read_u32_le()? as u64;
        let sector_count = reader.read_u32_le()? as u64;

        if partition_type == 0x00 && sector_count == 0 {
            return Ok(None);
        }
        let is_bootable = boot_indicator == 0x80;
        let is_extended = partition_type == 0x05 || partition_type == 0x0F;
        Ok(Some(MbrPartitionEntry {
            slot,
            is_bootable,
            partition_type,
            start_lba,
            sector_count,
            is_extended,
        }))
    }

    pub fn partition_type_name(&self) -> (r: &'static str)
        ensures
            r@ == mbr_type_name(self.partition_type),
    {
        let t = self.partition_type;
        if t == 0x00 {
            "Empty"
        } else if t == 0x01 {
            "FAT12"
        } else if t == 0x04 {
            "FAT16 (<32MB)"
        } else if t == 0x05 {
            "Extended (CHS)"
        } else if t == 0x06 {
            "FAT16 (>32MB)"
        } else if t == 0x07 {
            "NTFS / exFAT"
        } else if t == 0x0B {
            "FAT32 (CHS)"
        } else if t == 0x0C {
            "FAT32 (LBA)"
        } else if t == 0x0E {
            "FAT16 (LBA)"
        } else if t == 0x0F {
            "Extended (LBA)"
        } else if t == 0x27 {
            "Windows Recovery (WinRE)"
        } else if t == 0x82 {
            "Linux Swap"
        } else if t == 0x83 {
            "Linux Native (ext2/3/4)"
        } else if t == 0x8E {
            "Linux LVM"
        } else if t == 0xEE {
            "GPT Protective MBR"
        } else if t == 0xEF {
            "EFI System Partition"
        } else {
            "Unknown / Custom"
        }
    }
}

/// A parsed Master Boot Record.
#[derive(Debug, Clone)]
pub struct MasterBootRecord {
    pub is_protective_gpt: bool,
    pub disk_signature: u32,
    pub partitions: Vec<MbrPartitionEntry>,
}

/// The 16 bytes of primary slot `slot` in a boot sector.
pub open spec fn mbr_slot_bytes(sector: Seq<u8>, slot: int) -> Seq<u8> {
    sector.subrange(446 + 16 * slot, 446 + 16 * slot + 16)
}

/// The non-empty entries among the first `n` primary slots, in slot order.
pub open spec fn mbr_entries_upto(sector: Seq<u8>, n: nat) -> Seq<MbrPartitionEntry>
    decreases n,
{
    if n == 0 {
        Seq::empty()
    } else {
        let prev = mbr_entries_upto(sector, (n - 1) as nat);
        match mbr_entry_of((n - 1) as usize, mbr_slot_bytes(sector, n - 1)) {
            Some(e) => prev.push(e),
            None => prev,
        }
    }
}

/// Slot `i` of a boot sector describes a partition: its type byte or its sector count is
/// non-zero.
pub open spec fn slot_in_use(sector: Seq<u8>, i: int) -> bool {
    let o = 446 + 16 * i;
    sector[o + 4] != 0 || sector[o + 12] + 256 * sector[o + 13] + 65536 * sector[o + 14]
        + 16777216 * sector[o + 15] != 0
}

/// What primary slot `i` of a boot sector says of the partition `e`: its type is the byte at
/// `446 + 16 i + 4`, its first sector and sector count the little-endian 32-bit values at
/// `446 + 16 i + 8` and `+ 12`, it is bootable when the slot's first byte is `80`, and
/// extended when its type is `05` or `0F`.
pub open spec fn slot_describes(sector: Seq<u8>, i: int, e: MbrPartitionEntry) -> bool {
    let o = 446 + 16 * i;
    &&& e.slot == i
    &&& e.partition_type == sector[o + 4]
    &&& e.start_lba == sector[o + 8] + 256 * sector[o + 9] + 65536 * sector[o + 10] + 16777216
        * sector[o + 11]
    &&& e.sector_count == sector[o + 12] + 256 * sector[o + 13] + 65536 * sector[o + 14]
        + 16777216 * sector[o + 15]
    &&& e.is_bootable == (sector[o] == 0x80)
    &&& e.is_extended == (sector[o + 4] == 0x05 || sector[o + 4] == 0x0F)
}

/// The primary partitions of a boot sector are its slots in use, each once, in slot order,
/// each as its slot describes it.
pub proof fn lemma_mbr_primary_slots(sector: Seq<u8>, n: nat)
    requires
        sector.len() >= 512,
        n <= 4,
    ensures
        forall|k: int|
            0 <= k < mbr_entries_upto(sector, n).len() ==> {
                let e = #[trigger] mbr_entries_upto(sector, n)[k];
                &&& 0 <= e.slot < n
                &&& slot_in_use(sector, e.slot as int)
                &&& slot_describes(sector, e.slot as int, e)
            },
        forall|k1: int, k2: int|
            0 <= k1 < k2 < mbr_entries_upto(sector, n).len() ==> #[trigger] mbr_entries_upto(
                sector,
                n,
            )[k1].slot < #[trigger] mbr_entries_upto(sector, n)[k2].slot,
        forall|i: int|
            0 <= i < n && #[trigger] slot_in_use(sector, i) ==> exists|k: int|
                0 <= k < mbr_entries_upto(sector, n).len() && #[trigger] mbr_entries_upto(
                    sector,
                    n,
                )[k].slot == i,
    decreases n,
{
    if n > 0 {
        let m = (n - 1) as nat;
        lemma_mbr_primary_slots(sector, m);
        let prev = mbr_entries_upto(sector, m);
        let cur = mbr_entries_upto(sector, n);
        let d = mbr_slot_bytes(sector, m as int);
        let o: int = 446 + 16 * (m as int);
        assert(d[4] == sector[o + 4]);
        assert(d[0] == sector[o]);
        assert(d[8] == sector[o + 8] && d[9] == sector[o + 9] && d[10] == sector[o + 10] && d[11]
            == sector[o + 11]);
        assert(d[12] == sector[o + 12] && d[13] == sector[o + 13] && d[14] == sector[o + 14]
            && d[15] == sector[o + 15]);
        match mbr_entry_of(m as usize, d) {
            Some(e) => {
                assert(cur == prev.push(e));
                assert(slot_in_use(sector, m as int));
                assert(slot_describes(sector, m as int, e));
                assert forall|i: int| 0 <= i < n && #[trigger] slot_in_use(sector, i) implies exists|k: int|
                    0 <= k < cur.len() && #[trigger] cur[k].slot == i by {
                    if i < m {
                        let k = choose|k: int| 0 <= k < prev.len() && #[trigger] prev[k].slot == i;
                        assert(cur[k] == prev[k]);
                    } else {
                        assert(cur[prev.len() as int].slot == i);
                    }
                }
                assert forall|k1: int, k2: int| 0 <= k1 < k2 < cur.len() implies #[trigger] cur[k1].slot
                    < #[trigger] cur[k2].slot by {
                    assert(cur[k1] == prev[k1]);
                    if k2 < prev.len() {
                        assert(cur[k2] == prev[k2]);
                    }
                }
                assert forall|k: int| 0 <= k < cur.len() implies {
                    let e = #[trigger] cur[k];
                    &&& 0 <= e.slot < n
                    &&& slot_in_use(sector, e.slot as int)
                    &&& slot_describes(sector, e.slot as int, e)
                } by {
                    if k < prev.len() {
                        assert(cur[k] == prev[k]);
                    }
                }
            },
            None => {
                assert(cur == prev);
                assert(!slot_in_use(sector, m as int));
            },
        }
    }
}

/// Whether one of the entries has the protective GPT type 0xEE.
pub open spec fn has_protective_entry(entries: Seq<MbrPartitionEntry>) -> bool {
    exists|i: int| 0 <= i < entries.len() && entries[i].partition_type == 0xEE
}

/// Whether a boot sector carries the 0xAA55 signature.
pub open spec fn has_boot_signature(sector: Seq<u8>) -> bool {
    sector.len() >= 512 && le16(sector, 510) == 0xAA55
}

impl MasterBootRecord {
    pub fn parse(sector_data: &[u8]) -> (r: Result<Self>)
        ensures
            sector_data@.len() < 512 ==> r == Err::<Self, RecoveryError>(
                out_of_bounds(0, 512, sector_data@.len() as usize),
            ),
            sector_data@.len() >= 512 && !has_boot_signature(sector_data@) ==> (r matches Err(
                RecoveryError::InvalidSignature { expected, found },
            ) && expected@ == "0xAA55"@ && found@ == "0x"@ + hex_text(
                le16(sector_data@, 510) as nat,
                4,
            )),
            has_boot_signature(sector_data@) ==> (r matches Ok(m) && m.disk_signature == le32(
                sector_data@,
                440,
            ) && m.partitions@ == mbr_entries_upto(sector_data@, 4) && m.is_protective_gpt
                == has_protective_entry(m.partitions@)),
    {
        if sector_data.len() < 512 {
            return Err(RecoveryError::BufferOutOfBounds {
                offset: 0,
                required: 512,
                available: sector_data.len(),
            });
        }
        let magic = BinaryReader::peek_u16_le_at(sector_data, 510)?;
        if magic != 0xAA55 {
            return Err(RecoveryError::InvalidSignature {
                expected: String::from_str("0xAA55"),
                found: prefixed_hex(magic as u64, 4),
            });
        }
        let disk_signature = BinaryReader::peek_u32_le_at(sector_data, 440)?;
        let mut partitions: Vec<MbrPartitionEntry> = Vec::new();
        let mut is_protective_gpt = false;
        let mut slot: usize = 0;
        while slot < 4
            invariant
                slot <= 4,
                sector_data@.len() >= 512,
                partitions@ == mbr_entries_upto(sector_data@, slot as nat),
                is_protective_gpt == has_protective_entry(partitions@),
            decreases 4 - slot,
        {
            let offset = 446 + slot * 16;
            let entry_bytes = &sector_data[offset..offset + 16];
            if let Some(entry) = MbrPartitionEntry::parse(slot, entry_bytes)? {
                if entry.partition_type == 0xEE {
                    is_protective_gpt = true;
                }
                let ghost before = partitions@;
                partitions.push(entry);
                assert(partitions@.last() == entry);
                assert(has_protective_entry(partitions@) == (has_protective_entry(before)
                    || entry.partition_type == 0xEE)) by {
                    if has_protective_entry(before) {
                        let i = choose|i: int| 0 <= i < before.len() && before[i].partition_type == 0xEE;
                        assert(partitions@[i] == before[i]);
                    }
                    if has_protective_entry(partitions@) && !(entry.partition_type == 0xEE) {
                        let i = choose|i: int| 0 <= i < partitions@.len() && partitions@[i].partition_type == 0xEE;
                        assert(i < before.len());
                        assert(before[i] == partitions@[i]);
                    }
                }
            }
            slot += 1;
        }
        Ok(MasterBootRecord { is_protective_gpt, disk_signature, partitions })
    }
}

} // verus!
