//! The GUID Partition Table.

use vstd::prelude::*;
use crate::binary_reader::{utf16_units, BinaryReader};
use crate::crc::{crc32, crc32_of};
use crate::endian::{bytes_at, le32, le64, le_value, lemma_byte_order, matches_at};
use crate::error::{out_of_bounds, RecoveryError, Result};
use crate::text::{
    class_pred, trim_end_by, trim_end_class, utf16_lossy, utf8_lossy, utf8_lossy_string,
    CharClass,
};
use crate::types::{guid_of_bytes, guid_text, Guid, Lba};

verus! {

pub const GUID_EFI_SYSTEM: &'static str = "C12A7328-F81F-11D2-BA4B-00A0C93EC93B";
pub const GUID_MICROSOFT_BASIC_DATA: &'static str = "EBD0A0A2-B9E5-4433-87C0-68B6B72699C7";
pub const GUID_MICROSOFT_RESERVED: &'static str = "E3C9E316-0B5C-4DB8-817D-F92DF00215AE";
pub const GUID_MICROSOFT_RECOVERY: &'static str = "DE94BBA4-06D1-4D40-A16A-BFD50179D6AC";
pub const GUID_LINUX_FILESYSTEM: &'static str = "0FC63DAF-8483-4772-8E79-3D69D8477DE4";
pub const GUID_LINUX_SWAP: &'static str = "0657FD6D-A4AB-43C4-84E5-0933C84B4F4F";
pub const GUID_LINUX_LVM: &'static str = "E6D6D379-F507-44C2-A23C-238F2A3DF928";
pub const GUID_APFS: &'static str = "7C3457EF-0000-11AA-AA11-00306543ECAC";

/// The signature `"EFI PART"` as bytes.
pub open spec fn gpt_signature() -> Seq<u8> {
    seq![0x45u8, 0x46, 0x49, 0x20, 0x50, 0x41, 0x52, 0x54]
}

fn gpt_signature_bytes() -> (r: [u8; 8])
    ensures
        r@ == gpt_signature(),
{
    let r = [0x45u8, 0x46, 0x49, 0x20, 0x50, 0x41, 0x52, 0x54];
    assert(r@ =~= gpt_signature());
    r
}

/// One used entry of a GPT partition array.
#[derive(Debug, Clone, PartialEq, Eq)]
pub struct GptPartitionEntry {
    pub index: usize,
    pub type_guid: Guid,
    pub unique_guid: Guid,
    pub start_lba: Lba,
    pub end_lba: Lba,
    pub attributes: u64,
    pub name: String,
}

/// The partition name stored in the UTF-16 field of an entry, without trailing NULs.
pub open spec fn gpt_entry_name(d: Seq<u8>) -> Seq<char> {
    trim_end_by(utf16_lossy(utf16_units(d.subrange(56, 128))), class_pred(CharClass::Nul))
}

/// Whether `e` holds the fields of entry `index` stored in `d`.
pub open spec fn gpt_entry_fields(e: GptPartitionEntry, index: usize, d: Seq<u8>) -> bool {
    &&& e.index == index
    &&& e.type_guid == guid_of_bytes(d)
    &&& e.unique_guid == guid_of_bytes(d.subrange(16, 32))
    &&& e.start_lba == le64(d, 32)
    &&& e.end_lba == le64(d, 40)
    &&& e.attributes == le64(d, 48)
    &&& e.name@ == gpt_entry_name(d)
}

/// The description of a partition type GUID.
pub open spec fn gpt_type_description(g: Guid) -> Seq<char> {
    let t = guid_text(g);
    if t == GUID_EFI_SYSTEM@ {
        "EFI System Partition"@
    } else if t == GUID_MICROSOFT_BASIC_DATA@ {
        "Microsoft Basic Data (NTFS/FAT/exFAT)"@
    } else if t == GUID_MICROSOFT_RESERVED@ {
        "Microsoft Reserved (MSR)"@
    } else if t == GUID_MICROSOFT_RECOVERY@ {
        "Windows Recovery Environment"@
    } else if t == GUID_LINUX_FILESYSTEM@ {
        "Linux Filesystem Data"@
    } else if t == GUID_LINUX_SWAP@ {
        "Linux Swap"@
    } else if t == GUID_LINUX_LVM@ {
        "Linux LVM"@
    } else if t == GUID_APFS@ {
        "Apple APFS"@
    } else {
        "Unknown / Other Partition Type"@
    }
}

/// Where a partition entry keeps its fields: the first and last LBAs and the attribute flags
/// are the little-endian 64-bit values at bytes 32, 40 and 48 of the entry.
pub proof fn lemma_gpt_entry_layout(e: GptPartitionEntry, index: usize, d: Seq<u8>)
    requires
        d.len() >= 128,
        gpt_entry_fields(e, index, d),
    ensures
        e.index == index,
        e.start_lba == le_value(d, 32, 8),
        e.end_lba == le_value(d, 40, 8),
        e.attributes == le_value(d, 48, 8),
{
    lemma_byte_order(d, 32);
    lemma_byte_order(d, 40);
    lemma_byte_order(d, 48);
}

impl GptPartitionEntry {
    pub fn parse(index: usize, data: &[u8]) -> (r: Result<Option<Self>>)
        ensures
            data@.len() < 128 ==> r == Err::<Option<Self>, RecoveryError>(
                out_of_bounds(0, 128, data@.len() as usize),
            ),
            data@.len() >= 128 && guid_of_bytes(data@).spec_is_zero() ==> r == Ok::<
                Option<Self>,
                RecoveryError,
            >(None),
            data@.len() >= 128 && !guid_of_bytes(data@).spec_is_zero() ==> (r matches Ok(Some(e))
                && gpt_entry_fields(e, index, data@)),
    {
        if data.len() < 128 {
            return Err(RecoveryError::BufferOutOfBounds {
                offset: 0,
                required: 128,
                available: data.len(),
            });
        }
        let mut reader = BinaryReader::new(data);
        let type_guid = reader.read_guid_le()?;
        assert(type_guid == guid_of_bytes(data@)) by {
            assert(data@.subrange(0, 16)[0] == data@[0]);
        }
        if type_guid.is_zero() {
            return Ok(None);
        }
        let unique_guid = reader.read_guid_le()?;
        let start_lba = reader.read_u64_le()?;
        let end_lba = reader.read_u64_le()?;
        let attributes = reader.read_u64_le()?;
        let raw_name = reader.read_utf16_le_string(36)?;
        let name = trim_end_class(raw_name.as_str(), CharClass::Nul);
        Ok(Some(GptPartitionEntry {
            index,
            type_guid,
            unique_guid,
            start_lba,
            end_lba,
            attributes,
            name,
        }))
    }

    /// Number of sectors from `start_lba` to `end_lba`, both included.
    pub open spec fn spec_sector_count(&self) -> nat {
        if self.end_lba >= self.start_lba {
            (self.end_lba - self.start_lba + 1) as nat
        } else {
            0
        }
    }

    pub fn sector_count(&self) -> (r: u64)
        requires
            self.spec_sector_count() <= u64::MAX,
        ensures
            r == self.spec_sector_count(),
    {
        if self.end_lba >= self.start_lba {
            self.end_lba - self.start_lba + 1
        } else {
            0
        }
    }

    pub fn type_description(&self) -> (r: &'static str)
        ensures
            r@ == gpt_type_description(self.type_guid),
    {
        let guid_str = self.type_guid.to_string();
        if str_eq(&guid_str, GUID_EFI_SYSTEM) {
            "EFI System Partition"
        } else if str_eq(&guid_str, GUID_MICROSOFT_BASIC_DATA) {
            "Microsoft Basic Data (NTFS/FAT/exFAT)"
        } else if str_eq(&guid_str, GUID_MICROSOFT_RESERVED) {
            "Microsoft Reserved (MSR)"
        } else if str_eq(&guid_str, GUID_MICROSOFT_RECOVERY) {
            "Windows Recovery Environment"
        } else if str_eq(&guid_str, GUID_LINUX_FILESYSTEM) {
            "Linux Filesystem Data"
        } else if str_eq(&guid_str, GUID_LINUX_SWAP) {
            "Linux Swap"
        } else if str_eq(&guid_str, GUID_LINUX_LVM) {
            "Linux LVM"
        } else if str_eq(&guid_str, GUID_APFS) {
            "Apple APFS"
        } else {
            "Unknown / Other Partition Type"
        }
    }
}

/// Whether a string holds the same text as a string slice.
fn str_eq(s: &String, t: &str) -> (r: bool)
    ensures
        r == (s@ == t@),
{
    let other = String::from_str(t);
    *s == other
}

/// The header of a GUID Partition Table.
#[derive(Debug, Clone)]
pub struct GptHeader {
    pub revision: u32,
    pub header_size: u32,
    pub header_crc32: u32,
    pub current_lba: Lba,
    pub backup_lba: Lba,
    pub first_usable_lba: Lba,
    pub last_usable_lba: Lba,
    pub disk_guid: Guid,
    pub partition_entry_lba: Lba,
    pub num_partition_entries: u32,
    pub size_of_partition_entry: u32,
    pub partition_array_crc32: u32,
}

/// The bytes over which a header's CRC is computed: its first `header_size` bytes with the
/// CRC field zeroed.
pub open spec fn gpt_crc_input(b: Seq<u8>) -> Seq<u8> {
    let n = le32(b, 12) as int;
    b.subrange(0, n).update(16, 0).update(17, 0).update(18, 0).update(19, 0)
}

/// The header CRC check passes, or is skipped because the declared size exceeds the buffer.
pub open spec fn gpt_header_crc_ok(b: Seq<u8>) -> bool {
    le32(b, 12) > b.len() || crc32_of(gpt_crc_input(b)) == le32(b, 16)
}

/// The inputs on which header parsing cannot fail by slicing: a declared header size that
/// fits in the buffer covers the CRC field.
pub open spec fn gpt_header_parsable(b: Seq<u8>) -> bool {
    b.len() < 92 || !bytes_at(b, 0, gpt_signature()) || le32(b, 12) > b.len() || le32(b, 12)
        >= 20
}

/// Whether `h` holds the fields of the header bytes `b`.
pub open spec fn gpt_header_fields(h: GptHeader, b: Seq<u8>) -> bool {
    &&& h.revision == le32(b, 8)
    &&& h.header_size == le32(b, 12)
    &&& h.header_crc32 == le32(b, 16)
    &&& h.current_lba == le64(b, 24)
    &&& h.backup_lba == le64(b, 32)
    &&& h.first_usable_lba == le64(b, 40)
    &&& h.last_usable_lba == le64(b, 48)
    &&& h.disk_guid == guid_of_bytes(b.subrange(56, 72))
    &&& h.partition_entry_lba == le64(b, 72)
    &&& h.num_partition_entries == le32(b, 80)
    &&& h.size_of_partition_entry == le32(b, 84)
    &&& h.partition_array_crc32 == le32(b, 88)
}

/// Where a GPT header keeps its fields: the revision, header size and header CRC are the
/// little-endian 32-bit values at bytes 8, 12 and 16; the header's own LBA, the backup LBA and
/// the first and last usable LBAs the little-endian 64-bit values at 24, 32, 40 and 48; the
/// partition array's LBA the 64-bit value at 72; the number of entries, the entry size and the
/// array CRC the 32-bit values at 80, 84 and 88.
pub proof fn lemma_gpt_header_layout(h: GptHeader, b: Seq<u8>)
    requires
        b.len() >= 92,
        gpt_header_fields(h, b),
    ensures
        h.revision == le_value(b, 8, 4),
        h.header_size == le_value(b, 12, 4),
        h.header_crc32 == le_value(b, 16, 4),
        h.current_lba == le_value(b, 24, 8),
        h.backup_lba == le_value(b, 32, 8),
        h.first_usable_lba == le_value(b, 40, 8),
        h.last_usable_lba == le_value(b, 48, 8),
        h.partition_entry_lba == le_value(b, 72, 8),
        h.num_partition_entries == le_value(b, 80, 4),
        h.size_of_partition_entry == le_value(b, 84, 4),
        h.partition_array_crc32 == le_value(b, 88, 4),
{
    lemma_byte_order(b, 8);
    lemma_byte_order(b, 12);
    lemma_byte_order(b, 16);
    lemma_byte_order(b, 24);
    lemma_byte_order(b, 32);
    lemma_byte_order(b, 40);
    lemma_byte_order(b, 48);
    lemma_byte_order(b, 72);
    lemma_byte_order(b, 80);
    lemma_byte_order(b, 84);
    lemma_byte_order(b, 88);
}

/// Whether a buffer holds a GPT header that `GptHeader::parse` accepts.
pub open spec fn is_valid_gpt_header(b: Seq<u8>) -> bool {
    b.len() >= 92 && bytes_at(b, 0, gpt_signature()) && gpt_header_crc_ok(b)
}

impl GptHeader {
    pub fn parse(header_bytes: &[u8]) -> (r: Result<Self>)
        requires
            gpt_header_parsable(header_bytes@),
        ensures
            header_bytes@.len() < 92 ==> r == Err::<Self, RecoveryError>(
                out_of_bounds(0, 92, header_bytes@.len() as usize),
            ),
            header_bytes@.len() >= 92 && !bytes_at(header_bytes@, 0, gpt_signature()) ==> (
            r matches Err(RecoveryError::InvalidSignature { expected, found }) && expected@
                == "EFI PART"@ && found@ == utf8_lossy(header_bytes@.subrange(0, 8))),
            header_bytes@.len() >= 92 && bytes_at(header_bytes@, 0, gpt_signature())
                && !gpt_header_crc_ok(header_bytes@) ==> r == Err::<Self, RecoveryError>(
                RecoveryError::CrcMismatch {
                    expected: le32(header_bytes@, 16),
                    computed: crc32_of(gpt_crc_input(header_bytes@)),
                },
            ),
            is_valid_gpt_header(header_bytes@) ==> (r matches Ok(h) && gpt_header_fields(
                h,
                header_bytes@,
            )),
    {
        if header_bytes.len() < 92 {
            return Err(RecoveryError::BufferOutOfBounds {
                offset: 0,
                required: 92,
                available: header_bytes.len(),
            });
        }
        let sig = gpt_signature_bytes();
        if !matches_at(header_bytes, 0, &sig) {
            return Err(RecoveryError::InvalidSignature {
                expected: String::from_str("EFI PART"),
                found: utf8_lossy_string(&header_bytes[0..8]),
            });
        }
        let mut reader = BinaryReader::new(header_bytes);
        reader.skip(8)?;
        let revision = reader.read_u32_le()?;
        let header_size = reader.read_u32_le()?;
        let header_crc32 = reader.read_u32_le()?;
        let _reserved = reader.read_u32_le()?;
        let current_lba = reader.read_u64_le()?;
        let backup_lba = reader.read_u64_le()?;
        let first_usable_lba = reader.read_u64_le()?;
        let last_usable_lba = reader.read_u64_le()?;
        let disk_guid = reader.read_guid_le()?;
        let partition_entry_lba = reader.read_u64_le()?;
        let num_partition_entries = reader.read_u32_le()?;
        let size_of_partition_entry = reader.read_u32_le()?;
        let partition_array_crc32 = reader.read_u32_le()?;

        if (header_size as usize) <= header_bytes.len() {
            let mut crc_buf = slice_to_vec(&header_bytes[0..header_size as usize]);
            crc_buf.set(16, 0);
            crc_buf.set(17, 0);
            crc_buf.set(18, 0);
            crc_buf.set(19, 0);
            assert(crc_buf@ =~= gpt_crc_input(header_bytes@));
            let computed = crc32(crc_buf.as_slice());
            if computed != header_crc32 {
                return Err(RecoveryError::CrcMismatch { expected: header_crc32, computed });
            }
        }
        Ok(GptHeader {
            revision,
            header_size,
            header_crc32,
            current_lba,
            backup_lba,
            first_usable_lba,
            last_usable_lba,
            disk_guid,
            partition_entry_lba,
            num_partition_entries,
            size_of_partition_entry,
            partition_array_crc32,
        })
    }
}

/// A copy of a byte slice.
pub fn slice_to_vec(s: &[u8]) -> (v: Vec<u8>)
    ensures
        v@ == s@,
{
    let mut v: Vec<u8> = Vec::new();
    let mut i: usize = 0;
    while i < s.len()
        invariant
            i <= s@.len(),
            v@ == s@.subrange(0, i as int),
        decreases s@.len() - i,
    {
        v.push(s[i]);
        i += 1;
    }
    assert(v@ =~= s@);
    v
}

/// A parsed GPT: header and the used entries of its partition array.
#[derive(Debug, Clone)]
pub struct GuidPartitionTable {
    pub is_backup: bool,
    pub header: GptHeader,
    pub partitions: Vec<GptPartitionEntry>,
}

/// The bytes of entry `i` of a partition array with entries of `size` bytes.
pub open spec fn gpt_entry_bytes(array: Seq<u8>, size: int, i: int) -> Seq<u8> {
    array.subrange(i * size, i * size + size)
}

/// The indices below `n` whose entries have a non-zero type GUID, in order.
pub open spec fn gpt_used_indices(array: Seq<u8>, size: int, n: nat) -> Seq<int>
    decreases n,
{
    if n == 0 {
        Seq::empty()
    } else {
        let prev = gpt_used_indices(array, size, (n - 1) as nat);
        if guid_of_bytes(gpt_entry_bytes(array, size, n - 1)).spec_is_zero() {
            prev
        } else {
            prev.push(n - 1)
        }
    }
}

/// Whether `parts` are exactly the used entries among the first `n` of the array.
pub open spec fn gpt_entries_match(
    parts: Seq<GptPartitionEntry>,
    array: Seq<u8>,
    size: int,
    n: nat,
) -> bool {
    let idx = gpt_used_indices(array, size, n);
    &&& parts.len() == idx.len()
    &&& forall|k: int|
        0 <= k < parts.len() ==> gpt_entry_fields(
            #[trigger] parts[k],
            idx[k] as usize,
            gpt_entry_bytes(array, size, idx[k]),
        )
}

/// Number of bytes the partition array of a header occupies.
pub open spec fn gpt_array_len(b: Seq<u8>) -> int {
    le32(b, 80) as int * le32(b, 84) as int
}

/// `t` is the table described by the header bytes `header` and the partition array bytes
/// `array`: the header is valid, the array is long enough and matches its CRC, and the
/// entries are the used ones.
pub open spec fn gpt_table_of(
    t: GuidPartitionTable,
    header: Seq<u8>,
    array: Seq<u8>,
    is_backup: bool,
) -> bool {
    &&& is_valid_gpt_header(header)
    &&& array.len() >= gpt_array_len(header)
    &&& crc32_of(array.subrange(0, gpt_array_len(header))) == le32(header, 88)
    &&& (le32(header, 80) == 0 || le32(header, 84) >= 128)
    &&& t.is_backup == is_backup
    &&& gpt_header_fields(t.header, header)
    &&& gpt_entries_match(t.partitions@, array, le32(header, 84) as int, le32(header, 80) as nat)
}

/// Whether `GptHeader::parse` can be applied to `b`; see `gpt_header_parsable`.
pub fn is_gpt_header_parsable(b: &[u8]) -> (r: bool)
    ensures
        r == gpt_header_parsable(b@),
{
    if b.len() < 92 || !matches_at(b, 0, &gpt_signature_bytes()) {
        return true;
    }
    let n = crate::endian::get_le32(b, 12);
    n as usize > b.len() || n >= 20
}

impl GuidPartitionTable {
    #[verifier::loop_isolation(false)]
    pub fn parse(header_bytes: &[u8], array_bytes: &[u8], is_backup: bool) -> (r: Result<Self>)
        requires
            gpt_header_parsable(header_bytes@),
            is_valid_gpt_header(header_bytes@) ==> gpt_array_len(header_bytes@) <= usize::MAX,
        ensures
            !is_valid_gpt_header(header_bytes@) ==> r is Err,
            is_valid_gpt_header(header_bytes@) && array_bytes@.len() < gpt_array_len(header_bytes@)
                ==> r == Err::<Self, RecoveryError>(
                out_of_bounds(
                    0,
                    gpt_array_len(header_bytes@) as usize,
                    array_bytes@.len() as usize,
                ),
            ),
            is_valid_gpt_header(header_bytes@) && array_bytes@.len() >= gpt_array_len(
                header_bytes@,
            ) && crc32_of(array_bytes@.subrange(0, gpt_array_len(header_bytes@)))
                != le32(header_bytes@, 88) ==> r == Err::<Self, RecoveryError>(
                RecoveryError::CrcMismatch {
                    expected: le32(header_bytes@, 88),
                    computed: crc32_of(array_bytes@.subrange(0, gpt_array_len(header_bytes@))),
                },
            ),
            is_valid_gpt_header(header_bytes@) && array_bytes@.len() >= gpt_array_len(
                header_bytes@,
            ) && crc32_of(array_bytes@.subrange(0, gpt_array_len(header_bytes@)))
                == le32(header_bytes@, 88) && le32(header_bytes@, 80) > 0 && le32(
                header_bytes@,
                84,
            ) < 128 ==> r == Err::<Self, RecoveryError>(
                out_of_bounds(0, 128, le32(header_bytes@, 84) as usize),
            ),
            is_valid_gpt_header(header_bytes@) && array_bytes@.len() >= gpt_array_len(
                header_bytes@,
            ) && crc32_of(array_bytes@.subrange(0, gpt_array_len(header_bytes@)))
                == le32(header_bytes@, 88) && (le32(header_bytes@, 80) == 0 || le32(
                header_bytes@,
                84,
            ) >= 128) ==> (r matches Ok(t) && t.is_backup == is_backup && gpt_header_fields(
                t.header,
                header_bytes@,
            ) && gpt_entries_match(
                t.partitions@,
                array_bytes@,
                le32(header_bytes@, 84) as int,
                le32(header_bytes@, 80) as nat,
            )),
    {
        let header = GptHeader::parse(header_bytes)?;
        let num = header.num_partition_entries as usize;
        let entry_size = header.size_of_partition_entry as usize;
        assert(num * entry_size == gpt_array_len(header_bytes@));
        let total_array_bytes = num * entry_size;
        if array_bytes.len() < total_array_bytes {
            return Err(RecoveryError::BufferOutOfBounds {
                offset: 0,
                required: total_array_bytes,
                available: array_bytes.len(),
            });
        }
        let computed_array_crc = crc32(&array_bytes[0..total_array_bytes]);
        if computed_array_crc != header.partition_array_crc32 {
            return Err(RecoveryError::CrcMismatch {
                expected: header.partition_array_crc32,
                computed: computed_array_crc,
            });
        }
        let mut partitions: Vec<GptPartitionEntry> = Vec::new();
        let mut i: usize = 0;
        while i < num
            invariant
                i <= num,
                num * entry_size <= array_bytes@.len(),
                num * entry_size <= usize::MAX,
                gpt_entries_match(partitions@, array_bytes@, entry_size as int, i as nat),
                entry_size < 128 ==> i == 0,
            decreases num - i,
        {
            assert(i * entry_size + entry_size <= num * entry_size) by (nonlinear_arith)
                requires
                    i < num,
            ;
            let offset = i * entry_size;
            let entry_slice = &array_bytes[offset..offset + entry_size];
            let parsed = GptPartitionEntry::parse(i, entry_slice);
            match parsed {
                Ok(Some(entry)) => {
                    let ghost before = partitions@;
                    partitions.push(entry);
                    proof {
                        let idx = gpt_used_indices(array_bytes@, entry_size as int, (i + 1) as nat);
                        assert(idx == gpt_used_indices(array_bytes@, entry_size as int, i as nat).push(i as int));
                        assert forall|k: int| 0 <= k < partitions@.len() implies gpt_entry_fields(
                            #[trigger] partitions@[k],
                            idx[k] as usize,
                            gpt_entry_bytes(array_bytes@, entry_size as int, idx[k]),
                        ) by {
                            if k < before.len() {
                                assert(partitions@[k] == before[k]);
                            }
                        }
                    }
                },
                Ok(None) => {},
                Err(e) => {
                    return Err(e);
                },
            }
            i += 1;
        }
        Ok(GuidPartitionTable { is_backup, header, partitions })
    }
}

} // verus!
