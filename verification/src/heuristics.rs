//! Recognition of volume boot sectors (NTFS, FAT32, exFAT) and ext4 superblocks.

use vstd::prelude::*;
use vstd::arithmetic::power2::pow2;
use crate::binary_reader::BinaryReader;
use crate::endian::{bytes_at, le16, le32, le64, matches_at};
use crate::text::{
    class_pred, trim_by, trim_class, utf8_lossy, utf8_lossy_string, CharClass,
};
use crate::types::Lba;
use crate::device::{bytes_from, BlockDevice};
use crate::error::Result;

verus! {

/// File system families the scanner recognizes.
#[derive(Debug, Clone, PartialEq, Eq)]
pub enum FileSystemType {
    Ntfs,
    Fat32,
    ExFat,
    Ext4,
    Unknown(String),
}

/// A boot sector (or superblock) found on disk.
#[derive(Debug, Clone)]
pub struct DiscoveredBootSector {
    pub fs_type: FileSystemType,
    pub start_lba: Lba,
    pub bytes_per_sector: u32,
    pub sectors_per_cluster: u32,
    pub total_sectors: u64,
    pub volume_label: String,
}

/// `"NTFS    "` as bytes.
pub open spec fn oem_ntfs() -> Seq<u8> {
    seq![0x4Eu8, 0x54, 0x46, 0x53, 0x20, 0x20, 0x20, 0x20]
}

/// `"FAT32   "` as bytes.
pub open spec fn oem_fat32() -> Seq<u8> {
    seq![0x46u8, 0x41, 0x54, 0x33, 0x32, 0x20, 0x20, 0x20]
}

/// `"EXFAT   "` as bytes.
pub open spec fn oem_exfat() -> Seq<u8> {
    seq![0x45u8, 0x58, 0x46, 0x41, 0x54, 0x20, 0x20, 0x20]
}

/// The kinds of sector `inspect_sector` tells apart.
pub enum SectorKind {
    NotABootSector,
    Ext4Superblock,
    NtfsBoot,
    Fat32Boot,
    ExFatBoot,
}

/// Which kind of sector `s` is, in the order the checks are made.
pub open spec fn sector_kind(s: Seq<u8>) -> SectorKind {
    if s.len() < 512 {
        SectorKind::NotABootSector
    } else if le16(s, 510) != 0xAA55 {
        if le16(s, 0x38) == 0xEF53 {
            SectorKind::Ext4Superblock
        } else {
            SectorKind::NotABootSector
        }
    } else if bytes_at(s, 3, oem_ntfs()) {
        SectorKind::NtfsBoot
    } else if bytes_at(s, 82, oem_fat32()) {
        SectorKind::Fat32Boot
    } else if bytes_at(s, 3, oem_exfat()) {
        SectorKind::ExFatBoot
    } else {
        SectorKind::NotABootSector
    }
}

/// The sectors on which inspection completes: the shift counts it applies are below 32.
pub open spec fn inspectable(s: Seq<u8>) -> bool {
    match sector_kind(s) {
        SectorKind::Ext4Superblock => le32(s, 0x18) < 32,
        SectorKind::ExFatBoot => s[108] < 32 && s[109] < 32,
        _ => true,
    }
}

/// `v` if non-zero, else `default`.
pub open spec fn nonzero_or(v: u32, default: u32) -> u32 {
    if v == 0 {
        default
    } else {
        v
    }
}

/// Whether `d` describes the boot sector `s` found at `lba`.
pub open spec fn boot_sector_fields(d: DiscoveredBootSector, lba: Lba, s: Seq<u8>) -> bool {
    match sector_kind(s) {
        SectorKind::Ext4Superblock => {
            let block_size = (1024u32 << le32(s, 0x18)) as u32;
            &&& d.fs_type == FileSystemType::Ext4
            &&& d.start_lba == (if lba >= 2 { (lba - 2) as u64 } else { 0 })
            &&& d.bytes_per_sector == 512
            &&& d.sectors_per_cluster == block_size / 512
            &&& d.total_sectors == (le32(s, 4) as u64 * block_size as u64) / 512
            &&& d.volume_label@ == trim_by(
                utf8_lossy(s.subrange(0x78, 0x88)),
                class_pred(CharClass::Nul),
            )
        },
        SectorKind::NtfsBoot => {
            &&& d.fs_type == FileSystemType::Ntfs
            &&& d.start_lba == lba
            &&& d.bytes_per_sector == nonzero_or(le16(s, 11) as u32, 512)
            &&& d.sectors_per_cluster == nonzero_or(s[13] as u32, 8)
            &&& d.total_sectors == le64(s, 40)
            &&& d.volume_label@ == "NTFS Volume"@
        },
        SectorKind::Fat32Boot => {
            let label = trim_by(utf8_lossy(s.subrange(71, 82)), class_pred(CharClass::WhiteSpace));
            &&& d.fs_type == FileSystemType::Fat32
            &&& d.start_lba == lba
            &&& d.bytes_per_sector == nonzero_or(le16(s, 11) as u32, 512)
            &&& d.sectors_per_cluster == nonzero_or(s[13] as u32, 8)
            &&& d.total_sectors == le32(s, 32) as u64
            &&& d.volume_label@ == (if label.len() == 0 { "NO NAME"@ } else { label })
        },
        SectorKind::ExFatBoot => {
            &&& d.fs_type == FileSystemType::ExFat
            &&& d.start_lba == lba
            &&& d.bytes_per_sector == (1u32 << s[108]) as u32
            &&& d.sectors_per_cluster == (1u32 << s[109]) as u32
            &&& d.total_sectors == le64(s, 72)
            &&& d.volume_label@ == "exFAT Volume"@
        },
        SectorKind::NotABootSector => false,
    }
}

/// A FAT32 boot sector found at `lba` is reported as a FAT32 volume starting there, whose
/// sector count is the 32-bit little-endian count at byte 32 of the sector and whose sector
/// size and cluster size are those the sector gives (512 and 8 where it gives 0).
pub proof fn lemma_fat32_volume(d: DiscoveredBootSector, lba: Lba, s: Seq<u8>)
    requires
        s.len() >= 512,
        s[510] == 0x55 && s[511] == 0xAA,
        !bytes_at(s, 3, oem_ntfs()),
        s[82] == 0x46 && s[83] == 0x41 && s[84] == 0x54 && s[85] == 0x33 && s[86] == 0x32,
        s[87] == 0x20 && s[88] == 0x20 && s[89] == 0x20,
        boot_sector_fields(d, lba, s),
    ensures
        d.fs_type == FileSystemType::Fat32,
        d.start_lba == lba,
        d.total_sectors == s[32] + 256 * s[33] + 65536 * s[34] + 16777216 * s[35],
        d.bytes_per_sector == (if s[11] + 256 * s[12] == 0 { 512 } else { s[11] + 256 * s[12] }),
        d.sectors_per_cluster == (if s[13] == 0 { 8 } else { s[13] as int }),
{
    assert(s.subrange(82, 90) =~= oem_fat32());
    assert(le16(s, 510) == 0xAA55);
}

/// An NTFS boot sector found at `lba` is reported as an NTFS volume starting there, whose
/// sector count is the 64-bit little-endian count at byte 40 of the sector and whose sector
/// size and cluster size are those the sector gives (512 and 8 where it gives 0).
pub proof fn lemma_ntfs_volume(d: DiscoveredBootSector, lba: Lba, s: Seq<u8>)
    requires
        s.len() >= 512,
        s[510] == 0x55 && s[511] == 0xAA,
        s[3] == 0x4E && s[4] == 0x54 && s[5] == 0x46 && s[6] == 0x53,
        s[7] == 0x20 && s[8] == 0x20 && s[9] == 0x20 && s[10] == 0x20,
        boot_sector_fields(d, lba, s),
    ensures
        d.fs_type == FileSystemType::Ntfs,
        d.start_lba == lba,
        d.total_sectors == s[40] + 256 * s[41] + 65536 * s[42] + 16777216 * s[43] + 4294967296 * (
        s[44] + 256 * s[45] + 65536 * s[46] + 16777216 * s[47]),
        d.bytes_per_sector == (if s[11] + 256 * s[12] == 0 { 512 } else { s[11] + 256 * s[12] }),
        d.sectors_per_cluster == (if s[13] == 0 { 8 } else { s[13] as int }),
{
    assert(s.subrange(3, 11) =~= oem_ntfs());
    assert(le16(s, 510) == 0xAA55);
}

/// An exFAT boot sector found at `lba` (one that does not also carry the FAT32 signature at
/// byte 82) is reported as an exFAT volume starting there, whose sector count is the 64-bit
/// little-endian count at byte 72 of the sector.
pub proof fn lemma_exfat_volume(d: DiscoveredBootSector, lba: Lba, s: Seq<u8>)
    requires
        s.len() >= 512,
        s[510] == 0x55 && s[511] == 0xAA,
        s[3] == 0x45 && s[4] == 0x58 && s[5] == 0x46 && s[6] == 0x41 && s[7] == 0x54,
        s[8] == 0x20 && s[9] == 0x20 && s[10] == 0x20,
        !bytes_at(s, 82, oem_fat32()),
        boot_sector_fields(d, lba, s),
    ensures
        d.fs_type == FileSystemType::ExFat,
        d.start_lba == lba,
        d.total_sectors == s[72] + 256 * s[73] + 65536 * s[74] + 16777216 * s[75] + 4294967296 * (
        s[76] + 256 * s[77] + 65536 * s[78] + 16777216 * s[79]),
{
    assert(s.subrange(3, 11) =~= oem_exfat());
    assert(s.subrange(3, 11) !~= oem_ntfs()) by {
        assert(s.subrange(3, 11)[0] != oem_ntfs()[0]);
    }
    assert(le16(s, 510) == 0xAA55);
}

/// An ext4 superblock (magic `53 EF` at byte 0x38, in a sector without the boot signature)
/// found at `lba` is reported as an ext4 volume starting two sectors earlier (at sector 0 when
/// there are fewer), with 512-byte sectors: its blocks of `1024 * 2^n` bytes, `n` being the
/// little-endian 32-bit value at byte 0x18, are its clusters, and its sector count is the
/// block count (the little-endian 32-bit value at byte 4) in such blocks.
pub proof fn lemma_ext4_volume(d: DiscoveredBootSector, lba: Lba, s: Seq<u8>)
    requires
        s.len() >= 512,
        !(s[510] == 0x55 && s[511] == 0xAA),
        s[0x38] == 0x53 && s[0x39] == 0xEF,
        s[0x18] + 256 * s[0x19] + 65536 * s[0x1A] + 16777216 * s[0x1B] <= 21,
        boot_sector_fields(d, lba, s),
    ensures
        ({
            let n = (s[0x18] + 256 * s[0x19] + 65536 * s[0x1A] + 16777216 * s[0x1B]) as nat;
            let blocks = s[4] + 256 * s[5] + 65536 * s[6] + 16777216 * s[7];
            &&& d.fs_type == FileSystemType::Ext4
            &&& d.start_lba == (if lba >= 2 { lba - 2 } else { 0 })
            &&& d.bytes_per_sector == 512
            &&& d.sectors_per_cluster == 2 * pow2(n)
            &&& d.total_sectors == blocks * 2 * pow2(n)
        }),
{
    let n = le32(s, 0x18);
    assert(le16(s, 510) != 0xAA55);
    assert(le16(s, 0x38) == 0xEF53);
    assert(sector_kind(s) is Ext4Superblock);
    vstd::arithmetic::power2::lemma2_to64();
    if n < 21 {
        vstd::arithmetic::power2::lemma_pow2_strictly_increases(n as nat, 21);
    }
    assert(pow2(n as nat) <= 2097152);
    vstd::bits::lemma_u32_shl_is_mul(1024u32, n);
    let p = pow2(n as nat);
    let bs = (1024u32 << n) as u32;
    assert(bs == 1024 * p);
    assert(bs / 512 == 2 * p);
    let blocks = le32(s, 4);
    assert((blocks as u64 * bs as u64) / 512 == blocks * 2 * p) by (nonlinear_arith)
        requires
            bs == 1024 * p,
            blocks <= u32::MAX,
            p <= 2097152;
}

fn oem_bytes(which: u8) -> (r: [u8; 8])
    ensures
        which == 0 ==> r@ == oem_ntfs(),
        which == 1 ==> r@ == oem_fat32(),
        which != 0 && which != 1 ==> r@ == oem_exfat(),
{
    let r = if which == 0 {
        [0x4Eu8, 0x54, 0x46, 0x53, 0x20, 0x20, 0x20, 0x20]
    } else if which == 1 {
        [0x46u8, 0x41, 0x54, 0x33, 0x32, 0x20, 0x20, 0x20]
    } else {
        [0x45u8, 0x58, 0x46, 0x41, 0x54, 0x20, 0x20, 0x20]
    };
    assert(which == 0 ==> r@ =~= oem_ntfs());
    assert(which == 1 ==> r@ =~= oem_fat32());
    assert(which != 0 && which != 1 ==> r@ =~= oem_exfat());
    r
}

/// Whether inspecting `sector` completes; see `inspectable`.
pub fn is_inspectable(sector: &[u8]) -> (r: bool)
    ensures
        r == inspectable(sector@),
{
    if sector.len() < 512 {
        return true;
    }
    let magic = crate::endian::get_le16(sector, 510);
    if magic != 0xAA55 {
        if crate::endian::get_le16(sector, 0x38) == 0xEF53 {
            return crate::endian::get_le32(sector, 0x18) < 32;
        }
        return true;
    }
    if matches_at(sector, 3, &oem_bytes(0)) || matches_at(sector, 82, &oem_bytes(1)) {
        return true;
    }
    if matches_at(sector, 3, &oem_bytes(2)) {
        return sector[108] < 32 && sector[109] < 32;
    }
    true
}

/// `d` is the boot sector recognized at `lba`, one of the LBAs a scan from `start` with the
/// given step and limit inspects.
pub open spec fn scanned_hit(
    d: DiscoveredBootSector,
    lba: Lba,
    start: Lba,
    max_sectors: u64,
    step: u64,
    dev: Seq<u8>,
    ss: u32,
) -> bool {
    let s = bytes_from(dev, lba * ss, ss as int);
    &&& start <= lba
    &&& lba < start + max_sectors
    &&& (lba - start) % (step as int) == 0
    &&& lba * ss + ss <= dev.len()
    &&& inspectable(s)
    &&& !(sector_kind(s) is NotABootSector)
    &&& boot_sector_fields(d, lba, s)
}

/// `d` is a boot sector recognized at one of the LBAs the scan inspects.
pub open spec fn scan_hit(
    d: DiscoveredBootSector,
    start: Lba,
    max_sectors: u64,
    step: u64,
    dev: Seq<u8>,
    ss: u32,
) -> bool {
    exists|lba: Lba| #[trigger] scanned_hit(d, lba, start, max_sectors, step, dev, ss)
}

/// The LBA of the `i`-th sector a scan from `start` every `step` sectors inspects.
pub open spec fn inspected_lba(start: Lba, step: u64, i: int) -> int {
    start + i * step
}

/// The LBAs of the boot sectors recognized by a scan from `start` every `step` sectors, in
/// scan order, when the reads of the inspected sectors succeeded as `ok` says.
pub open spec fn scan_hits(dev: Seq<u8>, ss: u32, start: Lba, step: u64, ok: Seq<bool>) -> Seq<Lba>
    decreases ok.len(),
{
    if ok.len() == 0 {
        Seq::empty()
    } else {
        let lba = inspected_lba(start, step, ok.len() - 1);
        let s = bytes_from(dev, lba * ss, ss as int);
        scan_hits(dev, ss, start, step, ok.drop_last()) + if ok.last() && lba * ss + ss <= dev.len()
            && inspectable(s) && !(sector_kind(s) is NotABootSector) {
            seq![lba as Lba]
        } else {
            Seq::empty()
        }
    }
}

/// The LBA a scan of `max_sectors` sectors from `start` stops at on a medium of `size` bytes.
pub open spec fn scan_end_lba(start: Lba, max_sectors: u64, size: u64, ss: u32) -> int {
    let l = if start + max_sectors > u64::MAX {
        u64::MAX as int
    } else {
        start + max_sectors
    };
    let t = (size / (ss as u64)) as int;
    if l < t {
        l
    } else {
        t
    }
}

/// `found` is what a scan returns when the reads of the sectors it inspected succeeded as `ok`
/// says: it inspected every `step`-th sector from `start` before `end`, and found, in order,
/// the boot sectors recognized in those it could read.
pub open spec fn scan_outcome(
    found: Seq<DiscoveredBootSector>,
    dev: Seq<u8>,
    ss: u32,
    start: Lba,
    step: u64,
    end: int,
    ok: Seq<bool>,
) -> bool {
    let hits = scan_hits(dev, ss, start, step, ok);
    &&& forall|i: int| 0 <= i < ok.len() ==> #[trigger] inspected_lba(start, step, i) < end
    &&& inspected_lba(start, step, ok.len() as int) >= end
    &&& found.len() == hits.len()
    &&& forall|i: int|
        0 <= i < found.len() ==> boot_sector_fields(
            #[trigger] found[i],
            hits[i],
            bytes_from(dev, hits[i] * ss, ss as int),
        )
}

/// `found` is what a scan returns for some outcome of the reads of the sectors it inspected.
pub open spec fn scan_result(found: Seq<DiscoveredBootSector>, dev: Seq<u8>, ss: u32, start: Lba, step: u64, end: int) -> bool {
    exists|reads: Seq<bool>| #[trigger] scan_outcome(found, dev, ss, start, step, end, reads)
}

/// Scans sectors for orphaned volume boot records.
pub struct HeuristicPartitionScanner {
    step_sectors: u64,
}

impl HeuristicPartitionScanner {
    #[verifier::type_invariant]
    spec fn step_positive(self) -> bool {
        self.step_sectors >= 1
    }

    /// The distance between inspected sectors.
    pub closed spec fn step(&self) -> u64 {
        self.step_sectors
    }

    pub fn default() -> (r: Self)
        ensures
            r.step() == 1,
    {
        HeuristicPartitionScanner { step_sectors: 1 }
    }

    pub fn new(step_sectors: u64) -> (r: Self)
        ensures
            r.step() == (if step_sectors >= 1 { step_sectors } else { 1 }),
    {
        HeuristicPartitionScanner { step_sectors: if step_sectors >= 1 { step_sectors } else { 1 } }
    }

    /// Inspects every `step`-th sector from `start_lba`, for at most `max_sectors_to_scan`
    /// sectors and not past the device's end, and returns the boot sectors recognized in those
    /// that can be read, in disk order. `progress_cb` is told the LBA and the number found at
    /// every LBA that is a multiple of 2048.
    pub fn scan_device<D: BlockDevice + ?Sized, F: FnMut(Lba, usize)>(
        &self,
        device: &mut D,
        start_lba: Lba,
        max_sectors_to_scan: u64,
        progress_cb: F,
    ) -> (r: Result<Vec<DiscoveredBootSector>>)
        requires
            old(device).sector_size_spec() > 0,
            forall|a: Lba, b: usize| call_requires(progress_cb, (a, b)),
        ensures
            final(device).data() == old(device).data(),
            r is Ok,
            r matches Ok(found) ==> forall|i: int|
                0 <= i < found@.len() ==> scan_hit(
                    #[trigger] found@[i],
                    start_lba,
                    max_sectors_to_scan,
                    self.step(),
                    old(device).data(),
                    old(device).sector_size_spec(),
                ),
            r matches Ok(found) ==> scan_result(
                found@,
                old(device).data(),
                old(device).sector_size_spec(),
                start_lba,
                self.step(),
                scan_end_lba(start_lba, max_sectors_to_scan, old(device).reported_size(), old(device).sector_size_spec()),
            ),
    {
        let ghost dev = device.data();
        let ghost mut ok: Seq<bool> = Seq::empty();
        proof {
            use_type_invariant(self);
        }
        let ss = device.sector_size();
        let size = device.total_size();
        let total_device_sectors = size / ss as u64;
        assert(total_device_sectors as int * ss <= size) by (nonlinear_arith)
            requires
                total_device_sectors == size / (ss as u64),
                ss > 0,
        ;
        let limit = start_lba.saturating_add(max_sectors_to_scan);
        let end_lba = if limit < total_device_sectors { limit } else { total_device_sectors };
        let mut progress_cb = progress_cb;
        let mut found: Vec<DiscoveredBootSector> = Vec::new();
        let mut buffer: Vec<u8> = vec![0u8; ss as usize];
        let mut current_lba = start_lba;
        let mut done = false;
        assert((0int) % (self.step() as int) == 0) by (nonlinear_arith)
            requires
                self.step() >= 1,
        ;
        assert(end_lba as int * ss <= u64::MAX) by (nonlinear_arith)
            requires
                end_lba <= total_device_sectors,
                total_device_sectors as int * ss <= size,
                size <= u64::MAX,
                ss > 0,
        ;
        while !done && current_lba < end_lba
            invariant
                dev == device.data(),
                dev == old(device).data(),
                ss == device.sector_size_spec(),
                ss == old(device).sector_size_spec(),
                ss > 0,
                buffer@.len() == ss,
                start_lba <= current_lba,
                (current_lba - start_lba) % (self.step() as int) == 0,
                end_lba <= limit,
                limit == (if start_lba + max_sectors_to_scan <= u64::MAX {
                    start_lba + max_sectors_to_scan
                } else {
                    u64::MAX as int
                }),
                end_lba as int * ss <= u64::MAX,
                self.step() >= 1,
                end_lba == scan_end_lba(start_lba, max_sectors_to_scan, size, ss),
                size == old(device).reported_size(),
                !done ==> current_lba == inspected_lba(start_lba, self.step(), ok.len() as int),
                done ==> inspected_lba(start_lba, self.step(), ok.len() as int) > u64::MAX,
                forall|i: int| 0 <= i < ok.len() ==> #[trigger] inspected_lba(start_lba, self.step(), i) < end_lba,
                found@.len() == scan_hits(dev, ss, start_lba, self.step(), ok).len(),
                forall|i: int|
                    0 <= i < found@.len() ==> boot_sector_fields(
                        #[trigger] found@[i],
                        scan_hits(dev, ss, start_lba, self.step(), ok)[i],
                        bytes_from(dev, scan_hits(dev, ss, start_lba, self.step(), ok)[i] * ss, ss as int),
                    ),
                forall|a: Lba, b: usize| call_requires(progress_cb, (a, b)),
                forall|i: int|
                    0 <= i < found@.len() ==> scan_hit(
                        #[trigger] found@[i],
                        start_lba,
                        max_sectors_to_scan,
                        self.step(),
                        dev,
                        ss,
                    ),
            decreases (if current_lba < end_lba { end_lba - current_lba } else { 0int }) + (if done {
                0int
            } else {
                1int
            }),
        {
            assert(current_lba as int * ss <= u64::MAX) by (nonlinear_arith)
                requires
                    current_lba < end_lba,
                    end_lba as int * ss <= u64::MAX,
                    ss > 0,
            ;
            assert(end_lba as int * ss <= u64::MAX);
            let offset = current_lba * ss as u64;
            let ghost found_before = found@;
            let ghost hits_before = scan_hits(dev, ss, start_lba, self.step(), ok);
            let read_ok = device.read_exact_at(offset, buffer.as_mut_slice()).is_ok();
            if read_ok {
                if is_inspectable(buffer.as_slice()) {
                    if let Some(boot) = Self::inspect_sector(current_lba, buffer.as_slice()) {
                        proof {
                            assert(buffer@ == bytes_from(dev, current_lba * ss, ss as int));
                            assert(scanned_hit(
                                boot,
                                current_lba,
                                start_lba,
                                max_sectors_to_scan,
                                self.step(),
                                dev,
                                ss,
                            ));
                        }
                        found.push(boot);
                        proof {
                            assert forall|i: int| 0 <= i < found@.len() implies scan_hit(
                                #[trigger] found@[i],
                                start_lba,
                                max_sectors_to_scan,
                                self.step(),
                                dev,
                                ss,
                            ) by {
                                if i < found_before.len() {
                                    assert(found@[i] == found_before[i]);
                                } else {
                                    assert(scanned_hit(
                                        found@[i],
                                        current_lba,
                                        start_lba,
                                        max_sectors_to_scan,
                                        self.step(),
                                        dev,
                                        ss,
                                    ));
                                }
                            }
                        }
                    }
                }
            }
            let ghost ok_prev = ok;
            proof {
                ok = ok.push(read_ok);
            }
            proof {
                let s = bytes_from(dev, current_lba * ss, ss as int);
                assert(ok.drop_last() =~= ok_prev);
                assert(ok.last() == read_ok);
                assert(inspected_lba(start_lba, self.step(), ok.len() - 1) == current_lba);
                if read_ok {
                    assert(buffer@ == s);
                }
                let added = read_ok && current_lba * ss + ss <= dev.len() && inspectable(s) && !(sector_kind(
                    s,
                ) is NotABootSector);
                if added {
                    assert(scan_hits(dev, ss, start_lba, self.step(), ok) == hits_before + seq![current_lba]);
                    assert(found@.len() == found_before.len() + 1);
                    assert forall|i: int| 0 <= i < found@.len() implies boot_sector_fields(
                        #[trigger] found@[i],
                        scan_hits(dev, ss, start_lba, self.step(), ok)[i],
                        bytes_from(dev, scan_hits(dev, ss, start_lba, self.step(), ok)[i] * ss, ss as int),
                    ) by {
                        if i < found_before.len() {
                            assert(found@[i] == found_before[i]);
                            assert(scan_hits(dev, ss, start_lba, self.step(), ok)[i] == hits_before[i]);
                        } else {
                            assert(scan_hits(dev, ss, start_lba, self.step(), ok)[i] == current_lba);
                        }
                    }
                } else {
                    assert(scan_hits(dev, ss, start_lba, self.step(), ok) =~= hits_before);
                    assert(found@ == found_before);
                }
                assert forall|i: int| 0 <= i < ok.len() implies #[trigger] inspected_lba(start_lba, self.step(), i)
                    < end_lba by {
                    if i < ok_prev.len() {
                        assert(inspected_lba(start_lba, self.step(), i) < end_lba);
                    }
                }
            }
            if current_lba % 2048 == 0 {
                progress_cb(current_lba, found.len());
            }
            match current_lba.checked_add(self.step_sectors) {
                Some(next) => {
                    proof {
                        assert((next - start_lba) % (self.step() as int) == 0) by (nonlinear_arith)
                            requires
                                (current_lba - start_lba) % (self.step() as int) == 0,
                                next == current_lba + self.step(),
                                self.step() >= 1,
                        ;
                        assert(next == inspected_lba(start_lba, self.step(), ok.len() as int)) by (nonlinear_arith)
                            requires
                                current_lba == inspected_lba(start_lba, self.step(), ok.len() - 1),
                                next == current_lba + self.step(),
                        ;
                    }
                    current_lba = next;
                },
                None => {
                    proof {
                        assert(inspected_lba(start_lba, self.step(), ok.len() as int) > u64::MAX) by (nonlinear_arith)
                            requires
                                current_lba == inspected_lba(start_lba, self.step(), ok.len() - 1),
                                current_lba + self.step() > u64::MAX,
                        ;
                    }
                    done = true;
                },
            }
        }
        proof {
            assert(scan_outcome(
                found@,
                old(device).data(),
                old(device).sector_size_spec(),
                start_lba,
                self.step(),
                scan_end_lba(start_lba, max_sectors_to_scan, old(device).reported_size(), old(device).sector_size_spec()),
                ok,
            ));
            assert(scan_result(
                found@,
                old(device).data(),
                old(device).sector_size_spec(),
                start_lba,
                self.step(),
                scan_end_lba(start_lba, max_sectors_to_scan, old(device).reported_size(), old(device).sector_size_spec()),
            ));
        }
        Ok(found)
    }

    /// Recognizes the boot sector or superblock stored in `sector`, found at `lba`.
    pub fn inspect_sector(lba: Lba, sector: &[u8]) -> (r: Option<DiscoveredBootSector>)
        requires
            inspectable(sector@),
        ensures
            sector_kind(sector@) is NotABootSector ==> r is None,
            !(sector_kind(sector@) is NotABootSector) ==> (r matches Some(d)
                && boot_sector_fields(d, lba, sector@)),
    {
        if sector.len() < 512 {
            return None;
        }
        let magic_510 = match BinaryReader::peek_u16_le_at(sector, 510) {
            Ok(v) => v,
            Err(_) => return None,
        };
        if magic_510 != 0xAA55 {
            if sector.len() >= 0x40 && crate::endian::get_le16(sector, 0x38) == 0xEF53 {
                let block_size_shift = crate::endian::get_le32(sector, 0x18);
                let block_size = 1024u32 << block_size_shift;
                let blocks_count = crate::endian::get_le32(sector, 0x04) as u64;
                let raw_name = utf8_lossy_string(&sector[0x78..0x88]);
                let volume_name = trim_class(raw_name.as_str(), CharClass::Nul);
                assert(blocks_count * block_size as u64 <= u32::MAX as u64 * u32::MAX as u64)
                    by (nonlinear_arith)
                    requires
                        blocks_count <= u32::MAX,
                        block_size <= u32::MAX,
                ;
                return Some(DiscoveredBootSector {
                    fs_type: FileSystemType::Ext4,
                    start_lba: lba.saturating_sub(2),
                    bytes_per_sector: 512,
                    sectors_per_cluster: block_size / 512,
                    total_sectors: (blocks_count * block_size as u64) / 512,
                    volume_label: volume_name,
                });
            }
            return None;
        }
        if matches_at(sector, 3, &oem_bytes(0)) {
            let bytes_per_sec = crate::endian::get_le16(sector, 11) as u32;
            let sec_per_cluster = sector[13] as u32;
            let total_sectors = crate::endian::get_le64(sector, 40);
            return Some(DiscoveredBootSector {
                fs_type: FileSystemType::Ntfs,
                start_lba: lba,
                bytes_per_sector: if bytes_per_sec == 0 { 512 } else { bytes_per_sec },
                sectors_per_cluster: if sec_per_cluster == 0 { 8 } else { sec_per_cluster },
                total_sectors,
                volume_label: String::from_str("NTFS Volume"),
            });
        }
        if sector.len() >= 90 && matches_at(sector, 82, &oem_bytes(1)) {
            let bytes_per_sec = crate::endian::get_le16(sector, 11) as u32;
            let sec_per_cluster = sector[13] as u32;
            let total_sectors_32 = crate::endian::get_le32(sector, 32) as u64;
            let raw_label = utf8_lossy_string(&sector[71..82]);
            let label = trim_class(raw_label.as_str(), CharClass::WhiteSpace);
            let volume_label = if label.unicode_len() == 0 {
                String::from_str("NO NAME")
            } else {
                label
            };
            return Some(DiscoveredBootSector {
                fs_type: FileSystemType::Fat32,
                start_lba: lba,
                bytes_per_sector: if bytes_per_sec == 0 { 512 } else { bytes_per_sec },
                sectors_per_cluster: if sec_per_cluster == 0 { 8 } else { sec_per_cluster },
                total_sectors: total_sectors_32,
                volume_label,
            });
        }
        if matches_at(sector, 3, &oem_bytes(2)) {
            let bytes_per_sec_shift = sector[108];
            let sec_per_cluster_shift = sector[109];
            let bytes_per_sec = 1u32 << bytes_per_sec_shift;
            let sec_per_cluster = 1u32 << sec_per_cluster_shift;
            let total_sectors = crate::endian::get_le64(sector, 72);
            return Some(DiscoveredBootSector {
                fs_type: FileSystemType::ExFat,
                start_lba: lba,
                bytes_per_sector: bytes_per_sec,
                sectors_per_cluster: sec_per_cluster,
                total_sectors,
                volume_label: String::from_str("exFAT Volume"),
            });
        }
        None
    }
}

} // verus!
