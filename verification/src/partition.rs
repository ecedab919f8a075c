//! Partition table analysis: GPT, MBR with extended boot record chains, and the volumes
//! they describe.

use vstd::prelude::*;
use crate::device::{
    bytes_from, lemma_log_push, lemma_log_trans, log_extends, reads_since, BlockDevice,
};
use crate::endian::{le16, le64};
use crate::error::{RecoveryError, Result};
use crate::gpt::{
    gpt_array_len, gpt_header_parsable, gpt_table_of, is_gpt_header_parsable, is_valid_gpt_header,
    GptHeader, GptPartitionEntry, GuidPartitionTable,
};
use crate::heuristics::{
    boot_sector_fields, inspectable, is_inspectable, sector_kind, DiscoveredBootSector,
    FileSystemType, HeuristicPartitionScanner, SectorKind,
};
use crate::mbr::{
    has_boot_signature, has_protective_entry, mbr_entries_upto, mbr_entry_of, mbr_type_name,
    MasterBootRecord, MbrPartitionEntry,
};
use crate::text::{dec_text, push_dec, push_str};
use crate::gpt::gpt_type_description;

verus! {

/// The partitioning found on a disk.
#[derive(Debug)]
pub enum PartitionScheme {
    Gpt { primary: Option<GuidPartitionTable>, backup: Option<GuidPartitionTable> },
    Mbr(MasterBootRecord),
    RawOrUnknown,
}

/// Reads partition tables from a block device.
pub struct PartitionAnalyzer;

/// Which partitioning a disk's first two sectors call for.
#[derive(Debug, Clone, Copy, PartialEq, Eq, Structural)]
pub enum SchemeChoice {
    Gpt,
    Mbr,
    Raw,
}

/// The bytes of a sector that was read, or nothing when the read failed.
pub open spec fn read_view(s: Option<&[u8]>) -> Option<Seq<u8>> {
    match s {
        Some(b) => Some(b@),
        None => None,
    }
}

/// The partitioning of a disk whose sector 0 holds `s0` and whose sector 1 read as `s1`: a
/// GPT when sector 1 was read and holds a valid GPT header (whatever sector 0 holds, such as
/// a protective MBR), else an MBR when sector 0 carries the boot signature, else none.
pub open spec fn scheme_choice(s0: Seq<u8>, s1: Option<Seq<u8>>) -> SchemeChoice {
    if s1 matches Some(b) && gpt_header_parsable(b) && is_valid_gpt_header(b) {
        SchemeChoice::Gpt
    } else if has_boot_signature(s0) {
        SchemeChoice::Mbr
    } else {
        SchemeChoice::Raw
    }
}

/// Decides the partitioning from sector 0 and the outcome of reading sector 1.
pub fn choose_scheme(lba0: &[u8], lba1: Option<&[u8]>) -> (c: SchemeChoice)
    ensures
        c == scheme_choice(lba0@, read_view(lba1)),
{
    if let Some(b) = lba1 {
        if is_gpt_header_parsable(b) {
            if GptHeader::parse(b).is_ok() {
                return SchemeChoice::Gpt;
            }
        }
    }
    if lba0.len() >= 512 && crate::endian::get_le16(lba0, 510) == 0xAA55 {
        SchemeChoice::Mbr
    } else {
        SchemeChoice::Raw
    }
}

/// The kind of partitioning an answer of `analyze` gives.
pub open spec fn choice_of(r: PartitionScheme) -> SchemeChoice {
    match r {
        PartitionScheme::Gpt { .. } => SchemeChoice::Gpt,
        PartitionScheme::Mbr(_) => SchemeChoice::Mbr,
        PartitionScheme::RawOrUnknown => SchemeChoice::Raw,
    }
}

/// What reading the partitioning of a disk answers: an I/O error, or the partitioning that
/// `scheme_choice` picks from sector 0 and some outcome of reading sector 1 (its bytes, or a
/// failed read), with the details `scheme_outcome` gives.
pub open spec fn analyze_outcome(r: Result<PartitionScheme>, dev: Seq<u8>, ss: int, reported: int) -> bool {
    &&& scheme_outcome(r, dev, ss, reported)
    &&& r matches Ok(sch) ==> exists|s1: Option<Seq<u8>>|
        (s1 matches Some(b) ==> b == bytes_from(dev, ss, ss)) && #[trigger] scheme_choice(
            bytes_from(dev, 0, ss),
            s1,
        ) == choice_of(sch)
}

/// `t` is the GPT whose header is the sector at byte offset `hdr`, with its partition array
/// read from the LBA the header names.
pub open spec fn gpt_table_at(t: GuidPartitionTable, dev: Seq<u8>, hdr: int, ss: int, is_backup: bool) -> bool {
    let h = bytes_from(dev, hdr, ss);
    let ao = le64(h, 72) * ss;
    &&& 0 <= hdr
    &&& hdr + ss <= dev.len()
    &&& ao + gpt_array_len(h) <= dev.len()
    &&& gpt_table_of(t, h, dev.subrange(ao, ao + gpt_array_len(h)), is_backup)
}

/// A boot sector that the scanner can inspect and that holds one.
pub open spec fn recognized(s: Seq<u8>) -> bool {
    inspectable(s) && !(sector_kind(s) is NotABootSector)
}

/// Inspects a sector read from disk, leaving out sectors whose fields the scanner cannot
/// decode.
pub fn inspect_read_sector(lba: u64, sector: &[u8]) -> (r: Option<DiscoveredBootSector>)
    ensures
        recognized(sector@) ==> (r matches Some(d) && boot_sector_fields(d, lba, sector@)),
        !recognized(sector@) ==> r is None,
{
    if is_inspectable(sector) {
        HeuristicPartitionScanner::inspect_sector(lba, sector)
    } else {
        None
    }
}

/// `"<prefix><n + 1>"`, the one-based label of an index.
fn one_based_label(prefix: &str, n: u64) -> (s: String)
    ensures
        s@ == prefix@ + dec_text((n + 1) as nat),
{
    let mut s = String::new();
    push_str(&mut s, prefix);
    if n < u64::MAX {
        push_dec(&mut s, n + 1);
    } else {
        let t = "18446744073709551616";
        proof {
            reveal_strlit("18446744073709551616");
            reveal_with_fuel(dec_text, 21);
            assert(dec_text(18446744073709551616) =~= t@);
        }
        push_str(&mut s, t);
    }
    assert(s@ =~= prefix@ + dec_text((n + 1) as nat));
    s
}

/// The volume listed for a GPT entry when its first sector holds no boot sector that could be
/// recognized: the partition's type and size, named after the partition or its index.
pub open spec fn gpt_fallback_volume(d: DiscoveredBootSector, p: GptPartitionEntry, ss: u32) -> bool {
    &&& (d.fs_type matches FileSystemType::Unknown(t) && t@ == gpt_type_description(p.type_guid))
    &&& d.start_lba == p.start_lba
    &&& d.bytes_per_sector == ss
    &&& d.sectors_per_cluster == 8
    &&& d.total_sectors == (if p.spec_sector_count() <= u64::MAX {
        p.spec_sector_count()
    } else {
        u64::MAX as nat
    })
    &&& d.volume_label@ == (if p.name@.len() == 0 {
        "GPT_Part_"@ + dec_text((p.index + 1) as nat)
    } else {
        p.name@
    })
}

/// The volume listed for a GPT entry, given its first sector if it could be read.
pub fn gpt_entry_volume(p: &GptPartitionEntry, sector: Option<&[u8]>, ss: u32) -> (d: DiscoveredBootSector)
    ensures
        sector matches Some(s) ==> (recognized(s@) ==> boot_sector_fields(d, p.start_lba, s@)),
        !(sector matches Some(s) && recognized(s@)) ==> gpt_fallback_volume(d, *p, ss),
{
    if let Some(s) = sector {
        if let Some(boot) = inspect_read_sector(p.start_lba, s) {
            return boot;
        }
    }
    let description = String::from_str(p.type_description());
    let total_sectors = if p.end_lba >= p.start_lba {
        if p.end_lba - p.start_lba < u64::MAX {
            p.end_lba - p.start_lba + 1
        } else {
            u64::MAX
        }
    } else {
        0
    };
    let label = if p.name.as_str().unicode_len() == 0 {
        proof {
            reveal_strlit("GPT_Part_");
        }
        one_based_label("GPT_Part_", p.index as u64)
    } else {
        p.name.clone()
    };
    DiscoveredBootSector {
        fs_type: FileSystemType::Unknown(description),
        start_lba: p.start_lba,
        bytes_per_sector: ss,
        sectors_per_cluster: 8,
        total_sectors,
        volume_label: label,
    }
}

/// The volume listed for a primary MBR entry when its first sector holds no boot sector that
/// could be recognized: taken to be NTFS, named after the slot and the partition type.
pub open spec fn mbr_fallback_volume(d: DiscoveredBootSector, p: MbrPartitionEntry, ss: u32) -> bool {
    &&& d.fs_type == FileSystemType::Ntfs
    &&& d.start_lba == p.start_lba
    &&& d.bytes_per_sector == ss
    &&& d.sectors_per_cluster == 8
    &&& d.total_sectors == p.sector_count
    &&& d.volume_label@ == "Partition_"@ + dec_text((p.slot + 1) as nat) + "_"@ + mbr_type_name(
        p.partition_type,
    )
}

/// The volume listed for a primary MBR entry, given its first sector if it could be read.
pub fn mbr_entry_volume(p: &MbrPartitionEntry, sector: Option<&[u8]>, ss: u32) -> (d: DiscoveredBootSector)
    ensures
        sector matches Some(s) ==> (recognized(s@) ==> boot_sector_fields(d, p.start_lba, s@)),
        !(sector matches Some(s) && recognized(s@)) ==> mbr_fallback_volume(d, *p, ss),
{
    if let Some(s) = sector {
        if let Some(boot) = inspect_read_sector(p.start_lba, s) {
            return boot;
        }
    }
    proof {
        reveal_strlit("Partition_");
        reveal_strlit("_");
    }
    let mut label = one_based_label("Partition_", p.slot as u64);
    push_str(&mut label, "_");
    push_str(&mut label, p.partition_type_name());
    DiscoveredBootSector {
        fs_type: FileSystemType::Ntfs,
        start_lba: p.start_lba,
        bytes_per_sector: ss,
        sectors_per_cluster: 8,
        total_sectors: p.sector_count,
        volume_label: label,
    }
}

/// The volume listed for a logical partition of an extended boot record chain whose first
/// sector was read but holds no boot sector that could be recognized.
pub open spec fn logical_fallback_volume(d: DiscoveredBootSector, lba: u64, sectors: u64, ss: u32) -> bool {
    &&& d.fs_type == FileSystemType::Ntfs
    &&& d.start_lba == lba
    &&& d.bytes_per_sector == ss
    &&& d.sectors_per_cluster == 8
    &&& d.total_sectors == sectors
    &&& d.volume_label@ == "Logical_Part_LBA_"@ + dec_text(lba as nat)
}

/// The volume listed for a logical partition starting at `lba`, given its first sector.
pub fn logical_volume(lba: u64, sectors: u64, sector: &[u8], ss: u32) -> (d: DiscoveredBootSector)
    ensures
        recognized(sector@) ==> boot_sector_fields(d, lba, sector@),
        !recognized(sector@) ==> logical_fallback_volume(d, lba, sectors, ss),
{
    if let Some(boot) = inspect_read_sector(lba, sector) {
        return boot;
    }
    let mut label = String::from_str("Logical_Part_LBA_");
    proof {
        reveal_strlit("Logical_Part_LBA_");
    }
    push_dec(&mut label, lba);
    DiscoveredBootSector {
        fs_type: FileSystemType::Ntfs,
        start_lba: lba,
        bytes_per_sector: ss,
        sectors_per_cluster: 8,
        total_sectors: sectors,
        volume_label: label,
    }
}

/// Some volume of `kept` starts at `lba`.
pub open spec fn has_start(kept: Seq<DiscoveredBootSector>, lba: u64) -> bool {
    exists|k: int| 0 <= k < kept.len() && #[trigger] kept[k].start_lba == lba
}

/// The volumes of `vs`, keeping the first of each start LBA, in order.
pub open spec fn first_by_lba(vs: Seq<DiscoveredBootSector>) -> Seq<DiscoveredBootSector>
    decreases vs.len(),
{
    if vs.len() == 0 {
        Seq::empty()
    } else {
        let kept = first_by_lba(vs.drop_last());
        if has_start(kept, vs.last().start_lba) {
            kept
        } else {
            kept.push(vs.last())
        }
    }
}

/// No two volumes share a start LBA.
pub open spec fn distinct_starts(vs: Seq<DiscoveredBootSector>) -> bool {
    forall|i: int, j: int|
        0 <= i < j < vs.len() ==> #[trigger] vs[i].start_lba != #[trigger] vs[j].start_lba
}

/// Deduplication leaves no two volumes with the same start LBA.
pub proof fn lemma_first_by_lba_distinct(vs: Seq<DiscoveredBootSector>)
    ensures
        distinct_starts(first_by_lba(vs)),
    decreases vs.len(),
{
    if vs.len() > 0 {
        let kept = first_by_lba(vs.drop_last());
        lemma_first_by_lba_distinct(vs.drop_last());
        if !has_start(kept, vs.last().start_lba) {
            let out = kept.push(vs.last());
            assert forall|i: int, j: int| 0 <= i < j < out.len() implies #[trigger] out[i].start_lba
                != #[trigger] out[j].start_lba by {
                if j == kept.len() {
                    assert(out[i] == kept[i]);
                    assert(kept[i].start_lba != vs.last().start_lba);
                } else {
                    assert(out[i] == kept[i] && out[j] == kept[j]);
                }
            }
        }
    }
}

/// Deduplication keeps every start LBA of its input.
pub proof fn lemma_first_by_lba_covers(vs: Seq<DiscoveredBootSector>, i: int)
    requires
        0 <= i < vs.len(),
    ensures
        has_start(first_by_lba(vs), vs[i].start_lba),
    decreases vs.len(),
{
    let init = vs.drop_last();
    let kept = first_by_lba(init);
    if i < init.len() {
        lemma_first_by_lba_covers(init, i);
        assert(init[i] == vs[i]);
        if !has_start(kept, vs.last().start_lba) {
            let k = choose|k: int| 0 <= k < kept.len() && #[trigger] kept[k].start_lba == vs[i].start_lba;
            assert(kept.push(vs.last())[k] == kept[k]);
        }
    } else {
        if !has_start(kept, vs.last().start_lba) {
            assert(kept.push(vs.last())[kept.len() as int] == vs[i]);
        }
    }
}

/// Deduplication only keeps volumes of its input.
pub proof fn lemma_first_by_lba_from(vs: Seq<DiscoveredBootSector>, k: int)
    requires
        0 <= k < first_by_lba(vs).len(),
    ensures
        vs.contains(first_by_lba(vs)[k]),
    decreases vs.len(),
{
    let init = vs.drop_last();
    let kept = first_by_lba(init);
    if k < kept.len() {
        lemma_first_by_lba_from(init, k);
        let i = choose|i: int| 0 <= i < init.len() && init[i] == kept[k];
        assert(vs[i] == init[i]);
        if !has_start(kept, vs.last().start_lba) {
            assert(kept.push(vs.last())[k] == kept[k]);
        }
    } else {
        assert(vs[vs.len() - 1] == first_by_lba(vs)[k]);
    }
}

/// Keeps the first volume of each start LBA, in order.
pub fn dedup_by_start_lba(volumes: Vec<DiscoveredBootSector>) -> (r: Vec<DiscoveredBootSector>)
    ensures
        r@ == first_by_lba(volumes@),
        distinct_starts(r@),
{
    let ghost vs = volumes@;
    let mut unique: Vec<DiscoveredBootSector> = Vec::new();
    let mut rest = volumes;
    let ghost mut taken: int = 0;
    while rest.len() > 0
        invariant
            0 <= taken <= vs.len(),
            rest@ == vs.skip(taken),
            unique@ == first_by_lba(vs.take(taken)),
        decreases rest.len(),
    {
        let v = rest.remove(0);
        proof {
            assert(vs.take(taken + 1).drop_last() =~= vs.take(taken));
            assert(vs.take(taken + 1).last() == v);
        }
        let mut seen = false;
        let mut j: usize = 0;
        while j < unique.len()
            invariant
                j <= unique@.len(),
                seen <==> has_start(unique@.take(j as int), v.start_lba),
            decreases unique@.len() - j,
        {
            proof {
                assert forall|k: int| 0 <= k < j implies unique@.take(j + 1)[k] == unique@.take(j as int)[k] by {}
                if has_start(unique@.take(j as int), v.start_lba) {
                    let k = choose|k: int| 0 <= k < j && #[trigger] unique@.take(j as int)[k].start_lba == v.start_lba;
                    assert(unique@.take(j + 1)[k].start_lba == v.start_lba);
                }
                if unique@[j as int].start_lba == v.start_lba {
                    assert(unique@.take(j + 1)[j as int].start_lba == v.start_lba);
                }
            }
            if unique[j].start_lba == v.start_lba {
                seen = true;
            }
            j += 1;
        }
        proof {
            assert(unique@.take(unique@.len() as int) =~= unique@);
        }
        if !seen {
            unique.push(v);
        }
        proof {
            taken = taken + 1;
            assert(rest@ =~= vs.skip(taken));
        }
    }
    proof {
        assert(vs.take(taken) =~= vs);
        lemma_first_by_lba_distinct(vs);
    }
    unique
}

/// The partition array length of a header, as a buffer size, when it fits in memory.
fn array_len_of(h: &GptHeader) -> (r: Option<usize>)
    ensures
        r matches Some(n) ==> n == h.num_partition_entries as int * h.size_of_partition_entry as int,
        r is None ==> h.num_partition_entries as int * h.size_of_partition_entry as int > usize::MAX,
{
    let a = h.num_partition_entries as u64;
    let b = h.size_of_partition_entry as u64;
    assert(a * b <= 0xFFFF_FFFF * 0xFFFF_FFFF) by (nonlinear_arith)
        requires
            a <= 0xFFFF_FFFF,
            b <= 0xFFFF_FFFF,
    ;
    let n = a * b;
    if n <= usize::MAX as u64 {
        Some(n as usize)
    } else {
        None
    }
}

/// Reads the GPT whose header sector is at byte offset `hdr_offset`, and its partition array.
fn read_gpt_at<D: BlockDevice + ?Sized>(
    device: &mut D,
    hdr_offset: u64,
    ss: usize,
    is_backup: bool,
) -> (r: Option<GuidPartitionTable>)
    ensures
        final(device).data() == old(device).data(),
        final(device).sector_size_spec() == old(device).sector_size_spec(),
        final(device).reported_size() == old(device).reported_size(),
        log_extends(old(device).read_log(), final(device).read_log()),
        r matches Some(t) ==> gpt_table_at(t, old(device).data(), hdr_offset as int, ss as int, is_backup),
{
    let ghost dev = device.data();
    let ghost log0 = device.read_log();
    let mut hdr_buf: Vec<u8> = vec![0u8; ss];
    let hdr_ok = device.read_exact_at(hdr_offset, hdr_buf.as_mut_slice()).is_ok();
    let ghost log1 = device.read_log();
    proof {
        lemma_log_push(log0, (hdr_offset, ss as nat, hdr_ok));
    }
    if !hdr_ok {
        return None;
    }
    if !is_gpt_header_parsable(hdr_buf.as_slice()) {
        return None;
    }
    let hdr = match GptHeader::parse(hdr_buf.as_slice()) {
        Ok(h) => h,
        Err(_) => return None,
    };
    let array_size = array_len_of(&hdr)?;
    let array_offset = hdr.partition_entry_lba.checked_mul(ss as u64)?;
    let mut array_buf: Vec<u8> = vec![0u8; array_size];
    let array_ok = device.read_exact_at(array_offset, array_buf.as_mut_slice()).is_ok();
    proof {
        lemma_log_push(log1, (array_offset, array_size as nat, array_ok));
        lemma_log_trans(log0, log1, device.read_log());
    }
    if !array_ok {
        return None;
    }
    let r = GuidPartitionTable::parse(hdr_buf.as_slice(), array_buf.as_slice(), is_backup).ok();
    proof {
        if r is Some {
            assert(array_buf@ =~= array_buf@.subrange(0, gpt_array_len(hdr_buf@)));
        }
    }
    r
}

/// A volume found through the partition tables: the boot sector recognized at some LBA, or
/// an entry listed from a table with the device's sector size and eight sectors a cluster.
pub open spec fn table_volume(v: DiscoveredBootSector, dev: Seq<u8>, ss: u32) -> bool {
    ||| exists|lba: u64|
        #[trigger] boot_sector_fields(v, lba, bytes_from(dev, lba * ss, ss as int))
    ||| v.bytes_per_sector == ss && v.sectors_per_cluster == 8
}

/// What reading the partitioning of a disk may answer: a GPT when sector 1 holds a valid GPT
/// header (each table present only where it was read from its place and checks out), the MBR
/// of sector 0 when it carries the boot signature, nothing recognizable otherwise, or an I/O
/// error.
pub open spec fn scheme_outcome(r: Result<PartitionScheme>, dev: Seq<u8>, ss: int, reported: int) -> bool {
    &&& r matches Err(e) ==> e is Io
    &&& r matches Ok(PartitionScheme::Gpt { primary, backup }) ==> {
        &&& 2 * ss <= dev.len()
        &&& is_valid_gpt_header(bytes_from(dev, ss, ss))
        &&& primary matches Some(t) ==> gpt_table_at(t, dev, ss, ss, false)
        &&& backup matches Some(t) ==> gpt_table_at(t, dev, reported - ss, ss, true)
    }
    &&& r matches Ok(PartitionScheme::Mbr(m)) ==> {
        let s0 = bytes_from(dev, 0, ss);
        &&& ss <= dev.len()
        &&& has_boot_signature(s0)
        &&& m.disk_signature == crate::endian::le32(s0, 440)
        &&& m.partitions@ == mbr_entries_upto(s0, 4)
        &&& m.is_protective_gpt == has_protective_entry(m.partitions@)
    }
    &&& r matches Ok(PartitionScheme::RawOrUnknown) ==> {
        &&& ss <= dev.len()
        &&& !has_boot_signature(bytes_from(dev, 0, ss))
    }
}

/// Reads the sector at `lba`, if it lies within 64-bit offsets and can be read.
fn read_sector<D: BlockDevice + ?Sized>(device: &mut D, lba: u64, ss: u32) -> (r: Option<Vec<u8>>)
    ensures
        final(device).data() == old(device).data(),
        final(device).sector_size_spec() == old(device).sector_size_spec(),
        r matches Some(b) ==> lba * ss + ss <= old(device).data().len() && b@ == bytes_from(
            old(device).data(),
            lba * ss,
            ss as int,
        ),
        lba * ss > u64::MAX ==> r is None,
{
    let offset = lba.checked_mul(ss as u64)?;
    let mut buf: Vec<u8> = vec![0u8; ss as usize];
    if device.read_exact_at(offset, buf.as_mut_slice()).is_ok() {
        Some(buf)
    } else {
        None
    }
}

/// Whether `x` occurs in `v`.
fn contains_u64(v: &Vec<u64>, x: u64) -> (r: bool)
    ensures
        r == v@.contains(x),
{
    let mut i: usize = 0;
    while i < v.len()
        invariant
            i <= v@.len(),
            forall|j: int| 0 <= j < i ==> v@[j] != x,
        decreases v@.len() - i,
    {
        if v[i] == x {
            return true;
        }
        i += 1;
    }
    false
}

/// The state of a walk along a chain of extended boot records: the EBR to read next, the
/// EBRs read so far, whether the walk has stopped, and the start LBA and sector count of
/// each logical partition listed so far.
pub type EbrState = (u64, Seq<u64>, bool, Seq<(u64, u64)>);

/// The walk has ended: it stopped, or the next EBR is LBA 0 or one already visited.
pub open spec fn ebr_finished(st: EbrState) -> bool {
    st.2 || st.0 == 0 || st.1.contains(st.0)
}

/// One step of the walk from the chain starting at `base`: `rd.0` says whether the EBR could
/// be read, `rd.1` whether the first sector of its logical partition could. A logical
/// partition is listed when its first sector was read; the walk goes on to the next EBR
/// when the second entry names one.
pub open spec fn ebr_step(dev: Seq<u8>, ss: u32, base: u64, st: EbrState, rd: (bool, bool)) -> EbrState {
    let (cur, vis, stop, tg) = st;
    let vis2 = vis.push(cur);
    if ebr_finished(st) {
        st
    } else if !rd.0 {
        (cur, vis2, true, tg)
    } else {
        let ebr = bytes_from(dev, cur * ss, ss as int);
        if (ss >= 512 && le16(ebr, 510) != 0xAA55) || ss < 478 {
            (cur, vis2, true, tg)
        } else {
            let tg2 = match mbr_entry_of(0, ebr.subrange(446, 462)) {
                Some(e) => if cur + e.start_lba <= u64::MAX && rd.1 {
                    tg.push(((cur + e.start_lba) as u64, e.sector_count))
                } else {
                    tg
                },
                None => tg,
            };
            match mbr_entry_of(1, ebr.subrange(462, 478)) {
                Some(n) => if n.start_lba > 0 && base + n.start_lba <= u64::MAX {
                    ((base + n.start_lba) as u64, vis2, false, tg2)
                } else {
                    (cur, vis2, true, tg2)
                },
                None => (cur, vis2, true, tg2),
            }
        }
    }
}

/// The state of the walk from `base` after steps whose reads came out as `reads`.
pub open spec fn ebr_walk(dev: Seq<u8>, ss: u32, base: u64, reads: Seq<(bool, bool)>) -> EbrState
    decreases reads.len(),
{
    if reads.len() == 0 {
        (base, Seq::empty(), false, Seq::empty())
    } else {
        ebr_step(dev, ss, base, ebr_walk(dev, ss, base, reads.drop_last()), reads.last())
    }
}

/// The first entry of the EBR at LBA `v` places a logical partition of `t.1` sectors at
/// LBA `t.0`: the entry's start counted from that EBR.
pub open spec fn listed_by_ebr(t: (u64, u64), v: u64, dev: Seq<u8>, ss: u32) -> bool {
    mbr_entry_of(0, bytes_from(dev, v * ss, ss as int).subrange(446, 462)) matches Some(e) && t.0
        == v + e.start_lba && t.1 == e.sector_count
}

/// The second entry of the EBR at LBA `v` links to the EBR at LBA `next`: the entry's start
/// counted from the extended partition's base.
pub open spec fn linked_by_ebr(next: u64, v: u64, base: u64, dev: Seq<u8>, ss: u32) -> bool {
    mbr_entry_of(1, bytes_from(dev, v * ss, ss as int).subrange(462, 478)) matches Some(n) && next
        == base + n.start_lba
}

/// The logical partition `t` lies where the first entry of one of the EBRs in `visited` puts
/// it, counted from that EBR.
pub open spec fn placed_by_visited(t: (u64, u64), visited: Seq<u64>, dev: Seq<u8>, ss: u32) -> bool {
    exists|v: u64| visited.contains(v) && #[trigger] listed_by_ebr(t, v, dev, ss)
}

/// Every logical partition in `targets` lies where the first entry of one of the EBRs in
/// `visited` puts it, counted from that EBR.
pub open spec fn ebr_targets_placed(targets: Seq<(u64, u64)>, visited: Seq<u64>, dev: Seq<u8>, ss: u32) -> bool {
    forall|j: int| 0 <= j < targets.len() ==> #[trigger] placed_by_visited(targets[j], visited, dev, ss)
}

/// The EBR `next` is the chain's base one or the one the second entry of an EBR in `visited`
/// names, counted from the base.
pub open spec fn ebr_next_placed(next: u64, visited: Seq<u64>, base: u64, dev: Seq<u8>, ss: u32) -> bool {
    next == base || exists|v: u64| visited.contains(v) && #[trigger] linked_by_ebr(next, v, base, dev, ss)
}

/// One step of the walk keeps the logical partitions it had listed placed, and places the
/// one it adds from the EBR it reads.
proof fn lemma_targets_step(
    tg: Seq<(u64, u64)>,
    vis: Seq<u64>,
    tg2: Seq<(u64, u64)>,
    vis2: Seq<u64>,
    cur: u64,
    dev: Seq<u8>,
    ss: u32,
)
    requires
        ebr_targets_placed(tg, vis, dev, ss),
        vis2 == vis.push(cur),
        tg2 == tg || (tg2.len() > 0 && tg2 == tg.push(tg2.last()) && listed_by_ebr(tg2.last(), cur, dev, ss)),
    ensures
        ebr_targets_placed(tg2, vis2, dev, ss),
        forall|v: u64| vis.contains(v) ==> vis2.contains(v),
        vis2.contains(cur),
{
    assert(vis2[vis2.len() - 1] == cur);
    assert forall|v: u64| vis.contains(v) implies vis2.contains(v) by {
        let i = choose|i: int| 0 <= i < vis.len() && vis[i] == v;
        assert(vis2[i] == v);
    }
    assert forall|j: int| 0 <= j < tg2.len() implies #[trigger] placed_by_visited(tg2[j], vis2, dev, ss) by {
        if j < tg.len() {
            assert(tg2[j] == tg[j]);
            assert(placed_by_visited(tg[j], vis, dev, ss));
            let v = choose|v: u64| vis.contains(v) && #[trigger] listed_by_ebr(tg[j], v, dev, ss);
            assert(vis2.contains(v));
            assert(listed_by_ebr(tg2[j], v, dev, ss));
        } else {
            assert(tg2[j] == tg2.last());
            assert(vis2.contains(cur));
            assert(listed_by_ebr(tg2[j], cur, dev, ss));
        }
    }
}

/// Walking a chain of extended boot records: every logical partition listed lies at the
/// start its own EBR's first entry gives, counted from that EBR (one the walk visited), and
/// every EBR the walk moves to is the base one or is named by the second entry of a visited
/// EBR, counted from the extended partition's base.
pub proof fn lemma_ebr_walk_offsets(dev: Seq<u8>, ss: u32, base: u64, reads: Seq<(bool, bool)>)
    ensures
        ebr_targets_placed(ebr_walk(dev, ss, base, reads).3, ebr_walk(dev, ss, base, reads).1, dev, ss),
        ebr_next_placed(ebr_walk(dev, ss, base, reads).0, ebr_walk(dev, ss, base, reads).1, base, dev, ss),
    decreases reads.len(),
{
    if reads.len() > 0 {
        let prev_reads = reads.drop_last();
        lemma_ebr_walk_offsets(dev, ss, base, prev_reads);
        let prev = ebr_walk(dev, ss, base, prev_reads);
        let st = ebr_walk(dev, ss, base, reads);
        assert(st == ebr_step(dev, ss, base, prev, reads.last()));
        if !ebr_finished(prev) {
            let cur = prev.0;
            if st.3 != prev.3 {
                assert(st.3 == prev.3.push(st.3.last()));
                assert(listed_by_ebr(st.3.last(), cur, dev, ss));
            }
            lemma_targets_step(prev.3, prev.1, st.3, st.1, cur, dev, ss);
            if st.0 != base {
                if st.0 == cur {
                    let v = choose|v: u64| prev.1.contains(v) && #[trigger] linked_by_ebr(cur, v, base, dev, ss);
                    assert(st.1.contains(v));
                } else {
                    assert(linked_by_ebr(st.0, cur, base, dev, ss));
                }
            }
        }
    }
}

/// `v` is the volume listed for a logical partition of `sectors` sectors at `lba`, whose
/// first sector holds `boot`.
pub open spec fn logical_volume_of(v: DiscoveredBootSector, lba: u64, sectors: u64, boot: Seq<u8>, ss: u32) -> bool {
    if recognized(boot) {
        boot_sector_fields(v, lba, boot)
    } else {
        logical_fallback_volume(v, lba, sectors, ss)
    }
}

/// `added` are the volumes that walking the EBR chain from `base` lists, for some outcome of
/// its reads: one for each logical partition the finished walk lists, in chain order.
pub open spec fn ebr_chain_outcome(added: Seq<DiscoveredBootSector>, dev: Seq<u8>, ss: u32, base: u64) -> bool {
    exists|reads: Seq<(bool, bool)>| {
        let st = #[trigger] ebr_walk(dev, ss, base, reads);
        &&& ebr_finished(st)
        &&& added.len() == st.3.len()
        &&& forall|j: int|
            0 <= j < added.len() ==> logical_volume_of(
                #[trigger] added[j],
                st.3[j].0,
                st.3[j].1,
                bytes_from(dev, st.3[j].0 * ss, ss as int),
                ss,
            )
    }
}

/// Follows the chain of extended boot records from `base_lba`, adding the logical partitions
/// whose first sector can be read.
fn ebr_chain_volumes<D: BlockDevice + ?Sized>(
    device: &mut D,
    base_lba: u64,
    ss: u32,
    volumes: &mut Vec<DiscoveredBootSector>,
)
    ensures
        final(device).data() == old(device).data(),
        final(device).sector_size_spec() == old(device).sector_size_spec(),
        final(volumes)@.len() >= old(volumes)@.len(),
        forall|i: int| 0 <= i < old(volumes)@.len() ==> final(volumes)@[i] == old(volumes)@[i],
        forall|i: int|
            old(volumes)@.len() <= i < final(volumes)@.len() ==> table_volume(
                #[trigger] final(volumes)@[i],
                old(device).data(),
                ss,
            ),
        ebr_chain_outcome(
            final(volumes)@.skip(old(volumes)@.len() as int),
            old(device).data(),
            ss,
            base_lba,
        ),
{
    let ghost dev = device.data();
    let ghost start = volumes@;
    let ghost ss0 = device.sector_size_spec();
    let ghost mut reads: Seq<(bool, bool)> = Seq::empty();
    let mut current = base_lba;
    let mut visited: Vec<u64> = Vec::new();
    let mut done = false;
    while !done && current != 0 && !contains_u64(&visited, current)
        invariant
            dev == device.data(),
            ss0 == device.sector_size_spec(),
            volumes@.len() >= start.len(),
            forall|i: int| 0 <= i < start.len() ==> volumes@[i] == start[i],
            forall|i: int|
                start.len() <= i < volumes@.len() ==> table_volume(#[trigger] volumes@[i], dev, ss),
            visited@.len() <= usize::MAX,
            ebr_walk(dev, ss, base_lba, reads).0 == current,
            ebr_walk(dev, ss, base_lba, reads).1 == visited@,
            ebr_walk(dev, ss, base_lba, reads).2 == done,
            volumes@.len() == start.len() + ebr_walk(dev, ss, base_lba, reads).3.len(),
            forall|j: int|
                0 <= j < ebr_walk(dev, ss, base_lba, reads).3.len() ==> logical_volume_of(
                    #[trigger] volumes@[start.len() + j],
                    ebr_walk(dev, ss, base_lba, reads).3[j].0,
                    ebr_walk(dev, ss, base_lba, reads).3[j].1,
                    bytes_from(dev, ebr_walk(dev, ss, base_lba, reads).3[j].0 * ss, ss as int),
                    ss,
                ),
        decreases usize::MAX - visited@.len() + (if done { 0int } else { 1int }),
    {
        let ghost st = ebr_walk(dev, ss, base_lba, reads);
        let ghost before = volumes@;
        let ghost mut eok = false;
        let ghost mut bok = false;
        assert(!ebr_finished(st));
        visited.push(current);
        let _ = visited.len();
        let ebr = match read_sector(device, current, ss) {
            Some(b) => {
                proof {
                    eok = true;
                }
                b
            },
            None => {
                done = true;
                Vec::new()
            },
        };
        if !done && ebr.len() >= 512 && crate::endian::get_le16(ebr.as_slice(), 510) != 0xAA55 {
            done = true;
        }
        if !done && ebr.len() < 478 {
            done = true;
        }
        if !done {
            if let Ok(Some(log_entry)) = MbrPartitionEntry::parse(0, &ebr.as_slice()[446..462]) {
                if let Some(log_start) = current.checked_add(log_entry.start_lba) {
                    if let Some(boot) = read_sector(device, log_start, ss) {
                        proof {
                            bok = true;
                        }
                        let v = logical_volume(log_start, log_entry.sector_count, boot.as_slice(), ss);
                        proof {
                            if recognized(boot@) {
                                assert(boot_sector_fields(v, log_start, bytes_from(dev, log_start * ss, ss as int)));
                            }
                        }
                        volumes.push(v);
                    }
                }
            }
            match MbrPartitionEntry::parse(1, &ebr.as_slice()[462..478]) {
                Ok(Some(next_ebr)) => {
                    if next_ebr.start_lba > 0 {
                        match base_lba.checked_add(next_ebr.start_lba) {
                            Some(n) => {
                                current = n;
                            },
                            None => {
                                done = true;
                            },
                        }
                    } else {
                        done = true;
                    }
                },
                _ => {
                    done = true;
                },
            }
        }
        proof {
            let r2 = reads.push((eok, bok));
            assert(r2.drop_last() =~= reads);
            assert(r2.last() == (eok, bok));
            let st2 = ebr_walk(dev, ss, base_lba, r2);
            assert(st2 == ebr_step(dev, ss, base_lba, st, (eok, bok)));
            if eok {
                assert(ebr@ == bytes_from(dev, st.0 * ss, ss as int));
                assert(ebr@.subrange(446, 462) =~= ebr@.subrange(446, 462));
            }
            assert(visited@ == st2.1);
            assert(current == st2.0);
            assert(done == st2.2);
            assert(volumes@.len() == start.len() + st2.3.len());
            assert forall|j: int| 0 <= j < st2.3.len() implies logical_volume_of(
                #[trigger] volumes@[start.len() + j],
                st2.3[j].0,
                st2.3[j].1,
                bytes_from(dev, st2.3[j].0 * ss, ss as int),
                ss,
            ) by {
                if j < st.3.len() {
                    assert(st2.3[j] == st.3[j]);
                    assert(volumes@[start.len() + j] == before[start.len() + j]);
                }
            }
            reads = r2;
        }
    }
    proof {
        let st = ebr_walk(dev, ss, base_lba, reads);
        let added = volumes@.skip(start.len() as int);
        assert(ebr_finished(st));
        assert forall|j: int| 0 <= j < added.len() implies logical_volume_of(
            #[trigger] added[j],
            st.3[j].0,
            st.3[j].1,
            bytes_from(dev, st.3[j].0 * ss, ss as int),
            ss,
        ) by {
            assert(added[j] == volumes@[start.len() + j]);
        }
        assert(ebr_chain_outcome(added, dev, ss, base_lba));
    }
}

/// What was read for one table entry: its first sector (nothing when the read failed), or,
/// for an MBR extended entry, the volumes that its chain of extended boot records listed.
pub enum EntryRead {
    Sector(Option<Vec<u8>>),
    Chain(Vec<DiscoveredBootSector>),
}

/// The sector bytes an entry read gave, if any.
pub open spec fn sector_read(rd: EntryRead) -> Option<Seq<u8>> {
    match rd {
        EntryRead::Sector(Some(b)) => Some(b@),
        _ => None,
    }
}

/// `v` is the volume listed for a GPT entry whose first sector read as `o`.
pub open spec fn gpt_read_volume(v: DiscoveredBootSector, p: GptPartitionEntry, o: Option<Seq<u8>>, ss: u32) -> bool {
    if o is Some && recognized(o->0) {
        boot_sector_fields(v, p.start_lba, o->0)
    } else {
        gpt_fallback_volume(v, p, ss)
    }
}

/// `v` is the volume listed for a primary MBR entry whose first sector read as `o`.
pub open spec fn mbr_read_volume(v: DiscoveredBootSector, p: MbrPartitionEntry, o: Option<Seq<u8>>, ss: u32) -> bool {
    if o is Some && recognized(o->0) {
        boot_sector_fields(v, p.start_lba, o->0)
    } else {
        mbr_fallback_volume(v, p, ss)
    }
}

/// `reads` has one read for each entry of the scheme's primary table: a sector read for a
/// GPT entry or a primary MBR entry, a chain for an MBR extended entry.
pub open spec fn reads_shaped(scheme: PartitionScheme, reads: Seq<EntryRead>) -> bool {
    match scheme {
        PartitionScheme::Gpt { primary: Some(t), .. } => {
            &&& reads.len() == t.partitions@.len()
            &&& forall|i: int| 0 <= i < reads.len() ==> #[trigger] reads[i] is Sector
        },
        PartitionScheme::Mbr(m) => {
            &&& reads.len() == m.partitions@.len()
            &&& forall|i: int|
                0 <= i < reads.len() ==> (#[trigger] reads[i] is Chain <==> m.partitions@[i].is_extended)
        },
        _ => reads.len() == 0,
    }
}

/// `vs` are the volumes, in table order, that the primary MBR entries `es` give for the reads
/// `rds`: one per primary entry, and the chain's volumes for an extended entry.
pub open spec fn mbr_discovered(
    vs: Seq<DiscoveredBootSector>,
    es: Seq<MbrPartitionEntry>,
    rds: Seq<EntryRead>,
    ss: u32,
) -> bool
    decreases es.len(),
{
    if es.len() == 0 {
        vs.len() == 0
    } else if rds.len() != es.len() {
        false
    } else {
        match rds.last() {
            EntryRead::Chain(c) => {
                &&& vs.len() >= c@.len()
                &&& vs.subrange(vs.len() - c@.len(), vs.len() as int) == c@
                &&& mbr_discovered(
                    vs.subrange(0, vs.len() - c@.len()),
                    es.drop_last(),
                    rds.drop_last(),
                    ss,
                )
            },
            EntryRead::Sector(_) => {
                &&& vs.len() >= 1
                &&& mbr_read_volume(vs.last(), es.last(), sector_read(rds.last()), ss)
                &&& mbr_discovered(vs.drop_last(), es.drop_last(), rds.drop_last(), ss)
            },
        }
    }
}

/// `vs` are the volumes, in table order, that a partitioning and the reads of its entries
/// give, before duplicates are dropped: one per primary GPT entry, or those of the MBR
/// entries; none for any other partitioning.
pub open spec fn discovered_from(
    vs: Seq<DiscoveredBootSector>,
    scheme: PartitionScheme,
    reads: Seq<EntryRead>,
    ss: u32,
) -> bool {
    match scheme {
        PartitionScheme::Gpt { primary: Some(t), .. } => {
            &&& vs.len() == t.partitions@.len()
            &&& forall|i: int|
                0 <= i < vs.len() ==> gpt_read_volume(
                    #[trigger] vs[i],
                    t.partitions@[i],
                    sector_read(reads[i]),
                    ss,
                )
        },
        PartitionScheme::Mbr(m) => mbr_discovered(vs, m.partitions@, reads, ss),
        _ => vs.len() == 0,
    }
}

/// The reads of a partitioning's entries were made on `dev`: each sector read that succeeded
/// gave the sector at the entry's start LBA, and each chain lists what walking the extended
/// boot records from the entry's start LBA lists for some outcome of its reads.
pub open spec fn reads_from_disk(scheme: PartitionScheme, reads: Seq<EntryRead>, dev: Seq<u8>, ss: u32) -> bool {
    match scheme {
        PartitionScheme::Gpt { primary: Some(t), .. } => forall|i: int|
            0 <= i < reads.len() ==> (#[trigger] sector_read(reads[i]) matches Some(b) ==> b
                == bytes_from(dev, t.partitions@[i].start_lba * ss, ss as int)),
        PartitionScheme::Mbr(m) => forall|i: int|
            0 <= i < reads.len() ==> {
                &&& (#[trigger] sector_read(reads[i]) matches Some(b) ==> b == bytes_from(
                    dev,
                    m.partitions@[i].start_lba * ss,
                    ss as int,
                ))
                &&& (reads[i] matches EntryRead::Chain(c) ==> ebr_chain_outcome(
                    c@,
                    dev,
                    ss,
                    m.partitions@[i].start_lba,
                ))
            },
        _ => true,
    }
}

/// A run of volume detection on `dev`: `sch` is what reading the partitioning answered,
/// `reads` what reading its entries gave, and `d` the volumes they give.
pub open spec fn detection_run(
    sch: Result<PartitionScheme>,
    reads: Seq<EntryRead>,
    d: Seq<DiscoveredBootSector>,
    dev: Seq<u8>,
    ss: u32,
    reported: int,
) -> bool {
    &&& analyze_outcome(sch, dev, ss as int, reported)
    &&& match sch {
        Ok(s) => reads_shaped(s, reads) && reads_from_disk(s, reads, dev, ss) && discovered_from(
            d,
            s,
            reads,
            ss,
        ),
        Err(_) => d.len() == 0,
    }
}

/// `r` lists the volumes of `dev`: for some run of detection, the volumes it gives, keeping
/// the first of each start LBA in discovery order.
pub open spec fn volumes_read_from(r: Seq<DiscoveredBootSector>, dev: Seq<u8>, ss: u32, reported: int) -> bool {
    exists|sch: Result<PartitionScheme>, reads: Seq<EntryRead>, d: Seq<DiscoveredBootSector>|
        #[trigger] detection_run(sch, reads, d, dev, ss, reported) && r == first_by_lba(d)
}

impl PartitionAnalyzer {
    /// Reads the partitioning of a disk: a GPT when sector 1 holds a valid GPT header (with
    /// the primary table and the backup table at the disk's end, each if it can be read and
    /// checks out), else the MBR of sector 0 when it carries the boot signature, else nothing.
    pub fn analyze<D: BlockDevice + ?Sized>(device: &mut D) -> (r: Result<PartitionScheme>)
        ensures
            final(device).data() == old(device).data(),
            final(device).sector_size_spec() == old(device).sector_size_spec(),
            analyze_outcome(
                r,
                old(device).data(),
                old(device).sector_size_spec() as int,
                old(device).reported_size() as int,
            ),
            log_extends(old(device).read_log(), final(device).read_log()),
            reads_since(old(device).read_log(), final(device).read_log()).len() >= 1,
            reads_since(old(device).read_log(), final(device).read_log())[0] == (
                0u64,
                old(device).sector_size_spec() as nat,
                r is Ok,
            ),
    {
        let ghost dev = device.data();
        let ss32 = device.sector_size();
        let sector_size = ss32 as usize;
        let mut lba0: Vec<u8> = vec![0u8; sector_size];
        let mut lba1: Vec<u8> = vec![0u8; sector_size];
        let ghost log0 = device.read_log();
        let first = device.read_exact_at(0, lba0.as_mut_slice());
        proof {
            lemma_log_push(log0, (0u64, sector_size as nat, first is Ok));
        }
        match first {
            Ok(()) => {},
            Err(e) => {
                return Err(e);
            },
        }
        let ghost log1 = device.read_log();
        assert(lba0@ =~= bytes_from(dev, 0, sector_size as int));
        let mbr_res = MasterBootRecord::parse(lba0.as_slice());
        let lba1_ok = device.read_exact_at(sector_size as u64, lba1.as_mut_slice()).is_ok();
        let ghost log2 = device.read_log();
        proof {
            lemma_log_push(log1, (sector_size as u64, sector_size as nat, lba1_ok));
            lemma_log_trans(log0, log1, log2);
            assert(reads_since(log0, log2)[0] == (0u64, sector_size as nat, true));
        }
        let choice = if lba1_ok {
            choose_scheme(lba0.as_slice(), Some(lba1.as_slice()))
        } else {
            choose_scheme(lba0.as_slice(), None)
        };
        let ghost s1: Option<Seq<u8>> = if lba1_ok {
            Some(lba1@)
        } else {
            None
        };
        proof {
            if lba1_ok {
                assert(lba1@ =~= bytes_from(dev, sector_size as int, sector_size as int));
            }
            assert(choice == scheme_choice(bytes_from(dev, 0, sector_size as int), s1));
        }
        match choice {
            SchemeChoice::Gpt => {
                let primary = read_gpt_at(device, sector_size as u64, sector_size, false);
                let ghost log3 = device.read_log();
                proof {
                    lemma_log_trans(log0, log2, log3);
                    assert(reads_since(log0, log3)[0] == (0u64, sector_size as nat, true));
                }
                let total_size = device.total_size();
                let backup = if total_size > sector_size as u64 * 34 {
                    read_gpt_at(device, total_size - sector_size as u64, sector_size, true)
                } else {
                    None
                };
                proof {
                    if total_size > sector_size as u64 * 34 {
                        lemma_log_trans(log0, log3, device.read_log());
                    }
                    assert(reads_since(log0, device.read_log())[0] == (0u64, sector_size as nat, true));
                }
                let r = PartitionScheme::Gpt { primary, backup };
                assert(scheme_choice(bytes_from(dev, 0, sector_size as int), s1) == choice_of(r));
                Ok(r)
            },
            _ => match mbr_res {
                Ok(mbr) => {
                    let r = PartitionScheme::Mbr(mbr);
                    assert(scheme_choice(bytes_from(dev, 0, sector_size as int), s1) == choice_of(r));
                    Ok(r)
                },
                Err(_) => {
                    let r = PartitionScheme::RawOrUnknown;
                    assert(scheme_choice(bytes_from(dev, 0, sector_size as int), s1) == choice_of(r));
                    Ok(r)
                },
            },
        }
    }

    /// The volumes that a partitioning and the reads of its entries give: for each primary GPT
    /// entry, the boot sector recognized in its first sector or else the entry itself; for
    /// each primary MBR entry likewise, and for an extended entry the volumes of its chain;
    /// volumes with the start LBA of an earlier one are dropped.
    pub fn volumes_of(scheme: &PartitionScheme, reads: Vec<EntryRead>, ss: u32) -> (r: Vec<DiscoveredBootSector>)
        requires
            reads_shaped(*scheme, reads@),
        ensures
            exists|d: Seq<DiscoveredBootSector>|
                #[trigger] discovered_from(d, *scheme, reads@, ss) && r@ == first_by_lba(d),
            distinct_starts(r@),
    {
        let ghost rs = reads@;
        let mut volumes: Vec<DiscoveredBootSector> = Vec::new();
        let mut rest = reads;
        match scheme {
            PartitionScheme::Gpt { primary: Some(gpt), .. } => {
                let mut i: usize = 0;
                while i < gpt.partitions.len()
                    invariant
                        *scheme matches PartitionScheme::Gpt { primary: Some(t), .. } && t == *gpt,
                        reads_shaped(*scheme, rs),
                        rs.len() == gpt.partitions@.len(),
                        i <= gpt.partitions@.len(),
                        rest@ == rs.skip(i as int),
                        volumes@.len() == i,
                        forall|k: int|
                            0 <= k < i ==> gpt_read_volume(
                                #[trigger] volumes@[k],
                                gpt.partitions@[k],
                                sector_read(rs[k]),
                                ss,
                            ),
                    decreases gpt.partitions.len() - i,
                {
                    let p = &gpt.partitions[i];
                    assert(rest@[0] == rs[i as int]);
                    let rd = rest.remove(0);
                    assert(rd == rs[i as int]);
                    assert(rs[i as int] is Sector);
                    let v = match &rd {
                        EntryRead::Sector(Some(b)) => gpt_entry_volume(p, Some(b.as_slice()), ss),
                        _ => gpt_entry_volume(p, None, ss),
                    };
                    volumes.push(v);
                    proof {
                        assert(rest@ =~= rs.skip(i + 1));
                    }
                    i += 1;
                }
                proof {
                    assert(discovered_from(volumes@, *scheme, rs, ss));
                }
            },
            PartitionScheme::Mbr(mbr) => {
                let mut i: usize = 0;
                while i < mbr.partitions.len()
                    invariant
                        *scheme == PartitionScheme::Mbr(*mbr),
                        reads_shaped(*scheme, rs),
                        rs.len() == mbr.partitions@.len(),
                        i <= mbr.partitions@.len(),
                        rest@ == rs.skip(i as int),
                        mbr_discovered(volumes@, mbr.partitions@.take(i as int), rs.take(i as int), ss),
                    decreases mbr.partitions.len() - i,
                {
                    let p = &mbr.partitions[i];
                    assert(rest@[0] == rs[i as int]);
                    let rd = rest.remove(0);
                    let ghost before = volumes@;
                    let ghost es2 = mbr.partitions@.take(i + 1);
                    let ghost rs2 = rs.take(i + 1);
                    proof {
                        assert(es2.drop_last() =~= mbr.partitions@.take(i as int));
                        assert(rs2.drop_last() =~= rs.take(i as int));
                        assert(es2.last() == mbr.partitions@[i as int]);
                        assert(rs2.last() == rd);
                    }
                    match rd {
                        EntryRead::Chain(c) => {
                            let ghost cv = c@;
                            let mut c = c;
                            volumes.append(&mut c);
                            proof {
                                assert(volumes@.subrange(0, volumes@.len() - cv.len()) =~= before);
                                assert(volumes@.subrange(volumes@.len() - cv.len(), volumes@.len() as int) =~= cv);
                                assert(mbr_discovered(volumes@, es2, rs2, ss));
                            }
                        },
                        EntryRead::Sector(o) => {
                            let v = match &o {
                                Some(b) => mbr_entry_volume(p, Some(b.as_slice()), ss),
                                None => mbr_entry_volume(p, None, ss),
                            };
                            volumes.push(v);
                            proof {
                                assert(volumes@.drop_last() =~= before);
                                assert(mbr_discovered(volumes@, es2, rs2, ss));
                            }
                        },
                    }
                    proof {
                        assert(rest@ =~= rs.skip(i + 1));
                    }
                    i += 1;
                }
                proof {
                    assert(mbr.partitions@.take(mbr.partitions@.len() as int) =~= mbr.partitions@);
                    assert(rs.take(rs.len() as int) =~= rs);
                }
            },
            _ => {},
        }
        let ghost d = volumes@;
        let r = dedup_by_start_lba(volumes);
        proof {
            assert(discovered_from(d, *scheme, rs, ss));
        }
        r
    }

    /// Lists the volumes of a disk from its partition tables: the used entries of the primary
    /// GPT, or the primary MBR entries and the logical partitions of their extended boot record
    /// chains. Each volume is the boot sector recognized at its first sector, or the entry
    /// itself; volumes with the start LBA of an earlier one are dropped.
    pub fn detect_all_volumes<D: BlockDevice + ?Sized>(device: &mut D) -> (r: Vec<
        DiscoveredBootSector,
    >)
        ensures
            final(device).data() == old(device).data(),
            distinct_starts(r@),
            volumes_read_from(
                r@,
                old(device).data(),
                old(device).sector_size_spec(),
                old(device).reported_size() as int,
            ),
    {
        let ghost dev = device.data();
        let ghost rep = device.reported_size() as int;
        let ss = device.sector_size();
        let scheme = Self::analyze(device);
        let mut reads: Vec<EntryRead> = Vec::new();
        match &scheme {
            Ok(PartitionScheme::Gpt { primary: Some(gpt), .. }) => {
                let mut i: usize = 0;
                while i < gpt.partitions.len()
                    invariant
                        dev == device.data(),
                        ss == device.sector_size_spec(),
                        i <= gpt.partitions@.len(),
                        reads@.len() == i,
                        forall|k: int| 0 <= k < i ==> #[trigger] reads@[k] is Sector,
                        forall|k: int|
                            0 <= k < i ==> (#[trigger] sector_read(reads@[k]) matches Some(b) ==> b
                                == bytes_from(dev, gpt.partitions@[k].start_lba * ss, ss as int)),
                    decreases gpt.partitions.len() - i,
                {
                    let sector = read_sector(device, gpt.partitions[i].start_lba, ss);
                    reads.push(EntryRead::Sector(sector));
                    i += 1;
                }
            },
            Ok(PartitionScheme::Mbr(mbr)) => {
                let mut i: usize = 0;
                while i < mbr.partitions.len()
                    invariant
                        dev == device.data(),
                        ss == device.sector_size_spec(),
                        i <= mbr.partitions@.len(),
                        reads@.len() == i,
                        forall|k: int|
                            0 <= k < i ==> (#[trigger] reads@[k] is Chain <==> mbr.partitions@[k].is_extended),
                        forall|k: int|
                            0 <= k < i ==> {
                                &&& (#[trigger] sector_read(reads@[k]) matches Some(b) ==> b == bytes_from(
                                    dev,
                                    mbr.partitions@[k].start_lba * ss,
                                    ss as int,
                                ))
                                &&& (reads@[k] matches EntryRead::Chain(c) ==> ebr_chain_outcome(
                                    c@,
                                    dev,
                                    ss,
                                    mbr.partitions@[k].start_lba,
                                ))
                            },
                    decreases mbr.partitions.len() - i,
                {
                    let p = &mbr.partitions[i];
                    if !p.is_extended {
                        let sector = read_sector(device, p.start_lba, ss);
                        reads.push(EntryRead::Sector(sector));
                    } else {
                        let mut chain: Vec<DiscoveredBootSector> = Vec::new();
                        ebr_chain_volumes(device, p.start_lba, ss, &mut chain);
                        proof {
                            assert(chain@.skip(0) =~= chain@);
                        }
                        reads.push(EntryRead::Chain(chain));
                    }
                    i += 1;
                }
            },
            _ => {},
        }
        let ghost rds = reads@;
        let r = match &scheme {
            Ok(s) => Self::volumes_of(s, reads, ss),
            Err(_) => Vec::new(),
        };
        proof {
            match scheme {
                Ok(s) => {
                    let d = choose|d: Seq<DiscoveredBootSector>|
                        #[trigger] discovered_from(d, s, rds, ss) && r@ == first_by_lba(d);
                    assert(analyze_outcome(scheme, dev, ss as int, rep));
                    assert(reads_from_disk(s, rds, dev, ss));
                    assert(detection_run(scheme, rds, d, dev, ss, rep));
                },
                Err(_) => {
                    assert(first_by_lba(Seq::<DiscoveredBootSector>::empty()) =~= Seq::<DiscoveredBootSector>::empty());
                    assert(r@ =~= first_by_lba(Seq::<DiscoveredBootSector>::empty()));
                    assert(analyze_outcome(scheme, dev, ss as int, rep));
                    assert(detection_run(scheme, rds, Seq::<DiscoveredBootSector>::empty(), dev, ss, rep));
                },
            }
        }
        r
    }
}

} // verus!
