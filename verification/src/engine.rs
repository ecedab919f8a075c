//! Access to one NTFS volume of a block device: its boot sector, its MFT records, and the
//! directory tree they make.

use vstd::prelude::*;
use crate::device::BlockDevice;
use crate::endian::bytes_at;
use crate::error::{RecoveryError, Result};
use crate::mft::{file_magic, lemma_parse_result_ok, mft_parse_result, mft_parses, MftRecord, MFT_RECORD_MAGIC_FILE};
use crate::text::{hex_min, push_hex_min, push_str};
use crate::tree::{children_of, record_node, same_but_children, NtfsVolumeTree};
use crate::vbr::{is_ntfs_boot_sector, vbr_fields_of, NtfsVbr};
use crate::endian::matches_at;

verus! {

broadcast use vstd::std_specs::hash::group_hash_axioms;

/// An opened NTFS volume: where its boot sector lies and what it says.
pub struct NtfsEngine {
    pub partition_start_byte_offset: u64,
    pub vbr: NtfsVbr,
}

/// The 512 bytes at `o`.
pub open spec fn sector_at(dev: Seq<u8>, o: int) -> Seq<u8> {
    dev.subrange(o, o + 512)
}

/// The bytes `open` searches when the boot sector is not at the given offset.
pub const PROBE_SECTORS: usize = 2048;

/// The message when no boot sector is found.
pub open spec fn no_vbr_message(offset: u64) -> Seq<char> {
    "No valid NTFS VBR boot sector found near offset 0x"@ + hex_min(offset as nat)
}

/// Where `open` may settle: at `offset` itself, or at the first sector of the megabyte
/// from `offset` that holds an NTFS boot sector.
pub open spec fn vbr_location(dev: Seq<u8>, offset: int, found: int) -> bool {
    ||| found == offset
    ||| exists|sec: int| #[trigger] probe_hit(dev, offset, sec) && found == offset + 512 * sec
}

/// Sector `sec` of the megabyte from `offset` lies on the device and no sector before it
/// holds an NTFS boot sector.
pub open spec fn probe_hit(dev: Seq<u8>, offset: int, sec: int) -> bool {
    &&& 0 <= sec < PROBE_SECTORS
    &&& offset + 512 * PROBE_SECTORS <= dev.len()
    &&& forall|j: int|
        0 <= j < sec ==> !is_ntfs_boot_sector(#[trigger] sector_at(dev, offset + 512 * j))
}

/// The byte offset of MFT record `n`, when the volume's geometry lets it be computed.
pub open spec fn record_offset(e: NtfsEngine, n: int) -> int {
    e.partition_start_byte_offset + e.vbr.spec_mft_start_byte_offset() + n
        * e.vbr.spec_mft_record_size()
}

/// MFT record `k` of the volume lies within the device.
pub open spec fn record_in_range(e: NtfsEngine, dev: Seq<u8>, k: u64) -> bool {
    0 <= record_offset(e, k as int) && record_offset(e, k as int) + e.vbr.spec_mft_record_size() <= dev.len()
}

/// The bytes of MFT record `k` parse as a record.
pub open spec fn record_parses(e: NtfsEngine, dev: Seq<u8>, k: u64) -> bool {
    let o = record_offset(e, k as int);
    mft_parses(dev.subrange(o, o + e.vbr.spec_mft_record_size()), e.vbr.bytes_per_sector as int)
}

/// The tree holds the records among the first `n` (all of which lie on the device) that
/// parse, and no other.
pub open spec fn scanned_upto(t: NtfsVolumeTree, e: NtfsEngine, dev: Seq<u8>, max_records: u64, n: int) -> bool {
    &&& 0 <= n <= max_records
    &&& forall|k: u64| k < n ==> #[trigger] record_in_range(e, dev, k)
    &&& forall|k: u64| k < n ==> (t.records@.contains_key(k) <==> #[trigger] record_parses(e, dev, k))
    &&& forall|k: u64| #[trigger] t.records@.contains_key(k) ==> k < n
}

/// The volume's geometry is one the engine reads records with: a record size that fits in
/// 32 bits, a sector size the fixup accepts, and an MFT that starts within 64 bits.
pub open spec fn readable_geometry(e: NtfsEngine) -> bool {
    &&& e.vbr.clusters_per_mft_record > -32
    &&& e.vbr.bytes_per_sector >= 2
    &&& e.partition_start_byte_offset + e.vbr.spec_mft_start_byte_offset() <= u64::MAX
}

/// The message for a volume whose geometry the engine does not read records with.
pub open spec fn geometry_message() -> Seq<char> {
    "Unsupported MFT geometry in boot sector"@
}

fn no_vbr_string(offset: u64) -> (s: String)
    ensures
        s@ == no_vbr_message(offset),
{
    let mut s = String::from_str("No valid NTFS VBR boot sector found near offset 0x");
    proof {
        reveal_strlit("No valid NTFS VBR boot sector found near offset 0x");
    }
    push_hex_min(&mut s, offset);
    s
}

fn geometry_string() -> (s: String)
    ensures
        s@ == geometry_message(),
{
    let s = String::from_str("Unsupported MFT geometry in boot sector");
    proof {
        reveal_strlit("Unsupported MFT geometry in boot sector");
    }
    s
}

/// Whether every byte is zero.
fn all_zero(b: &[u8]) -> (r: bool)
    ensures
        r == (forall|i: int| 0 <= i < b@.len() ==> b@[i] == 0),
{
    let mut i: usize = 0;
    while i < b.len()
        invariant
            i <= b@.len(),
            forall|j: int| 0 <= j < i ==> b@[j] == 0,
        decreases b@.len() - i,
    {
        if b[i] != 0 {
            return false;
        }
        i += 1;
    }
    true
}

impl NtfsEngine {
    /// Opens the NTFS volume whose boot sector is at `partition_start_byte_offset`, or, failing
    /// that, at the first sector of the following megabyte that holds one.
    pub fn open(device: &mut dyn BlockDevice, partition_start_byte_offset: u64) -> (r: Result<
        Self,
    >)
        ensures
            final(device).data() == old(device).data(),
            r matches Ok(e) ==> {
                let o = e.partition_start_byte_offset as int;
                &&& o + 512 <= old(device).data().len()
                &&& is_ntfs_boot_sector(sector_at(old(device).data(), o))
                &&& vbr_fields_of(e.vbr, sector_at(old(device).data(), o))
                &&& vbr_location(old(device).data(), partition_start_byte_offset as int, o)
            },
            r matches Err(e) ==> (e is Io || (e matches RecoveryError::NtfsError(m) && m@
                == no_vbr_message(partition_start_byte_offset))),
    {
        let ghost dev = device.data();
        let mut vbr_buf: Vec<u8> = vec![0u8; 512];
        let mut found: Option<u64> = None;
        if device.read_exact_at(partition_start_byte_offset, vbr_buf.as_mut_slice()).is_ok() {
            if NtfsVbr::parse(vbr_buf.as_slice()).is_ok() {
                found = Some(partition_start_byte_offset);
            }
        }
        if found.is_none() {
            let probe_size: usize = 512 * PROBE_SECTORS;
            let mut probe_buf: Vec<u8> = vec![0u8; probe_size];
            if partition_start_byte_offset.checked_add(probe_size as u64).is_some()
                && device.read_exact_at(partition_start_byte_offset, probe_buf.as_mut_slice()).is_ok() {
                let mut sec: usize = 0;
                while sec < PROBE_SECTORS && found.is_none()
                    invariant
                        found matches Some(o) ==> vbr_location(
                            dev,
                            partition_start_byte_offset as int,
                            o as int,
                        ) && o + 512 <= dev.len() && is_ntfs_boot_sector(sector_at(dev, o as int)),
                        sec <= PROBE_SECTORS,
                        partition_start_byte_offset + 512 * PROBE_SECTORS <= u64::MAX,
                        probe_buf@.len() == 512 * PROBE_SECTORS,
                        partition_start_byte_offset + 512 * PROBE_SECTORS <= dev.len(),
                        probe_buf@ == dev.subrange(
                            partition_start_byte_offset as int,
                            partition_start_byte_offset + 512 * PROBE_SECTORS,
                        ),
                        found is None ==> forall|j: int|
                            0 <= j < sec ==> !is_ntfs_boot_sector(
                                #[trigger] sector_at(dev, partition_start_byte_offset + 512 * j),
                            ),
                    decreases PROBE_SECTORS - sec,
                {
                    let sec_off = sec * 512;
                    let sec_slice = &probe_buf.as_slice()[sec_off..sec_off + 512];
                    proof {
                        assert(sec_slice@ =~= sector_at(dev, partition_start_byte_offset + 512 * sec));
                    }
                    if NtfsVbr::parse(sec_slice).is_ok() {
                        let o = partition_start_byte_offset + sec_off as u64;
                        found = Some(o);
                        proof {
                                assert(probe_hit(dev, partition_start_byte_offset as int, sec as int));
                                assert(vbr_location(
                                    dev,
                                    partition_start_byte_offset as int,
                                partition_start_byte_offset + 512 * sec,
                            ));
                        }
                    }
                    sec += 1;
                }
            }
        }
        let final_offset = match found {
            Some(o) => o,
            None => return Err(RecoveryError::NtfsError(no_vbr_string(partition_start_byte_offset))),
        };
        device.read_exact_at(final_offset, vbr_buf.as_mut_slice())?;
        let vbr = NtfsVbr::parse(vbr_buf.as_slice())?;
        Ok(NtfsEngine { partition_start_byte_offset: final_offset, vbr })
    }

    /// The volume's boot sector fields.
    pub fn vbr(&self) -> (r: &NtfsVbr)
        ensures
            *r == self.vbr,
    {
        &self.vbr
    }

    /// Reads and parses MFT record `record_number`.
    pub fn read_mft_record(&self, device: &mut dyn BlockDevice, record_number: u64) -> (r: Result<
        MftRecord,
    >)
        ensures
            final(device).data() == old(device).data(),
            !readable_geometry(*self) ==> (r matches Err(RecoveryError::NtfsError(m)) && m@
                == geometry_message()),
            r matches Ok(m) ==> {
                let o = record_offset(*self, record_number as int);
                let rs = self.vbr.spec_mft_record_size() as int;
                &&& readable_geometry(*self)
                &&& o + rs <= old(device).data().len()
                &&& mft_parse_result(
                    r,
                    old(device).data().subrange(o, o + rs),
                    record_number,
                    self.vbr.bytes_per_sector as int,
                )
            },
    {
        let (record_size, mft_start) = match self.geometry() {
            Some(g) => g,
            None => return Err(RecoveryError::NtfsError(geometry_string())),
        };
        let record_offset = match record_number.checked_mul(record_size as u64) {
            Some(rel) => match mft_start.checked_add(rel) {
                Some(o) => o,
                None => return Err(RecoveryError::NtfsError(geometry_string())),
            },
            None => return Err(RecoveryError::NtfsError(geometry_string())),
        };
        let mut record_buf: Vec<u8> = vec![0u8; record_size as usize];
        device.read_exact_at(record_offset, record_buf.as_mut_slice())?;
        MftRecord::parse(record_buf.as_slice(), record_number, self.vbr.bytes_per_sector as usize)
    }

    /// The MFT record size and the byte offset of the MFT, when the geometry is readable.
    fn geometry(&self) -> (r: Option<(u32, u64)>)
        ensures
            r is Some <==> readable_geometry(*self),
            r matches Some((rs, ms)) ==> rs == self.vbr.spec_mft_record_size() && ms
                == self.partition_start_byte_offset + self.vbr.spec_mft_start_byte_offset(),
    {
        if self.vbr.clusters_per_mft_record <= -32 || self.vbr.bytes_per_sector < 2 {
            return None;
        }
        let bpc = self.vbr.bytes_per_cluster() as u64;
        let rel = self.vbr.mft_start_cluster.checked_mul(bpc)?;
        let ms = self.partition_start_byte_offset.checked_add(rel)?;
        Some((self.vbr.mft_record_size(), ms))
    }

    /// Reads up to `max_records` MFT records in order and builds the volume's tree from those
    /// that parse. The scan stops at the first record it cannot read, and after more than
    /// 2000 empty records in a row once past record 5000. `progress_cb` is told the record
    /// number and the node count every 500 records.
    pub fn scan_volume_tree<F: FnMut(u64, usize)>(
        &self,
        device: &mut dyn BlockDevice,
        max_records: u64,
        progress_cb: F,
    ) -> (r: Result<NtfsVolumeTree>)
        requires
            forall|a: u64, b: usize| call_requires(progress_cb, (a, b)),
        ensures
            final(device).data() == old(device).data(),
            !readable_geometry(*self) ==> (r matches Err(RecoveryError::NtfsError(m)) && m@
                == geometry_message()),
            r matches Ok(t) ==> {
                let rs = self.vbr.spec_mft_record_size() as int;
                &&& exists|n: int| #[trigger] scanned_upto(t, *self, old(device).data(), max_records, n)
                &&& readable_geometry(*self)
                &&& t.vbr == self.vbr
                &&& t.partition_start_byte_offset == self.partition_start_byte_offset
                &&& t.nodes@.dom() == t.records@.dom()
                &&& forall|k: u64|
                    #[trigger] t.records@.contains_key(k) ==> {
                        let o = record_offset(*self, k as int);
                        &&& k < max_records
                        &&& o + rs <= old(device).data().len()
                        &&& bytes_at(old(device).data(), o, file_magic())
                        &&& mft_parse_result(
                            Ok(t.records@[k]),
                            old(device).data().subrange(o, o + rs),
                            k,
                            self.vbr.bytes_per_sector as int,
                        )
                        &&& exists|n| #[trigger]
                            record_node(t.records@[k], n) && same_but_children(t.nodes@[k], n)
                        &&& t.nodes@[k].children@.to_set() == children_of(t.nodes@, k)
                        &&& t.nodes@[k].children@.no_duplicates()
                    }
            },
    {
        let ghost dev = device.data();
        let (record_size, mft_start) = match self.geometry() {
            Some(g) => g,
            None => return Err(RecoveryError::NtfsError(geometry_string())),
        };
        let mut progress_cb = progress_cb;
        let mut tree = NtfsVolumeTree::new(self.vbr.clone(), self.partition_start_byte_offset);
        let mut record_buf: Vec<u8> = vec![0u8; record_size as usize];
        let bps = self.vbr.bytes_per_sector as usize;
        let magic = MFT_RECORD_MAGIC_FILE;
        let mut consecutive_empty: u64 = 0;
        let mut rec_num: u64 = 0;
        let mut stop = false;
        while rec_num < max_records && !stop
            invariant
                rec_num <= max_records,
                dev == device.data(),
                record_buf@.len() == record_size,
                record_size == self.vbr.spec_mft_record_size(),
                mft_start == self.partition_start_byte_offset + self.vbr.spec_mft_start_byte_offset(),
                readable_geometry(*self),
                bps == self.vbr.bytes_per_sector,
                magic@ == file_magic(),
                forall|a: u64, b: usize| call_requires(progress_cb, (a, b)),
                tree.vbr == self.vbr,
                tree.partition_start_byte_offset == self.partition_start_byte_offset,
                tree.nodes@.dom() == tree.records@.dom(),
                forall|k: u64| k < rec_num ==> #[trigger] record_in_range(*self, dev, k),
                forall|k: u64|
                    k < rec_num ==> (tree.records@.contains_key(k) <==> #[trigger] record_parses(*self, dev, k)),
                forall|k: u64|
                    #[trigger] tree.records@.contains_key(k) ==> {
                        let o = record_offset(*self, k as int);
                        &&& k < rec_num
                        &&& o + record_size <= dev.len()
                        &&& bytes_at(dev, o, file_magic())
                        &&& mft_parse_result(
                            Ok(tree.records@[k]),
                            dev.subrange(o, o + record_size),
                            k,
                            bps as int,
                        )
                        &&& record_node(tree.records@[k], tree.nodes@[k])
                    },
            decreases max_records - rec_num + (if stop { 0int } else { 1int }),
        {
            let offset = match rec_num.checked_mul(record_size as u64) {
                Some(rel) => mft_start.checked_add(rel),
                None => None,
            };
            let read_ok = match offset {
                Some(o) => device.read_exact_at(o, record_buf.as_mut_slice()).is_ok(),
                None => false,
            };
            if read_ok {
                proof {
                    let o = offset.unwrap();
                    assert(o == record_offset(*self, rec_num as int)) by (nonlinear_arith)
                        requires
                            o == mft_start + rec_num * record_size,
                            mft_start == self.partition_start_byte_offset + self.vbr.spec_mft_start_byte_offset(),
                            record_size == self.vbr.spec_mft_record_size(),
                    ;
                    assert(record_buf@ == dev.subrange(o as int, o + record_size));
                    assert(record_in_range(*self, dev, rec_num));
                    assert(record_parses(*self, dev, rec_num) == mft_parses(record_buf@, bps as int));
                }
            }
            let ghost records_before = tree.records@;
            if !read_ok {
                stop = true;
            } else if matches_at(record_buf.as_slice(), 0, &magic) {
                let offset = offset.unwrap();
                assert(record_buf@ == dev.subrange(offset as int, offset + record_size));
                let parsed = MftRecord::parse(record_buf.as_slice(), rec_num, bps);
                proof {
                    lemma_parse_result_ok(parsed, record_buf@, rec_num, bps as int);
                }
                if let Ok(rec) = parsed {
                    proof {
                        assert(rec.record_number == rec_num);
                        assert(bytes_at(dev, offset as int, file_magic())) by {
                            assert(record_buf@.subrange(0, 4) =~= dev.subrange(
                                offset as int,
                                offset + 4,
                            ));
                        }
                    }
                    tree.add_record(rec);
                    consecutive_empty = 0;
                }
            } else if all_zero(record_buf.as_slice()) {
                if consecutive_empty < u64::MAX {
                    consecutive_empty += 1;
                }
                if consecutive_empty > 2000 && rec_num > 5000 {
                    stop = true;
                }
            }
            proof {
                if read_ok {
                    if !bytes_at(record_buf@, 0, file_magic()) {
                        assert(!mft_parses(record_buf@, bps as int));
                    }
                    assert(tree.records@.contains_key(rec_num) <==> record_parses(*self, dev, rec_num));
                    assert forall|k: u64| k < rec_num implies (tree.records@.contains_key(k)
                        <==> records_before.contains_key(k)) by {}
                }
            }
            let ghost cur = rec_num;
            if !stop {
                if rec_num % 500 == 0 {
                    progress_cb(rec_num, tree.nodes.len());
                }
                rec_num += 1;
                proof {
                    assert forall|k: u64| k < rec_num implies (tree.records@.contains_key(k)
                        <==> #[trigger] record_parses(*self, dev, k)) by {
                        if k < cur {
                            assert(records_before.contains_key(k) <==> record_parses(*self, dev, k));
                        }
                    }
                }
            }
        }
        let ghost pre = tree.nodes@;
        let ghost pre_records = tree.records@;
        tree.build_hierarchy();
        proof {
            assert(tree.records@ == pre_records);
            assert(scanned_upto(tree, *self, dev, max_records, rec_num as int));
        }
        proof {
            assert forall|k: u64| #[trigger] tree.records@.contains_key(k) implies {
                &&& exists|n| #[trigger]
                    record_node(tree.records@[k], n) && same_but_children(tree.nodes@[k], n)
                &&& tree.nodes@[k].children@.to_set() == children_of(tree.nodes@, k)
                &&& tree.nodes@[k].children@.no_duplicates()
            } by {
                assert(record_node(tree.records@[k], pre[k]));
                assert(same_but_children(tree.nodes@[k], pre[k]));
                assert(children_of(tree.nodes@, k) =~= children_of(pre, k)) by {
                    assert forall|c: u64|
                        crate::tree::is_child_of(tree.nodes@, c, k) == crate::tree::is_child_of(
                            pre,
                            c,
                            k,
                        ) by {
                        if pre.contains_key(c) {
                            assert(same_but_children(tree.nodes@[c], pre[c]));
                        }
                    }
                }
            }
        }
        Ok(tree)
    }
}

} // verus!
