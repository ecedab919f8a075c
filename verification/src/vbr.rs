//! The NTFS Volume Boot Record.

use vstd::prelude::*;
use vstd::arithmetic::power2::pow2;
use crate::binary_reader::{ascii_text, BinaryReader};
use crate::endian::{bytes_at, le16, le64, le_value, lemma_byte_order, matches_at};
use crate::error::{out_of_bounds, RecoveryError, Result};
use crate::mbr::has_boot_signature;
use crate::text::{hex_text, prefixed_hex, utf8_lossy, utf8_lossy_string};
use crate::types::Cluster;

verus! {

/// The OEM identifier `"NTFS    "` as bytes.
pub open spec fn ntfs_oem() -> Seq<u8> {
    seq![0x4Eu8, 0x54, 0x46, 0x53, 0x20, 0x20, 0x20, 0x20]
}

pub fn ntfs_oem_bytes() -> (r: [u8; 8])
    ensures
        r@ == ntfs_oem(),
{
    let r = [0x4Eu8, 0x54, 0x46, 0x53, 0x20, 0x20, 0x20, 0x20];
    assert(r@ =~= ntfs_oem());
    r
}

/// Whether a sector is an NTFS boot sector: boot signature and the NTFS OEM identifier.
pub open spec fn is_ntfs_boot_sector(s: Seq<u8>) -> bool {
    has_boot_signature(s) && bytes_at(s, 3, ntfs_oem())
}

/// Parsed NTFS boot sector fields.
#[derive(Debug)]
pub struct NtfsVbr {
    pub oem_id: String,
    pub bytes_per_sector: u16,
    pub sectors_per_cluster: u8,
    pub total_sectors: u64,
    pub mft_start_cluster: Cluster,
    pub mft_mirr_start_cluster: Cluster,
    pub clusters_per_mft_record: i8,
    pub clusters_per_index_block: i8,
    pub volume_serial_number: u64,
}

/// Whether `v` holds the fields of the boot sector `s`.
pub open spec fn vbr_fields_of(v: NtfsVbr, s: Seq<u8>) -> bool {
    &&& v.oem_id@ == ascii_text(s.subrange(3, 11))
    &&& v.bytes_per_sector == le16(s, 11)
    &&& v.sectors_per_cluster == s[13]
    &&& v.total_sectors == le64(s, 40)
    &&& v.mft_start_cluster == le64(s, 48)
    &&& v.mft_mirr_start_cluster == le64(s, 56)
    &&& v.clusters_per_mft_record == s[64] as i8
    &&& v.clusters_per_index_block == s[68] as i8
    &&& v.volume_serial_number == le64(s, 72)
}

/// Where an NTFS boot sector keeps its fields: the sector size is the little-endian 16-bit
/// value at byte 11, the cluster size in sectors the byte at 13; the sector count, the first
/// clusters of the MFT and of its mirror, and the serial number the little-endian 64-bit
/// values at 40, 48, 56 and 72; the MFT record and index block sizes the signed bytes at 64
/// and 68.
pub proof fn lemma_vbr_layout(v: NtfsVbr, s: Seq<u8>)
    requires
        s.len() >= 80,
        vbr_fields_of(v, s),
    ensures
        v.bytes_per_sector == le_value(s, 11, 2),
        v.sectors_per_cluster == s[13],
        v.total_sectors == le_value(s, 40, 8),
        v.mft_start_cluster == le_value(s, 48, 8),
        v.mft_mirr_start_cluster == le_value(s, 56, 8),
        v.volume_serial_number == le_value(s, 72, 8),
        v.clusters_per_mft_record == (if s[64] < 128 { s[64] as int } else { s[64] - 256 }),
        v.clusters_per_index_block == (if s[68] < 128 { s[68] as int } else { s[68] - 256 }),
{
    lemma_byte_order(s, 11);
    lemma_byte_order(s, 40);
    lemma_byte_order(s, 48);
    lemma_byte_order(s, 56);
    lemma_byte_order(s, 72);
    let a = s[64];
    let b = s[68];
    assert((a as i8) == (if a < 128 { a as int } else { a - 256 })) by (bit_vector);
    assert((b as i8) == (if b < 128 { b as int } else { b - 256 })) by (bit_vector);
}

/// Record size given by a signed "clusters per record" byte.
pub open spec fn record_size_of(clusters: i8, bytes_per_cluster: nat) -> nat {
    if clusters > 0 {
        (clusters as nat) * bytes_per_cluster
    } else {
        pow2((-clusters) as nat)
    }
}

impl Clone for NtfsVbr {
    fn clone(&self) -> (r: Self)
        ensures
            r == *self,
    {
        NtfsVbr {
            oem_id: self.oem_id.clone(),
            bytes_per_sector: self.bytes_per_sector,
            sectors_per_cluster: self.sectors_per_cluster,
            total_sectors: self.total_sectors,
            mft_start_cluster: self.mft_start_cluster,
            mft_mirr_start_cluster: self.mft_mirr_start_cluster,
            clusters_per_mft_record: self.clusters_per_mft_record,
            clusters_per_index_block: self.clusters_per_index_block,
            volume_serial_number: self.volume_serial_number,
        }
    }
}

impl NtfsVbr {
    pub fn parse(sector_data: &[u8]) -> (r: Result<Self>)
        ensures
            sector_data@.len() < 512 ==> r == Err::<Self, RecoveryError>(
                out_of_bounds(0, 512, sector_data@.len() as usize),
            ),
            sector_data@.len() >= 512 && !has_boot_signature(sector_data@) ==> (r matches Err(
                RecoveryError::InvalidSignature { expected, found },
            ) && expected@ == "0xAA55"@ && found@ == "0x"@ + hex_text(
                le16(sector_data@, 510) as nat,
                4,
            )),
            has_boot_signature(sector_data@) && !bytes_at(sector_data@, 3, ntfs_oem()) ==> (
            r matches Err(RecoveryError::InvalidSignature { expected, found }) && expected@
                == "NTFS    "@ && found@ == utf8_lossy(sector_data@.subrange(3, 11))),
            is_ntfs_boot_sector(sector_data@) ==> (r matches Ok(v) && vbr_fields_of(
                v,
                sector_data@,
            )),
    {
        if sector_data.len() < 512 {
            return Err(RecoveryError::BufferOutOfBounds {
                offset: 0,
                required: 512,
                available: sector_data.len(),
            });
        }
        let magic_510 = BinaryReader::peek_u16_le_at(sector_data, 510)?;
        if magic_510 != 0xAA55 {
            return Err(RecoveryError::InvalidSignature {
                expected: String::from_str("0xAA55"),
                found: prefixed_hex(magic_510 as u64, 4),
            });
        }
        let oem = ntfs_oem_bytes();
        if !matches_at(sector_data, 3, &oem) {
            let oem_id = BinaryReader::peek_bytes_at(sector_data, 3, 8)?;
            return Err(RecoveryError::InvalidSignature {
                expected: String::from_str("NTFS    "),
                found: utf8_lossy_string(oem_id),
            });
        }
        let mut reader = BinaryReader::new(sector_data);
        reader.skip(3)?;
        let oem_str = reader.read_ascii_string(8)?;
        let bytes_per_sector = reader.read_u16_le()?;
        let sectors_per_cluster = reader.read_u8()?;
        reader.skip(7)?;
        let _media_descriptor = reader.read_u8()?;
        reader.skip(18)?;
        let total_sectors = reader.read_u64_le()?;
        let mft_start_cluster = reader.read_u64_le()?;
        let mft_mirr_start_cluster = reader.read_u64_le()?;
        let clusters_per_mft_record = reader.read_u8()? as i8;
        reader.skip(3)?;
        let clusters_per_index_block = reader.read_u8()? as i8;
        reader.skip(3)?;
        let volume_serial_number = reader.read_u64_le()?;
        Ok(NtfsVbr {
            oem_id: oem_str,
            bytes_per_sector,
            sectors_per_cluster,
            total_sectors,
            mft_start_cluster,
            mft_mirr_start_cluster,
            clusters_per_mft_record,
            clusters_per_index_block,
            volume_serial_number,
        })
    }

    /// Bytes per cluster.
    pub open spec fn spec_bytes_per_cluster(&self) -> nat {
        self.bytes_per_sector as nat * self.sectors_per_cluster as nat
    }

    pub fn bytes_per_cluster(&self) -> (r: u32)
        ensures
            r == self.spec_bytes_per_cluster(),
            r <= 65535 * 255,
    {
        assert(self.bytes_per_sector as nat * self.sectors_per_cluster as nat <= 65535 * 255)
            by (nonlinear_arith);
        self.bytes_per_sector as u32 * self.sectors_per_cluster as u32
    }

    /// Size of one MFT record in bytes.
    pub open spec fn spec_mft_record_size(&self) -> nat {
        record_size_of(self.clusters_per_mft_record, self.spec_bytes_per_cluster())
    }

    /// Size of one index record in bytes.
    pub open spec fn spec_index_record_size(&self) -> nat {
        record_size_of(self.clusters_per_index_block, self.spec_bytes_per_cluster())
    }

    pub fn mft_record_size(&self) -> (r: u32)
        requires
            self.clusters_per_mft_record > -32,
        ensures
            r == self.spec_mft_record_size(),
    {
        size_from_clusters(self.clusters_per_mft_record, self.bytes_per_cluster())
    }

    pub fn index_record_size(&self) -> (r: u32)
        requires
            self.clusters_per_index_block > -32,
        ensures
            r == self.spec_index_record_size(),
    {
        size_from_clusters(self.clusters_per_index_block, self.bytes_per_cluster())
    }

    /// Byte offset of the MFT from the start of the volume.
    pub open spec fn spec_mft_start_byte_offset(&self) -> nat {
        self.mft_start_cluster as nat * self.spec_bytes_per_cluster()
    }

    pub fn mft_start_byte_offset(&self) -> (r: u64)
        requires
            self.spec_mft_start_byte_offset() <= u64::MAX,
        ensures
            r == self.spec_mft_start_byte_offset(),
    {
        self.mft_start_cluster * self.bytes_per_cluster() as u64
    }
}

fn size_from_clusters(clusters: i8, bytes_per_cluster: u32) -> (r: u32)
    requires
        clusters > -32,
        bytes_per_cluster <= 65535 * 255,
    ensures
        r == record_size_of(clusters, bytes_per_cluster as nat),
{
    if clusters > 0 {
        assert(clusters as nat * bytes_per_cluster as nat <= 127 * (65535 * 255))
            by (nonlinear_arith)
            requires
                0 < clusters <= 127,
                bytes_per_cluster <= 65535 * 255,
        ;
        clusters as u32 * bytes_per_cluster
    } else {
        let shift = (-clusters) as u32;
        proof {
            vstd::bits::lemma_u32_pow2_no_overflow(shift as nat);
            vstd::bits::lemma_u32_shl_is_mul(1, shift);
        }
        1u32 << shift
    }
}

} // verus!
