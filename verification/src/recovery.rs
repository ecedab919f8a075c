//! The decisions of one-click automated recovery: where to look for volumes, and how to
//! recover each volume found.

use vstd::prelude::*;
use crate::heuristics::DiscoveredBootSector;

verus! {

/// What reading a volume as NTFS gave.
#[derive(Debug, Clone, Copy, PartialEq, Eq, Structural)]
pub enum NtfsOutcome {
    /// The volume holds no NTFS boot sector that opens.
    NotNtfs,
    /// The boot sector opened but the MFT could not be scanned.
    TreeError,
    /// The directory tree was rebuilt and this many files were extracted from it.
    Extracted(u64),
}

/// What remains to be done for a volume.
#[derive(Debug, Clone, Copy, PartialEq, Eq, Structural)]
pub enum RecoveryAction {
    /// The files came out of the NTFS directory tree; nothing more to do.
    Done,
    /// Carve `length` bytes of the disk from byte `offset` for files by their signatures.
    Carve { offset: u64, length: u64 },
}

/// The volume could not be recovered through its file system: it is not NTFS, its MFT
/// could not be scanned, or its tree gave no file.
pub open spec fn needs_carving(ntfs: NtfsOutcome) -> bool {
    match ntfs {
        NtfsOutcome::Extracted(n) => n == 0,
        _ => true,
    }
}

/// What is left to do for volume `vol` of a disk with `ss`-byte sectors: when it needs
/// carving, the whole volume from its first byte (its start LBA times the disk's sector size)
/// for its sector count times its own sector size.
pub open spec fn recovery_action_of(vol: DiscoveredBootSector, ss: u32, ntfs: NtfsOutcome) -> RecoveryAction {
    if needs_carving(ntfs) {
        RecoveryAction::Carve {
            offset: (vol.start_lba * ss) as u64,
            length: (vol.total_sectors * vol.bytes_per_sector) as u64,
        }
    } else {
        RecoveryAction::Done
    }
}

/// Whether a volume must be carved once reading it as NTFS gave `ntfs`.
pub fn must_carve(ntfs: NtfsOutcome) -> (r: bool)
    ensures
        r == needs_carving(ntfs),
{
    match ntfs {
        NtfsOutcome::Extracted(n) => n == 0,
        _ => true,
    }
}

/// The byte offset of a volume on a disk with `ss`-byte sectors.
pub fn volume_offset(vol: &DiscoveredBootSector, ss: u32) -> (r: u64)
    requires
        vol.start_lba * ss <= u64::MAX,
    ensures
        r == vol.start_lba * ss,
{
    vol.start_lba * ss as u64
}

/// Decides what is left to do for a volume once reading it as NTFS gave `ntfs`.
pub fn recovery_action(vol: &DiscoveredBootSector, ss: u32, ntfs: NtfsOutcome) -> (a: RecoveryAction)
    requires
        needs_carving(ntfs) ==> vol.start_lba * ss <= u64::MAX && vol.total_sectors
            * vol.bytes_per_sector <= u64::MAX,
    ensures
        a == recovery_action_of(*vol, ss, ntfs),
{
    if must_carve(ntfs) {
        RecoveryAction::Carve {
            offset: vol.start_lba * ss as u64,
            length: vol.total_sectors * vol.bytes_per_sector as u64,
        }
    } else {
        RecoveryAction::Done
    }
}

/// Whether the disk must be searched sector by sector for boot sectors: its partition
/// tables gave no volume.
pub fn needs_heuristic_scan(table_volumes: usize) -> (r: bool)
    ensures
        r == (table_volumes == 0),
{
    table_volumes == 0
}

/// The number of sectors the heuristic search covers: the whole disk.
pub fn heuristic_scan_sectors(total_size: u64, ss: u32) -> (r: u64)
    requires
        ss > 0,
    ensures
        r == total_size / (ss as u64),
{
    total_size / ss as u64
}

} // verus!
