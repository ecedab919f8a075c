use recoverar::partition::{choose_scheme, SchemeChoice};
use recoverar::mbr::MbrPartitionEntry;
use recoverar::partition::EntryRead;
use recoverar::heuristics::DiscoveredBootSector;
use recoverar::recovery::{heuristic_scan_sectors, needs_heuristic_scan, recovery_action, NtfsOutcome, RecoveryAction};
use recoverar::demo::SyntheticDiskGenerator;
use recoverar::device::BlockDevice;
use recoverar::error::{RecoveryError, Result};
use recoverar::gpt::GptHeader;
use recoverar::heuristics::{FileSystemType, HeuristicPartitionScanner};
use recoverar::mbr::MasterBootRecord;
use recoverar::partition::{PartitionAnalyzer, PartitionScheme};

struct MemDevice {
    data: Vec<u8>,
    sector: u32,
}

impl BlockDevice for MemDevice {
    fn read_exact_at(&mut self, offset: u64, buf: &mut [u8]) -> Result<()> {
        let start = offset as usize;
        if start + buf.len() > self.data.len() {
            return Err(RecoveryError::Io(std::io::Error::new(std::io::ErrorKind::UnexpectedEof, "short read")));
        }
        buf.copy_from_slice(&self.data[start..start + buf.len()]);
        Ok(())
    }

    fn write_exact_at(&mut self, offset: u64, buf: &[u8]) -> Result<()> {
        let start = offset as usize;
        if start + buf.len() > self.data.len() {
            self.data.resize(start + buf.len(), 0);
        }
        self.data[start..start + buf.len()].copy_from_slice(buf);
        Ok(())
    }

    fn total_size(&self) -> u64 {
        self.data.len() as u64
    }

    fn sector_size(&self) -> u32 {
        self.sector
    }
}

#[test]
fn test_mbr_parsing() {
    let mut sector = vec![0u8; 512];
    sector[510] = 0x55;
    sector[511] = 0xAA;
    sector[446] = 0x80;
    sector[450] = 0x07;
    sector[454..458].copy_from_slice(&2048u32.to_le_bytes());
    sector[458..462].copy_from_slice(&204800u32.to_le_bytes());

    let mbr = MasterBootRecord::parse(&sector).unwrap();
    assert_eq!(mbr.partitions.len(), 1);
    assert_eq!(mbr.partitions[0].is_bootable, true);
    assert_eq!(mbr.partitions[0].start_lba, 2048);
    assert_eq!(mbr.partitions[0].partition_type, 0x07);
}

fn sample_gpt_header() -> Vec<u8> {
    let mut hdr = vec![0u8; 512];
    hdr[0..8].copy_from_slice(b"EFI PART");
    hdr[8..12].copy_from_slice(&0x00010000u32.to_le_bytes());
    hdr[12..16].copy_from_slice(&92u32.to_le_bytes());
    hdr[24..32].copy_from_slice(&1u64.to_le_bytes());
    hdr[32..40].copy_from_slice(&20000u64.to_le_bytes());
    hdr[40..48].copy_from_slice(&34u64.to_le_bytes());
    hdr[48..56].copy_from_slice(&19966u64.to_le_bytes());
    hdr[72..80].copy_from_slice(&2u64.to_le_bytes());
    hdr[80..84].copy_from_slice(&128u32.to_le_bytes());
    hdr[84..88].copy_from_slice(&128u32.to_le_bytes());
    hdr
}

#[test]
fn test_gpt_header_crc_validation() {
    let mut hdr = sample_gpt_header();
    let mut hasher = crc32fast::Hasher::new();
    hasher.update(&hdr[0..92]);
    let crc = hasher.finalize();
    hdr[16..20].copy_from_slice(&crc.to_le_bytes());

    let parsed = GptHeader::parse(&hdr).unwrap();
    assert_eq!(parsed.current_lba, 1);
    assert_eq!(parsed.num_partition_entries, 128);
}

#[test]
fn gpt_header_with_wrong_crc_is_refused() {
    let mut hdr = sample_gpt_header();
    let crc = crc32fast::hash(&hdr[0..92]);
    hdr[16..20].copy_from_slice(&(crc ^ 1).to_le_bytes());
    match GptHeader::parse(&hdr) {
        Err(RecoveryError::CrcMismatch { expected, computed }) => {
            assert_eq!(expected, crc ^ 1);
            assert_eq!(computed, crc);
        }
        other => panic!("unexpected {:?}", other),
    }
}

#[test]
fn gpt_header_without_signature_is_refused() {
    let hdr = vec![0u8; 512];
    assert!(matches!(GptHeader::parse(&hdr), Err(RecoveryError::InvalidSignature { .. })));
    assert!(matches!(GptHeader::parse(&hdr[0..50]), Err(RecoveryError::BufferOutOfBounds { .. })));
}

#[test]
fn mbr_without_boot_signature_is_refused() {
    let sector = vec![0u8; 512];
    assert!(matches!(MasterBootRecord::parse(&sector), Err(RecoveryError::InvalidSignature { .. })));
    assert!(matches!(MasterBootRecord::parse(&sector[0..100]), Err(RecoveryError::BufferOutOfBounds { .. })));
}

#[test]
fn mbr_entry_type_names_and_protective_flag() {
    let mut sector = vec![0u8; 512];
    sector[510] = 0x55;
    sector[511] = 0xAA;
    sector[450] = 0xEE;
    sector[454..458].copy_from_slice(&1u32.to_le_bytes());
    sector[458..462].copy_from_slice(&1000u32.to_le_bytes());
    let mbr = MasterBootRecord::parse(&sector).unwrap();
    assert!(mbr.is_protective_gpt);
    assert_eq!(mbr.partitions[0].partition_type_name(), "GPT Protective MBR");
}

#[test]
fn demo_image_holds_a_gpt_with_one_data_partition() {
    let mut dev = MemDevice { data: SyntheticDiskGenerator::build_test_image(), sector: 512 };
    assert_eq!(dev.data.len(), 12 * 1024 * 1024);
    match PartitionAnalyzer::analyze(&mut dev).unwrap() {
        PartitionScheme::Gpt { primary, backup } => {
            let table = primary.unwrap();
            assert!(backup.is_none());
            assert_eq!(table.partitions.len(), 1);
            let p = &table.partitions[0];
            assert_eq!(p.start_lba, 2048);
            assert_eq!(p.end_lba, 10239);
            assert_eq!(p.sector_count(), 8192);
            assert_eq!(p.name, "Data Partition");
            assert_eq!(p.type_description(), "Microsoft Basic Data (NTFS/FAT/exFAT)");
            assert_eq!(table.header.disk_guid.to_string(), "44332211-6655-8877-99AA-BBCCDDEEFF00");
        }
        _ => panic!("expected a GPT"),
    }
}

#[test]
fn demo_image_volumes_are_found_once() {
    let mut dev = MemDevice { data: SyntheticDiskGenerator::build_test_image(), sector: 512 };
    let volumes = PartitionAnalyzer::detect_all_volumes(&mut dev);
    assert_eq!(volumes.len(), 1);
    assert_eq!(volumes[0].start_lba, 2048);
    assert_eq!(volumes[0].fs_type, FileSystemType::Ntfs);
    assert_eq!(volumes[0].bytes_per_sector, 512);
    assert_eq!(volumes[0].sectors_per_cluster, 8);
}

#[test]
fn heuristic_scan_finds_the_demo_boot_sector() {
    let mut dev = MemDevice { data: SyntheticDiskGenerator::build_test_image(), sector: 512 };
    let scanner = HeuristicPartitionScanner::new(1);
    let mut calls = Vec::new();
    let found = scanner.scan_device(&mut dev, 2040, 16, |lba, n| calls.push((lba, n))).unwrap();
    assert_eq!(found.len(), 1);
    assert_eq!(found[0].start_lba, 2048);
    assert_eq!(found[0].fs_type, FileSystemType::Ntfs);
    assert_eq!(found[0].total_sectors, 8192);
    assert_eq!(found[0].volume_label, "NTFS Volume");
    assert_eq!(calls, vec![(2048, 1)]);
    let none = HeuristicPartitionScanner::new(0).scan_device(&mut dev, 100, 50, |_, _| {}).unwrap();
    assert!(none.is_empty());
}

#[test]
fn a_valid_gpt_header_wins_over_the_protective_mbr() {
    let img = SyntheticDiskGenerator::build_test_image();
    assert_eq!(choose_scheme(&img[0..512], Some(&img[512..1024])), SchemeChoice::Gpt);
    assert_eq!(choose_scheme(&img[0..512], None), SchemeChoice::Mbr);
    let mut bad = img[512..1024].to_vec();
    bad[100] ^= 1;
    bad[20] ^= 1;
    assert_eq!(choose_scheme(&img[0..512], Some(&bad)), SchemeChoice::Mbr);
    assert_eq!(choose_scheme(&[0u8; 512], None), SchemeChoice::Raw);
    let mut dev = MemDevice { data: img, sector: 512 };
    match PartitionAnalyzer::analyze(&mut dev).unwrap() {
        PartitionScheme::Gpt { primary: Some(t), .. } => {
            assert!(!t.is_backup);
            assert_eq!(t.partitions.len(), 1);
            assert_eq!(t.partitions[0].start_lba, 2048);
            assert_eq!(t.partitions[0].end_lba, 10239);
            assert_eq!(t.partitions[0].name, "Data Partition");
        }
        other => panic!("unexpected {:?}", other),
    }
}

#[test]
fn volumes_of_keeps_the_first_volume_of_each_start() {
    let entry = |slot: usize, start: u64, t: u8| MbrPartitionEntry {
        slot,
        is_bootable: false,
        partition_type: t,
        start_lba: start,
        sector_count: 100,
        is_extended: false,
    };
    let mbr = MasterBootRecord {
        disk_signature: 1,
        partitions: vec![entry(0, 2048, 0x07), entry(1, 4096, 0x83), entry(2, 2048, 0x0B)],
        is_protective_gpt: false,
    };
    let scheme = PartitionScheme::Mbr(mbr);
    let reads = vec![EntryRead::Sector(None), EntryRead::Sector(None), EntryRead::Sector(None)];
    let vols = PartitionAnalyzer::volumes_of(&scheme, reads, 512);
    assert_eq!(vols.len(), 2);
    assert_eq!(vols[0].start_lba, 2048);
    assert_eq!(vols[0].volume_label, "Partition_1_NTFS / exFAT");
    assert_eq!(vols[1].start_lba, 4096);
    assert_eq!(vols[0].bytes_per_sector, 512);
}

#[test]
fn recovery_decisions() {
    let vol = DiscoveredBootSector {
        fs_type: FileSystemType::Ntfs,
        start_lba: 2048,
        bytes_per_sector: 512,
        sectors_per_cluster: 8,
        total_sectors: 8192,
        volume_label: "NTFS Volume".to_string(),
    };
    assert_eq!(recovery_action(&vol, 512, NtfsOutcome::Extracted(3)), RecoveryAction::Done);
    let carve = RecoveryAction::Carve { offset: 2048 * 512, length: 8192 * 512 };
    assert_eq!(recovery_action(&vol, 512, NtfsOutcome::Extracted(0)), carve);
    assert_eq!(recovery_action(&vol, 512, NtfsOutcome::TreeError), carve);
    assert_eq!(recovery_action(&vol, 512, NtfsOutcome::NotNtfs), carve);
    assert!(needs_heuristic_scan(0));
    assert!(!needs_heuristic_scan(1));
    assert_eq!(heuristic_scan_sectors(12 * 1024 * 1024, 512), 24576);
}
