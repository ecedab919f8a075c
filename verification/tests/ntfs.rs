use recoverar::tree::{NtfsNode, NtfsVolumeTree};
use recoverar::tree::skip_existing;
use recoverar::attribute::DataRun;
use recoverar::demo::SyntheticDiskGenerator;
use recoverar::device::BlockDevice;
use recoverar::engine::NtfsEngine;
use recoverar::error::{RecoveryError, Result};
use recoverar::tree::{fallback_file_name, orphaned_file_name, sanitize_component};
use recoverar::usn::UsnFixup;
use recoverar::vbr::NtfsVbr;

struct MemDevice {
    data: Vec<u8>,
    sector: u32,
}

impl BlockDevice for MemDevice {
    fn read_exact_at(&mut self, offset: u64, buf: &mut [u8]) -> Result<()> {
        let start = offset as usize;
        if start + buf.len() > self.data.len() {
            return Err(RecoveryError::Io(std::io::Error::new(std::io::ErrorKind::UnexpectedEof, "short read")));
        }
        buf.copy_from_slice(&self.data[start..start + buf.len()]);
        Ok(())
    }

    fn write_exact_at(&mut self, offset: u64, buf: &[u8]) -> Result<()> {
        let start = offset as usize;
        if start + buf.len() > self.data.len() {
            self.data.resize(start + buf.len(), 0);
        }
        self.data[start..start + buf.len()].copy_from_slice(buf);
        Ok(())
    }

    fn total_size(&self) -> u64 {
        self.data.len() as u64
    }

    fn sector_size(&self) -> u32 {
        self.sector
    }
}

#[test]
fn test_vbr_parsing() {
    let mut vbr_data = vec![0u8; 512];
    vbr_data[510] = 0x55;
    vbr_data[511] = 0xAA;
    vbr_data[3..11].copy_from_slice(b"NTFS    ");
    vbr_data[11..13].copy_from_slice(&512u16.to_le_bytes());
    vbr_data[13] = 8;
    vbr_data[40..48].copy_from_slice(&2097152u64.to_le_bytes());
    vbr_data[48..56].copy_from_slice(&786432u64.to_le_bytes());
    vbr_data[56..64].copy_from_slice(&2u64.to_le_bytes());
    vbr_data[64] = 0xF6;

    let vbr = NtfsVbr::parse(&vbr_data).unwrap();
    assert_eq!(vbr.bytes_per_sector, 512);
    assert_eq!(vbr.sectors_per_cluster, 8);
    assert_eq!(vbr.bytes_per_cluster(), 4096);
    assert_eq!(vbr.mft_record_size(), 1024);
    assert_eq!(vbr.mft_start_cluster, 786432);
}

fn sample_record() -> Vec<u8> {
    let mut record = vec![0u8; 1024];
    record[0..4].copy_from_slice(b"FILE");
    record[4..6].copy_from_slice(&48u16.to_le_bytes());
    record[6..8].copy_from_slice(&3u16.to_le_bytes());
    record[48..50].copy_from_slice(&0x4242u16.to_le_bytes());
    record[50..52].copy_from_slice(&0x1111u16.to_le_bytes());
    record[52..54].copy_from_slice(&0x2222u16.to_le_bytes());
    record[510..512].copy_from_slice(&0x4242u16.to_le_bytes());
    record[1022..1024].copy_from_slice(&0x4242u16.to_le_bytes());
    record
}

#[test]
fn test_usn_fixup_apply() {
    let mut record = sample_record();
    UsnFixup::apply_fixup(&mut record, 512).unwrap();
    assert_eq!(&record[510..512], &0x1111u16.to_le_bytes());
    assert_eq!(&record[1022..1024], &0x2222u16.to_le_bytes());
}

#[test]
fn usn_fixup_reports_the_torn_sector() {
    let mut record = sample_record();
    record[1022..1024].copy_from_slice(&0x4343u16.to_le_bytes());
    match UsnFixup::apply_fixup(&mut record, 512) {
        Err(RecoveryError::FixupFailed { sector_index, expected, actual }) => {
            assert_eq!(sector_index, 1);
            assert_eq!(expected, 0x4242);
            assert_eq!(actual, 0x4343);
        }
        other => panic!("unexpected {:?}", other),
    }
    assert_eq!(&record[510..512], &0x1111u16.to_le_bytes());
}

#[test]
fn test_data_runlist_parsing() {
    let run_bytes = [0x21, 0x18, 0x34, 0x12, 0x21, 0x10, 0x00, 0x01, 0x00];
    let runs = DataRun::parse_runlist(&run_bytes).unwrap();
    assert_eq!(runs.len(), 2);
    assert_eq!(runs[0].length_clusters, 24);
    assert_eq!(runs[0].lcn, Some(4660));
    assert_eq!(runs[1].length_clusters, 16);
    assert_eq!(runs[1].lcn, Some(4916));
}

#[test]
fn runlist_with_sparse_and_negative_runs() {
    // 0x11: one length byte, one offset byte; 0x01: sparse run of 5 clusters; 0x11 with
    // offset 0xF0 (-16) moves back from the previous start.
    let run_bytes = [0x11, 0x04, 0x40, 0x01, 0x05, 0x11, 0x02, 0xF0, 0x00];
    let runs = DataRun::parse_runlist(&run_bytes).unwrap();
    assert_eq!(runs.len(), 3);
    assert_eq!(runs[0].lcn, Some(64));
    assert_eq!(runs[1].length_clusters, 5);
    assert_eq!(runs[1].lcn, None);
    assert_eq!(runs[2].lcn, Some(48));
}

#[test]
fn truncated_runlist_is_an_ntfs_error() {
    let run_bytes = [0x21, 0x18, 0x34];
    assert!(matches!(DataRun::parse_runlist(&run_bytes), Err(RecoveryError::NtfsError(_))));
}

#[test]
fn sanitized_components() {
    assert_eq!(sanitize_component("a/b:c*?.txt"), "a_b_c__.txt");
    assert_eq!(sanitize_component("  ..report.. "), "report");
    assert_eq!(sanitize_component(" . "), "unnamed");
    let safe = sanitize_component("\u{1}a|b\u{7f}. ");
    assert_eq!(safe, "_a_b_");
    assert!(!safe.chars().any(|c| "/\\:*?\"<>|".contains(c) || c.is_control()));
}

#[test]
fn flat_names_for_files_whose_path_fails() {
    assert_eq!(orphaned_file_name(42, "a:b.txt"), "orphaned_rec_42_a_b.txt");
    assert_eq!(fallback_file_name(7, "..."), "rec_7_unnamed");
}

#[test]
fn demo_volume_tree_and_file_contents() {
    let mut dev = MemDevice { data: SyntheticDiskGenerator::build_test_image(), sector: 512 };
    let engine = NtfsEngine::open(&mut dev, 2048 * 512).unwrap();
    assert_eq!(engine.partition_start_byte_offset, 1048576);
    assert_eq!(engine.vbr().mft_start_byte_offset(), 16384);
    assert_eq!(engine.vbr().volume_serial_number, 0xA1B2C3D4E5F60718);

    let record = engine.read_mft_record(&mut dev, 32).unwrap();
    assert_eq!(record.record_number, 32);
    assert!(record.is_in_use);
    assert!(!record.is_directory);
    assert_eq!(record.file_name().unwrap().name, "Critical_Report.txt");
    assert_eq!(record.to_string(), "MFT #32: 'Critical_Report.txt' [FILE] - Size: 94B (Attributes: 3)");

    let tree = engine.scan_volume_tree(&mut dev, 40, |_, _| {}).unwrap();
    assert_eq!(tree.nodes.len(), 3);
    assert_eq!(tree.nodes[&32].name, "Critical_Report.txt");
    assert_eq!(tree.nodes[&32].parent_record, 5);
    assert!(tree.nodes[&5].is_directory);
    let mut children = tree.nodes[&5].children.clone();
    children.sort();
    assert_eq!(children, vec![0, 32]);
    assert_eq!(tree.get_path(32), vec!["Critical_Report.txt".to_string()]);
    assert_eq!(tree.get_path(5), vec!["Record_5".to_string()]);
    assert_eq!(tree.files_to_extract(), vec![32]);

    let mut out: Vec<u8> = Vec::new();
    let n = tree.extract_file(&mut dev, 32, &mut out).unwrap();
    assert_eq!(n, 94);
    assert_eq!(
        out,
        b"TOP SECRET DATA RECOVERY PAYLOAD: Hard disk blocks successfully recovered with 100% integrity.".to_vec()
    );

    let mut none: Vec<u8> = Vec::new();
    assert!(matches!(tree.extract_file(&mut dev, 7, &mut none), Err(RecoveryError::NtfsError(_))));
    assert!(matches!(tree.extract_file(&mut dev, 5, &mut none), Err(RecoveryError::NtfsError(_))));
}

#[test]
fn ntfs_engine_refuses_a_volume_without_boot_sector() {
    let mut dev = MemDevice { data: vec![0u8; 4 * 1024 * 1024], sector: 512 };
    assert!(NtfsEngine::open(&mut dev, 0).is_err());
}

fn file_name_value(namespace: u8, name: &str) -> Vec<u8> {
    let units: Vec<u16> = name.encode_utf16().collect();
    let mut v = vec![0u8; 66 + 2 * units.len()];
    v[0..8].copy_from_slice(&5u64.to_le_bytes());
    v[64] = units.len() as u8;
    v[65] = namespace;
    for (i, u) in units.iter().enumerate() {
        v[66 + 2 * i..68 + 2 * i].copy_from_slice(&u.to_le_bytes());
    }
    v
}

fn file_name_attribute(namespace: u8, name: &str) -> recoverar::attribute::NtfsAttribute {
    recoverar::attribute::NtfsAttribute {
        attr_type: recoverar::attribute::AttributeType::FileName,
        record_length: 0,
        is_non_resident: false,
        name: String::new(),
        flags: 0,
        attribute_id: 0,
        data: recoverar::attribute::AttributeData::Resident(file_name_value(namespace, name)),
    }
}

fn record_with(attributes: Vec<recoverar::attribute::NtfsAttribute>) -> recoverar::mft::MftRecord {
    recoverar::mft::MftRecord {
        record_number: 40,
        sequence_number: 1,
        hard_link_count: 1,
        is_in_use: true,
        is_directory: false,
        base_record_ref: 0,
        attributes,
    }
}

#[test]
fn posix_name_is_preferred_over_a_dos_name() {
    let r = record_with(vec![file_name_attribute(2, "LONGNA~1.TXT"), file_name_attribute(0, "LongName.txt")]);
    assert_eq!(r.file_name().unwrap().name, "LongName.txt");
    let r = record_with(vec![file_name_attribute(2, "LONGNA~1.TXT"), file_name_attribute(1, "Win32.txt")]);
    assert_eq!(r.file_name().unwrap().name, "Win32.txt");
    let r = record_with(vec![file_name_attribute(2, "ONLYDOS.TXT")]);
    assert_eq!(r.file_name().unwrap().name, "ONLYDOS.TXT");
}

#[test]
fn rebuilding_the_hierarchy_drops_stale_children() {
    let img = SyntheticDiskGenerator::build_test_image();
    let vbr = NtfsVbr::parse(&img[recoverar::demo::DEMO_VBR_AT..recoverar::demo::DEMO_VBR_AT + 512]).unwrap();
    let mut tree = NtfsVolumeTree::new(vbr, 0);
    let node = |rn: u64, parent: u64| NtfsNode {
        record_number: rn,
        parent_record: parent,
        name: format!("n{}", rn),
        is_directory: true,
        is_in_use: true,
        file_size: 0,
        children: Vec::new(),
    };
    tree.nodes.insert(5, node(5, 5));
    tree.nodes.insert(7, node(7, 5));
    tree.nodes.insert(10, node(10, 5));
    tree.build_hierarchy();
    let mut kids = tree.nodes[&5].children.clone();
    kids.sort();
    assert_eq!(kids, vec![7, 10]);
    tree.nodes.get_mut(&10).unwrap().parent_record = 7;
    tree.nodes.get_mut(&7).unwrap().parent_record = 7;
    tree.build_hierarchy();
    assert_eq!(tree.nodes[&5].children, Vec::<u64>::new());
    assert_eq!(tree.nodes[&7].children, vec![10]);
    assert_eq!(tree.nodes[&10].children, Vec::<u64>::new());
}

#[test]
fn fixup_accepts_large_sector_sizes() {
    let mut record = sample_record();
    let before = record.clone();
    UsnFixup::apply_fixup(&mut record, 1 << 20).unwrap();
    assert_eq!(record, before);
    let mut record = sample_record();
    UsnFixup::apply_fixup(&mut record, usize::MAX).unwrap();
    assert_eq!(record, before);
}

#[test]
fn skip_existing_needs_the_same_size() {
    assert!(skip_existing(35, Some(35)));
    assert!(!skip_existing(35, Some(34)));
    assert!(!skip_existing(35, None));
}
