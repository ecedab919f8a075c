use recoverar::demo::{encode_utf16, SyntheticDiskGenerator, DEMO_CARVE_AT, DEMO_IMAGE_SIZE, DEMO_MFT_AT, DEMO_VBR_AT};
use recoverar::gpt::{GptHeader, GuidPartitionTable};
use recoverar::mft::MftRecord;
use recoverar::vbr::NtfsVbr;

fn le32(b: &[u8], i: usize) -> u32 {
    u32::from_le_bytes([b[i], b[i + 1], b[i + 2], b[i + 3]])
}

#[test]
fn demo_image_layout() {
    let img = SyntheticDiskGenerator::build_test_image();
    assert_eq!(img.len(), DEMO_IMAGE_SIZE);
    assert_eq!(&img[510..512], &[0x55, 0xAA]);
    assert_eq!(le32(&img, 440), 0xDEADBEEF);
    assert_eq!(img[450], 0xEE);
    assert_eq!(le32(&img, 454), 1);
    assert_eq!(le32(&img, 458), 24575);
    assert_eq!(&img[512..520], b"EFI PART");
    assert_eq!(le32(&img, 600), crc32fast::hash(&img[1024..17408]));
    let mut hdr = img[512..604].to_vec();
    hdr[16..20].copy_from_slice(&[0, 0, 0, 0]);
    assert_eq!(le32(&img, 528), crc32fast::hash(&hdr));
    assert_eq!(&img[DEMO_VBR_AT + 3..DEMO_VBR_AT + 11], b"NTFS    ");
    assert_eq!(&img[DEMO_MFT_AT..DEMO_MFT_AT + 4], b"FILE");
    assert_eq!(&img[DEMO_CARVE_AT + 512..DEMO_CARVE_AT + 515], &[0xFF, 0xD8, 0xFF]);
    assert_eq!(&img[DEMO_CARVE_AT + 131072..DEMO_CARVE_AT + 131077], b"%PDF-");
    assert_eq!(&img[DEMO_CARVE_AT + 196608..DEMO_CARVE_AT + 196612], &[0x50, 0x4B, 0x03, 0x04]);
}

#[test]
fn demo_image_parses_with_the_library() {
    let img = SyntheticDiskGenerator::build_test_image();
    let header = GptHeader::parse(&img[512..1024]).unwrap();
    assert_eq!(header.backup_lba, 24575);
    assert_eq!(header.last_usable_lba, 24542);
    let table = GuidPartitionTable::parse(&img[512..1024], &img[1024..17408], false).unwrap();
    assert_eq!(table.partitions.len(), 1);
    assert_eq!(table.partitions[0].unique_guid.to_string(), "42424242-4242-4242-4242-424242424242");
    let vbr = NtfsVbr::parse(&img[DEMO_VBR_AT..DEMO_VBR_AT + 512]).unwrap();
    assert_eq!(vbr.total_sectors, 8192);
    assert_eq!(vbr.mft_record_size(), 1024);
    assert_eq!(vbr.index_record_size(), 1024);
    let rec = img[DEMO_MFT_AT..DEMO_MFT_AT + 1024].to_vec();
    let mft = MftRecord::parse(&rec, 0, 512).unwrap();
    assert_eq!(mft.to_string(), "MFT #0: '$MFT' [FILE] - Size: 35B (Attributes: 3)");
    let root = img[DEMO_MFT_AT + 5 * 1024..DEMO_MFT_AT + 6 * 1024].to_vec();
    let root = MftRecord::parse(&root, 5, 512).unwrap();
    assert_eq!(root.to_string(), "MFT #5: '.' [DIR] - Size: 0B (Attributes: 2)");
}

#[test]
fn utf16_encoding() {
    assert_eq!(encode_utf16("Data"), vec![0x44, 0x61, 0x74, 0x61]);
    assert_eq!(encode_utf16("é€"), vec![0xE9, 0x20AC]);
    assert_eq!(encode_utf16("\u{1F600}"), vec![0xD83D, 0xDE00]);
}

#[test]
fn demo_record_timestamps() {
    let img = SyntheticDiskGenerator::build_test_image();
    let rec = img[DEMO_MFT_AT + 32 * 1024..DEMO_MFT_AT + 33 * 1024].to_vec();
    let mft = MftRecord::parse(&rec, 32, 512).unwrap();
    let si = mft.standard_info().unwrap();
    assert_eq!(si.creation_time.unwrap().0.to_rfc3339(), "2021-01-01T00:00:00+00:00");
    assert_eq!(si.alteration_time.unwrap().0.to_rfc3339(), "2021-01-01T00:00:00+00:00");
    assert!(si.mft_altered_time.is_none());
    assert!(si.read_time.is_none());
    assert_eq!(si.dos_permissions, 0);
    let fname = mft.file_name().unwrap();
    assert_eq!(fname.parent_directory_record, 5);
    assert_eq!(fname.parent_directory_seq, 1);
    assert_eq!(fname.real_size, 94);
    assert_eq!(fname.namespace, 1);
}
