use recoverar::binary_reader::BinaryReader;
use recoverar::error::RecoveryError;
use recoverar::types::{filetime_to_datetime, ByteRange, Guid, SectorSize};

#[test]
fn test_binary_reader_primitives() {
    let buffer = [0x12, 0x34, 0x56, 0x78, 0x00, 0x00, 0x00, 0x00];
    let mut reader = BinaryReader::new(&buffer);
    assert_eq!(reader.read_u8().unwrap(), 0x12);
    assert_eq!(reader.read_u16_le().unwrap(), 0x5634);
}

#[test]
fn test_guid_parse() {
    let raw = [
        0x28, 0x73, 0x2A, 0xC1, 0x1F, 0xF8, 0xD2, 0x11, 0xBA, 0x4B, 0x00, 0xA0, 0xC9, 0x3E, 0xC9, 0x3B,
    ];
    let guid = Guid::from_bytes_le(&raw).unwrap();
    assert_eq!(guid.to_string(), "C12A7328-F81F-11D2-BA4B-00A0C93EC93B");
}

#[test]
fn test_filetime_converter() {
    let ft = 132539328000000000u64;
    let dt = filetime_to_datetime(ft).unwrap();
    assert_eq!(dt.0.to_rfc3339(), "2021-01-01T00:00:00+00:00");
}

#[test]
fn filetime_before_unix_epoch_is_refused() {
    assert!(filetime_to_datetime(0).is_none());
    assert!(filetime_to_datetime(116444735999999999).is_none());
    let epoch = filetime_to_datetime(116444736000000000).unwrap();
    assert_eq!(epoch.0.to_rfc3339(), "1970-01-01T00:00:00+00:00");
}

#[test]
fn binary_reader_reads_every_width_in_both_orders() {
    let buffer = [1u8, 2, 3, 4, 5, 6, 7, 8, 9, 10, 11, 12, 13, 14, 15, 16];
    let mut r = BinaryReader::new(&buffer);
    assert_eq!(r.read_u32_le().unwrap(), 0x04030201);
    assert_eq!(r.read_u32_be().unwrap(), 0x05060708);
    assert_eq!(r.position(), 8);
    assert_eq!(r.remaining(), 8);
    assert_eq!(r.read_u64_le().unwrap(), 0x100F0E0D0C0B0A09);
    assert!(!r.is_empty());
    assert_eq!(r.remaining(), 0);
    let mut r2 = BinaryReader::new(&buffer);
    assert_eq!(r2.read_u64_be().unwrap(), 0x0102030405060708);
    assert_eq!(r2.read_u16_be().unwrap(), 0x090A);
    assert_eq!(BinaryReader::peek_u16_le_at(&buffer, 14).unwrap(), 0x100F);
    assert_eq!(BinaryReader::peek_u32_be_at(&buffer, 0).unwrap(), 0x01020304);
    assert_eq!(BinaryReader::peek_u16_be_at(&buffer, 2).unwrap(), 0x0304);
    assert_eq!(BinaryReader::peek_u64_be_at(&buffer, 8).unwrap(), 0x090A0B0C0D0E0F10);
    assert_eq!(BinaryReader::peek_u32_le_at(&buffer, 12).unwrap(), 0x100F0E0D);
    assert_eq!(BinaryReader::peek_u64_le_at(&buffer, 0).unwrap(), 0x0807060504030201);
    assert!(BinaryReader::peek_u16_be_at(&buffer, 15).is_err());
}

#[test]
fn binary_reader_refuses_reads_past_the_end() {
    let buffer = [0xAAu8, 0xBB, 0xCC];
    let mut r = BinaryReader::new(&buffer);
    r.skip(2).unwrap();
    match r.read_u16_le() {
        Err(RecoveryError::BufferOutOfBounds { offset, required, available }) => {
            assert_eq!(offset, 2);
            assert_eq!(required, 2);
            assert_eq!(available, 1);
        }
        other => panic!("unexpected {:?}", other),
    }
    assert_eq!(r.position(), 2);
    assert!(r.seek(4).is_err());
    assert!(r.seek(3).is_ok());
    assert!(BinaryReader::peek_u64_le_at(&buffer, 0).is_err());
}

#[test]
fn binary_reader_signed_and_text_reads() {
    let buffer = [0xFFu8, 0xFF, 0xFF, 0xFF, 0xFF, 0xFF, 0xFF, 0xFF, b'N', 0, b'T', 0, b'A', b'B'];
    let mut r = BinaryReader::new(&buffer);
    assert_eq!(r.read_i64_le().unwrap(), -1);
    assert_eq!(r.read_utf16_le_string(2).unwrap(), "NT");
    assert_eq!(r.read_ascii_string(2).unwrap(), "AB");
}

#[test]
fn guid_needs_sixteen_bytes_and_knows_zero() {
    assert!(Guid::from_bytes_le(&[0u8; 15]).is_none());
    let zero = Guid::from_bytes_le(&[0u8; 16]).unwrap();
    assert!(zero.is_zero());
    assert_eq!(zero.to_string(), "00000000-0000-0000-0000-000000000000");
    let g = Guid::from_raw(0xEBD0A0A2, 0xB9E5, 0x4433, [0x87, 0xC0, 0x68, 0xB6, 0xB7, 0x26, 0x99, 0xC7]);
    assert!(!g.is_zero());
    assert_eq!(g.to_string(), "EBD0A0A2-B9E5-4433-87C0-68B6B72699C7");
    let same = Guid::from_bytes_le(&[
        0xA2, 0xA0, 0xD0, 0xEB, 0xE5, 0xB9, 0x33, 0x44, 0x87, 0xC0, 0x68, 0xB6, 0xB7, 0x26, 0x99, 0xC7,
    ])
    .unwrap();
    assert!(g.same_as(&same));
    assert!(!g.same_as(&zero));
}

#[test]
fn sector_sizes_and_byte_ranges() {
    assert_eq!(SectorSize::from_bytes(512).unwrap().as_usize(), 512);
    assert_eq!(SectorSize::from_bytes(4096).unwrap().as_u64(), 4096);
    assert!(SectorSize::from_bytes(1024).is_none());
    let r = ByteRange::new(100, 28);
    assert_eq!(r.end(), 128);
}

#[test]
fn filetime_converts_up_to_the_largest_value() {
    let dt = filetime_to_datetime(u64::MAX).unwrap();
    assert_eq!(dt.0.timestamp(), 1833029933770);
    assert_eq!(dt.0.timestamp_subsec_nanos(), 955161500);
    let dt = filetime_to_datetime(132539328000000000).unwrap();
    assert_eq!(dt.0.to_rfc3339(), "2021-01-01T00:00:00+00:00");
}

#[test]
fn huge_counts_are_out_of_bounds() {
    let data = [1u8, 2, 3, 4];
    let mut r = BinaryReader::new(&data);
    r.read_u8().unwrap();
    match r.read_bytes(usize::MAX) {
        Err(RecoveryError::BufferOutOfBounds { offset, required, available }) => {
            assert_eq!((offset, required, available), (1, usize::MAX, 3));
        }
        other => panic!("unexpected {:?}", other.map(|s| s.len())),
    }
    assert_eq!(r.position(), 1);
    match BinaryReader::peek_bytes_at(&data, usize::MAX, 2) {
        Err(RecoveryError::BufferOutOfBounds { offset, required, available }) => {
            assert_eq!((offset, required, available), (usize::MAX, 2, 0));
        }
        other => panic!("unexpected {:?}", other.map(|s| s.len())),
    }
    assert!(BinaryReader::peek_u32_le_at(&data, usize::MAX - 1).is_err());
    assert_eq!(BinaryReader::peek_bytes_at(&data, 1, 3).unwrap(), &[2, 3, 4]);
}
