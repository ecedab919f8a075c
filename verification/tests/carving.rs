use recoverar::demo::{SyntheticDiskGenerator, DEMO_CARVE_AT};
use recoverar::device::BlockDevice;
use recoverar::error::{RecoveryError, Result};
use recoverar::scanner::{carved_file_name, CarveAlignment, CarvedFile, CarvingScanner};
use recoverar::signatures::{signature_registry, FileType, FileValidator};

struct MemDevice {
    data: Vec<u8>,
    sector: u32,
}

impl BlockDevice for MemDevice {
    fn read_exact_at(&mut self, offset: u64, buf: &mut [u8]) -> Result<()> {
        let start = offset as usize;
        if start + buf.len() > self.data.len() {
            return Err(RecoveryError::Io(std::io::Error::new(std::io::ErrorKind::UnexpectedEof, "short read")));
        }
        buf.copy_from_slice(&self.data[start..start + buf.len()]);
        Ok(())
    }

    fn write_exact_at(&mut self, offset: u64, buf: &[u8]) -> Result<()> {
        let start = offset as usize;
        if start + buf.len() > self.data.len() {
            self.data.resize(start + buf.len(), 0);
        }
        self.data[start..start + buf.len()].copy_from_slice(buf);
        Ok(())
    }

    fn total_size(&self) -> u64 {
        self.data.len() as u64
    }

    fn sector_size(&self) -> u32 {
        self.sector
    }
}

#[test]
fn test_carve_jpeg_buffer() {
    let mut buffer = vec![0u8; 4096];
    let jpeg_data = [
        0xFF, 0xD8, 0xFF, 0xE0, 0x00, 0x10, 0x4A, 0x46, 0x49, 0x46, 0x00, 0x01, 0x01, 0x01, 0x00, 0x60,
        0x00, 0x60, 0x00, 0x00, 0xFF, 0xD9,
    ];
    buffer[512..512 + jpeg_data.len()].copy_from_slice(&jpeg_data);

    let scanner = CarvingScanner::new(CarveAlignment::Sector512);
    let results = scanner.scan_buffer(0, &buffer);

    assert_eq!(results.len(), 1);
    assert_eq!(results[0].file_type, FileType::Jpeg);
    assert_eq!(results[0].offset, 512);
    assert_eq!(results[0].size, jpeg_data.len());
}

#[test]
fn test_carve_png_buffer() {
    let mut buffer = vec![0u8; 4096];
    let mut png_data = vec![0x89, 0x50, 0x4E, 0x47, 0x0D, 0x0A, 0x1A, 0x0A];
    png_data.extend_from_slice(&[0x00, 0x00, 0x00, 0x0D, 0x49, 0x48, 0x44, 0x52]);
    png_data.extend_from_slice(&[0x49, 0x45, 0x4E, 0x44, 0xAE, 0x42, 0x60, 0x82]);
    buffer[1024..1024 + png_data.len()].copy_from_slice(&png_data);

    let scanner = CarvingScanner::new(CarveAlignment::Sector512);
    let results = scanner.scan_buffer(0, &buffer);

    assert_eq!(results.len(), 1);
    assert_eq!(results[0].file_type, FileType::Png);
    assert_eq!(results[0].offset, 1024);
    assert_eq!(results[0].size, png_data.len());
}

#[test]
fn test_carve_pdf_buffer() {
    let mut buffer = vec![0u8; 4096];
    let pdf_data = b"%PDF-1.4\n1 0 obj\n<< /Title (Test) >>\nendobj\n%%EOF\n";
    buffer[2048..2048 + pdf_data.len()].copy_from_slice(pdf_data);

    let scanner = CarvingScanner::new(CarveAlignment::Sector512);
    let results = scanner.scan_buffer(0, &buffer);

    assert_eq!(results.len(), 1);
    assert_eq!(results[0].file_type, FileType::Pdf);
    assert_eq!(results[0].offset, 2048);
    assert_eq!(results[0].size, pdf_data.len());
}

#[test]
fn carve_zip_with_its_central_directory_end() {
    let mut buffer = vec![0u8; 1024];
    let mut zip = vec![0x50, 0x4B, 0x03, 0x04];
    zip.extend_from_slice(&[0u8; 26]);
    zip.extend_from_slice(&[0x50, 0x4B, 0x05, 0x06]);
    zip.extend_from_slice(&[0u8; 16]);
    zip.extend_from_slice(&[3, 0, b'a', b'b', b'c']);
    buffer[512..512 + zip.len()].copy_from_slice(&zip);
    let scanner = CarvingScanner::new(CarveAlignment::Sector512);
    let results = scanner.scan_buffer(4096, &buffer);
    assert_eq!(results.len(), 1);
    assert_eq!(results[0].file_type, FileType::Zip);
    assert_eq!(results[0].offset, 4096 + 512);
    assert_eq!(results[0].size, 30 + 22 + 3);
    assert!(results[0].is_validated);
}

#[test]
fn validators_measure_each_format() {
    assert_eq!(FileValidator::validate_and_calculate_size(FileType::Jpeg, &[0xFF, 0xD8, 0xFF, 0x00, 0xFF, 0xD9, 1, 2]), Some(6));
    assert_eq!(FileValidator::validate_and_calculate_size(FileType::Jpeg, &[0xFF, 0xD8, 0xFF, 0x00, 0x00]), None);
    assert_eq!(FileValidator::validate_and_calculate_size(FileType::Gif, b"GIF89a\x00\x00\x3B\x00"), Some(9));
    assert_eq!(FileValidator::validate_and_calculate_size(FileType::Pdf, b"%PDF-1.0 %%EOF\r\n\r\nxyz"), Some(18));
    assert_eq!(FileValidator::validate_and_calculate_size(FileType::Pdf, b"%PDF-1.0 no end"), None);
}

#[test]
fn file_type_names() {
    assert_eq!(FileType::Jpeg.extension(), "jpg");
    assert_eq!(FileType::Mkv.mime_type(), "video/x-matroska");
    assert_eq!(FileType::Png.to_string(), "PNG");
    assert_eq!(signature_registry().len(), 8);
}

#[test]
fn carved_files_are_named_by_offset_and_type() {
    let f = CarvedFile { offset: 0x8000_0200, file_type: FileType::Jpeg, size: 10, is_validated: true };
    assert_eq!(carved_file_name(&f), "carved_0x000080000200.jpg");
}

#[test]
fn demo_image_carving_finds_the_validated_files_in_order() {
    let mut dev = MemDevice { data: SyntheticDiskGenerator::build_test_image(), sector: 512 };
    let scanner = CarvingScanner::new(CarveAlignment::Sector512);
    let start = DEMO_CARVE_AT as u64;
    let found = scanner.scan_device(&mut dev, start, 4 * 1024 * 1024, |_, _| {}).unwrap();
    assert_eq!(found.len(), 3);
    assert_eq!((found[0].offset, found[0].file_type, found[0].size), (start + 512, FileType::Jpeg, 122));
    assert_eq!((found[1].offset, found[1].file_type, found[1].size), (start + 65536, FileType::Png, 45));
    assert_eq!((found[2].offset, found[2].file_type, found[2].size), (start + 131072, FileType::Pdf, 152));
    let jpeg = scanner.read_carved(&mut dev, &found[0]).unwrap();
    assert_eq!(&jpeg[0..3], &[0xFF, 0xD8, 0xFF]);
    assert_eq!(&jpeg[120..122], &[0xFF, 0xD9]);
}

#[test]
fn chunk_carving_within_one_span_matches_the_buffer_scan() {
    let mut buffer = vec![0u8; 4096];
    buffer[512..515].copy_from_slice(&[0xFF, 0xD8, 0xFF]);
    buffer[600..602].copy_from_slice(&[0xFF, 0xD9]);
    let pdf = b"%PDF-1.4\n%%EOF\n";
    buffer[2048..2048 + pdf.len()].copy_from_slice(pdf);
    let scanner = CarvingScanner::new(CarveAlignment::Sector512);
    let by_chunk = scanner.carve_chunk(&buffer, 1000);
    assert_eq!(by_chunk, scanner.scan_buffer(1000, &buffer));
    assert_eq!(by_chunk.len(), 2);
    assert_eq!((by_chunk[0].offset, by_chunk[0].size), (1512, 90));
    assert_eq!((by_chunk[1].offset, by_chunk[1].size), (3048, pdf.len()));
}

#[test]
fn chunk_carving_looks_for_headers_span_by_span() {
    let span = 2 * 1024 * 1024;
    let mut buffer = vec![0u8; span + 4096];
    buffer[span + 512..span + 515].copy_from_slice(&[0xFF, 0xD8, 0xFF]);
    buffer[span + 1000..span + 1002].copy_from_slice(&[0xFF, 0xD9]);
    let scanner = CarvingScanner::new(CarveAlignment::Sector512);
    let found = scanner.carve_chunk(&buffer, 0);
    assert_eq!(found.len(), 1);
    assert_eq!(found[0].offset, (span + 512) as u64);
    assert_eq!(found[0].size, 490);
}

#[test]
fn streaming_scan_hands_out_each_chunk_and_its_new_files() {
    let mut dev = MemDevice { data: SyntheticDiskGenerator::build_test_image(), sector: 512 };
    let scanner = CarvingScanner::new(CarveAlignment::Sector512);
    let start = DEMO_CARVE_AT as u64;
    let mut calls: Vec<(u64, usize, usize, usize, u64)> = Vec::new();
    let found = scanner
        .scan_device_streaming(&mut dev, start, u64::MAX, |scanned, all, fresh, chunk, chunk_offset| {
            calls.push((scanned, all.len(), fresh.len(), chunk.len(), chunk_offset));
        })
        .unwrap();
    assert_eq!(found.len(), 3);
    assert_eq!(calls, vec![(4 * 1024 * 1024, 3, 3, 4 * 1024 * 1024, start)]);
}

#[test]
fn reading_a_carved_file_past_the_end_is_an_io_error() {
    let mut dev = MemDevice { data: vec![0u8; 4096], sector: 512 };
    let scanner = CarvingScanner::default();
    let f = CarvedFile { offset: 4000, file_type: FileType::Zip, size: 200, is_validated: true };
    assert!(matches!(scanner.read_carved(&mut dev, &f), Err(RecoveryError::Io(_))));
}

#[test]
fn carve_finds_a_file_in_the_sector_after_a_small_one() {
    let mut buffer = vec![0u8; 4096];
    let jpeg_data = [
        0xFF, 0xD8, 0xFF, 0xE0, 0x00, 0x10, 0x4A, 0x46, 0x49, 0x46, 0x00, 0x01, 0x01, 0x01, 0x00, 0x60,
        0x00, 0x60, 0x00, 0x00, 0xFF, 0xD9,
    ];
    let png_data = [
        0x89, 0x50, 0x4E, 0x47, 0x0D, 0x0A, 0x1A, 0x0A, 0x00, 0x00, 0x00, 0x0D, 0x49, 0x48, 0x44, 0x52,
        0x49, 0x45, 0x4E, 0x44, 0xAE, 0x42, 0x60, 0x82,
    ];
    buffer[512..512 + jpeg_data.len()].copy_from_slice(&jpeg_data);
    buffer[1024..1024 + png_data.len()].copy_from_slice(&png_data);
    let scanner = CarvingScanner::new(CarveAlignment::Sector512);
    let results = scanner.scan_buffer(0, &buffer);
    assert_eq!(results.len(), 2);
    assert_eq!((results[0].file_type, results[0].offset, results[0].size), (FileType::Jpeg, 512, 22));
    assert_eq!((results[1].file_type, results[1].offset, results[1].size), (FileType::Png, 1024, 24));
}
