use recoverar::aligned::AlignedBuffer;
use recoverar::device::BlockDevice;
use recoverar::error::{RecoveryError, Result};
use recoverar::imager::{DiskImager, ImagerConfig};
use recoverar::mapfile::{BlockStatus, MapBlock, RecoveryMapFile};
use recoverar::stats::RecoveryStats;

/// An in-memory device; reads that touch `[bad_from, bad_to)` fail.
struct MemDevice {
    data: Vec<u8>,
    sector: u32,
    bad_from: u64,
    bad_to: u64,
}

impl MemDevice {
    fn new(data: Vec<u8>) -> Self {
        MemDevice { data, sector: 512, bad_from: 0, bad_to: 0 }
    }
}

impl BlockDevice for MemDevice {
    fn read_exact_at(&mut self, offset: u64, buf: &mut [u8]) -> Result<()> {
        let start = offset as usize;
        let end = offset + buf.len() as u64;
        if start + buf.len() > self.data.len() {
            return Err(RecoveryError::Io(std::io::Error::new(std::io::ErrorKind::UnexpectedEof, "short read")));
        }
        if offset < self.bad_to && self.bad_from < end {
            return Err(RecoveryError::Io(std::io::Error::new(std::io::ErrorKind::Other, "medium error")));
        }
        buf.copy_from_slice(&self.data[start..start + buf.len()]);
        Ok(())
    }

    fn write_exact_at(&mut self, offset: u64, buf: &[u8]) -> Result<()> {
        let start = offset as usize;
        if start + buf.len() > self.data.len() {
            self.data.resize(start + buf.len(), 0);
        }
        self.data[start..start + buf.len()].copy_from_slice(buf);
        Ok(())
    }

    fn total_size(&self) -> u64 {
        self.data.len() as u64
    }

    fn sector_size(&self) -> u32 {
        self.sector
    }
}

#[test]
fn test_aligned_buffer() {
    let mut buf = AlignedBuffer::with_alignment(1024, 4096);
    assert_eq!(buf.len(), 1024);
    buf.as_mut_slice()[0] = 0xAA;
    assert_eq!(buf.as_slice()[0], 0xAA);
    buf.fill_zero();
    assert_eq!(buf.as_slice()[0], 0x00);
}

#[test]
fn aligned_buffer_default_alignment() {
    let buf = AlignedBuffer::new(0);
    assert!(buf.is_empty());
    assert_eq!(buf.as_slice().len(), 0);
}

#[test]
fn test_mapfile_update_and_save() {
    let mut map = RecoveryMapFile::new_initial(1024 * 1024);
    assert_eq!(map.blocks.len(), 1);

    map.update_range(0, 4096, BlockStatus::Finished);
    assert_eq!(map.blocks.len(), 2);
    assert_eq!(map.blocks[0].status, BlockStatus::Finished);
    assert_eq!(map.blocks[1].status, BlockStatus::NonTried);

    map.update_range(4096, 4096, BlockStatus::BadSector);
    assert_eq!(map.blocks.len(), 3);

    let text = map.to_text();
    let loaded = RecoveryMapFile::from_text(&text).unwrap();
    assert_eq!(loaded.blocks.len(), 3);
}

#[test]
fn map_text_round_trip_keeps_everything() {
    let mut map = RecoveryMapFile::new_initial(0x10_0000);
    map.update_range(0x200, 0x400, BlockStatus::Finished);
    map.update_range(0x800, 0x200, BlockStatus::NonTrimmed);
    let loaded = RecoveryMapFile::from_text(&map.to_text()).unwrap();
    assert_eq!(loaded.current_pos, map.current_pos);
    assert_eq!(loaded.current_status, map.current_status);
    assert_eq!(loaded.blocks, map.blocks);
}

#[test]
fn map_text_layout() {
    let mut map = RecoveryMapFile::new_initial(0x1000);
    map.update_range(0, 0x800, BlockStatus::Finished);
    let text = map.to_text();
    assert_eq!(
        text,
        "# Antigravity Data Recovery Suite Mapfile\n\
         # Current_pos          Current_status\n\
         0x000000000800     +\n\
         #      pos                size        status\n\
         0x000000000000     0x000000000800     +\n\
         0x000000000800     0x000000000800     ?\n"
    );
}

#[test]
fn map_text_reading_rules() {
    let text = "# comment\r\n\
                \t 20   -  \n\
                0x0 0X10 +\n\
                16 16 /\n\
                garbage line\n\
                32 bad ?\n\
                48 16 ?\n";
    let map = RecoveryMapFile::from_text(text).unwrap();
    assert_eq!(map.current_pos, 20);
    assert_eq!(map.current_status, BlockStatus::BadSector);
    assert_eq!(
        map.blocks,
        vec![
            MapBlock { pos: 0, size: 16, status: BlockStatus::Finished },
            MapBlock { pos: 16, size: 16, status: BlockStatus::NonTrimmed },
            MapBlock { pos: 48, size: 16, status: BlockStatus::NonTried },
        ]
    );
}

#[test]
fn map_text_without_blocks_is_refused() {
    match RecoveryMapFile::from_text("# nothing\n0x10 +\n") {
        Err(RecoveryError::Other(m)) => assert_eq!(m, "Invalid mapfile: no blocks found"),
        other => panic!("unexpected {:?}", other.map(|m| m.blocks.len())),
    }
}

#[test]
fn update_range_splits_and_merges() {
    let mut map = RecoveryMapFile::new_initial(100);
    map.update_range(10, 20, BlockStatus::Finished);
    map.update_range(30, 10, BlockStatus::Finished);
    assert_eq!(
        map.blocks,
        vec![
            MapBlock { pos: 0, size: 10, status: BlockStatus::NonTried },
            MapBlock { pos: 10, size: 30, status: BlockStatus::Finished },
            MapBlock { pos: 40, size: 60, status: BlockStatus::NonTried },
        ]
    );
    assert_eq!(map.current_pos, 40);
    assert_eq!(map.current_status, BlockStatus::Finished);
    map.update_range(50, 0, BlockStatus::BadSector);
    assert_eq!(map.blocks.len(), 3);
    assert_eq!(map.current_pos, 40);
}

#[test]
fn block_status_characters() {
    assert_eq!(BlockStatus::BadSector.to_char(), '-');
    assert_eq!(BlockStatus::from_char('/'), Some(BlockStatus::NonTrimmed));
    assert_eq!(BlockStatus::from_char('x'), None);
}

#[test]
fn stats_counts_saturate_and_scale() {
    let mut s = RecoveryStats::new(100, 512);
    assert_eq!(s.total_bytes(), 51200);
    s.record_good_sectors(10);
    s.record_bad_sectors(2);
    assert_eq!(s.rescued_bytes(), 5120);
    assert_eq!(s.bad_bytes(), 1024);
    assert_eq!(s.tried_sectors(), 12);
    let big = RecoveryStats::new(u64::MAX, 4096);
    assert_eq!(big.total_bytes(), u64::MAX);
}

#[test]
fn test_imager_with_file_blocks() {
    let data = vec![0x42u8; 128 * 1024];
    let mut src_dev = MemDevice::new(data.clone());
    let mut dst_dev = MemDevice::new(vec![0u8; 128 * 1024]);

    let config = ImagerConfig { chunk_size: 16 * 1024, sector_size: 512, sync_mapfile_every_mb: 1 };

    let mut imager = DiskImager::new(&src_dev, config, None);
    imager.run_imaging(&mut src_dev, &mut dst_dev, |_, _| {}).unwrap();

    assert_eq!(imager.stats().rescued_bytes(), 128 * 1024);
    assert_eq!(imager.stats().bad_bytes(), 0);
    assert_eq!(dst_dev.data, data);
}

#[test]
fn imager_zero_fills_unreadable_sectors() {
    let data: Vec<u8> = (0..64 * 1024).map(|i| (i % 251) as u8 + 1).collect();
    let mut src_dev = MemDevice::new(data.clone());
    src_dev.bad_from = 5000;
    src_dev.bad_to = 5001;
    let mut dst_dev = MemDevice::new(vec![0xEEu8; 64 * 1024]);
    let config = ImagerConfig { chunk_size: 8 * 1024, sector_size: 512, sync_mapfile_every_mb: 10 };
    let mut imager = DiskImager::new(&src_dev, config, None);
    let mut calls = 0usize;
    imager.run_imaging(&mut src_dev, &mut dst_dev, |_, _| calls += 1).unwrap();
    assert_eq!(calls, 8);
    assert_eq!(imager.stats().bad_bytes(), 512);
    assert_eq!(imager.stats().rescued_bytes(), 64 * 1024 - 512);
    let bad_sector = 5000 / 512 * 512;
    assert!(dst_dev.data[bad_sector..bad_sector + 512].iter().all(|&b| b == 0));
    assert_eq!(&dst_dev.data[..bad_sector], &data[..bad_sector]);
    assert_eq!(&dst_dev.data[bad_sector + 512..], &data[bad_sector + 512..]);
    let map = imager.mapfile();
    assert_eq!(
        map.blocks,
        vec![
            MapBlock { pos: 0, size: bad_sector as u64, status: BlockStatus::Finished },
            MapBlock { pos: bad_sector as u64, size: 512, status: BlockStatus::BadSector },
            MapBlock { pos: bad_sector as u64 + 512, size: (64 * 1024 - bad_sector - 512) as u64, status: BlockStatus::Finished },
        ]
    );
}

#[test]
fn imager_resumes_from_a_map() {
    let data = vec![7u8; 8192];
    let mut src_dev = MemDevice::new(data.clone());
    let mut dst_dev = MemDevice::new(vec![0u8; 8192]);
    let mut map = RecoveryMapFile::new_initial(8192);
    map.update_range(0, 4096, BlockStatus::Finished);
    let config = ImagerConfig::default();
    let mut imager = DiskImager::new(&src_dev, config, Some(map));
    imager.run_imaging(&mut src_dev, &mut dst_dev, |_, _| {}).unwrap();
    assert!(dst_dev.data[..4096].iter().all(|&b| b == 0));
    assert!(dst_dev.data[4096..].iter().all(|&b| b == 7));
    assert_eq!(imager.mapfile().blocks, vec![MapBlock { pos: 0, size: 8192, status: BlockStatus::Finished }]);
}

#[test]
fn imager_with_nothing_left_succeeds_without_writing() {
    let data = vec![9u8; 4096];
    let mut src_dev = MemDevice::new(data);
    src_dev.bad_from = 0;
    src_dev.bad_to = 4096;
    let mut dst_dev = MemDevice::new(vec![1u8; 4096]);
    let mut map = RecoveryMapFile::new_initial(4096);
    map.update_range(0, 4096, BlockStatus::Finished);
    let mut imager = DiskImager::new(&src_dev, ImagerConfig::default(), Some(map));
    let mut calls = 0usize;
    assert!(imager.run_imaging(&mut src_dev, &mut dst_dev, |_, _| calls += 1).is_ok());
    assert_eq!(calls, 0);
    assert_eq!(imager.stats().bad_bytes(), 0);
    assert!(dst_dev.data.iter().all(|&b| b == 1));
}
