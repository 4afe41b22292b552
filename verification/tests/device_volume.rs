use corefs::block_device::{BlockDevice, MemoryDevice};
use corefs::device_volume::{read_segment_index, save_segments, DeviceJournal, DeviceVolume, SUPERBLOCK_SIZE};
use corefs::error::CoreFsError;

const TWO_MIB: u64 = 2 * 1024 * 1024;

const KINDS: [[u8; 4]; 15] = [
    *b"SUPR", *b"SUP2", *b"CNFG", *b"VOLM", *b"AINO", *b"DINO", *b"JOUR", *b"VERS", *b"SYNC",
    *b"HOTP", *b"SNAP", *b"TXNJ", *b"FREE", *b"BLKD", *b"DATA",
];

fn segments(with_files: bool) -> (Vec<[u8; 4]>, Vec<Vec<u8>>) {
    let mut datas = Vec::new();
    for kind in KINDS.iter() {
        let data: Vec<u8> = match kind {
            b"CNFG" => bincode::serialize(&("corefs", 4096u32, true)).unwrap(),
            b"VOLM" => bincode::serialize(&("volume", 1u64)).unwrap(),
            b"AINO" if with_files => bincode::serialize(&vec!["/data", "/data/hello.txt", "/data/readme.md"]).unwrap(),
            b"BLKD" if with_files => bincode::serialize(&vec![(2u64, 0u64, 13u64), (3u64, 13u64, 8u64)]).unwrap(),
            b"DATA" if with_files => b"Hello, World!# CoreFS".to_vec(),
            _ => Vec::new(),
        };
        datas.push(data);
    }
    (KINDS.to_vec(), datas)
}

fn formatted(capacity: u64, sector: u32, with_files: bool) -> MemoryDevice {
    let mut dev = MemoryDevice::new(capacity, sector).unwrap();
    let (kinds, datas) = segments(with_files);
    save_segments(&mut dev, &kinds, &datas).unwrap();
    dev
}

fn format_device(capacity: u64) -> MemoryDevice {
    formatted(capacity, 4096, false)
}

fn format_device_with_files(capacity: u64) -> MemoryDevice {
    formatted(capacity, 4096, true)
}

type TestWal = (u64, String, Vec<(String, u64)>);

fn make_test_wal() -> (Vec<u8>, u32) {
    let wal: TestWal = (
        42,
        "test-wal".to_string(),
        vec![("/test".to_string(), 1), ("/test/file.txt".to_string(), 2)],
    );
    (bincode::serialize(&wal).unwrap(), 2)
}

fn decode_wal(bytes: &[u8]) -> TestWal {
    bincode::deserialize(bytes).unwrap()
}

#[test]
fn segment_index_reads_header_and_directory() {
    let dev = format_device(TWO_MIB);
    let index = read_segment_index(&dev).unwrap();
    assert_eq!(index.segment_count, 15);
    assert_eq!(index.segments.len(), 15);
    assert!(index.image_end > 0);
    assert!(index.find(b"SUPR").is_some());
    assert!(index.find(b"SUP2").is_some());
    assert!(index.find(b"CNFG").is_some());
    assert!(index.find(b"DATA").is_some());
    assert!(index.find(b"BLKD").is_some());
}

#[test]
fn segment_index_rejects_unformatted_device() {
    let dev = MemoryDevice::new(TWO_MIB, 4096).unwrap();
    let err = read_segment_index(&dev).unwrap_err();
    assert!(err.to_string().contains("invalid magic"));
}

#[test]
fn segment_index_find_returns_none_for_unknown() {
    let dev = format_device(TWO_MIB);
    let index = read_segment_index(&dev).unwrap();
    assert!(index.find(b"XXXX").is_none());
}

#[test]
fn device_volume_opens_formatted_device() {
    let dev = format_device(TWO_MIB);
    let vol = DeviceVolume::open(dev).unwrap();
    assert_eq!(vol.index().segment_count, 15);
    assert!(!vol.is_dirty());
    assert_eq!(vol.cached_segment_count(), 0);
}

#[test]
fn device_volume_reads_segment_on_demand() {
    let dev = format_device(TWO_MIB);
    let mut vol = DeviceVolume::open(dev).unwrap();
    assert_eq!(vol.cached_segment_count(), 0);
    let cnfg = vol.read_segment(b"CNFG").unwrap();
    assert!(!cnfg.is_empty());
    assert_eq!(vol.cached_segment_count(), 1);
    let cnfg2 = vol.read_segment(b"CNFG").unwrap();
    assert_eq!(cnfg, cnfg2);
}

#[test]
fn device_volume_reads_data_segment() {
    let dev = format_device_with_files(TWO_MIB);
    let mut vol = DeviceVolume::open(dev).unwrap();
    let data = vol.read_segment(b"DATA").unwrap();
    assert!(!data.is_empty());
}

#[test]
fn device_volume_reads_all_segments() {
    let dev = format_device_with_files(TWO_MIB);
    let mut vol = DeviceVolume::open(dev).unwrap();
    let kinds: Vec<[u8; 4]> = vol.index().segments.iter().map(|s| s.kind).collect();
    for kind in &kinds {
        let data = vol.read_segment(kind).unwrap();
        let _ = data;
    }
    assert_eq!(vol.cached_segment_count(), 15);
}

#[test]
fn device_volume_rejects_unknown_segment() {
    let dev = format_device(TWO_MIB);
    let mut vol = DeviceVolume::open(dev).unwrap();
    let err = vol.read_segment(b"ZZZZ").unwrap_err();
    assert!(matches!(err, CoreFsError::NotFound(_)));
}

#[test]
fn device_volume_write_marks_dirty() {
    let dev = format_device(TWO_MIB);
    let mut vol = DeviceVolume::open(dev).unwrap();
    assert!(!vol.is_dirty());
    vol.write_segment(*b"CNFG", vec![1, 2, 3]);
    assert!(vol.is_dirty());
    assert_eq!(vol.dirty_segment_count(), 1);
}

#[test]
fn device_volume_write_read_returns_dirty_data() {
    let dev = format_device(TWO_MIB);
    let mut vol = DeviceVolume::open(dev).unwrap();
    let original = vol.read_segment(b"CNFG").unwrap();
    vol.write_segment(*b"CNFG", vec![0xAA; 10]);
    let dirty = vol.read_segment(b"CNFG").unwrap();
    assert_eq!(dirty, vec![0xAA; 10]);
    assert_ne!(dirty, original);
}

#[test]
fn device_volume_flush_writes_and_clears_dirty() {
    let dev = format_device_with_files(TWO_MIB);
    let mut vol = DeviceVolume::open(dev).unwrap();
    let _original = vol.read_segment(b"CNFG").unwrap();
    vol.write_segment(*b"CNFG", vec![0xBB; 20]);
    vol.flush().unwrap();
    assert!(!vol.is_dirty());
    vol.invalidate_cache();
    let reread = vol.read_segment(b"CNFG").unwrap();
    assert_eq!(reread, vec![0xBB; 20]);
}

#[test]
fn device_volume_flush_preserves_other_segments() {
    let dev = format_device_with_files(TWO_MIB);
    let mut vol = DeviceVolume::open(dev).unwrap();
    let original_data = vol.read_segment(b"DATA").unwrap();
    vol.write_segment(*b"CNFG", vec![0xCC; 15]);
    vol.flush().unwrap();
    vol.invalidate_cache();
    let after_data = vol.read_segment(b"DATA").unwrap();
    assert_eq!(original_data, after_data);
}

#[test]
fn device_volume_invalidate_cache_forces_device_read() {
    let dev = format_device(TWO_MIB);
    let mut vol = DeviceVolume::open(dev).unwrap();
    let _first = vol.read_segment(b"CNFG").unwrap();
    assert_eq!(vol.cached_segment_count(), 1);
    vol.invalidate_cache();
    assert_eq!(vol.cached_segment_count(), 0);
}

#[test]
fn device_volume_multiple_flush_cycles() {
    let dev = format_device(TWO_MIB);
    let mut vol = DeviceVolume::open(dev).unwrap();
    vol.write_segment(*b"CNFG", vec![1; 10]);
    vol.flush().unwrap();
    vol.write_segment(*b"CNFG", vec![2; 20]);
    vol.flush().unwrap();
    vol.invalidate_cache();
    let final_data = vol.read_segment(b"CNFG").unwrap();
    assert_eq!(final_data, vec![2; 20]);
}

#[test]
fn device_volume_flush_no_dirty_is_noop() {
    let dev = format_device(TWO_MIB);
    let mut vol = DeviceVolume::open(dev).unwrap();
    vol.flush().unwrap();
    assert!(!vol.is_dirty());
}

#[test]
fn device_volume_works_with_512_byte_sectors() {
    let dev = formatted(TWO_MIB, 512, false);
    let mut vol = DeviceVolume::open(dev).unwrap();
    let cnfg = vol.read_segment(b"CNFG").unwrap();
    assert!(!cnfg.is_empty());
    vol.write_segment(*b"CNFG", vec![0xDD; 30]);
    vol.flush().unwrap();
    vol.invalidate_cache();
    let reread = vol.read_segment(b"CNFG").unwrap();
    assert_eq!(reread, vec![0xDD; 30]);
}

#[test]
fn device_journal_opens_empty_on_uninitialized_device() {
    let dev = MemoryDevice::new(TWO_MIB, 4096).unwrap();
    let journal = DeviceJournal::open(&dev, 1024 * 1024).unwrap();
    assert!(!journal.has_entries());
    assert_eq!(journal.generation(), 0);
}

#[test]
fn device_journal_commit_and_read_back() {
    let mut dev = MemoryDevice::new(TWO_MIB, 4096).unwrap();
    let offset = 1024 * 1024;
    let (wal, ops) = make_test_wal();
    {
        let mut journal = DeviceJournal::open(&dev, offset).unwrap();
        journal.commit(&mut dev, &wal, ops).unwrap();
        assert!(journal.has_entries());
        assert_eq!(journal.generation(), 1);
    }
    let journal2 = DeviceJournal::open(&dev, offset).unwrap();
    assert!(journal2.has_entries());
    let recovered = decode_wal(journal2.entries().unwrap());
    assert_eq!(recovered.0, 42);
    assert_eq!(recovered.2.len(), 2);
}

#[test]
fn device_journal_clear_removes_entries() {
    let mut dev = MemoryDevice::new(TWO_MIB, 4096).unwrap();
    let offset = 1024 * 1024;
    let (wal, ops) = make_test_wal();
    let mut journal = DeviceJournal::open(&dev, offset).unwrap();
    journal.commit(&mut dev, &wal, ops).unwrap();
    assert!(journal.has_entries());
    journal.clear(&mut dev).unwrap();
    assert!(!journal.has_entries());
    let journal2 = DeviceJournal::open(&dev, offset).unwrap();
    assert!(!journal2.has_entries());
}

#[test]
fn device_journal_generation_increments() {
    let mut dev = MemoryDevice::new(TWO_MIB, 4096).unwrap();
    let offset = 1024 * 1024;
    let (wal, ops) = make_test_wal();
    let mut journal = DeviceJournal::open(&dev, offset).unwrap();
    journal.commit(&mut dev, &wal, ops).unwrap();
    assert_eq!(journal.generation(), 1);
    journal.clear(&mut dev).unwrap();
    assert_eq!(journal.generation(), 2);
    journal.commit(&mut dev, &wal, ops).unwrap();
    assert_eq!(journal.generation(), 3);
}

#[test]
fn device_journal_take_entries_consumes() {
    let mut dev = MemoryDevice::new(TWO_MIB, 4096).unwrap();
    let offset = 1024 * 1024;
    let (wal, ops) = make_test_wal();
    let mut journal = DeviceJournal::open(&dev, offset).unwrap();
    journal.commit(&mut dev, &wal, ops).unwrap();
    let taken = journal.take_entries();
    assert!(taken.is_some());
    assert!(!journal.has_entries());
}

#[test]
fn device_journal_no_space_returns_error() {
    let dev = MemoryDevice::new(4096, 4096).unwrap();
    let mut journal = DeviceJournal::open(&dev, 4096).unwrap();
    let (wal, ops) = make_test_wal();
    let mut other = MemoryDevice::new(4096, 4096).unwrap();
    let err = journal.commit(&mut other, &wal, ops);
    assert!(err.is_err());
}

#[test]
fn device_volume_and_journal_coexist() {
    let dev = format_device_with_files(TWO_MIB);
    let vol = DeviceVolume::open(dev).unwrap();
    assert!(vol.journal_offset() > 0);
    assert!(vol.journal_offset() >= vol.index().image_end);
    let journal = vol.open_journal().unwrap();
    assert!(!journal.has_entries());
}

#[test]
fn device_volume_journal_commit_survives_flush() {
    let dev = format_device_with_files(TWO_MIB);
    let mut vol = DeviceVolume::open(dev).unwrap();
    let (wal, ops) = make_test_wal();
    {
        let mut journal = vol.open_journal().unwrap();
        journal.commit(vol.device_mut(), &wal, ops).unwrap();
    }
    vol.write_segment(*b"CNFG", vec![0xEE; 12]);
    vol.flush().unwrap();
    let journal2 = vol.open_journal().unwrap();
    assert!(journal2.has_entries());
    assert_eq!(decode_wal(journal2.entries().unwrap()).0, 42);
}

#[test]
fn device_volume_journal_clear_after_successful_flush() {
    let dev = format_device_with_files(TWO_MIB);
    let mut vol = DeviceVolume::open(dev).unwrap();
    let (wal, ops) = make_test_wal();
    {
        let mut journal = vol.open_journal().unwrap();
        journal.commit(vol.device_mut(), &wal, ops).unwrap();
    }
    vol.flush().unwrap();
    {
        let mut journal = vol.open_journal().unwrap();
        journal.clear(vol.device_mut()).unwrap();
    }
    let journal_final = vol.open_journal().unwrap();
    assert!(!journal_final.has_entries());
}

#[test]
fn full_round_trip_format_then_on_demand_read() {
    let dev = format_device_with_files(TWO_MIB);
    let mut vol = DeviceVolume::open(dev).unwrap();
    let supr = vol.read_segment(b"SUPR").unwrap();
    assert_eq!(supr.len(), SUPERBLOCK_SIZE);
    let cnfg = vol.read_segment(b"CNFG").unwrap();
    assert!(!cnfg.is_empty());
    let blkd = vol.read_segment(b"BLKD").unwrap();
    assert!(!blkd.is_empty());
    let data = vol.read_segment(b"DATA").unwrap();
    assert!(!data.is_empty());
    assert_eq!(vol.cached_segment_count(), 4);
}

#[test]
fn save_segments_round_trips_every_payload() {
    let mut dev = MemoryDevice::new(TWO_MIB, 4096).unwrap();
    let (kinds, datas) = segments(true);
    let index = save_segments(&mut dev, &kinds, &datas).unwrap();
    let reread = read_segment_index(&dev).unwrap();
    assert_eq!(reread.segments, index.segments);
    let mut vol = DeviceVolume::open(dev).unwrap();
    for (kind, data) in kinds.iter().zip(datas.iter()) {
        let got = vol.read_segment(kind).unwrap();
        if kind != b"SUPR" && kind != b"SUP2" {
            assert_eq!(&got, data);
        } else {
            assert_eq!(got.len(), SUPERBLOCK_SIZE);
        }
    }
    assert_eq!(vol.device().capacity(), TWO_MIB);
}

#[test]
fn save_segments_rejects_a_device_that_is_too_small() {
    let mut dev = MemoryDevice::new(4096, 4096).unwrap();
    let kinds = vec![*b"DATA"];
    let datas = vec![vec![7u8; 8192]];
    assert!(save_segments(&mut dev, &kinds, &datas).is_err());
}

#[test]
fn device_volume_segment_index_reads_header_and_directory() {
    segment_index_reads_header_and_directory();
}

#[test]
fn device_volume_tests_segment_index_reads_header_and_directory() {
    segment_index_reads_header_and_directory();
}

#[test]
fn device_volume_segment_index_rejects_unformatted_device() {
    segment_index_rejects_unformatted_device();
}

#[test]
fn device_volume_tests_segment_index_rejects_unformatted_device() {
    segment_index_rejects_unformatted_device();
}

#[test]
fn device_volume_segment_index_find_returns_none_for_unknown() {
    segment_index_find_returns_none_for_unknown();
}

#[test]
fn device_volume_tests_segment_index_find_returns_none_for_unknown() {
    segment_index_find_returns_none_for_unknown();
}

#[test]
fn device_volume_device_volume_opens_formatted_device() {
    device_volume_opens_formatted_device();
}

#[test]
fn device_volume_tests_device_volume_opens_formatted_device() {
    device_volume_opens_formatted_device();
}

#[test]
fn device_volume_device_volume_reads_segment_on_demand() {
    device_volume_reads_segment_on_demand();
}

#[test]
fn device_volume_tests_device_volume_reads_segment_on_demand() {
    device_volume_reads_segment_on_demand();
}

#[test]
fn device_volume_device_volume_reads_data_segment() {
    device_volume_reads_data_segment();
}

#[test]
fn device_volume_tests_device_volume_reads_data_segment() {
    device_volume_reads_data_segment();
}

#[test]
fn device_volume_device_volume_reads_all_segments() {
    device_volume_reads_all_segments();
}

#[test]
fn device_volume_tests_device_volume_reads_all_segments() {
    device_volume_reads_all_segments();
}

#[test]
fn device_volume_device_volume_rejects_unknown_segment() {
    device_volume_rejects_unknown_segment();
}

#[test]
fn device_volume_tests_device_volume_rejects_unknown_segment() {
    device_volume_rejects_unknown_segment();
}

#[test]
fn device_volume_device_volume_write_marks_dirty() {
    device_volume_write_marks_dirty();
}

#[test]
fn device_volume_tests_device_volume_write_marks_dirty() {
    device_volume_write_marks_dirty();
}

#[test]
fn device_volume_device_volume_write_read_returns_dirty_data() {
    device_volume_write_read_returns_dirty_data();
}

#[test]
fn device_volume_tests_device_volume_write_read_returns_dirty_data() {
    device_volume_write_read_returns_dirty_data();
}

#[test]
fn device_volume_device_volume_flush_writes_and_clears_dirty() {
    device_volume_flush_writes_and_clears_dirty();
}

#[test]
fn device_volume_tests_device_volume_flush_writes_and_clears_dirty() {
    device_volume_flush_writes_and_clears_dirty();
}

#[test]
fn device_volume_device_volume_flush_preserves_other_segments() {
    device_volume_flush_preserves_other_segments();
}

#[test]
fn device_volume_tests_device_volume_flush_preserves_other_segments() {
    device_volume_flush_preserves_other_segments();
}

#[test]
fn device_volume_device_volume_invalidate_cache_forces_device_read() {
    device_volume_invalidate_cache_forces_device_read();
}

#[test]
fn device_volume_tests_device_volume_invalidate_cache_forces_device_read() {
    device_volume_invalidate_cache_forces_device_read();
}

#[test]
fn device_volume_device_volume_multiple_flush_cycles() {
    device_volume_multiple_flush_cycles();
}

#[test]
fn device_volume_tests_device_volume_multiple_flush_cycles() {
    device_volume_multiple_flush_cycles();
}

#[test]
fn device_volume_device_volume_flush_no_dirty_is_noop() {
    device_volume_flush_no_dirty_is_noop();
}

#[test]
fn device_volume_tests_device_volume_flush_no_dirty_is_noop() {
    device_volume_flush_no_dirty_is_noop();
}

#[test]
fn device_volume_device_volume_works_with_512_byte_sectors() {
    device_volume_works_with_512_byte_sectors();
}

#[test]
fn device_volume_tests_device_volume_works_with_512_byte_sectors() {
    device_volume_works_with_512_byte_sectors();
}

#[test]
fn device_volume_device_journal_opens_empty_on_uninitialized_device() {
    device_journal_opens_empty_on_uninitialized_device();
}

#[test]
fn device_volume_tests_device_journal_opens_empty_on_uninitialized_device() {
    device_journal_opens_empty_on_uninitialized_device();
}

#[test]
fn device_volume_device_journal_commit_and_read_back() {
    device_journal_commit_and_read_back();
}

#[test]
fn device_volume_tests_device_journal_commit_and_read_back() {
    device_journal_commit_and_read_back();
}

#[test]
fn device_volume_device_journal_clear_removes_entries() {
    device_journal_clear_removes_entries();
}

#[test]
fn device_volume_tests_device_journal_clear_removes_entries() {
    device_journal_clear_removes_entries();
}

#[test]
fn device_volume_device_journal_generation_increments() {
    device_journal_generation_increments();
}

#[test]
fn device_volume_tests_device_journal_generation_increments() {
    device_journal_generation_increments();
}

#[test]
fn device_volume_device_journal_take_entries_consumes() {
    device_journal_take_entries_consumes();
}

#[test]
fn device_volume_tests_device_journal_take_entries_consumes() {
    device_journal_take_entries_consumes();
}

#[test]
fn device_volume_device_journal_no_space_returns_error() {
    device_journal_no_space_returns_error();
}

#[test]
fn device_volume_tests_device_journal_no_space_returns_error() {
    device_journal_no_space_returns_error();
}

#[test]
fn device_volume_device_volume_and_journal_coexist() {
    device_volume_and_journal_coexist();
}

#[test]
fn device_volume_tests_device_volume_and_journal_coexist() {
    device_volume_and_journal_coexist();
}

#[test]
fn device_volume_device_volume_journal_commit_survives_flush() {
    device_volume_journal_commit_survives_flush();
}

#[test]
fn device_volume_tests_device_volume_journal_commit_survives_flush() {
    device_volume_journal_commit_survives_flush();
}

#[test]
fn device_volume_device_volume_journal_clear_after_successful_flush() {
    device_volume_journal_clear_after_successful_flush();
}

#[test]
fn device_volume_tests_device_volume_journal_clear_after_successful_flush() {
    device_volume_journal_clear_after_successful_flush();
}

#[test]
fn device_volume_full_round_trip_format_then_on_demand_read() {
    full_round_trip_format_then_on_demand_read();
}

#[test]
fn device_volume_tests_full_round_trip_format_then_on_demand_read() {
    full_round_trip_format_then_on_demand_read();
}

#[test]
fn device_volume_opens_an_image_written_by_save_to_device() {
    let payloads: Vec<Vec<u8>> = (0..13u8).map(|i| vec![i; (i as usize) * 5 + 2]).collect();
    let mut dev = MemoryDevice::new(TWO_MIB, 4096).unwrap();
    corefs::volume_image::save_to_device(&mut dev, &payloads, true).unwrap();
    let vol = DeviceVolume::open(dev).unwrap();
    assert_eq!(vol.index().segment_count, 15);
    assert!(vol.index().find(b"DATA").is_some());
    assert!(!vol.is_dirty());
    assert_eq!(vol.cached_segment_count(), 0);
    assert!(vol.journal_offset() >= vol.index().image_end);
}
