use corefs::block_device::{BlockDevice, MemoryDevice};
use corefs::ondisk::bitmap::Bitmap;
use corefs::ondisk::inode::{OnDiskInode, OnDiskKind, INODE_RECORD_SIZE};
use corefs::ondisk::journal::{Journal, JournalHeader, JSTATE_CLEAN};
use corefs::ondisk::layout::BLOCK_SIZE;
use corefs::ondisk::superblock::Superblock;
use corefs::ondisk::volume::{format_device, inspect, load_state, save_state, FormatOptions};

fn fresh_device(blocks: u64) -> MemoryDevice {
    MemoryDevice::new(blocks * BLOCK_SIZE, 4096).unwrap()
}

fn default_options() -> FormatOptions {
    FormatOptions {
        label: "odf-test".to_string(),
        uuid: *b"0123456789ABCDEF",
        inode_count: 1024,
        journal_blocks: 32,
    }
}

#[test]
fn inspect_reports_redundant_copy_health() {
    let mut dev = fresh_device(4096);
    format_device(&mut dev, &default_options()).unwrap();
    let info = inspect(&dev).unwrap();
    assert!(info.primary_ok);
    assert!(info.tertiary_ok);
    assert!(info.secondary_ok);
    assert_eq!(info.label, "odf-test");
}

#[test]
fn reject_volume_too_small() {
    let mut dev = MemoryDevice::new(32 * BLOCK_SIZE, 4096).unwrap();
    assert!(format_device(&mut dev, &default_options()).is_err());
}

#[test]
fn format_initialises_all_control_regions() {
    let mut dev = fresh_device(4096);
    let report = format_device(&mut dev, &default_options()).unwrap();
    let sb_bytes = dev.read_at(BLOCK_SIZE, BLOCK_SIZE).unwrap();
    let sb = Superblock::decode_block(&sb_bytes).unwrap();
    assert_eq!(sb.total_blocks, report.geometry.total_blocks);
    assert_eq!(sb.uuid, report.uuid);
    assert_eq!(&sb.label[..8], b"odf-test");
    assert_eq!(sb.generation, 1);
    let header = Journal::inspect(&dev, &sb).unwrap();
    assert_eq!(header, JournalHeader::fresh((sb.journal_blocks - 1) * BLOCK_SIZE));
    assert_eq!(header.state, JSTATE_CLEAN);
    // The empty system payload inode has no extents, so nothing can be loaded.
    assert!(load_state(&dev).is_err());
}

#[test]
fn save_then_load_returns_the_payload() {
    let mut dev = fresh_device(4096);
    format_device(&mut dev, &default_options()).unwrap();
    let payload = b"persisted state bytes".to_vec();
    let report = save_state(&mut dev, &payload).unwrap();
    assert_eq!(report.payload_bytes, payload.len() as u64 + 4);
    assert_eq!(report.payload_blocks, 1);
    assert_eq!(load_state(&dev).unwrap(), payload);
}

#[test]
fn generation_advances_across_saves() {
    let mut dev = fresh_device(4096);
    format_device(&mut dev, &default_options()).unwrap();
    let s = vec![1u8, 2, 3];
    let r1 = save_state(&mut dev, &s).unwrap();
    let r2 = save_state(&mut dev, &s).unwrap();
    let r3 = save_state(&mut dev, &s).unwrap();
    assert_eq!(r1.generation, 2);
    assert_eq!(r2.generation, 3);
    assert_eq!(r3.generation, 4);
}

#[test]
fn save_updates_bitmap_to_reflect_payload_allocation() {
    let mut dev = fresh_device(4096);
    format_device(&mut dev, &default_options()).unwrap();
    let payload = vec![0x5Au8; 3 * 4096];
    let report = save_state(&mut dev, &payload).unwrap();
    assert_eq!(report.payload_blocks, 4);
    let sb_bytes = dev.read_at(BLOCK_SIZE, BLOCK_SIZE).unwrap();
    let sb = Superblock::decode_block(&sb_bytes).unwrap();
    let bitmap_bytes = dev.read_at(sb.block_bitmap_start * BLOCK_SIZE, sb.block_bitmap_blocks * BLOCK_SIZE).unwrap();
    let bitmap = Bitmap::from_bytes(bitmap_bytes, sb.total_blocks).unwrap();
    for i in 0..report.payload_blocks {
        assert!(bitmap.is_set(sb.data_start + i).unwrap());
    }
    assert!(!bitmap.is_set(sb.data_start + report.payload_blocks).unwrap());
    let block = dev.read_at(sb.inode_table_start * BLOCK_SIZE, BLOCK_SIZE).unwrap();
    let inode = OnDiskInode::decode(&block[..INODE_RECORD_SIZE]).unwrap();
    assert_eq!(inode.kind, OnDiskKind::SystemPayload);
    assert_eq!(inode.extents.len(), 1);
    assert_eq!(inode.size_bytes, payload.len() as u64 + 4);
    assert_eq!(load_state(&dev).unwrap(), payload);
}

#[test]
fn load_falls_back_to_a_redundant_superblock() {
    let mut dev = fresh_device(4096);
    format_device(&mut dev, &default_options()).unwrap();
    save_state(&mut dev, b"fallback").unwrap();
    let mut primary = dev.read_at(BLOCK_SIZE, BLOCK_SIZE).unwrap();
    primary[0] ^= 0xFF;
    dev.write_at(BLOCK_SIZE, &primary).unwrap();
    assert_eq!(load_state(&dev).unwrap(), b"fallback".to_vec());
    let info = inspect(&dev).unwrap();
    assert!(!info.primary_ok);
    assert!(info.tertiary_ok);
    assert_eq!(info.generation, 2);
}

#[test]
fn load_detects_a_corrupted_payload() {
    let mut dev = fresh_device(4096);
    format_device(&mut dev, &default_options()).unwrap();
    save_state(&mut dev, b"payload").unwrap();
    let sb = Superblock::decode_block(&dev.read_at(BLOCK_SIZE, BLOCK_SIZE).unwrap()).unwrap();
    let mut data = dev.read_at(sb.data_start * BLOCK_SIZE, BLOCK_SIZE).unwrap();
    data[0] ^= 0x01;
    dev.write_at(sb.data_start * BLOCK_SIZE, &data).unwrap();
    let err = load_state(&dev).unwrap_err();
    assert!(err.to_string().contains("CRC"));
}

#[test]
fn reports_error_when_unformatted_device_is_loaded() {
    let dev = fresh_device(4096);
    let err = load_state(&dev).unwrap_err();
    assert!(err.to_string().contains("superblock"));
}

#[test]
fn default_format_options() {
    let o = FormatOptions::default();
    assert_eq!(o.label, "corefs");
    assert_eq!(o.uuid, [0u8; 16]);
    assert_eq!(o.inode_count, 4096);
    assert_eq!(o.journal_blocks, 64);
}

#[test]
fn save_then_load_round_trips_a_multi_block_payload() {
    let mut dev = fresh_device(4096);
    format_device(&mut dev, &default_options()).unwrap();
    let payload: Vec<u8> = (0..3 * 4096 + 17).map(|i| (i % 251) as u8).collect();
    let report = save_state(&mut dev, &payload).unwrap();
    assert_eq!(report.payload_blocks, 4);
    assert_eq!(load_state(&dev).unwrap(), payload);
}

#[test]
fn payload_reaching_the_middle_superblock_copy_does_not_load_back() {
    // The middle superblock copy is written after the payload blocks, so a
    // payload that runs over it is damaged and fails its checksum.
    let mut dev = fresh_device(512);
    format_device(&mut dev, &default_options()).unwrap();
    let payload = vec![0x5Au8; 300 * 4096];
    save_state(&mut dev, &payload).unwrap();
    assert!(load_state(&dev).is_err());
}
