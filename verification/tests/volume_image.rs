use corefs::block_device::{BlockDevice, MemoryDevice};
use corefs::block_store::{BlockRecord, FreeExtentRecord};
use corefs::device_volume::{encode_directory, SegmentLocation};
use corefs::domain::InodeId;
use corefs::error::CoreFsError;
use corefs::volume_image::{
    build_volume_image_bytes, checksum_of_segment_data, decode_segment_frame, decode_superblock,
    detect_framed_segment_length, encode_segment_frame, encode_superblock, find_segment,
    inspect_image_structure, inspection_report, join_blocks, parse_directory,
    read_best_superblock, read_image_from_device, reconstruct_free_extents_from_records,
    save_to_device, segment_bytes, split_blocks, validate_free_space_layout, validate_header_basics,
    validate_required_segments, ImageSuperblock, IMAGE_FORMAT_VERSION,
};

fn payloads() -> Vec<Vec<u8>> {
    (0..13u8).map(|i| vec![i; (i as usize) * 3 + 1]).collect()
}

fn sample_superblock(generation: u64) -> ImageSuperblock {
    ImageSuperblock {
        format_version: IMAGE_FORMAT_VERSION,
        alignment: 64,
        segment_count: 15,
        clean_unmount: 1,
        generation,
        directory_offset: 16,
        directory_length: 360,
        directory_checksum: 7,
        payload_checksum: 9,
    }
}

#[test]
fn segment_frame_round_trips() {
    let frame = encode_segment_frame(*b"CNFG", b"hello");
    assert_eq!(frame.len(), 24 + 5);
    assert_eq!(&frame[0..4], b"CNFG");
    assert_eq!(decode_segment_frame(&frame, b"CNFG").unwrap(), b"hello".to_vec());
    assert_eq!(detect_framed_segment_length(&frame, 0, b"CNFG").unwrap(), 29);
}

#[test]
fn segment_frame_rejects_wrong_kind_corruption_and_truncation() {
    let mut frame = encode_segment_frame(*b"CNFG", b"hello");
    assert!(matches!(decode_segment_frame(&frame, b"VOLM"), Err(CoreFsError::State(_))));
    assert!(decode_segment_frame(&frame[..27], b"CNFG").is_err());
    assert!(decode_segment_frame(&frame[..10], b"CNFG").is_err());
    frame[26] ^= 1;
    assert!(decode_segment_frame(&frame, b"CNFG").is_err());
}

#[test]
fn image_superblock_round_trips() {
    let sb = sample_superblock(42);
    let bytes = encode_superblock(&sb);
    assert_eq!(bytes.len(), 56);
    assert_eq!(decode_superblock(&bytes).unwrap(), sb);
    assert!(decode_superblock(&bytes[..55]).is_err());
}

#[test]
fn directory_round_trips() {
    let entries = vec![
        SegmentLocation { kind: *b"SUPR", offset: 384, length: 56 },
        SegmentLocation { kind: *b"DATA", offset: 448, length: 100 },
    ];
    let bytes = encode_directory(&entries);
    assert_eq!(parse_directory(&bytes).unwrap(), entries);
    assert!(parse_directory(&bytes[..47]).is_err());
    let found = find_segment(&entries, b"DATA").unwrap();
    assert_eq!(found.offset, 448);
    assert!(find_segment(&entries, b"FREE").is_err());
}

#[test]
fn header_validation() {
    let mut header = b"COREFS01".to_vec();
    header.extend_from_slice(&5u32.to_le_bytes());
    header.extend_from_slice(&15u32.to_le_bytes());
    assert!(validate_header_basics(&header).is_ok());
    assert!(validate_header_basics(&header[..15]).is_err());
    let mut bad = header.clone();
    bad[0] = b'X';
    assert!(validate_header_basics(&bad).is_err());
    let mut old = header.clone();
    old[8] = 4;
    let err = validate_header_basics(&old).unwrap_err();
    assert!(err.to_string().contains("version 4"));
}

#[test]
fn built_image_passes_inspection() {
    let image = build_volume_image_bytes(&payloads(), true).unwrap();
    let st = inspect_image_structure(&image).unwrap();
    assert_eq!(st.entries.len(), 15);
    assert_eq!(st.valid_superblocks, 2);
    assert_eq!(st.superblock.segment_count, 15);
    assert_eq!(st.superblock.clean_unmount, 1);
    assert_eq!(st.superblock.directory_checksum, st.directory_checksum);
    assert_eq!(st.superblock.payload_checksum, st.payload_checksum);
    assert!(validate_required_segments(&st.entries).is_ok());
    let cnfg = find_segment(&st.entries, b"CNFG").unwrap();
    assert_eq!(segment_bytes(&image, &cnfg).unwrap(), payloads()[0]);
    assert_eq!(checksum_of_segment_data(&image, &st.entries).unwrap(), st.payload_checksum);
    let report = inspection_report(&st, 3);
    assert_eq!(report.format_version, 5);
    assert_eq!(report.segment_count, 15);
    assert_eq!(report.segment_kinds[0], "SUPR");
    assert_eq!(report.segment_kinds[14], "DATA");
    assert!(report.directory_checksum_valid);
    assert!(report.payload_checksum_valid);
    assert_eq!(report.block_descriptors, 3);
}

#[test]
fn damaged_primary_superblock_falls_back_to_secondary() {
    let mut image = build_volume_image_bytes(&payloads(), false).unwrap();
    let st = inspect_image_structure(&image).unwrap();
    let primary = find_segment(&st.entries, b"SUPR").unwrap();
    image[primary.offset as usize + 40] ^= 0xFF;
    let st2 = inspect_image_structure(&image).unwrap();
    assert_eq!(st2.valid_superblocks, 1);
    assert_eq!(st2.superblock.clean_unmount, 0);
}

#[test]
fn best_superblock_prefers_newer_generation_and_second_on_tie() {
    let older = encode_superblock(&sample_superblock(1));
    let newer = encode_superblock(&sample_superblock(2));
    let mut image = vec![0u8; 256];
    image[0..56].copy_from_slice(&newer);
    image[64..120].copy_from_slice(&older);
    let p = SegmentLocation { kind: *b"SUPR", offset: 0, length: 56 };
    let q = SegmentLocation { kind: *b"SUP2", offset: 64, length: 56 };
    let (sb, valid) = read_best_superblock(&image, &p, &q, 7, 9, 15).unwrap();
    assert_eq!(valid, 2);
    assert_eq!(sb.generation, 2);
    image[64..120].copy_from_slice(&newer);
    let mut tie = sample_superblock(2);
    tie.clean_unmount = 0;
    image[64..120].copy_from_slice(&encode_superblock(&tie));
    let (sb, _) = read_best_superblock(&image, &p, &q, 7, 9, 15).unwrap();
    assert_eq!(sb.clean_unmount, 0);
    assert!(read_best_superblock(&image, &p, &q, 8, 9, 15).is_err());
}

#[test]
fn save_to_device_then_read_back() {
    let mut dev = MemoryDevice::new(64 * 4096, 512).unwrap();
    save_to_device(&mut dev, &payloads(), true).unwrap();
    let image = read_image_from_device(&dev, true).unwrap();
    assert_eq!(image.len() % 512, 0);
    let st = inspect_image_structure(&image).unwrap();
    assert_eq!(st.valid_superblocks, 2);
    let data = find_segment(&st.entries, b"DATA").unwrap();
    assert_eq!(segment_bytes(&image, &data).unwrap(), payloads()[12]);
}

#[test]
fn save_to_device_rejects_small_device() {
    let mut dev = MemoryDevice::new(512, 512).unwrap();
    assert!(matches!(save_to_device(&mut dev, &payloads(), true), Err(CoreFsError::State(_))));
}

#[test]
fn read_image_from_unformatted_device_fails() {
    let dev = MemoryDevice::new(8 * 4096, 4096).unwrap();
    assert!(read_image_from_device(&dev, false).is_err());
}

#[test]
fn split_then_join_returns_records() {
    let records = vec![
        BlockRecord { inode: InodeId(1), bytes: b"abc".to_vec(), checksum: 11, device_block: 0, allocated_blocks: 1 },
        BlockRecord { inode: InodeId(2), bytes: vec![7u8; 10], checksum: 22, device_block: 2, allocated_blocks: 0 },
    ];
    let (descriptors, data) = split_blocks(&records, 8);
    assert_eq!(descriptors.len(), 2);
    assert_eq!(descriptors[1].offset, 16);
    assert_eq!(descriptors[1].allocated_blocks, 1);
    assert_eq!(data.len(), 26);
    let joined = join_blocks(descriptors, &data).unwrap();
    assert_eq!(joined[0], records[0]);
    assert_eq!(joined[1].bytes, records[1].bytes);
    assert_eq!(joined[1].allocated_blocks, 1);
}

#[test]
fn join_rejects_descriptor_past_data() {
    let records = vec![BlockRecord { inode: InodeId(1), bytes: b"abc".to_vec(), checksum: 1, device_block: 0, allocated_blocks: 1 }];
    let (descriptors, data) = split_blocks(&records, 4);
    assert!(join_blocks(descriptors, &data[..2]).is_err());
}

fn record(device_block: u64, allocated_blocks: u64) -> BlockRecord {
    BlockRecord { inode: InodeId(device_block), bytes: Vec::new(), checksum: 0, device_block, allocated_blocks }
}

fn free(device_block: u64, allocated_blocks: u64) -> FreeExtentRecord {
    FreeExtentRecord { device_block, allocated_blocks }
}

#[test]
fn free_extents_are_the_gaps_between_records() {
    let records = vec![record(7, 1), record(2, 2), record(3, 2)];
    assert_eq!(reconstruct_free_extents_from_records(&records), vec![free(0, 2), free(5, 2)]);
    assert!(reconstruct_free_extents_from_records(&[]).is_empty());
    assert_eq!(reconstruct_free_extents_from_records(&[record(0, 0)]), Vec::<FreeExtentRecord>::new());
}

#[test]
fn free_space_layout_checks() {
    let records = vec![record(2, 2), record(7, 1)];
    assert!(validate_free_space_layout(&records, &[free(5, 2), free(0, 2)]).is_ok());
    assert!(matches!(validate_free_space_layout(&records, &[free(0, 0)]), Err(CoreFsError::State(_))));
    let err = validate_free_space_layout(&records, &[free(0, 2), free(1, 1)]).unwrap_err();
    assert!(err.to_string().contains("overlap"));
    let err = validate_free_space_layout(&records, &[free(3, 1)]).unwrap_err();
    assert!(err.to_string().contains("allocated blocks"));
}

#[test]
fn save_to_device_rejects_insufficient_capacity() {
    let mut payloads = payloads();
    payloads[12] = vec![0xAA; 8192];
    let mut dev = MemoryDevice::new(4096, 4096).unwrap();
    let err = save_to_device(&mut dev, &payloads, true).unwrap_err();
    assert!(err.to_string().contains("exceeds device capacity"));
    assert!(dev.read_at(0, 4096).unwrap().iter().all(|&b| b == 0));
}

#[test]
fn build_volume_image_bytes_creates_valid_image() {
    let bytes = build_volume_image_bytes(&payloads(), true).unwrap();
    assert_eq!(&bytes[..8], b"COREFS01");
    let version = u32::from_le_bytes(bytes[8..12].try_into().unwrap());
    assert_eq!(version, IMAGE_FORMAT_VERSION);
}

#[test]
fn free_extents_are_rebuilt_when_none_were_stored() {
    let records = vec![
        BlockRecord { inode: InodeId(1), bytes: vec![1; 10], checksum: 1, device_block: 0, allocated_blocks: 1 },
        BlockRecord { inode: InodeId(2), bytes: vec![2; 10], checksum: 2, device_block: 3, allocated_blocks: 1 },
    ];
    let free = corefs::volume_image::free_extents_for_records(&records, Vec::new()).unwrap();
    assert_eq!(free, vec![FreeExtentRecord { device_block: 1, allocated_blocks: 2 }]);
    let stored = vec![FreeExtentRecord { device_block: 1, allocated_blocks: 2 }];
    assert_eq!(corefs::volume_image::free_extents_for_records(&records, stored.clone()).unwrap(), stored);
    let overlapping = vec![FreeExtentRecord { device_block: 0, allocated_blocks: 2 }];
    assert!(matches!(
        corefs::volume_image::free_extents_for_records(&records, overlapping),
        Err(CoreFsError::State(_))
    ));
}
