use corefs::ondisk::checksum::Crc32c;
use corefs::ondisk::inode::{Extent, OnDiskInode, OnDiskKind, INODE_CHECKSUM_OFFSET, INODE_RECORD_SIZE};
use corefs::ondisk::layout::{
    LayoutGeometry, LayoutParams, BITS_PER_BITMAP_BLOCK, BLOCK_SIZE, INODES_PER_BLOCK, INODE_SIZE,
    ODF_MAGIC, ODF_VERSION_MAJOR,
};
use corefs::ondisk::superblock::{Superblock, STATE_CLEAN, SUPERBLOCK_CHECKSUM_OFFSET};

fn sample() -> OnDiskInode {
    OnDiskInode {
        version: 1,
        kind: OnDiskKind::File,
        mode: 0o100644,
        uid: 1000,
        gid: 1000,
        link_count: 1,
        flags: 0,
        size_bytes: 12_345,
        blocks_allocated: 4,
        created_at: 1_700_000_000,
        modified_at: 1_700_000_100,
        changed_at: 1_700_000_200,
        accessed_at: 1_700_000_300,
        generation: 42,
        extents: vec![
            Extent { logical_block: 0, length_blocks: 2, physical_block: 1000 },
            Extent { logical_block: 2, length_blocks: 2, physical_block: 2000 },
        ],
    }
}

#[test]
fn roundtrip_preserves_fields() {
    let inode = sample();
    let enc = inode.encode().unwrap();
    assert_eq!(enc.len(), INODE_RECORD_SIZE);
    let dec = OnDiskInode::decode(&enc).unwrap();
    assert_eq!(dec, inode);
}

#[test]
fn unused_slot_roundtrips() {
    let u = OnDiskInode::unused();
    let enc = u.encode().unwrap();
    let dec = OnDiskInode::decode(&enc).unwrap();
    assert_eq!(dec, u);
    assert_eq!(dec.kind, OnDiskKind::Unused);
}

#[test]
fn inode_tests_checksum_detects_corruption() {
    let enc = sample().encode().unwrap();
    let mut corrupted = enc;
    corrupted[10] ^= 0x20;
    let err = OnDiskInode::decode(&corrupted).unwrap_err();
    assert!(err.to_string().contains("checksum"));
}

#[test]
fn reject_overflowing_extent_list() {
    let mut inode = sample();
    inode.extents = (0..9)
        .map(|i| Extent { logical_block: i, length_blocks: 1, physical_block: 100 + i as u64 })
        .collect();
    assert!(inode.encode().is_err());
}

#[test]
fn unknown_kind_rejected() {
    let mut enc = sample().encode().unwrap();
    enc[2] = 99;
    enc[INODE_CHECKSUM_OFFSET..INODE_CHECKSUM_OFFSET + 4].fill(0);
    let csum = Crc32c::hash(&enc);
    enc[INODE_CHECKSUM_OFFSET..INODE_CHECKSUM_OFFSET + 4].copy_from_slice(&csum.to_le_bytes());
    let err = OnDiskInode::decode(&enc).unwrap_err();
    assert!(err.to_string().contains("kind"));
}

#[test]
fn rejects_wrong_buffer_length() {
    assert!(OnDiskInode::decode(&[0u8; 128]).is_err());
}

#[test]
fn rejects_extent_count_field_overflow() {
    let mut enc = sample().encode().unwrap();
    enc[80..84].copy_from_slice(&(9u32).to_le_bytes());
    enc[INODE_CHECKSUM_OFFSET..INODE_CHECKSUM_OFFSET + 4].fill(0);
    let csum = Crc32c::hash(&enc);
    enc[INODE_CHECKSUM_OFFSET..INODE_CHECKSUM_OFFSET + 4].copy_from_slice(&csum.to_le_bytes());
    assert!(OnDiskInode::decode(&enc).is_err());
}

#[test]
fn plan_rejects_too_small_volumes() {
    let err = LayoutGeometry::plan(LayoutParams::with_defaults(32)).unwrap_err();
    assert!(err.to_string().contains("too small"));
}

#[test]
fn plan_rejects_zero_inode_count() {
    let params = LayoutParams { total_blocks: 1024, inode_count: 0, journal_blocks: 8 };
    assert!(LayoutGeometry::plan(params).is_err());
}

#[test]
fn plan_is_self_consistent_for_default_sizes() {
    let geom = LayoutGeometry::plan(LayoutParams::with_defaults(4096)).unwrap();
    assert_eq!(geom.total_blocks, 4096);
    assert_eq!(geom.block_bitmap_start, 2);
    assert!(geom.inode_table_start > geom.inode_bitmap_start);
    assert!(geom.journal_start >= geom.inode_table_start + geom.inode_table_blocks);
    assert!(geom.data_start >= geom.journal_start + geom.journal_blocks);
    assert_eq!(geom.data_start + geom.data_blocks, geom.total_blocks);
    assert_eq!(geom.secondary_superblock_block, 4095);
    assert_eq!(geom.tertiary_superblock_block, 2048);
}

#[test]
fn plan_rejects_if_data_area_vanishes() {
    let params = LayoutParams { total_blocks: 128, inode_count: 4096, journal_blocks: 64 };
    assert!(LayoutGeometry::plan(params).is_err());
}

#[test]
fn inode_record_location_maps_into_table() {
    let geom = LayoutGeometry::plan(LayoutParams::with_defaults(4096)).unwrap();
    let (block, offset) = geom.inode_record_location(0).unwrap();
    assert_eq!(block, geom.inode_table_start);
    assert_eq!(offset, 0);
    let (block, offset) = geom.inode_record_location(INODES_PER_BLOCK - 1).unwrap();
    assert_eq!(block, geom.inode_table_start);
    assert_eq!(offset, (INODES_PER_BLOCK - 1) * INODE_SIZE);
    let (block, offset) = geom.inode_record_location(INODES_PER_BLOCK).unwrap();
    assert_eq!(block, geom.inode_table_start + 1);
    assert_eq!(offset, 0);
}

#[test]
fn inode_record_location_rejects_out_of_range() {
    let geom = LayoutGeometry::plan(LayoutParams::with_defaults(4096)).unwrap();
    assert!(geom.inode_record_location(geom.inode_count).is_err());
}

#[test]
fn bitmap_covers_entire_volume() {
    let geom = LayoutGeometry::plan(LayoutParams::with_defaults(100_000)).unwrap();
    assert!(geom.block_bitmap_blocks * BITS_PER_BITMAP_BLOCK >= geom.total_blocks);
}

#[test]
fn is_data_block_boundaries() {
    let geom = LayoutGeometry::plan(LayoutParams::with_defaults(4096)).unwrap();
    assert!(!geom.is_data_block(geom.data_start - 1));
    assert!(geom.is_data_block(geom.data_start));
    assert!(geom.is_data_block(geom.total_blocks - 1));
    assert!(!geom.is_data_block(geom.total_blocks));
}

fn sample_geom() -> LayoutGeometry {
    LayoutGeometry::plan(LayoutParams::with_defaults(4096)).unwrap()
}

#[test]
fn roundtrip_preserves_all_fields() {
    let sb = Superblock::for_new_volume(&sample_geom(), [0xABu8; 16], "test-vol", 1_700_000_000);
    let bytes = sb.encode_block();
    assert_eq!(bytes.len(), BLOCK_SIZE as usize);
    let decoded = Superblock::decode_block(&bytes).unwrap();
    assert_eq!(decoded, sb);
    assert_eq!(decoded.magic, ODF_MAGIC);
    assert_eq!(decoded.version_major, ODF_VERSION_MAJOR);
    assert_eq!(&decoded.label[..8], b"test-vol");
}

#[test]
fn checksum_detects_single_bit_corruption() {
    let sb = Superblock::for_new_volume(&sample_geom(), [0u8; 16], "vol", 0);
    let mut bytes = sb.encode_block();
    bytes[42] ^= 0x01;
    let err = Superblock::decode_block(&bytes).unwrap_err();
    assert!(err.to_string().contains("checksum"));
}

#[test]
fn superblock_tests_bad_magic_is_rejected() {
    let sb = Superblock::for_new_volume(&sample_geom(), [0u8; 16], "vol", 0);
    let mut bytes = sb.encode_block();
    bytes[0..8].copy_from_slice(b"BADBADBD");
    let mut corrupted = bytes.clone();
    corrupted[SUPERBLOCK_CHECKSUM_OFFSET..SUPERBLOCK_CHECKSUM_OFFSET + 4].fill(0);
    let expected = Crc32c::hash(&corrupted);
    bytes[SUPERBLOCK_CHECKSUM_OFFSET..SUPERBLOCK_CHECKSUM_OFFSET + 4].copy_from_slice(&expected.to_le_bytes());
    let err = Superblock::decode_block(&bytes).unwrap_err();
    assert!(err.to_string().contains("magic"));
}

#[test]
fn unknown_incompat_feature_is_rejected() {
    let mut sb = Superblock::for_new_volume(&sample_geom(), [0u8; 16], "vol", 0);
    sb.feature_incompat |= 1u64 << 63;
    let bytes = sb.encode_block();
    let err = Superblock::decode_block(&bytes).unwrap_err();
    assert!(err.to_string().contains("incompat"));
}

#[test]
fn geometry_roundtrips_through_superblock() {
    let geom = sample_geom();
    let sb = Superblock::for_new_volume(&geom, [0u8; 16], "vol", 0);
    let recovered = sb.geometry();
    assert_eq!(recovered.total_blocks, geom.total_blocks);
    assert_eq!(recovered.data_start, geom.data_start);
    assert_eq!(recovered.inode_table_start, geom.inode_table_start);
    assert_eq!(recovered.inode_count, geom.inode_count);
}

#[test]
fn wrong_block_size_is_rejected() {
    let short = vec![0u8; 1024];
    assert!(Superblock::decode_block(&short).is_err());
}

#[test]
fn initial_state_is_clean_and_gen_is_one() {
    let sb = Superblock::for_new_volume(&sample_geom(), [0u8; 16], "vol", 0);
    assert_eq!(sb.state, STATE_CLEAN);
    assert_eq!(sb.generation, 1);
    assert_eq!(sb.mount_count, 0);
}

#[test]
fn crc32c_matches_the_standard_check_value() {
    assert_eq!(Crc32c::hash(b"123456789"), 0xE306_9283);
    assert_eq!(Crc32c::hash(b""), 0);
}
