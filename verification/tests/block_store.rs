use corefs::block_store::{BlockRecord, BlockStore};
use corefs::device_volume::checksum;
use corefs::domain::InodeId;
use corefs::ondisk::inode::Extent;
use corefs::ondisk::refcount::{BlockSharing, CowOutcome, RefCountTable};
use corefs::segment_cache::SegmentCache;

#[test]
fn write_then_read_returns_the_bytes() {
    let mut store = BlockStore::with_block_size(4096);
    assert_eq!(store.write(InodeId(1), b"hello".to_vec()), 5);
    let rec = store.read(InodeId(1)).unwrap();
    assert_eq!(rec.bytes, b"hello".to_vec());
    assert_eq!(rec.checksum, checksum(b"hello"));
    assert_eq!(rec.allocated_blocks, 1);
    assert!(store.verify(InodeId(1)));
    assert!(store.read(InodeId(2)).is_none());
}

#[test]
fn identical_content_is_stored_once() {
    let mut store = BlockStore::with_block_size(4096);
    store.write(InodeId(1), vec![7u8; 100]);
    store.write(InodeId(2), vec![7u8; 100]);
    store.write(InodeId(3), vec![8u8; 100]);
    let stats = store.dedupe_stats();
    assert_eq!(stats.logical_blocks, 3);
    assert_eq!(stats.unique_blobs, 2);
    assert_eq!(stats.deduplicated_blocks, 1);
    assert!(store.is_shared(InodeId(1)));
    assert!(!store.is_shared(InodeId(3)));
}

#[test]
fn removing_an_inode_frees_its_extent() {
    let mut store = BlockStore::with_block_size(4096);
    store.write(InodeId(1), vec![1u8; 5000]);
    store.write(InodeId(2), vec![2u8; 10]);
    let removed = store.remove(InodeId(1)).unwrap();
    assert_eq!(removed.allocated_blocks, 2);
    assert!(!store.contains(InodeId(1)));
    assert!(store.contains(InodeId(2)));
    let freed = store.drain_freed_extents();
    assert_eq!(freed.len(), 1);
    assert_eq!(freed[0].block_count, 2);
    assert!(store.pending_trims().is_empty());
}

#[test]
fn clone_shares_the_blob() {
    let mut store = BlockStore::with_block_size(4096);
    store.write(InodeId(1), b"shared".to_vec());
    assert!(store.clone_for_inode(InodeId(1), InodeId(2)));
    assert_eq!(store.read(InodeId(2)).unwrap().bytes, b"shared".to_vec());
    assert!(store.is_shared(InodeId(2)));
    assert!(!store.clone_for_inode(InodeId(9), InodeId(10)));
}

#[test]
fn dedup_pass_on_a_consistent_store_changes_nothing() {
    let mut store = BlockStore::with_block_size(4096);
    store.write(InodeId(1), b"a".to_vec());
    store.write(InodeId(2), b"a".to_vec());
    store.write(InodeId(3), b"bb".to_vec());
    let before = store.records();
    let report = store.dedup_pass();
    assert_eq!(report.blobs_scanned, 2);
    assert_eq!(report.bytes_scanned, 3);
    assert_eq!(report.duplicates_consolidated, 0);
    assert_eq!(report.bytes_reclaimed, 0);
    assert_eq!(report.hash_collisions, 0);
    assert_eq!(report.ref_count_mismatches, 0);
    assert_eq!(store.records(), before);
}

#[test]
fn dedup_pass_counts_collisions_of_imported_records() {
    let records = vec![
        BlockRecord { inode: InodeId(1), bytes: b"x".to_vec(), checksum: 5, device_block: 0, allocated_blocks: 1 },
        BlockRecord { inode: InodeId(2), bytes: b"x".to_vec(), checksum: 6, device_block: 1, allocated_blocks: 1 },
    ];
    let mut store = BlockStore::from_records(records);
    let report = store.dedup_pass();
    assert_eq!(report.blobs_scanned, 2);
    assert_eq!(report.hash_collisions, 2);
    assert_eq!(report.duplicates_consolidated, 1);
    assert_eq!(report.bytes_reclaimed, 1);
    assert_eq!(store.blob_checksum(InodeId(1)), Some(5));
    assert_eq!(store.blob_checksum(InodeId(2)), Some(5));
    assert_eq!(store.dedupe_stats().unique_blobs, 1);
}

#[test]
fn append_extends_the_content() {
    let mut store = BlockStore::with_block_size(4);
    store.write(InodeId(1), b"abc".to_vec());
    assert_eq!(store.append_to_inode(InodeId(1), b"def"), 6);
    assert_eq!(store.read(InodeId(1)).unwrap().bytes, b"abcdef".to_vec());
    assert_eq!(store.read(InodeId(1)).unwrap().allocated_blocks, 2);
}

#[test]
fn fragmentation_and_defragmentation() {
    let mut store = BlockStore::with_block_size(1);
    for i in 0..6u64 {
        store.write(InodeId(i + 1), vec![i as u8; 2]);
    }
    store.remove(InodeId(2));
    store.remove(InodeId(4));
    let report = store.fragmentation_report();
    assert_eq!(report.free_extents, 2);
    assert_eq!(report.total_free_blocks, 4);
    assert_eq!(report.largest_free_extent, 2);
    let defrag = store.defragment();
    assert_eq!(defrag.final_device_blocks, 8);
    assert_eq!(store.fragmentation_report().total_free_blocks, 0);
}

#[test]
fn refcount_table_tracks_sharing() {
    let mut table = RefCountTable::new(16);
    let ext = Extent { logical_block: 0, length_blocks: 2, physical_block: 3 };
    table.acquire_extent(ext).unwrap();
    table.acquire_extent(ext).unwrap();
    assert_eq!(table.get(3), 2);
    assert_eq!(table.shared(), 2);
    let freed = table.release_extent(ext).unwrap();
    assert!(freed.is_empty());
    let freed = table.release_extent(ext).unwrap();
    assert_eq!(freed, vec![3, 4]);
    assert_eq!(table.allocated(), 0);
    let enc = table.encode();
    let dec = RefCountTable::decode(&enc, 16).unwrap();
    assert_eq!(dec.counters(), table.counters());
}

#[test]
fn copy_on_write_of_a_shared_extent_must_copy() {
    let mut sharing = BlockSharing::new(RefCountTable::new(32));
    let ext = Extent { logical_block: 0, length_blocks: 1, physical_block: 5 };
    sharing.register_fresh(ext).unwrap();
    assert!(matches!(sharing.cow_write(ext).unwrap(), CowOutcome::InPlace));
    sharing.clone_extent(ext).unwrap();
    assert_eq!(sharing.shared_blocks(), 1);
    assert!(matches!(sharing.cow_write(ext).unwrap(), CowOutcome::MustCopy { .. }));
    assert_eq!(sharing.table().get(5), 1);
}

#[test]
fn segment_cache_replaces_and_removes() {
    let mut cache = SegmentCache::new();
    assert!(cache.is_empty());
    cache.insert(*b"CNFG", vec![1]);
    cache.insert(*b"DATA", vec![2]);
    cache.insert(*b"CNFG", vec![3]);
    assert_eq!(cache.len(), 2);
    assert_eq!(cache.get(b"CNFG"), Some(&vec![3]));
    assert_eq!(cache.remove(b"DATA"), Some(vec![2]));
    assert!(cache.get(b"DATA").is_none());
    cache.clear();
    assert_eq!(cache.len(), 0);
}

#[test]
fn append_onto_bytes_another_inode_holds_shares_the_blob() {
    let mut s = BlockStore::with_block_size(4096);
    s.write(InodeId(1), b"ab".to_vec());
    s.write(InodeId(2), b"abc".to_vec());
    assert_eq!(s.append_to_inode(InodeId(1), b"c"), 3);
    assert_eq!(s.read(InodeId(1)).unwrap().bytes, b"abc".to_vec());
    assert_eq!(s.read(InodeId(2)).unwrap().bytes, b"abc".to_vec());
    assert_eq!(s.dedupe_stats().unique_blobs, 1);
    assert!(s.is_shared(InodeId(1)));
    assert!(s.is_shared(InodeId(2)));
    s.remove(InodeId(2));
    assert_eq!(s.read(InodeId(1)).unwrap().bytes, b"abc".to_vec());
    assert!(!s.is_shared(InodeId(1)));
}
