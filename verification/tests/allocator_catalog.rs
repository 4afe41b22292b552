use corefs::allocator::InodeAllocator;
use corefs::catalog::Catalog;
use corefs::domain::{Inode, InodeId, InodeKind};

#[test]
fn allocator_allocator_reuses_released_inodes() {
    let mut allocator = InodeAllocator::default();
    let first = allocator.allocate();
    let second = allocator.allocate();
    allocator.release(first);
    let recycled = allocator.allocate();
    assert_eq!(first, InodeId(1));
    assert_eq!(second, InodeId(2));
    assert_eq!(recycled, InodeId(1));
}

#[test]
fn allocator_tests_allocator_reuses_released_inodes() {
    let mut allocator = InodeAllocator::default();
    let first = allocator.allocate();
    let second = allocator.allocate();
    allocator.release(first);
    let recycled = allocator.allocate();
    assert_eq!(first, InodeId(1));
    assert_eq!(second, InodeId(2));
    assert_eq!(recycled, InodeId(1));
}

#[test]
fn allocator_can_reserve_specific_inode_ids() {
    let mut allocator = InodeAllocator::default();
    allocator.allocate_specific(InodeId(7));
    assert_eq!(allocator.allocate(), InodeId(8));
    allocator.release(InodeId(3));
    allocator.allocate_specific(InodeId(3));
    assert_eq!(allocator.allocate(), InodeId(9));
}

#[test]
fn allocator_recycles_in_release_order() {
    let mut allocator = InodeAllocator::default();
    let a = allocator.allocate();
    let b = allocator.allocate();
    let c = allocator.allocate();
    allocator.release(c);
    allocator.release(a);
    assert_eq!(allocator.allocate(), c);
    assert_eq!(allocator.allocate(), a);
    assert_eq!(allocator.allocate(), InodeId(b.0 + 2));
}

#[test]
fn catalog_tracks_active_and_deleted_entries() {
    let inode = Inode::new(InodeId(1), InodeKind::File, "/data.txt".to_string());
    let mut catalog = Catalog::default();
    catalog.insert(inode.clone());

    assert!(catalog.get("/data.txt").is_some());
    assert_eq!(
        catalog.inode_by_id(InodeId(1)).map(|item| item.path.as_str()),
        Some("/data.txt")
    );
    assert_eq!(catalog.list_paths(), vec!["/data.txt".to_string()]);

    let removed = catalog.remove("/data.txt").expect("inode should exist");
    catalog.move_to_deleted(removed.clone());
    assert_eq!(catalog.list_deleted_paths(), vec!["/data.txt".to_string()]);
    assert_eq!(catalog.restore_deleted("/data.txt"), Some(removed));
    assert!(catalog.get_mut("/data.txt").is_none());
    assert!(catalog.inode_by_id(InodeId(99)).is_none());
}

#[test]
fn catalog_lists_paths_in_order_and_replaces_same_path() {
    let mut catalog = Catalog::default();
    catalog.insert(Inode::new(InodeId(2), InodeKind::File, "/b".to_string()));
    catalog.insert(Inode::new(InodeId(1), InodeKind::File, "/a".to_string()));
    catalog.insert(Inode::new(InodeId(3), InodeKind::Directory, "/b".to_string()));
    assert_eq!(catalog.list_paths(), vec!["/a".to_string(), "/b".to_string()]);
    assert_eq!(catalog.get("/b").unwrap().id, InodeId(3));
    let entry = catalog.get_mut("/a").unwrap();
    entry.size = 42;
    assert_eq!(catalog.get("/a").unwrap().size, 42);
}
