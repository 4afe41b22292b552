use corefs::ondisk::bitmap::Bitmap;
use corefs::ondisk::checksum::Crc32c;
use corefs::ondisk::fsck_repair::{plan_repair, RepairCode, RepairIssue, RepairSeverity};
use corefs::ondisk::layout::{LayoutGeometry, LayoutParams};
use corefs::ondisk::superblock::Superblock;

fn issue(code: RepairCode, severity: RepairSeverity, message: &str) -> RepairIssue {
    RepairIssue { code, severity, message: message.to_string() }
}

#[test]
fn repair_plan_fixes_what_the_table_covers() {
    let geom = LayoutGeometry::plan(LayoutParams { total_blocks: 1024, inode_count: 64, journal_blocks: 16 }).unwrap();
    let sb = Superblock::for_new_volume(&geom, [7u8; 16], "vol", 100);
    let mut bbm = Bitmap::new(geom.total_blocks);
    bbm.set(geom.data_start).unwrap();
    let mut ibm = Bitmap::new(geom.inode_count);
    ibm.set(0).unwrap();
    ibm.set(5).unwrap();
    let target = geom.data_start + 3;
    let issues = vec![
        issue(RepairCode::BlockBitmapCrc, RepairSeverity::Error, "block bitmap checksum mismatch"),
        issue(RepairCode::ExtentUnallocated, RepairSeverity::Error,
            &format!("slot 1 extent block {} not marked allocated", target)),
        issue(RepairCode::UnusedButBitmapSet, RepairSeverity::Warning, "slot 5 marked allocated but record kind = Unused"),
        issue(RepairCode::UnusedButBitmapSet, RepairSeverity::Warning, "slot 5 marked allocated but record kind = Unused"),
        issue(RepairCode::ExtentUnallocated, RepairSeverity::Error, "slot 2 extent block 0 not marked allocated"),
        issue(RepairCode::SecondaryStale, RepairSeverity::Warning, "secondary copy is stale"),
        issue(RepairCode::Other, RepairSeverity::Error, "double allocation"),
        issue(RepairCode::FreeInodes, RepairSeverity::Info, "informational"),
    ];
    let plan = plan_repair(sb.clone(), bbm, ibm, &issues, 200);
    assert_eq!(plan.fixed, vec![
        RepairCode::BlockBitmapCrc, RepairCode::ExtentUnallocated, RepairCode::UnusedButBitmapSet, RepairCode::SecondaryStale,
    ]);
    assert_eq!(plan.unfixable, vec![3, 4, 6]);
    assert!(plan.block_bitmap.is_set(target).unwrap());
    assert!(plan.block_bitmap.is_set(geom.data_start).unwrap());
    assert!(!plan.inode_bitmap.is_set(5).unwrap());
    assert!(plan.inode_bitmap.is_set(0).unwrap());
    assert!(plan.block_bitmap_touched && plan.inode_bitmap_touched && plan.superblock_touched);
    assert!(plan.rewrite_secondary && !plan.rewrite_tertiary);
    assert_eq!(plan.superblock.block_bitmap_crc, Crc32c::hash(plan.block_bitmap.as_bytes()));
    assert_eq!(plan.superblock.inode_bitmap_crc, Crc32c::hash(plan.inode_bitmap.as_bytes()));
    assert_eq!(plan.superblock.free_blocks, geom.data_blocks - 2);
    assert_eq!(plan.superblock.free_inodes, geom.inode_count - 1);
    assert_eq!(plan.superblock.generation, sb.generation + 1);
    assert_eq!(plan.superblock.last_write_at, 200);
}

#[test]
fn repair_plan_without_actionable_findings_changes_nothing() {
    let geom = LayoutGeometry::plan(LayoutParams { total_blocks: 1024, inode_count: 64, journal_blocks: 16 }).unwrap();
    let sb = Superblock::for_new_volume(&geom, [7u8; 16], "vol", 100);
    let issues = vec![issue(RepairCode::FreeBlocks, RepairSeverity::Info, "informational")];
    let plan = plan_repair(sb.clone(), Bitmap::new(geom.total_blocks), Bitmap::new(geom.inode_count), &issues, 200);
    assert!(plan.fixed.is_empty() && plan.unfixable.is_empty());
    assert!(!plan.superblock_touched && !plan.block_bitmap_touched && !plan.inode_bitmap_touched);
    assert_eq!(plan.superblock, sb);
}
