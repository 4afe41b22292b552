use corefs::block_device::{BlockDevice, MemoryDevice};
use corefs::ondisk::inode::{OnDiskInode, OnDiskKind, INODE_RECORD_SIZE};
use corefs::ondisk::journal::{
    encode_record, Journal, JournalHeader, Op, RecordKind, ReplayedTxn, JOURNAL_MAGIC, JSTATE_CLEAN, JSTATE_DIRTY,
};
use corefs::ondisk::layout::BLOCK_SIZE;
use corefs::ondisk::superblock::Superblock;
use corefs::ondisk::volume::{format_device, FormatOptions};

fn formatted() -> (MemoryDevice, Superblock) {
    let mut dev = MemoryDevice::new(4096 * BLOCK_SIZE, 4096).unwrap();
    let opts = FormatOptions { label: "jrnl".to_string(), uuid: [7u8; 16], inode_count: 256, journal_blocks: 16 };
    format_device(&mut dev, &opts).unwrap();
    let sb = Superblock::decode_block(&dev.read_at(BLOCK_SIZE, BLOCK_SIZE).unwrap()).unwrap();
    (dev, sb)
}

#[test]
fn header_block_roundtrips() {
    let mut h = JournalHeader::fresh(15 * 4096);
    h.tail_offset = 88;
    h.next_seq = 3;
    let block = h.encode_block();
    assert_eq!(block.len(), 4096);
    assert_eq!(JournalHeader::decode_block(&block).unwrap(), h);
    assert_eq!(h.magic, JOURNAL_MAGIC);
    assert_eq!(&block[0..8], b"COREJRNL");
}

#[test]
fn header_checksum_and_magic_are_checked() {
    let h = JournalHeader::fresh(4096);
    let mut block = h.encode_block();
    block[20] ^= 1;
    assert!(JournalHeader::decode_block(&block).unwrap_err().to_string().contains("CRC"));
    assert!(JournalHeader::decode_block(&block[..100]).is_err());
}

#[test]
fn op_payloads_roundtrip() {
    let a = Op::BlockWrite { block: 9, data: vec![1, 2, 3] };
    let b = Op::InodeUpdate { index: 4, record: vec![5; 10] };
    assert_eq!(Op::decode(&a.encode()).unwrap(), a);
    assert_eq!(Op::decode(&b.encode()).unwrap(), b);
    assert_eq!(a.encode()[0], 1);
    assert_eq!(a.encode().len(), 13 + 3);
    assert!(Op::decode(&[]).is_err());
    assert!(Op::decode(&[3, 0, 0]).is_err());
    let mut bad = a.encode();
    bad.push(0);
    assert!(Op::decode(&bad).is_err());
}

#[test]
fn record_encoding_layout() {
    let rec = encode_record(RecordKind::Commit, 77, 5, &[]);
    assert_eq!(rec.len(), 44);
    assert_eq!(u32::from_le_bytes(rec[0..4].try_into().unwrap()), 0xCAFE_50ED);
    assert_eq!(u16::from_le_bytes(rec[4..6].try_into().unwrap()), 2);
    assert_eq!(u64::from_le_bytes(rec[8..16].try_into().unwrap()), 77);
    assert_eq!(u64::from_le_bytes(rec[16..24].try_into().unwrap()), 5);
    assert_eq!(RecordKind::from_u16(3).unwrap(), RecordKind::Abort);
    assert!(RecordKind::from_u16(9).is_err());
}

#[test]
fn format_rejects_a_region_of_one_block() {
    let (mut dev, mut sb) = formatted();
    sb.journal_blocks = 1;
    assert!(Journal::format(&mut dev, &sb).is_err());
}

#[test]
fn committed_transaction_is_replayed_and_applied() {
    let (mut dev, sb) = formatted();
    let mut journal = Journal::open(&dev, &sb).unwrap();
    assert_eq!(journal.header().state, JSTATE_CLEAN);
    let target = sb.data_start + 10;
    let mut txn = journal.begin();
    assert_eq!(txn.txn_id(), 1);
    txn.push(Op::BlockWrite { block: target, data: vec![0xAB; 4096] });
    txn.push(Op::BlockWrite { block: target + 1, data: vec![0xCD; 4096] });
    assert_eq!(txn.commit(&mut journal, &mut dev).unwrap(), 1);
    assert_eq!(journal.header().state, JSTATE_DIRTY);
    assert_eq!(journal.header().next_seq, 3);

    let mut reopened = Journal::open(&dev, &sb).unwrap();
    assert_eq!(reopened.header().tail_offset, journal.header().tail_offset);
    let applied = reopened.replay(&mut dev).unwrap();
    assert_eq!(applied, vec![ReplayedTxn { txn_id: 1, ops: 2 }]);
    assert!(dev.read_at(target * BLOCK_SIZE, BLOCK_SIZE).unwrap().iter().all(|b| *b == 0xAB));
    assert!(dev.read_at((target + 1) * BLOCK_SIZE, BLOCK_SIZE).unwrap().iter().all(|b| *b == 0xCD));

    reopened.checkpoint(&mut dev).unwrap();
    let after = Journal::open(&dev, &sb).unwrap();
    assert_eq!(after.header().tail_offset, 0);
    assert_eq!(after.header().state, JSTATE_CLEAN);
}

#[test]
fn aborted_and_uncommitted_transactions_are_dropped() {
    let (mut dev, sb) = formatted();
    let mut journal = Journal::open(&dev, &sb).unwrap();
    let mut t1 = journal.begin();
    t1.push(Op::BlockWrite { block: sb.data_start, data: vec![1; 4096] });
    t1.commit(&mut journal, &mut dev).unwrap();
    let t2 = journal.begin();
    assert_eq!(t2.txn_id(), 2);
    t2.abort(&mut journal, &mut dev).unwrap();
    let applied = journal.replay(&mut dev).unwrap();
    assert_eq!(applied, vec![ReplayedTxn { txn_id: 1, ops: 1 }]);
}

#[test]
fn empty_commit_is_rejected() {
    let (mut dev, sb) = formatted();
    let mut journal = Journal::open(&dev, &sb).unwrap();
    let txn = journal.begin();
    assert!(txn.commit(&mut journal, &mut dev).is_err());
    assert_eq!(journal.header().tail_offset, 0);
}

#[test]
fn inode_update_rewrites_the_slot() {
    let (mut dev, sb) = formatted();
    let mut journal = Journal::open(&dev, &sb).unwrap();
    let mut inode = OnDiskInode::unused();
    inode.kind = OnDiskKind::File;
    inode.size_bytes = 99;
    let mut txn = journal.begin();
    txn.push(Op::InodeUpdate { index: 17, record: inode.encode().unwrap() });
    txn.commit(&mut journal, &mut dev).unwrap();
    journal.replay(&mut dev).unwrap();
    let block = dev.read_at((sb.inode_table_start + 1) * BLOCK_SIZE, BLOCK_SIZE).unwrap();
    let slot = &block[INODE_RECORD_SIZE..2 * INODE_RECORD_SIZE];
    assert_eq!(OnDiskInode::decode(slot).unwrap(), inode);
}

#[test]
fn replay_rejects_a_block_write_of_the_wrong_size() {
    let (mut dev, sb) = formatted();
    let mut journal = Journal::open(&dev, &sb).unwrap();
    let mut txn = journal.begin();
    txn.push(Op::BlockWrite { block: sb.data_start, data: vec![1; 100] });
    txn.commit(&mut journal, &mut dev).unwrap();
    assert!(journal.replay(&mut dev).is_err());
}

#[test]
fn full_record_area_requires_a_checkpoint() {
    let (mut dev, sb) = formatted();
    let mut journal = Journal::open(&dev, &sb).unwrap();
    let mut committed = 0;
    loop {
        let mut txn = journal.begin();
        txn.push(Op::BlockWrite { block: sb.data_start, data: vec![2; 4096] });
        match txn.commit(&mut journal, &mut dev) {
            Ok(_) => committed += 1,
            Err(e) => {
                assert!(e.to_string().contains("checkpoint"));
                break;
            }
        }
    }
    assert!(committed >= 10);
    journal.checkpoint(&mut dev).unwrap();
    let mut txn = journal.begin();
    txn.push(Op::BlockWrite { block: sb.data_start, data: vec![3; 4096] });
    assert!(txn.commit(&mut journal, &mut dev).is_ok());
}
