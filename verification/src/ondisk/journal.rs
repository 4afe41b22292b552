//! On-disk write-ahead log.
//!
//! The journal region (`journal_blocks` blocks starting at `journal_start`)
//! holds a [`JournalHeader`] in its first block; the following blocks form
//! a byte-addressed append-only record area.  Every record is a 40-byte
//! header, a payload and a trailing CRC32C over header and payload:
//!
//! | field         | size | meaning                                      |
//! |---------------|------|----------------------------------------------|
//! | `magic`       | 4    | [`RECORD_MAGIC`]                             |
//! | `kind`        | 2    | [`RecordKind`]                               |
//! | `flags`       | 2    | zero                                         |
//! | `txn_id`      | 8    | transaction of the record                    |
//! | `seq`         | 8    | sequence number                              |
//! | `payload_len` | 4    | payload bytes                                |
//! | `header_crc`  | 4    | CRC32C of the first 32 bytes, this slot zero |
//! | `reserved`    | 8    | zero                                         |
//!
//! A transaction is durable once its commit record is written; replay
//! applies the operations of every committed transaction and drops the
//! others.
use vstd::prelude::*;
use vstd::bytes::*;
use crate::error::{CoreFsError, CoreFsResult, msg};
use super::checksum::{Crc32c, crc32c_spec};
use super::superblock::Superblock;
use super::layout::LayoutGeometry;
use super::codec::{zero_vec, zeros, overwrite, push_u16, push_u32, push_u64, push_zeros, push_bytes, read_u16, read_u32, read_u64, copy_range, write_bytes_at};
use crate::block_device::BlockDevice;
use crate::device_volume::{align_up_spec, lemma_align_up, checked_align_up_u64};

verus! {

/// Journal magic: the bytes `COREJRNL` read as a little-endian `u64`.
pub const JOURNAL_MAGIC: u64 = 0x4C4E_524A_4552_4F43;
/// Magic at the start of every record.
pub const RECORD_MAGIC: u32 = 0xCAFE_50ED;
/// Bytes of a record header.
pub const RECORD_HEADER_BYTES: usize = 40;
/// Bytes of a record trailer.
pub const RECORD_TRAILER_BYTES: usize = 4;
/// Bytes of the structured header prefix (checksum included).
pub const HEADER_STRUCT_BYTES: usize = 128;
/// Offset of the header checksum.
pub const HEADER_CHECKSUM_OFFSET: usize = 124;
/// Journal state: nothing to replay.
pub const JSTATE_CLEAN: u32 = 0;
/// Journal state: records may be pending.
pub const JSTATE_DIRTY: u32 = 1;

/// Kind of a journal record.
#[derive(Debug, Clone, Copy, PartialEq, Eq, Structural)]
pub enum RecordKind {
    Op,
    Commit,
    Abort,
}

/// Code of a record kind on disk.
pub open spec fn record_kind_code(k: RecordKind) -> u16 {
    match k {
        RecordKind::Op => 1,
        RecordKind::Commit => 2,
        RecordKind::Abort => 3,
    }
}

impl RecordKind {
    /// Code of the kind on disk.
    pub fn code(&self) -> (r: u16)
        ensures
            r == record_kind_code(*self),
    {
        match self {
            RecordKind::Op => 1,
            RecordKind::Commit => 2,
            RecordKind::Abort => 3,
        }
    }

    /// Kind of a code read from disk.
    pub fn from_u16(v: u16) -> (r: CoreFsResult<Self>)
        ensures
            r is Ok <==> 1 <= v <= 3,
            r matches Ok(k) ==> record_kind_code(k) == v,
            r matches Err(e) ==> e is State,
    {
        match v {
            1 => Ok(RecordKind::Op),
            2 => Ok(RecordKind::Commit),
            3 => Ok(RecordKind::Abort),
            _ => Err(CoreFsError::State(msg("unknown journal record kind"))),
        }
    }
}

/// On-disk journal header (first block of the journal region).
#[derive(Debug, Clone, Copy, PartialEq, Eq, Structural)]
pub struct JournalHeader {
    pub magic: u64,
    pub version: u16,
    pub flags: u16,
    pub head_offset: u64,
    pub tail_offset: u64,
    pub next_seq: u64,
    pub next_txn_id: u64,
    pub state: u32,
    pub record_area_bytes: u64,
}

/// Header of an empty journal whose record area holds `record_area_bytes`.
pub open spec fn fresh_header(record_area_bytes: u64) -> JournalHeader {
    JournalHeader {
        magic: JOURNAL_MAGIC,
        version: 1,
        flags: 0,
        head_offset: 0,
        tail_offset: 0,
        next_seq: 0,
        next_txn_id: 1,
        state: JSTATE_CLEAN,
        record_area_bytes,
    }
}

/// Encoding of the header fields (56 bytes).
pub open spec fn jh_field_bytes(h: JournalHeader) -> Seq<u8> {
    spec_u64_to_le_bytes(h.magic) + spec_u16_to_le_bytes(h.version) + spec_u16_to_le_bytes(h.flags)
        + spec_u64_to_le_bytes(h.head_offset) + spec_u64_to_le_bytes(h.tail_offset)
        + spec_u64_to_le_bytes(h.next_seq) + spec_u64_to_le_bytes(h.next_txn_id)
        + spec_u32_to_le_bytes(h.state) + spec_u64_to_le_bytes(h.record_area_bytes)
}

/// The bytes in front of the checksum (124).
pub open spec fn jh_body_bytes(h: JournalHeader) -> Seq<u8> {
    jh_field_bytes(h) + zeros(68)
}

/// The 4 KiB block that `encode_block` produces: fields, zero padding, and
/// a CRC32C of the whole block computed with the checksum slot zeroed.
pub open spec fn jh_block_bytes(h: JournalHeader) -> Seq<u8> {
    jh_body_bytes(h) + spec_u32_to_le_bytes(crc32c_spec(jh_body_bytes(h) + zeros(3972))) + zeros(3968)
}

/// `decode_block` accepts `b`.
pub open spec fn jh_decodable(b: Seq<u8>) -> bool {
    &&& b.len() == 4096
    &&& spec_u32_from_le_bytes(b.subrange(124, 128)) == crc32c_spec(
        b.subrange(0, 124) + zeros(4) + b.subrange(128, 4096),
    )
    &&& spec_u64_from_le_bytes(b.subrange(0, 8)) == JOURNAL_MAGIC
}

/// The header that `decode_block` reads from `b`.
pub open spec fn jh_from_block(b: Seq<u8>) -> JournalHeader {
    JournalHeader {
        magic: spec_u64_from_le_bytes(b.subrange(0, 8)),
        version: spec_u16_from_le_bytes(b.subrange(8, 10)),
        flags: spec_u16_from_le_bytes(b.subrange(10, 12)),
        head_offset: spec_u64_from_le_bytes(b.subrange(12, 20)),
        tail_offset: spec_u64_from_le_bytes(b.subrange(20, 28)),
        next_seq: spec_u64_from_le_bytes(b.subrange(28, 36)),
        next_txn_id: spec_u64_from_le_bytes(b.subrange(36, 44)),
        state: spec_u32_from_le_bytes(b.subrange(44, 48)),
        record_area_bytes: spec_u64_from_le_bytes(b.subrange(48, 56)),
    }
}

pub(crate) proof fn lemma_jh_lengths(h: JournalHeader)
    ensures
        jh_field_bytes(h).len() == 56,
        jh_body_bytes(h).len() == 124,
        jh_block_bytes(h).len() == 4096,
{
    lemma_auto_spec_u64_to_from_le_bytes();
    lemma_auto_spec_u32_to_from_le_bytes();
    lemma_auto_spec_u16_to_from_le_bytes();
}

impl JournalHeader {
    /// Header of an empty journal.
    pub fn fresh(record_area_bytes: u64) -> (r: Self)
        ensures
            r == fresh_header(record_area_bytes),
    {
        JournalHeader {
            magic: JOURNAL_MAGIC,
            version: 1,
            flags: 0,
            head_offset: 0,
            tail_offset: 0,
            next_seq: 0,
            next_txn_id: 1,
            state: JSTATE_CLEAN,
            record_area_bytes,
        }
    }

    /// Encode into a full block with the checksum filled in.
    pub fn encode_block(&self) -> (r: Vec<u8>)
        ensures
            r@ == jh_block_bytes(*self),
            r@.len() == 4096,
    {
        let mut b: Vec<u8> = Vec::with_capacity(4096);
        push_u64(&mut b, self.magic);
        push_u16(&mut b, self.version);
        push_u16(&mut b, self.flags);
        push_u64(&mut b, self.head_offset);
        push_u64(&mut b, self.tail_offset);
        push_u64(&mut b, self.next_seq);
        push_u64(&mut b, self.next_txn_id);
        push_u32(&mut b, self.state);
        push_u64(&mut b, self.record_area_bytes);
        proof {
            assert(b@ =~= jh_field_bytes(*self));
        }
        push_zeros(&mut b, 68);
        let mut for_crc = b.clone();
        push_zeros(&mut for_crc, 3972);
        let crc = Crc32c::hash(for_crc.as_slice());
        push_u32(&mut b, crc);
        push_zeros(&mut b, 3968);
        proof {
            lemma_jh_lengths(*self);
            assert(b@ =~= jh_block_bytes(*self));
        }
        b
    }

    /// Decode a header block, validating length, checksum and magic.
    pub fn decode_block(block: &[u8]) -> (r: CoreFsResult<Self>)
        ensures
            r is Ok <==> jh_decodable(block@),
            r matches Ok(h) ==> h == jh_from_block(block@),
            r matches Err(e) ==> (e is InvalidInput <==> block@.len() != 4096),
            r matches Err(e) ==> (e is InvalidInput || e is State),
    {
        if block.len() != 4096 {
            return Err(CoreFsError::InvalidInput(msg("journal header: wrong length")));
        }
        let stored = read_u32(block, HEADER_CHECKSUM_OFFSET);
        let mut zeroed = copy_range(block, 0, HEADER_CHECKSUM_OFFSET);
        push_zeros(&mut zeroed, 4);
        let tail = copy_range(block, 128, 4096);
        push_bytes(&mut zeroed, tail.as_slice());
        let expected = Crc32c::hash(zeroed.as_slice());
        if stored != expected {
            return Err(CoreFsError::State(msg("journal header CRC mismatch")));
        }
        let magic = read_u64(block, 0);
        if magic != JOURNAL_MAGIC {
            return Err(CoreFsError::State(msg("journal header: bad magic")));
        }
        Ok(JournalHeader {
            magic,
            version: read_u16(block, 8),
            flags: read_u16(block, 10),
            head_offset: read_u64(block, 12),
            tail_offset: read_u64(block, 20),
            next_seq: read_u64(block, 28),
            next_txn_id: read_u64(block, 36),
            state: read_u32(block, 44),
            record_area_bytes: read_u64(block, 48),
        })
    }
}

/// Decoding an encoded journal header gives it back: the block written for
/// a header with the journal magic is accepted and every field reads back.
pub proof fn lemma_journal_header_roundtrip(h: JournalHeader)
    requires
        h.magic == JOURNAL_MAGIC,
    ensures
        jh_decodable(jh_block_bytes(h)),
        jh_from_block(jh_block_bytes(h)) == h,
{
    lemma_jh_lengths(h);
    lemma_auto_spec_u64_to_from_le_bytes();
    lemma_auto_spec_u32_to_from_le_bytes();
    lemma_auto_spec_u16_to_from_le_bytes();
    let body = jh_body_bytes(h);
    let blk = jh_block_bytes(h);
    assert(blk.subrange(124, 128) =~= spec_u32_to_le_bytes(crc32c_spec(body + zeros(3972))));
    assert(blk.subrange(0, 124) + zeros(4) + blk.subrange(128, 4096) =~= body + zeros(3972));
    assert(blk.subrange(0, 8) =~= spec_u64_to_le_bytes(h.magic));
    assert(blk.subrange(8, 10) =~= spec_u16_to_le_bytes(h.version));
    assert(blk.subrange(10, 12) =~= spec_u16_to_le_bytes(h.flags));
    assert(blk.subrange(12, 20) =~= spec_u64_to_le_bytes(h.head_offset));
    assert(blk.subrange(20, 28) =~= spec_u64_to_le_bytes(h.tail_offset));
    assert(blk.subrange(28, 36) =~= spec_u64_to_le_bytes(h.next_seq));
    assert(blk.subrange(36, 44) =~= spec_u64_to_le_bytes(h.next_txn_id));
    assert(blk.subrange(44, 48) =~= spec_u32_to_le_bytes(h.state));
    assert(blk.subrange(48, 56) =~= spec_u64_to_le_bytes(h.record_area_bytes));
}

/// Abstract filesystem operation carried by an op record.
#[derive(Debug, Clone, PartialEq, Eq)]
pub enum Op {
    /// Overwrite one 4 KiB block with `data`.
    BlockWrite { block: u64, data: Vec<u8> },
    /// Install a new on-disk inode record for `index`.
    InodeUpdate { index: u64, record: Vec<u8> },
}

/// Payload of an op record: tag, target, length and bytes.
pub open spec fn op_bytes(op: Op) -> Seq<u8> {
    match op {
        Op::BlockWrite { block, data } => seq![1u8] + spec_u64_to_le_bytes(block)
            + spec_u32_to_le_bytes(data@.len() as u32) + data@,
        Op::InodeUpdate { index, record } => seq![2u8] + spec_u64_to_le_bytes(index)
            + spec_u32_to_le_bytes(record@.len() as u32) + record@,
    }
}

/// Bytes carried by an op.
pub open spec fn op_data(op: Op) -> Seq<u8> {
    match op {
        Op::BlockWrite { data, .. } => data@,
        Op::InodeUpdate { record, .. } => record@,
    }
}

/// `Op::decode` accepts `p`.
pub open spec fn op_decodable(p: Seq<u8>) -> bool {
    &&& p.len() >= 13
    &&& (p[0] == 1 || p[0] == 2)
    &&& p.len() == 13 + spec_u32_from_le_bytes(p.subrange(9, 13))
}

/// `op` is what `Op::decode` reads from `p`.
pub open spec fn op_matches(op: Op, p: Seq<u8>) -> bool {
    &&& op_data(op) == p.subrange(13, p.len() as int)
    &&& match op {
        Op::BlockWrite { block, .. } => p[0] == 1 && block == spec_u64_from_le_bytes(p.subrange(1, 9)),
        Op::InodeUpdate { index, .. } => p[0] == 2 && index == spec_u64_from_le_bytes(p.subrange(1, 9)),
    }
}

impl Op {
    /// Encode as an op-record payload.
    pub fn encode(&self) -> (r: Vec<u8>)
        requires
            op_data(*self).len() <= u32::MAX,
        ensures
            r@ == op_bytes(*self),
    {
        let mut buf: Vec<u8> = Vec::new();
        match self {
            Op::BlockWrite { block, data } => {
                buf.push(1u8);
                push_u64(&mut buf, *block);
                push_u32(&mut buf, data.len() as u32);
                push_bytes(&mut buf, data.as_slice());
            },
            Op::InodeUpdate { index, record } => {
                buf.push(2u8);
                push_u64(&mut buf, *index);
                push_u32(&mut buf, record.len() as u32);
                push_bytes(&mut buf, record.as_slice());
            },
        }
        proof {
            assert(buf@ =~= op_bytes(*self));
        }
        buf
    }

    /// Decode an op-record payload.
    pub fn decode(payload: &[u8]) -> (r: CoreFsResult<Self>)
        ensures
            r is Ok <==> op_decodable(payload@),
            r matches Ok(op) ==> op_matches(op, payload@),
            r matches Err(e) ==> e is State,
    {
        if payload.len() == 0 {
            return Err(CoreFsError::State(msg("journal op: empty payload")));
        }
        let tag = payload[0];
        if tag != 1 && tag != 2 {
            return Err(CoreFsError::State(msg("journal op: unknown tag")));
        }
        if payload.len() < 13 {
            return Err(CoreFsError::State(msg("journal op: truncated op")));
        }
        let target = read_u64(payload, 1);
        let len = read_u32(payload, 9) as usize;
        if payload.len() - 13 != len {
            return Err(CoreFsError::State(msg("journal op: bad length")));
        }
        let data = copy_range(payload, 13, payload.len());
        if tag == 1 {
            Ok(Op::BlockWrite { block: target, data })
        } else {
            Ok(Op::InodeUpdate { index: target, record: data })
        }
    }
}

/// `a` and `b` are the same operation on the same target with the same bytes.
pub open spec fn same_op(a: Op, b: Op) -> bool {
    match (a, b) {
        (Op::BlockWrite { block: x, data: d }, Op::BlockWrite { block: y, data: e }) => x == y && d@ == e@,
        (Op::InodeUpdate { index: x, record: d }, Op::InodeUpdate { index: y, record: e }) => x == y && d@ == e@,
        _ => false,
    }
}

/// Decoding an encoded op gives it back.
pub proof fn lemma_op_roundtrip(op: Op)
    requires
        op_data(op).len() <= u32::MAX,
    ensures
        op_decodable(op_bytes(op)),
        forall|d: Op| op_matches(d, op_bytes(op)) ==> same_op(d, op),
{
    lemma_auto_spec_u64_to_from_le_bytes();
    lemma_auto_spec_u32_to_from_le_bytes();
    let p = op_bytes(op);
    match op {
        Op::BlockWrite { block, data } => {
            assert(p.subrange(1, 9) =~= spec_u64_to_le_bytes(block));
            assert(p.subrange(9, 13) =~= spec_u32_to_le_bytes(data@.len() as u32));
            assert(p.subrange(13, p.len() as int) =~= data@);
        },
        Op::InodeUpdate { index, record } => {
            assert(p.subrange(1, 9) =~= spec_u64_to_le_bytes(index));
            assert(p.subrange(9, 13) =~= spec_u32_to_le_bytes(record@.len() as u32));
            assert(p.subrange(13, p.len() as int) =~= record@);
        },
    }
    assert forall|d: Op| op_matches(d, p) implies same_op(d, op) by {
        match d {
            Op::BlockWrite { .. } => {
                assert(p[0] == 1);
            },
            Op::InodeUpdate { .. } => {
                assert(p[0] == 2);
            },
        }
    }
}


/// The first 28 bytes of a record header.
pub open spec fn record_prefix(kind: u16, txn: u64, seq: u64, plen: u32) -> Seq<u8> {
    spec_u32_to_le_bytes(RECORD_MAGIC) + spec_u16_to_le_bytes(kind) + spec_u16_to_le_bytes(0)
        + spec_u64_to_le_bytes(txn) + spec_u64_to_le_bytes(seq) + spec_u32_to_le_bytes(plen)
}

/// A record header: prefix, CRC32C of the first 32 bytes with the slot
/// zeroed, and eight reserved zero bytes.
pub open spec fn record_header(kind: u16, txn: u64, seq: u64, plen: u32) -> Seq<u8> {
    let pre = record_prefix(kind, txn, seq, plen);
    pre + spec_u32_to_le_bytes(crc32c_spec(pre + zeros(4))) + zeros(8)
}

/// A full record: header, payload, CRC32C of header and payload.
pub open spec fn record_bytes(kind: u16, txn: u64, seq: u64, payload: Seq<u8>) -> Seq<u8> {
    let h = record_header(kind, txn, seq, payload.len() as u32);
    h + payload + spec_u32_to_le_bytes(crc32c_spec(h + payload))
}

proof fn lemma_record_lengths(kind: u16, txn: u64, seq: u64, payload: Seq<u8>)
    ensures
        record_prefix(kind, txn, seq, payload.len() as u32).len() == 28,
        record_header(kind, txn, seq, payload.len() as u32).len() == 40,
        record_bytes(kind, txn, seq, payload).len() == 44 + payload.len(),
{
    lemma_auto_spec_u64_to_from_le_bytes();
    lemma_auto_spec_u32_to_from_le_bytes();
    lemma_auto_spec_u16_to_from_le_bytes();
}

/// Encode one record.
pub fn encode_record(kind: RecordKind, txn: u64, seq: u64, payload: &[u8]) -> (r: Vec<u8>)
    requires
        payload@.len() <= u32::MAX,
    ensures
        r@ == record_bytes(record_kind_code(kind), txn, seq, payload@),
{
    let mut h: Vec<u8> = Vec::new();
    push_u32(&mut h, RECORD_MAGIC);
    push_u16(&mut h, kind.code());
    push_u16(&mut h, 0u16);
    push_u64(&mut h, txn);
    push_u64(&mut h, seq);
    push_u32(&mut h, payload.len() as u32);
    let mut for_crc = h.clone();
    push_zeros(&mut for_crc, 4);
    let hcrc = Crc32c::hash(for_crc.as_slice());
    push_u32(&mut h, hcrc);
    push_zeros(&mut h, 8);
    proof {
        lemma_record_lengths(record_kind_code(kind), txn, seq, payload@);
        assert(h@ =~= record_header(record_kind_code(kind), txn, seq, payload@.len() as u32));
    }
    push_bytes(&mut h, payload);
    let rcrc = Crc32c::hash(h.as_slice());
    push_u32(&mut h, rcrc);
    proof {
        assert(h@ =~= record_bytes(record_kind_code(kind), txn, seq, payload@));
    }
    h
}

/// The record stored at `off` in `area`, as (kind code, transaction,
/// payload, encoded length); `None` where no intact record starts there
/// inside `area` (bad magic, a checksum mismatch, or a record that runs
/// past the end).
pub open spec fn record_at(area: Seq<u8>, off: int) -> Option<(u16, u64, Seq<u8>, int)> {
    if off < 0 || off + 40 > area.len() {
        None
    } else {
        let hdr = area.subrange(off, off + 40);
        let plen = spec_u32_from_le_bytes(hdr.subrange(24, 28)) as int;
        if spec_u32_from_le_bytes(hdr.subrange(0, 4)) != RECORD_MAGIC {
            None
        } else if spec_u32_from_le_bytes(hdr.subrange(28, 32)) != crc32c_spec(hdr.subrange(0, 28) + zeros(4)) {
            None
        } else if off + 44 + plen > area.len() {
            None
        } else if spec_u32_from_le_bytes(area.subrange(off + 40 + plen, off + 44 + plen))
            != crc32c_spec(hdr + area.subrange(off + 40, off + 40 + plen)) {
            None
        } else {
            Some((
                spec_u16_from_le_bytes(hdr.subrange(4, 6)),
                spec_u64_from_le_bytes(hdr.subrange(8, 16)),
                area.subrange(off + 40, off + 40 + plen),
                44 + plen,
            ))
        }
    }
}

/// Decoded record.
struct DecodedRecord {
    kind: u16,
    txn_id: u64,
    payload: Vec<u8>,
    encoded_len: usize,
}

/// Read the record at `off` of `area`.
fn parse_record(area: &[u8], off: usize) -> (r: Option<DecodedRecord>)
    ensures
        r is None <==> record_at(area@, off as int) is None,
        r matches Some(d) ==> record_at(area@, off as int) == Some((d.kind, d.txn_id, d.payload@, d.encoded_len as int)),
{
    if off > area.len() || area.len() - off < 40 {
        return None;
    }
    let hdr = copy_range(area, off, off + 40);
    let magic = read_u32(hdr.as_slice(), 0);
    if magic != RECORD_MAGIC {
        return None;
    }
    let plen = read_u32(hdr.as_slice(), 24) as usize;
    let hcrc = read_u32(hdr.as_slice(), 28);
    let mut pre = copy_range(hdr.as_slice(), 0, 28);
    push_zeros(&mut pre, 4);
    if Crc32c::hash(pre.as_slice()) != hcrc {
        return None;
    }
    if area.len() - off - 40 < plen || area.len() - off - 40 - plen < 4 {
        return None;
    }
    let payload = copy_range(area, off + 40, off + 40 + plen);
    let stored = read_u32(area, off + 40 + plen);
    let mut full = hdr.clone();
    push_bytes(&mut full, payload.as_slice());
    if Crc32c::hash(full.as_slice()) != stored {
        return None;
    }
    let kind = read_u16(hdr.as_slice(), 4);
    let txn_id = read_u64(hdr.as_slice(), 8);
    proof {
        assert(pre@ =~= hdr@.subrange(0, 28) + zeros(4));
        assert(hdr@.subrange(4, 6) =~= area@.subrange(off + 4, off + 6));
    }
    Some(DecodedRecord { kind, txn_id, payload, encoded_len: 44 + plen })
}

/// Reading an encoded record gives back its kind, transaction and payload.
pub proof fn lemma_record_roundtrip(kind: u16, txn: u64, seq: u64, payload: Seq<u8>, area: Seq<u8>, off: int)
    requires
        payload.len() <= u32::MAX,
        0 <= off,
        off + 44 + payload.len() <= area.len(),
        area.subrange(off, off + 44 + payload.len()) == record_bytes(kind, txn, seq, payload),
    ensures
        record_at(area, off) == Some((kind, txn, payload, 44 + payload.len() as int)),
{
    lemma_record_lengths(kind, txn, seq, payload);
    lemma_auto_spec_u64_to_from_le_bytes();
    lemma_auto_spec_u32_to_from_le_bytes();
    lemma_auto_spec_u16_to_from_le_bytes();
    let r = record_bytes(kind, txn, seq, payload);
    let h = record_header(kind, txn, seq, payload.len() as u32);
    let pre = record_prefix(kind, txn, seq, payload.len() as u32);
    let plen = payload.len() as int;
    assert(area.subrange(off, off + 40) =~= h) by {
        assert(r.subrange(0, 40) =~= h);
        assert(area.subrange(off, off + 40) =~= r.subrange(0, 40));
    }
    assert(h.subrange(0, 4) =~= spec_u32_to_le_bytes(RECORD_MAGIC));
    assert(h.subrange(4, 6) =~= spec_u16_to_le_bytes(kind));
    assert(h.subrange(8, 16) =~= spec_u64_to_le_bytes(txn));
    assert(h.subrange(24, 28) =~= spec_u32_to_le_bytes(payload.len() as u32));
    assert(h.subrange(0, 28) =~= pre);
    assert(h.subrange(28, 32) =~= spec_u32_to_le_bytes(crc32c_spec(pre + zeros(4))));
    assert(area.subrange(off + 40, off + 40 + plen) =~= payload) by {
        assert(area.subrange(off + 40, off + 40 + plen) =~= r.subrange(40, 40 + plen));
    }
    assert(area.subrange(off + 40 + plen, off + 44 + plen) =~= spec_u32_to_le_bytes(crc32c_spec(h + payload))) by {
        assert(area.subrange(off + 40 + plen, off + 44 + plen) =~= r.subrange(40 + plen, 44 + plen));
    }
}

proof fn lemma_overwrite_within(c: Seq<u8>, a: int, win: Seq<u8>, si: int, data: Seq<u8>)
    requires
        0 <= a,
        a + win.len() <= c.len(),
        win == c.subrange(a, a + win.len()),
        0 <= si,
        si + data.len() <= win.len(),
    ensures
        overwrite(c, a, overwrite(win, si, data)) == overwrite(c, a + si, data),
{
    let l = overwrite(c, a, overwrite(win, si, data));
    let r = overwrite(c, a + si, data);
    assert(l.len() == r.len());
    assert forall|k: int| 0 <= k < l.len() implies l[k] == r[k] by {
        if a <= k < a + win.len() {
            if a + si <= k < a + si + data.len() {
            } else {
                assert(win[k - a] == c[k]);
            }
        }
    }
    assert(l =~= r);
}

/// Bytes `[offset, offset + length)` of the device, read in whole sectors.
fn read_span<D: BlockDevice>(device: &D, offset: u64, length: u64) -> (r: CoreFsResult<Vec<u8>>)
    requires
        device.inv(),
    ensures
        length == 0 ==> (r matches Ok(v) && v@.len() == 0),
        length > 0 ==> (r matches Ok(v) ==> offset + length <= device.content().len()
            && v@ == device.content().subrange(offset as int, offset + length)),
{
    proof {
        device.lemma_inv();
    }
    if length == 0 {
        return Ok(Vec::new());
    }
    let ss = device.sector_size() as u64;
    let rem = offset % ss;
    proof {
        assert(rem <= offset) by (nonlinear_arith)
            requires rem == offset % ss, ss > 0;
    }
    let aligned_start = offset - rem;
    let end = match offset.checked_add(length) {
        Some(v) => v,
        None => {
            return Err(CoreFsError::State(msg("journal read runs past the addressable range")));
        },
    };
    let aligned_end = match checked_align_up_u64(end, ss) {
        Some(v) => v,
        None => {
            return Err(CoreFsError::State(msg("journal read runs past the addressable range")));
        },
    };
    proof {
        lemma_align_up(end as int, ss as int);
    }
    let raw = device.read_at(aligned_start, aligned_end - aligned_start)?;
    let start_in = offset - aligned_start;
    let raw_len = raw.len();
    proof {
        assert(raw@.len() == aligned_end - aligned_start);
        assert(start_in + length <= raw_len);
    }
    let s0 = start_in as usize;
    let s1 = (start_in + length) as usize;
    let out = copy_range(raw.as_slice(), s0, s1);
    proof {
        assert(out@ =~= device.content().subrange(offset as int, offset + length));
    }
    Ok(out)
}

/// Write `data` at `offset`, reading and rewriting whole sectors.
fn write_span<D: BlockDevice>(device: &mut D, offset: u64, data: &[u8]) -> (r: CoreFsResult<()>)
    requires
        old(device).inv(),
    ensures
        final(device).inv(),
        final(device).spec_geometry() == old(device).spec_geometry(),
        final(device).stores_writes() == old(device).stores_writes(),
        r is Err ==> final(device).content() == old(device).content(),
        data@.len() == 0 ==> r is Ok && final(device).content() == old(device).content(),
        data@.len() > 0 && r is Ok && old(device).stores_writes() ==> offset + data@.len() <= old(device).content().len()
            && final(device).content() == overwrite(old(device).content(), offset as int, data@),
{
    proof {
        device.lemma_inv();
    }
    if data.len() == 0 {
        return Ok(());
    }
    let ss = device.sector_size() as u64;
    let rem = offset % ss;
    proof {
        assert(rem <= offset) by (nonlinear_arith)
            requires rem == offset % ss, ss > 0;
    }
    let aligned_start = offset - rem;
    let end = match offset.checked_add(data.len() as u64) {
        Some(v) => v,
        None => {
            return Err(CoreFsError::State(msg("journal write runs past the addressable range")));
        },
    };
    let aligned_end = match checked_align_up_u64(end, ss) {
        Some(v) => v,
        None => {
            return Err(CoreFsError::State(msg("journal write runs past the addressable range")));
        },
    };
    proof {
        lemma_align_up(end as int, ss as int);
    }
    let mut buf = device.read_at(aligned_start, aligned_end - aligned_start)?;
    let ghost c = device.content();
    let ghost win = buf@;
    let start_in = (offset - aligned_start) as usize;
    write_bytes_at(&mut buf, start_in, data);
    let res = device.write_at(aligned_start, buf.as_slice());
    proof {
        if res is Ok && device.stores_writes() {
            lemma_overwrite_within(c, aligned_start as int, win, start_in as int, data@);
        }
    }
    res
}


/// Handle onto a journal region: where it lies and a copy of its header.
/// The device is passed to each operation.
pub struct Journal {
    header_block: u64,
    record_start_block: u64,
    header: JournalHeader,
}

/// Summary of a replayed transaction.
#[derive(Debug, Clone, Copy, PartialEq, Eq, Structural)]
pub struct ReplayedTxn {
    pub txn_id: u64,
    pub ops: usize,
}

impl Journal {
    /// Header as held in memory.
    pub closed spec fn spec_header(&self) -> JournalHeader {
        self.header
    }

    /// Byte offset of the header block on the device.
    pub closed spec fn header_offset(&self) -> int {
        self.header_block * 4096
    }

    /// Byte offset of the record area on the device.
    pub closed spec fn record_base(&self) -> int {
        self.record_start_block * 4096
    }

    /// The record area follows the header block, and both offsets fit.
    pub closed spec fn wf(&self) -> bool {
        &&& self.record_start_block == self.header_block + 1
        &&& self.record_start_block * 4096 <= u64::MAX
    }

    /// Facts of the invariant.
    pub proof fn lemma_wf(&self)
        requires
            self.wf(),
        ensures
            self.record_base() == self.header_offset() + 4096,
            self.header_offset() >= 0,
            self.record_base() <= u64::MAX,
    {
    }

    /// Lay down a fresh journal: its header block and a zeroed first
    /// record block (so stale records cannot be scanned).
    pub fn format<D: BlockDevice>(device: &mut D, sb: &Superblock) -> (r: CoreFsResult<Journal>)
        requires
            old(device).inv(),
        ensures
            final(device).inv(),
            final(device).spec_geometry() == old(device).spec_geometry(),
            final(device).stores_writes() == old(device).stores_writes(),
            sb.journal_blocks < 2 ==> (r matches Err(e) && e is InvalidInput
                && final(device).content() == old(device).content()),
            r matches Ok(j) ==> j.wf() && sb.journal_blocks >= 2
                && j.spec_header() == fresh_header(((sb.journal_blocks - 1) * 4096) as u64)
                && j.header_offset() == sb.journal_start * 4096
                && j.record_base() == (sb.journal_start + 1) * 4096
                && (old(device).stores_writes() ==> final(device).content() == overwrite(
                    overwrite(old(device).content(), j.header_offset(), jh_block_bytes(j.spec_header())),
                    j.record_base(),
                    zeros(4096),
                )),
    {
        if sb.journal_blocks < 2 {
            return Err(CoreFsError::InvalidInput(msg("journal region must be at least 2 blocks")));
        }
        let record_area_bytes = match (sb.journal_blocks - 1).checked_mul(4096) {
            Some(v) => v,
            None => {
                return Err(CoreFsError::State(msg("journal region too large")));
            },
        };
        let header_block = sb.journal_start;
        let record_start_block = match header_block.checked_add(1) {
            Some(v) => v,
            None => {
                return Err(CoreFsError::State(msg("journal region out of range")));
            },
        };
        if record_start_block > u64::MAX / 4096 {
            return Err(CoreFsError::State(msg("journal region out of range")));
        }
        let header = JournalHeader::fresh(record_area_bytes);
        let block = header.encode_block();
        device.write_at(header_block * 4096, block.as_slice())?;
        let zero = zero_vec(4096);
        device.write_at(record_start_block * 4096, zero.as_slice())?;
        device.sync()?;
        Ok(Journal { header_block, record_start_block, header })
    }

    /// Open an existing journal: read and validate its header block.
    pub fn open<D: BlockDevice>(device: &D, sb: &Superblock) -> (r: CoreFsResult<Journal>)
        requires
            device.inv(),
        ensures
            r matches Ok(j) ==> j.wf() && j.header_offset() == sb.journal_start * 4096
                && j.header_offset() + 4096 <= device.content().len()
                && jh_decodable(device.content().subrange(j.header_offset(), j.header_offset() + 4096))
                && j.spec_header() == jh_from_block(device.content().subrange(j.header_offset(), j.header_offset() + 4096)),
    {
        let header_block = sb.journal_start;
        if header_block >= u64::MAX / 4096 {
            return Err(CoreFsError::State(msg("journal region out of range")));
        }
        let block = device.read_at(header_block * 4096, 4096)?;
        let header = JournalHeader::decode_block(block.as_slice())?;
        Ok(Journal { header_block, record_start_block: header_block + 1, header })
    }

    /// Read and validate the header of the journal of `sb` without opening it.
    pub fn inspect<D: BlockDevice>(device: &D, sb: &Superblock) -> (r: CoreFsResult<JournalHeader>)
        requires
            device.inv(),
        ensures
            r matches Ok(h) ==> sb.journal_start * 4096 + 4096 <= device.content().len()
                && jh_decodable(device.content().subrange(sb.journal_start * 4096, sb.journal_start * 4096 + 4096))
                && h == jh_from_block(device.content().subrange(sb.journal_start * 4096, sb.journal_start * 4096 + 4096)),
    {
        if sb.journal_start >= u64::MAX / 4096 {
            return Err(CoreFsError::State(msg("journal region out of range")));
        }
        let block = device.read_at(sb.journal_start * 4096, 4096)?;
        JournalHeader::decode_block(block.as_slice())
    }

    /// Start a transaction with the next transaction id.
    pub fn begin(&mut self) -> (r: TxnBuilder)
        ensures
            r.spec_txn_id() == old(self).spec_header().next_txn_id,
            r.spec_ops().len() == 0,
            final(self).spec_header() == (JournalHeader {
                next_txn_id: if old(self).spec_header().next_txn_id == u64::MAX { u64::MAX } else {
                    (old(self).spec_header().next_txn_id + 1) as u64
                },
                ..old(self).spec_header()
            }),
            final(self).header_offset() == old(self).header_offset(),
            final(self).record_base() == old(self).record_base(),
            final(self).wf() == old(self).wf(),
    {
        let txn_id = self.header.next_txn_id;
        self.header.next_txn_id = self.header.next_txn_id.saturating_add(1);
        TxnBuilder { txn_id, ops: Vec::new() }
    }

    /// Current header.
    pub fn header(&self) -> (r: &JournalHeader)
        ensures
            *r == self.spec_header(),
    {
        &self.header
    }

    /// Write the header block and sync.
    fn flush_header<D: BlockDevice>(&self, device: &mut D) -> (r: CoreFsResult<()>)
        requires
            self.wf(),
            old(device).inv(),
        ensures
            final(device).inv(),
            final(device).spec_geometry() == old(device).spec_geometry(),
            final(device).stores_writes() == old(device).stores_writes(),
            r is Ok && old(device).stores_writes() ==> self.header_offset() + 4096 <= old(device).content().len()
                && final(device).content() == overwrite(old(device).content(), self.header_offset(), jh_block_bytes(self.header)),
    {
        let block = self.header.encode_block();
        device.write_at(self.header_block * 4096, block.as_slice())?;
        device.sync()
    }

    /// Empty the journal: head and tail back to zero, state clean, first
    /// record block zeroed, header written.
    pub fn checkpoint<D: BlockDevice>(&mut self, device: &mut D) -> (r: CoreFsResult<()>)
        requires
            old(self).wf(),
            old(device).inv(),
        ensures
            final(self).wf(),
            final(device).inv(),
            final(device).spec_geometry() == old(device).spec_geometry(),
            final(device).stores_writes() == old(device).stores_writes(),
            final(self).header_offset() == old(self).header_offset(),
            final(self).record_base() == old(self).record_base(),
            final(self).spec_header() == (JournalHeader {
                head_offset: 0,
                tail_offset: 0,
                state: JSTATE_CLEAN,
                ..old(self).spec_header()
            }),
            r is Ok && old(device).stores_writes() ==> final(device).content() == overwrite(
                overwrite(old(device).content(), old(self).record_base(), zeros(4096)),
                old(self).header_offset(),
                jh_block_bytes(final(self).spec_header()),
            ),
    {
        self.header.head_offset = 0;
        self.header.tail_offset = 0;
        self.header.state = JSTATE_CLEAN;
        let zero = zero_vec(4096);
        device.write_at(self.record_start_block * 4096, zero.as_slice())?;
        self.flush_header(device)
    }

    /// Append one record at the tail.
    fn append_record<D: BlockDevice>(&mut self, device: &mut D, kind: RecordKind, txn_id: u64, payload: &[u8]) -> (r: CoreFsResult<()>)
        requires
            old(self).wf(),
            old(device).inv(),
            payload@.len() <= u32::MAX,
        ensures
            final(self).wf(),
            final(device).inv(),
            final(device).spec_geometry() == old(device).spec_geometry(),
            final(device).stores_writes() == old(device).stores_writes(),
            final(self).header_offset() == old(self).header_offset(),
            final(self).record_base() == old(self).record_base(),
            r is Err ==> final(self).spec_header() == old(self).spec_header()
                && final(device).content() == old(device).content(),
            r is Ok ==> old(self).spec_header().tail_offset + 44 + payload@.len() <= old(self).spec_header().record_area_bytes
                && old(self).spec_header().next_seq < u64::MAX
                && final(self).spec_header() == (JournalHeader {
                    tail_offset: (old(self).spec_header().tail_offset + 44 + payload@.len()) as u64,
                    next_seq: (old(self).spec_header().next_seq + 1) as u64,
                    ..old(self).spec_header()
                }),
            r is Ok && old(device).stores_writes() ==> old(self).record_base() + old(self).spec_header().tail_offset + 44
                + payload@.len() <= old(device).content().len()
                && final(device).content() == overwrite(
                    old(device).content(),
                    old(self).record_base() + old(self).spec_header().tail_offset,
                    record_bytes(record_kind_code(kind), txn_id, old(self).spec_header().next_seq, payload@),
                ),
    {
        let total = 44 + payload.len() as u64;
        let tail = self.header.tail_offset;
        if tail > self.header.record_area_bytes || self.header.record_area_bytes - tail < total {
            return Err(CoreFsError::State(msg("journal: record area full, checkpoint required")));
        }
        if self.header.next_seq == u64::MAX {
            return Err(CoreFsError::State(msg("journal: sequence numbers exhausted")));
        }
        let base = self.record_start_block * 4096;
        let off = match base.checked_add(tail) {
            Some(v) => v,
            None => {
                return Err(CoreFsError::State(msg("journal record offset out of range")));
            },
        };
        let full = encode_record(kind, txn_id, self.header.next_seq, payload);
        proof {
            lemma_record_lengths(record_kind_code(kind), txn_id, self.header.next_seq, payload@);
        }
        write_span(device, off, full.as_slice())?;
        self.header.tail_offset = tail + total;
        self.header.next_seq = self.header.next_seq + 1;
        Ok(())
    }
}


/// The op records of the first `n` ops of a transaction, with sequence
/// numbers from `seq`.
pub open spec fn op_records(ops: Seq<Op>, txn: u64, seq: int, n: int) -> Seq<u8>
    decreases n,
{
    if n <= 0 {
        Seq::empty()
    } else {
        op_records(ops, txn, seq, n - 1) + record_bytes(1, txn, (seq + n - 1) as u64, op_bytes(ops[n - 1]))
    }
}

/// Everything a commit appends: one op record per op, then the commit record.
pub open spec fn txn_bytes(ops: Seq<Op>, txn: u64, seq: int) -> Seq<u8> {
    op_records(ops, txn, seq, ops.len() as int) + record_bytes(2, txn, (seq + ops.len()) as u64, Seq::empty())
}

/// Ops whose payloads fit a record.
pub open spec fn ops_fit(ops: Seq<Op>) -> bool {
    forall|i: int| 0 <= i < ops.len() ==> op_data(#[trigger] ops[i]).len() + 13 <= u32::MAX
}

proof fn lemma_overwrite_keeps(c: Seq<u8>, off: int, x: Seq<u8>, p: int, q: int)
    requires
        0 <= p <= q <= c.len(),
        0 <= off,
        off + x.len() <= c.len(),
        q <= off || off + x.len() <= p,
    ensures
        overwrite(c, off, x).len() == c.len(),
        overwrite(c, off, x).subrange(p, q) == c.subrange(p, q),
{
    assert(overwrite(c, off, x).subrange(p, q) =~= c.subrange(p, q));
}

proof fn lemma_overwrite_extend(c: Seq<u8>, a: int, b: int, x: Seq<u8>)
    requires
        0 <= a <= b,
        b + x.len() <= c.len(),
    ensures
        overwrite(c, b, x).len() == c.len(),
        overwrite(c, b, x).subrange(a, b + x.len()) == c.subrange(a, b) + x,
{
    assert(overwrite(c, b, x).subrange(a, b + x.len()) =~= c.subrange(a, b) + x);
}

/// Ops collected for one transaction.
pub struct TxnBuilder {
    txn_id: u64,
    ops: Vec<Op>,
}

impl TxnBuilder {
    /// Transaction id.
    pub closed spec fn spec_txn_id(&self) -> u64 {
        self.txn_id
    }

    /// Ops collected so far.
    pub closed spec fn spec_ops(&self) -> Seq<Op> {
        self.ops@
    }

    /// Add an op.
    pub fn push(&mut self, op: Op)
        ensures
            final(self).spec_ops() == old(self).spec_ops().push(op),
            final(self).spec_txn_id() == old(self).spec_txn_id(),
    {
        self.ops.push(op);
    }

    /// Transaction id.
    pub fn txn_id(&self) -> (r: u64)
        ensures
            r == self.spec_txn_id(),
    {
        self.txn_id
    }

    /// Mark the journal dirty, append one record per op, sync, append the
    /// commit record, sync and write the header.  The transaction is
    /// durable once the commit record is on the device.
    pub fn commit<D: BlockDevice>(self, journal: &mut Journal, device: &mut D) -> (r: CoreFsResult<u64>)
        requires
            old(journal).wf(),
            old(device).inv(),
            ops_fit(self.spec_ops()),
        ensures
            final(journal).wf(),
            final(device).inv(),
            final(device).spec_geometry() == old(device).spec_geometry(),
            final(device).stores_writes() == old(device).stores_writes(),
            final(journal).header_offset() == old(journal).header_offset(),
            final(journal).record_base() == old(journal).record_base(),
            self.spec_ops().len() == 0 ==> (r matches Err(e) && e is InvalidInput
                && final(journal).spec_header() == old(journal).spec_header()
                && final(device).content() == old(device).content()),
            r matches Ok(t) ==> t == self.spec_txn_id() && self.spec_ops().len() > 0
                && final(journal).spec_header() == (JournalHeader {
                    state: JSTATE_DIRTY,
                    tail_offset: (old(journal).spec_header().tail_offset
                        + txn_bytes(self.spec_ops(), self.spec_txn_id(), old(journal).spec_header().next_seq as int).len()) as u64,
                    next_seq: (old(journal).spec_header().next_seq + self.spec_ops().len() + 1) as u64,
                    ..old(journal).spec_header()
                }),
            r is Ok && old(device).stores_writes() ==> ({
                let c = final(device).content();
                let h = final(journal).spec_header();
                let base = old(journal).record_base();
                &&& base + h.tail_offset <= c.len()
                &&& c.subrange(base + old(journal).spec_header().tail_offset, base + h.tail_offset)
                    == txn_bytes(self.spec_ops(), self.spec_txn_id(), old(journal).spec_header().next_seq as int)
                &&& c.subrange(old(journal).header_offset(), old(journal).header_offset() + 4096) == jh_block_bytes(h)
            }),
    {
        if self.ops.len() == 0 {
            return Err(CoreFsError::InvalidInput(msg("journal: cannot commit an empty transaction")));
        }
        let ghost h0 = journal.header;
        let ghost seq0 = h0.next_seq as int;
        let ghost ops = self.ops@;
        let ghost txn = self.txn_id;
        let ghost ss = old(device).stores_writes();
        proof {
            journal.lemma_wf();
        }
        journal.header.state = JSTATE_DIRTY;
        journal.flush_header(device)?;
        let ghost base = journal.record_base();
        let ghost c1 = device.content();
        let mut i: usize = 0;
        while i < self.ops.len()
            invariant
                journal.wf(),
                device.inv(),
                device.spec_geometry() == old(device).spec_geometry(),
                device.stores_writes() == ss,
                ss == old(device).stores_writes(),
                seq0 == h0.next_seq,
                seq0 + i <= u64::MAX,
                journal.record_base() == base,
                journal.header_offset() == old(journal).header_offset(),
                base == old(journal).record_base(),
                ops == self.ops@,
                txn == self.txn_id,
                ops_fit(ops),
                i <= ops.len(),
                journal.header == (JournalHeader {
                    state: JSTATE_DIRTY,
                    tail_offset: (h0.tail_offset + op_records(ops, txn, seq0, i as int).len()) as u64,
                    next_seq: (seq0 + i) as u64,
                    ..h0
                }),
                h0.tail_offset + op_records(ops, txn, seq0, i as int).len() <= u64::MAX,
                ss && i > 0 ==> base + h0.tail_offset + op_records(ops, txn, seq0, i as int).len() <= device.content().len(),
                ss && i > 0 ==> device.content().subrange(base + h0.tail_offset, base + journal.header.tail_offset)
                    == op_records(ops, txn, seq0, i as int),
                ss ==> device.content().len() == c1.len(),
            decreases ops.len() - i,
        {
            proof {
                assert(op_data(ops[i as int]).len() + 13 <= u32::MAX);
            }
            let bytes = self.ops[i].encode();
            proof {
                lemma_auto_spec_u64_to_from_le_bytes();
                lemma_auto_spec_u32_to_from_le_bytes();
                assert(bytes@.len() == 13 + op_data(ops[i as int]).len());
            }
            let ghost cb = device.content();
            let ghost tb = journal.header.tail_offset;
            journal.append_record(device, RecordKind::Op, self.txn_id, bytes.as_slice())?;
            proof {
                lemma_record_lengths(1, txn, (seq0 + i) as u64, bytes@);
                let rec = record_bytes(1, txn, (seq0 + i) as u64, bytes@);
                assert(op_records(ops, txn, seq0, i as int + 1) == op_records(ops, txn, seq0, i as int) + rec);
                if ss {
                    if i == 0 {
                        assert(cb.subrange(base + h0.tail_offset, base + tb) =~= op_records(ops, txn, seq0, 0));
                    }
                    lemma_overwrite_extend(cb, base + h0.tail_offset, base + tb, rec);
                }
            }
            i = i + 1;
        }
        device.sync()?;
        let ghost cc = device.content();
        let ghost tc = journal.header.tail_offset;
        let empty: Vec<u8> = Vec::new();
        journal.append_record(device, RecordKind::Commit, self.txn_id, empty.as_slice())?;
        let ghost cm = device.content();
        proof {
            lemma_record_lengths(2, txn, (seq0 + ops.len()) as u64, empty@);
            let rec = record_bytes(2, txn, (seq0 + ops.len()) as u64, empty@);
            assert(empty@ =~= Seq::<u8>::empty());
            if ss {
                lemma_overwrite_extend(cc, base + h0.tail_offset, base + tc, rec);
            }
        }
        device.sync()?;
        let ghost cs = device.content();
        journal.flush_header(device)?;
        proof {
            if ss {
                let hb = old(journal).header_offset();
                lemma_jh_lengths(journal.header);
                lemma_overwrite_keeps(cs, hb, jh_block_bytes(journal.header), base + h0.tail_offset, base + journal.header.tail_offset);
                lemma_jh_lengths(journal.header);
                assert(device.content().subrange(hb, hb + 4096) =~= jh_block_bytes(journal.header));
            }
        }
        Ok(self.txn_id)
    }

    /// Append an abort record: the transaction is discarded.
    pub fn abort<D: BlockDevice>(self, journal: &mut Journal, device: &mut D) -> (r: CoreFsResult<()>)
        requires
            old(journal).wf(),
            old(device).inv(),
        ensures
            final(journal).wf(),
            final(device).inv(),
            final(device).spec_geometry() == old(device).spec_geometry(),
            final(device).stores_writes() == old(device).stores_writes(),
            final(journal).header_offset() == old(journal).header_offset(),
            final(journal).record_base() == old(journal).record_base(),
            !(old(journal).spec_header().tail_offset + 44 <= old(journal).spec_header().record_area_bytes
                && old(journal).spec_header().next_seq < u64::MAX) ==> r is Err
                && final(journal).spec_header() == old(journal).spec_header()
                && final(device).content() == old(device).content(),
            r is Ok ==> final(journal).spec_header() == (JournalHeader {
                tail_offset: (old(journal).spec_header().tail_offset + 44) as u64,
                next_seq: (old(journal).spec_header().next_seq + 1) as u64,
                ..old(journal).spec_header()
            }),
            r is Ok && old(device).stores_writes() ==> final(device).content() == overwrite(
                old(device).content(),
                old(journal).record_base() + old(journal).spec_header().tail_offset,
                record_bytes(3, self.spec_txn_id(), old(journal).spec_header().next_seq, Seq::empty()),
            ),
    {
        let empty: Vec<u8> = Vec::new();
        proof {
            assert(empty@ =~= Seq::<u8>::empty());
        }
        journal.append_record(device, RecordKind::Abort, self.txn_id, empty.as_slice())?;
        device.sync()
    }
}


/// Index of the last open transaction `txn` in `p`, or -1.
pub open spec fn pend_find(p: Seq<(u64, nat)>, txn: u64) -> int
    decreases p.len(),
{
    if p.len() == 0 {
        -1
    } else if p.last().0 == txn {
        p.len() - 1
    } else {
        pend_find(p.drop_last(), txn)
    }
}

proof fn lemma_pend_find(p: Seq<(u64, nat)>, txn: u64)
    ensures
        -1 <= pend_find(p, txn) < p.len(),
        pend_find(p, txn) >= 0 ==> p[pend_find(p, txn)].0 == txn,
    decreases p.len(),
{
    if p.len() > 0 && p.last().0 != txn {
        lemma_pend_find(p.drop_last(), txn);
    }
}

/// One more op for transaction `txn`.
pub open spec fn pend_add(p: Seq<(u64, nat)>, txn: u64) -> Seq<(u64, nat)> {
    let i = pend_find(p, txn);
    if i >= 0 { p.update(i, (txn, p[i].1 + 1)) } else { p.push((txn, 1nat)) }
}

/// Transaction `txn` closed (committed or aborted).
pub open spec fn pend_drop(p: Seq<(u64, nat)>, txn: u64) -> Seq<(u64, nat)> {
    let i = pend_find(p, txn);
    if i >= 0 { p.remove(i) } else { p }
}

/// Scan of the live record area from `cur`: open transactions with their op
/// counts are `pend`, committed ones so far `done`.  The scan stops at the
/// end of the area or at the first place where no intact record starts;
/// an op record whose payload does not decode, or a record of unknown kind,
/// makes the scan fail (`None`).  Committed transactions come out in the
/// order of their commit records, each with its number of ops; a commit or
/// abort of a transaction with no ops changes nothing.
pub open spec fn replay_scan(area: Seq<u8>, cur: int, pend: Seq<(u64, nat)>, done: Seq<(u64, nat)>) -> Option<Seq<(u64, nat)>>
    decreases area.len() - cur,
{
    if cur < 0 || cur >= area.len() {
        Some(done)
    } else {
        match record_at(area, cur) {
            None => Some(done),
            Some((kind, txn, payload, len)) => {
                if kind == 1 {
                    if op_decodable(payload) {
                        replay_scan(area, cur + len, pend_add(pend, txn), done)
                    } else {
                        None
                    }
                } else if kind == 2 {
                    let i = pend_find(pend, txn);
                    if i >= 0 {
                        replay_scan(area, cur + len, pend.remove(i), done.push((txn, pend[i].1)))
                    } else {
                        replay_scan(area, cur + len, pend, done)
                    }
                } else if kind == 3 {
                    replay_scan(area, cur + len, pend_drop(pend, txn), done)
                } else {
                    None
                }
            },
        }
    }
}

/// Open transactions with the payloads of their op records, counted.
pub open spec fn pcounts(p: Seq<(u64, Seq<Seq<u8>>)>) -> Seq<(u64, nat)> {
    p.map_values(|e: (u64, Seq<Seq<u8>>)| (e.0, e.1.len()))
}

/// Op payload `payload` logged for transaction `txn`.
pub open spec fn pend_add_payload(p: Seq<(u64, Seq<Seq<u8>>)>, txn: u64, payload: Seq<u8>) -> Seq<(u64, Seq<Seq<u8>>)> {
    let i = pend_find(pcounts(p), txn);
    if i >= 0 { p.update(i, (txn, p[i].1.push(payload))) } else { p.push((txn, seq![payload])) }
}

/// Transaction `txn` aborted.
pub open spec fn pend_drop_payload(p: Seq<(u64, Seq<Seq<u8>>)>, txn: u64) -> Seq<(u64, Seq<Seq<u8>>)> {
    let i = pend_find(pcounts(p), txn);
    if i >= 0 { p.remove(i) } else { p }
}

/// The op payloads that a replay of the live area from `cur` applies, in
/// order: the scan of [`replay_scan`], keeping each open transaction's op
/// payloads in the order they were logged, and on its commit record
/// appending them to `done`.
pub open spec fn replay_committed(area: Seq<u8>, cur: int, pend: Seq<(u64, Seq<Seq<u8>>)>, done: Seq<Seq<u8>>) -> Seq<Seq<u8>>
    decreases area.len() - cur,
{
    if cur < 0 || cur >= area.len() {
        done
    } else {
        match record_at(area, cur) {
            None => done,
            Some((kind, txn, payload, len)) => {
                if kind == 1 {
                    if op_decodable(payload) {
                        replay_committed(area, cur + len, pend_add_payload(pend, txn, payload), done)
                    } else {
                        done
                    }
                } else if kind == 2 {
                    let i = pend_find(pcounts(pend), txn);
                    if i >= 0 {
                        replay_committed(area, cur + len, pend.remove(i), done + pend[i].1)
                    } else {
                        replay_committed(area, cur + len, pend, done)
                    }
                } else if kind == 3 {
                    replay_committed(area, cur + len, pend_drop_payload(pend, txn), done)
                } else {
                    done
                }
            },
        }
    }
}

/// Every payload is that of a block write.
pub open spec fn all_block_writes(ps: Seq<Seq<u8>>) -> bool {
    forall|i: int| 0 <= i < ps.len() ==> (#[trigger] ps[i]).len() > 0 && ps[i][0] == 1u8
}

/// The block a block-write payload targets.
pub open spec fn write_target(p: Seq<u8>) -> u64 {
    spec_u64_from_le_bytes(p.subrange(1, 9))
}

/// The data a block-write payload carries.
pub open spec fn write_data(p: Seq<u8>) -> Seq<u8> {
    p.subrange(13, p.len() as int)
}

/// `c` with the block writes `ps` applied one after the other.
pub open spec fn apply_block_writes(c: Seq<u8>, ps: Seq<Seq<u8>>) -> Seq<u8>
    decreases ps.len(),
{
    if ps.len() == 0 {
        c
    } else {
        overwrite(apply_block_writes(c, ps.drop_last()), write_target(ps.last()) * 4096, write_data(ps.last()))
    }
}

/// Index of the last payload of `ps` that writes block `b`, or -1.
pub open spec fn last_write_to(ps: Seq<Seq<u8>>, b: u64) -> int
    decreases ps.len(),
{
    if ps.len() == 0 {
        -1
    } else if write_target(ps.last()) == b {
        ps.len() - 1
    } else {
        last_write_to(ps.drop_last(), b)
    }
}

/// The last write to a block wins: after block writes of whole blocks
/// inside `c` are applied in order, block `b` holds the data of the last
/// of them that targets it, and what it held before when none does.
pub proof fn lemma_last_block_write_wins(c: Seq<u8>, ps: Seq<Seq<u8>>, b: u64)
    requires
        forall|i: int| 0 <= i < ps.len() ==> (#[trigger] ps[i]).len() == 13 + 4096
            && write_target(ps[i]) * 4096 + 4096 <= c.len(),
        b * 4096 + 4096 <= c.len(),
    ensures
        apply_block_writes(c, ps).len() == c.len(),
        -1 <= last_write_to(ps, b) < ps.len(),
        apply_block_writes(c, ps).subrange(b * 4096, b * 4096 + 4096) == if last_write_to(ps, b) >= 0 {
            write_data(ps[last_write_to(ps, b)])
        } else {
            c.subrange(b * 4096, b * 4096 + 4096)
        },
    decreases ps.len(),
{
    if ps.len() > 0 {
        let q = ps.drop_last();
        assert forall|i: int| 0 <= i < q.len() implies (#[trigger] q[i]).len() == 13 + 4096
            && write_target(q[i]) * 4096 + 4096 <= c.len() by {
            assert(q[i] == ps[i]);
        }
        lemma_last_block_write_wins(c, q, b);
        let prev = apply_block_writes(c, q);
        let p = ps.last();
        assert(p == ps[ps.len() - 1]);
        let t = write_target(p);
        let d = write_data(p);
        assert(d.len() == 4096);
        if t == b {
            assert(overwrite(prev, t * 4096, d).subrange(b * 4096, b * 4096 + 4096) =~= d);
        } else {
            if t < b {
                assert(t * 4096 + 4096 <= b * 4096);
            } else {
                assert(b * 4096 + 4096 <= t * 4096);
            }
            lemma_overwrite_keeps(prev, t * 4096, d, b * 4096, b * 4096 + 4096);
            if last_write_to(q, b) >= 0 {
                assert(ps[last_write_to(q, b)] == q[last_write_to(q, b)]);
            }
        }
    }
}

/// The record bytes between head and tail.
pub open spec fn live_area(c: Seq<u8>, base: int, h: JournalHeader) -> Seq<u8> {
    if h.head_offset < h.tail_offset {
        c.subrange(base + h.head_offset, base + h.tail_offset)
    } else {
        Seq::empty()
    }
}

spec fn pview(p: Seq<(u64, Vec<Op>)>) -> Seq<(u64, nat)> {
    p.map_values(|e: (u64, Vec<Op>)| (e.0, e.1@.len()))
}

/// Replayed transactions as (transaction id, number of ops).
pub open spec fn dview(d: Seq<ReplayedTxn>) -> Seq<(u64, nat)> {
    d.map_values(|t: ReplayedTxn| (t.txn_id, t.ops as nat))
}

fn find_pending(p: &Vec<(u64, Vec<Op>)>, txn: u64) -> (r: Option<usize>)
    ensures
        r matches Some(i) ==> i < p@.len() && i as int == pend_find(pview(p@), txn),
        r is None ==> pend_find(pview(p@), txn) == -1,
{
    let mut found: Option<usize> = None;
    let mut j: usize = 0;
    while j < p.len()
        invariant
            j <= p@.len(),
            found matches Some(i) ==> i < j && i as int == pend_find(pview(p@.take(j as int)), txn),
            found is None ==> pend_find(pview(p@.take(j as int)), txn) == -1,
        decreases p@.len() - j,
    {
        proof {
            assert(pview(p@.take(j as int + 1)).drop_last() =~= pview(p@.take(j as int)));
            assert(pview(p@.take(j as int + 1)).last() == (p@[j as int].0, p@[j as int].1@.len()));
        }
        if p[j].0 == txn {
            found = Some(j);
        }
        j = j + 1;
    }
    proof {
        assert(p@.take(p@.len() as int) =~= p@);
    }
    found
}

/// The open transactions held during a replay, with the op payloads they
/// were decoded from.
pub open spec fn pending_matches(p: Seq<(u64, Vec<Op>)>, g: Seq<(u64, Seq<Seq<u8>>)>) -> bool {
    &&& p.len() == g.len()
    &&& forall|i: int| 0 <= i < p.len() ==> (#[trigger] p[i]).0 == g[i].0 && p[i].1@.len() == g[i].1.len()
        && forall|j: int| 0 <= j < p[i].1@.len() ==> op_matches(#[trigger] p[i].1@[j], g[i].1[j])
}

proof fn lemma_pending_counts(p: Seq<(u64, Vec<Op>)>, g: Seq<(u64, Seq<Seq<u8>>)>)
    requires
        pending_matches(p, g),
    ensures
        pview(p) == pcounts(g),
{
    assert(pview(p) =~= pcounts(g));
}

/// Apply one op to the device: a block write stores its 4 KiB at the block;
/// an inode update rewrites the inode's slot inside its table block, found
/// through the primary superblock.
fn apply_op<D: BlockDevice>(device: &mut D, op: &Op) -> (r: CoreFsResult<()>)
    requires
        old(device).inv(),
    ensures
        final(device).inv(),
        final(device).spec_geometry() == old(device).spec_geometry(),
        final(device).stores_writes() == old(device).stores_writes(),
        op matches Op::BlockWrite { block, data } ==> (r is Ok && old(device).stores_writes()
            ==> final(device).content() == overwrite(old(device).content(), block * 4096, data@)),
        op matches Op::BlockWrite { block, data } && block > u64::MAX / 4096 ==> r is Err
            && final(device).content() == old(device).content(),
        op matches Op::InodeUpdate { index, record } ==> (r is Ok && old(device).stores_writes()
            ==> exists|s: Superblock| #[trigger] super::superblock::sb_matches_block(s,
                super::volume::block_of(old(device).content(), 1))
                && final(device).content() == overwrite(old(device).content(),
                    super::volume::inode_slot_offset(super::superblock::sb_geometry(s), *index), record@)),
        op_data(*op).len() != (if op is BlockWrite { 4096int } else { 256int }) ==> r is Err
            && final(device).content() == old(device).content(),
{
    match op {
        Op::BlockWrite { block, data } => {
            if data.len() != 4096 {
                return Err(CoreFsError::State(msg("replay: BlockWrite payload is not one full block")));
            }
            if *block > u64::MAX / 4096 {
                return Err(CoreFsError::State(msg("replay: BlockWrite target out of range")));
            }
            device.write_at(*block * 4096, data.as_slice())
        },
        Op::InodeUpdate { index, record } => {
            if record.len() != 256 {
                return Err(CoreFsError::State(msg("replay: InodeUpdate record has wrong length")));
            }
            let sb_bytes = device.read_at(4096, 4096)?;
            let sb = Superblock::decode_block(sb_bytes.as_slice())?;
            let geom = sb.geometry();
            if geom.inode_table_start > u64::MAX - geom.inode_count / 16 {
                return Err(CoreFsError::State(msg("replay: inode table out of range")));
            }
            let (block, offset_in_block) = geom.inode_record_location(*index)?;
            if block > u64::MAX / 4096 {
                return Err(CoreFsError::State(msg("replay: inode table out of range")));
            }
            let mut buf = device.read_at(block * 4096, 4096)?;
            proof {
                assert(offset_in_block + 256 <= 4096) by (nonlinear_arith)
                    requires offset_in_block == (*index % 16) * 256;
            }
            let ghost c = device.content();
            write_bytes_at(&mut buf, offset_in_block as usize, record.as_slice());
            let r = device.write_at(block * 4096, buf.as_slice());
            proof {
                if r is Ok && device.stores_writes() {
                    assert(sb_bytes@ =~= super::volume::block_of(c, 1));
                    assert(super::volume::inode_slot_offset(geom, *index) == block * 4096 + offset_in_block);
                    assert(device.content() =~= overwrite(c, block * 4096 + offset_in_block, record@));
                }
            }
            r
        },
    }
}

impl Journal {
    /// Replay the transactions committed between head and tail: the ops of
    /// each are applied to the device when its commit record is reached;
    /// transactions without a commit record are dropped.  Returns the
    /// applied transactions in commit order.  The header is unchanged.
    pub fn replay<D: BlockDevice>(&mut self, device: &mut D) -> (r: CoreFsResult<Vec<ReplayedTxn>>)
        requires
            old(self).wf(),
            old(device).inv(),
        ensures
            final(self).wf(),
            final(self).spec_header() == old(self).spec_header(),
            final(self).header_offset() == old(self).header_offset(),
            final(self).record_base() == old(self).record_base(),
            final(device).inv(),
            final(device).spec_geometry() == old(device).spec_geometry(),
            final(device).stores_writes() == old(device).stores_writes(),
            r matches Ok(v) ==> ({
                let h = old(self).spec_header();
                &&& (h.head_offset < h.tail_offset ==> old(self).record_base() + h.tail_offset <= old(device).content().len())
                &&& replay_scan(live_area(old(device).content(), old(self).record_base(), h), 0, Seq::empty(), Seq::empty())
                    == Some(dview(v@))
            }),
            (old(self).spec_header().head_offset < old(self).spec_header().tail_offset
                ==> old(self).record_base() + old(self).spec_header().tail_offset <= old(device).content().len())
                && replay_scan(live_area(old(device).content(), old(self).record_base(), old(self).spec_header()), 0,
                    Seq::empty(), Seq::empty()) is None ==> r is Err,
            ({
                let ps = replay_committed(live_area(old(device).content(), old(self).record_base(), old(self).spec_header()),
                    0, Seq::empty(), Seq::empty());
                r is Ok && old(device).stores_writes() && all_block_writes(ps)
                    ==> final(device).content() == apply_block_writes(old(device).content(), ps)
            }),
    {
        let head = self.header.head_offset;
        let tail = self.header.tail_offset;
        let ghost c0 = device.content();
        let ghost base = self.record_base();
        let area: Vec<u8> = if head < tail {
            let off = match (self.record_start_block * 4096).checked_add(head) {
                Some(v) => v,
                None => {
                    return Err(CoreFsError::State(msg("journal head out of range")));
                },
            };
            read_span(&*device, off, tail - head)?
        } else {
            Vec::new()
        };
        proof {
            assert(area@ =~= live_area(c0, base, self.header));
        }
        let ghost start = replay_scan(area@, 0, Seq::empty(), Seq::empty());
        let ghost target = replay_committed(area@, 0, Seq::empty(), Seq::empty());
        let ghost mut gpend: Seq<(u64, Seq<Seq<u8>>)> = Seq::empty();
        let ghost mut gdone: Seq<Seq<u8>> = Seq::empty();
        let mut pending: Vec<(u64, Vec<Op>)> = Vec::new();
        let mut applied: Vec<ReplayedTxn> = Vec::new();
        let mut cursor: usize = 0;
        proof {
            assert(pview(pending@) =~= Seq::<(u64, nat)>::empty());
            assert(dview(applied@) =~= Seq::<(u64, nat)>::empty());
        }
        while cursor < area.len()
            invariant
                self.wf(),
                device.inv(),
                device.spec_geometry() == old(device).spec_geometry(),
                device.stores_writes() == old(device).stores_writes(),
                cursor <= area@.len(),
                start == replay_scan(area@, 0, Seq::empty(), Seq::empty()),
                start == replay_scan(area@, cursor as int, pview(pending@), dview(applied@)),
                target == replay_committed(area@, cursor as int, gpend, gdone),
                pending_matches(pending@, gpend),
                c0 == old(device).content(),
                device.stores_writes() && all_block_writes(gdone) ==> device.content() == apply_block_writes(c0, gdone),
            ensures
                start == Some(dview(applied@)),
                target == gdone,
                device.stores_writes() && all_block_writes(gdone) ==> device.content() == apply_block_writes(c0, gdone),
                self.wf(),
                device.inv(),
                device.spec_geometry() == old(device).spec_geometry(),
                device.stores_writes() == old(device).stores_writes(),
            decreases area@.len() - cursor,
        {
            proof {
                lemma_pending_counts(pending@, gpend);
            }
            let rec = match parse_record(area.as_slice(), cursor) {
                Some(d) => d,
                None => {
                    break;
                },
            };
            let next = cursor + rec.encoded_len;
            if rec.kind == 1 {
                let op = Op::decode(rec.payload.as_slice())?;
                let ghost pv = pview(pending@);
                let ghost gp0 = gpend;
                let ghost pl = rec.payload@;
                match find_pending(&pending, rec.txn_id) {
                    Some(i) => {
                        proof {
                            lemma_pend_find(pv, rec.txn_id);
                        }
                        let ghost old_pending = pending@;
                        let (t, mut ops) = pending.remove(i);
                        ops.push(op);
                        pending.insert(i, (t, ops));
                        proof {
                            assert(pview(pending@) =~= pv.update(i as int, (rec.txn_id, pv[i as int].1 + 1)));
                            gpend = gp0.update(i as int, (rec.txn_id, gp0[i as int].1.push(pl)));
                            assert(gpend == pend_add_payload(gp0, rec.txn_id, pl));
                            assert(pending@ =~= old_pending.update(i as int, (t, ops)));
                            assert forall|a: int| 0 <= a < pending@.len() implies (#[trigger] pending@[a]).0 == gpend[a].0
                                && pending@[a].1@.len() == gpend[a].1.len()
                                && forall|j: int| 0 <= j < pending@[a].1@.len() ==> op_matches(#[trigger] pending@[a].1@[j], gpend[a].1[j]) by {
                                if a == i {
                                    assert forall|j: int| 0 <= j < pending@[a].1@.len() implies op_matches(#[trigger] pending@[a].1@[j], gpend[a].1[j]) by {
                                        if j < pending@[a].1@.len() - 1 {
                                            assert(pending@[a].1@[j] == old_pending[a].1@[j]);
                                        }
                                    }
                                }
                            }
                        }
                    },
                    None => {
                        let ghost old_pending = pending@;
                        let mut ops: Vec<Op> = Vec::new();
                        ops.push(op);
                        pending.push((rec.txn_id, ops));
                        proof {
                            assert(pview(pending@) =~= pv.push((rec.txn_id, 1nat)));
                            gpend = gp0.push((rec.txn_id, seq![pl]));
                            assert(gpend == pend_add_payload(gp0, rec.txn_id, pl));
                            assert forall|a: int| 0 <= a < pending@.len() implies (#[trigger] pending@[a]).0 == gpend[a].0
                                && pending@[a].1@.len() == gpend[a].1.len()
                                && forall|j: int| 0 <= j < pending@[a].1@.len() ==> op_matches(#[trigger] pending@[a].1@[j], gpend[a].1[j]) by {
                                if a < old_pending.len() {
                                    assert(pending@[a] == old_pending[a]);
                                }
                            }
                        }
                    },
                }
            } else if rec.kind == 2 {
                let ghost pv = pview(pending@);
                let ghost dv = dview(applied@);
                let ghost gp0 = gpend;
                let ghost gd0 = gdone;
                match find_pending(&pending, rec.txn_id) {
                    Some(i) => {
                        let ghost old_pending = pending@;
                        let ghost gops = gp0[i as int].1;
                        let (_t, ops) = pending.remove(i);
                        proof {
                            assert(ops@.len() == gops.len());
                        }
                        let mut k: usize = 0;
                        while k < ops.len()
                            invariant
                                self.wf(),
                                device.inv(),
                                device.spec_geometry() == old(device).spec_geometry(),
                                device.stores_writes() == old(device).stores_writes(),
                                k <= ops@.len(),
                                ops@.len() == gops.len(),
                                forall|j: int| 0 <= j < ops@.len() ==> op_matches(#[trigger] ops@[j], gops[j]),
                                device.stores_writes() && all_block_writes(gd0 + gops.take(k as int))
                                    ==> device.content() == apply_block_writes(c0, gd0 + gops.take(k as int)),
                            decreases ops@.len() - k,
                        {
                            let ghost before = device.content();
                            apply_op(device, &ops[k])?;
                            proof {
                                let pre = gd0 + gops.take(k as int);
                                let post = gd0 + gops.take(k + 1);
                                assert(post.drop_last() =~= pre);
                                assert(post.last() == gops[k as int]);
                                if device.stores_writes() && all_block_writes(post) {
                                    assert forall|q: int| 0 <= q < pre.len() implies (#[trigger] pre[q]).len() > 0 && pre[q][0] == 1u8 by {
                                        assert(pre[q] == post[q]);
                                    }
                                    assert(post[post.len() - 1] == gops[k as int]);
                                    assert(gops[k as int][0] == 1u8);
                                    assert(op_matches(ops@[k as int], gops[k as int]));
                                }
                            }
                            k = k + 1;
                        }
                        proof {
                            assert(gops.take(ops@.len() as int) =~= gops);
                            gpend = gp0.remove(i as int);
                            gdone = gd0 + gops;
                            lemma_pending_counts(old_pending, gp0);
                            assert forall|a: int| 0 <= a < pending@.len() implies (#[trigger] pending@[a]).0 == gpend[a].0
                                && pending@[a].1@.len() == gpend[a].1.len()
                                && forall|j: int| 0 <= j < pending@[a].1@.len() ==> op_matches(#[trigger] pending@[a].1@[j], gpend[a].1[j]) by {
                                if a < i {
                                    assert(pending@[a] == old_pending[a]);
                                } else {
                                    assert(pending@[a] == old_pending[a + 1]);
                                }
                            }
                        }
                        applied.push(ReplayedTxn { txn_id: rec.txn_id, ops: ops.len() });
                        proof {
                            assert(pview(pending@) =~= pv.remove(i as int));
                            assert(dview(applied@) =~= dv.push((rec.txn_id, pv[i as int].1)));
                        }
                    },
                    None => {},
                }
            } else if rec.kind == 3 {
                let ghost pv = pview(pending@);
                let ghost gp0 = gpend;
                match find_pending(&pending, rec.txn_id) {
                    Some(i) => {
                        let ghost old_pending = pending@;
                        let _ = pending.remove(i);
                        proof {
                            assert(pview(pending@) =~= pv.remove(i as int));
                            gpend = gp0.remove(i as int);
                            assert forall|a: int| 0 <= a < pending@.len() implies (#[trigger] pending@[a]).0 == gpend[a].0
                                && pending@[a].1@.len() == gpend[a].1.len()
                                && forall|j: int| 0 <= j < pending@[a].1@.len() ==> op_matches(#[trigger] pending@[a].1@[j], gpend[a].1[j]) by {
                                if a < i {
                                    assert(pending@[a] == old_pending[a]);
                                } else {
                                    assert(pending@[a] == old_pending[a + 1]);
                                }
                            }
                        }
                    },
                    None => {},
                }
            } else {
                return Err(CoreFsError::State(msg("unknown journal record kind")));
            }
            cursor = next;
        }
        let ghost c_end = device.content();
        if applied.len() > 0 {
            device.sync()?;
        }
        proof {
            assert(device.content() == c_end);
        }
        Ok(applied)
    }
}


proof fn lemma_op_records_len(ops: Seq<Op>, txn: u64, seq: int, n: int)
    requires
        0 <= n <= ops.len(),
    ensures
        op_records(ops, txn, seq, n).len() >= 44 * n,
    decreases n,
{
    if n > 0 {
        lemma_op_records_len(ops, txn, seq, n - 1);
        lemma_record_lengths(1, txn, (seq + n - 1) as u64, op_bytes(ops[n - 1]));
    }
}

proof fn lemma_op_records_mono(ops: Seq<Op>, txn: u64, seq: int, k: int, n: int)
    requires
        0 <= k <= n <= ops.len(),
    ensures
        op_records(ops, txn, seq, k).len() <= op_records(ops, txn, seq, n).len(),
    decreases n - k,
{
    if k < n {
        lemma_op_records_mono(ops, txn, seq, k, n - 1);
        lemma_record_lengths(1, txn, (seq + n - 1) as u64, op_bytes(ops[n - 1]));
    }
}

proof fn lemma_op_records_slot(ops: Seq<Op>, txn: u64, seq: int, n: int, k: int)
    requires
        0 <= k < n <= ops.len(),
    ensures
        op_records(ops, txn, seq, n).subrange(
            op_records(ops, txn, seq, k).len() as int,
            op_records(ops, txn, seq, k + 1).len() as int,
        ) == record_bytes(1, txn, (seq + k) as u64, op_bytes(ops[k])),
    decreases n,
{
    lemma_op_records_len(ops, txn, seq, n);
    let a = op_records(ops, txn, seq, k).len() as int;
    let b = op_records(ops, txn, seq, k + 1).len() as int;
    lemma_op_records_mono(ops, txn, seq, k, k + 1);
    lemma_op_records_mono(ops, txn, seq, k + 1, n);
    if k == n - 1 {
        assert(op_records(ops, txn, seq, n).subrange(a, b) =~= record_bytes(1, txn, (seq + k) as u64, op_bytes(ops[k])));
    } else {
        lemma_op_records_slot(ops, txn, seq, n - 1, k);
        lemma_op_records_mono(ops, txn, seq, k + 1, n - 1);
        assert(op_records(ops, txn, seq, n).subrange(a, b) =~= op_records(ops, txn, seq, n - 1).subrange(a, b));
    }
}

proof fn lemma_op_bytes_len(op: Op)
    ensures
        op_bytes(op).len() == 13 + op_data(op).len(),
        op_bytes(op)[0] == (if op is BlockWrite { 1u8 } else { 2u8 }),
{
    lemma_auto_spec_u64_to_from_le_bytes();
    lemma_auto_spec_u32_to_from_le_bytes();
}

proof fn lemma_scan_ops(ops: Seq<Op>, txn: u64, seq: int, k: int)
    requires
        ops.len() > 0,
        ops_fit(ops),
        0 <= seq,
        seq + ops.len() <= u64::MAX,
        0 <= k <= ops.len(),
    ensures
        replay_scan(
            txn_bytes(ops, txn, seq),
            op_records(ops, txn, seq, k).len() as int,
            if k == 0 { Seq::empty() } else { seq![(txn, k as nat)] },
            Seq::empty(),
        ) == Some(seq![(txn, ops.len())]),
    decreases ops.len() - k,
{
    let n = ops.len() as int;
    let area = txn_bytes(ops, txn, seq);
    let recs = op_records(ops, txn, seq, n);
    let commit = record_bytes(2, txn, (seq + n) as u64, Seq::<u8>::empty());
    lemma_op_records_len(ops, txn, seq, n);
    lemma_record_lengths(2, txn, (seq + n) as u64, Seq::<u8>::empty());
    let off = op_records(ops, txn, seq, k).len() as int;
    if k < n {
        let payload = op_bytes(ops[k]);
        assert(op_data(ops[k]).len() + 13 <= u32::MAX);
        lemma_op_bytes_len(ops[k]);
        lemma_record_lengths(1, txn, (seq + k) as u64, payload);
        lemma_op_records_slot(ops, txn, seq, n, k);
        let next = op_records(ops, txn, seq, k + 1).len() as int;
        lemma_op_records_mono(ops, txn, seq, k + 1, n);
        assert(next == off + 44 + payload.len());
        assert(area.subrange(off, next) =~= recs.subrange(off, next));
        lemma_record_roundtrip(1, txn, (seq + k) as u64, payload, area, off);
        lemma_op_roundtrip(ops[k]);
        let pend: Seq<(u64, nat)> = if k == 0 { Seq::empty() } else { seq![(txn, k as nat)] };
        assert(pend_add(pend, txn) =~= seq![(txn, (k + 1) as nat)]);
        lemma_scan_ops(ops, txn, seq, k + 1);
        assert(0 <= off < area.len());
        assert(record_at(area, off) == Some((1u16, txn, payload, 44 + payload.len() as int)));
        assert(op_decodable(payload));
        assert(replay_scan(area, off, pend, Seq::empty()) == replay_scan(area, next, pend_add(pend, txn), Seq::empty()));
    } else {
        assert(area.subrange(off, off + 44) =~= commit);
        lemma_record_roundtrip(2, txn, (seq + n) as u64, Seq::<u8>::empty(), area, off);
        let pend: Seq<(u64, nat)> = seq![(txn, n as nat)];
        assert(pend_find(pend, txn) == 0);
        assert(pend.remove(0) =~= Seq::<(u64, nat)>::empty());
        assert(Seq::<(u64, nat)>::empty().push((txn, n as nat)) =~= seq![(txn, ops.len())]);
        assert(off == recs.len());
        assert(record_at(area, off) == Some((2u16, txn, Seq::<u8>::empty(), 44int)));
        assert(replay_scan(area, off + 44, Seq::empty(), seq![(txn, ops.len())]) == Some(seq![(txn, ops.len())]));
    }
}

proof fn lemma_scan_payloads(ops: Seq<Op>, txn: u64, seq: int, k: int)
    requires
        ops.len() > 0,
        ops_fit(ops),
        0 <= seq,
        seq + ops.len() <= u64::MAX,
        0 <= k <= ops.len(),
    ensures
        replay_committed(
            txn_bytes(ops, txn, seq),
            op_records(ops, txn, seq, k).len() as int,
            if k == 0 { Seq::empty() } else { seq![(txn, ops.take(k).map_values(|o: Op| op_bytes(o)))] },
            Seq::empty(),
        ) == ops.map_values(|o: Op| op_bytes(o)),
    decreases ops.len() - k,
{
    let n = ops.len() as int;
    let area = txn_bytes(ops, txn, seq);
    let recs = op_records(ops, txn, seq, n);
    let commit = record_bytes(2, txn, (seq + n) as u64, Seq::<u8>::empty());
    lemma_op_records_len(ops, txn, seq, n);
    lemma_record_lengths(2, txn, (seq + n) as u64, Seq::<u8>::empty());
    let off = op_records(ops, txn, seq, k).len() as int;
    let pend: Seq<(u64, Seq<Seq<u8>>)> = if k == 0 { Seq::empty() } else { seq![(txn, ops.take(k).map_values(|o: Op| op_bytes(o)))] };
    if k < n {
        let payload = op_bytes(ops[k]);
        assert(op_data(ops[k]).len() + 13 <= u32::MAX);
        lemma_op_bytes_len(ops[k]);
        lemma_record_lengths(1, txn, (seq + k) as u64, payload);
        lemma_op_records_slot(ops, txn, seq, n, k);
        let next = op_records(ops, txn, seq, k + 1).len() as int;
        lemma_op_records_mono(ops, txn, seq, k + 1, n);
        assert(next == off + 44 + payload.len());
        assert(area.subrange(off, next) =~= recs.subrange(off, next));
        lemma_record_roundtrip(1, txn, (seq + k) as u64, payload, area, off);
        lemma_op_roundtrip(ops[k]);
        let m0 = ops.take(k).map_values(|o: Op| op_bytes(o));
        let m1 = ops.take(k + 1).map_values(|o: Op| op_bytes(o));
        assert(m1 =~= m0.push(payload));
        if k > 0 {
            assert(pcounts(pend) =~= seq![(txn, k as nat)]);
            assert(pend_find(pcounts(pend), txn) == 0);
            assert(pend[0].1 == m0);
            assert(pend_add_payload(pend, txn, payload) == pend.update(0, (txn, m0.push(payload))));
            assert(pend.update(0, (txn, m1)) =~= seq![(txn, m1)]);
        } else {
            assert(pcounts(pend) =~= Seq::<(u64, nat)>::empty());
            assert(pend_find(pcounts(pend), txn) == -1);
            assert(m0 =~= Seq::<Seq<u8>>::empty());
            assert(seq![payload] =~= m1);
            assert(pend.push((txn, seq![payload])) =~= seq![(txn, m1)]);
        }
        assert(pend_add_payload(pend, txn, payload) == seq![(txn, m1)]);
        lemma_scan_payloads(ops, txn, seq, k + 1);
        assert(0 <= off < area.len());
        assert(record_at(area, off) == Some((1u16, txn, payload, 44 + payload.len() as int)));
        assert(op_decodable(payload));
        assert(replay_committed(area, off, pend, Seq::empty())
            == replay_committed(area, next, pend_add_payload(pend, txn, payload), Seq::empty()));
    } else {
        assert(area.subrange(off, off + 44) =~= commit);
        lemma_record_roundtrip(2, txn, (seq + n) as u64, Seq::<u8>::empty(), area, off);
        assert(pcounts(pend) =~= seq![(txn, n as nat)]);
        assert(pend_find(pcounts(pend), txn) == 0);
        assert(pend.remove(0) =~= Seq::<(u64, Seq<Seq<u8>>)>::empty());
        assert(ops.take(n) =~= ops);
        assert(Seq::<Seq<u8>>::empty() + pend[0].1 =~= ops.map_values(|o: Op| op_bytes(o)));
        assert(off == recs.len());
        assert(record_at(area, off) == Some((2u16, txn, Seq::<u8>::empty(), 44int)));
        assert(area.len() == off + 44);
        assert(replay_committed(area, off + 44, pend.remove(0), Seq::<Seq<u8>>::empty() + pend[0].1)
            == Seq::<Seq<u8>>::empty() + pend[0].1);
        assert(replay_committed(area, off, pend, Seq::empty())
            == replay_committed(area, off + 44, pend.remove(0), Seq::<Seq<u8>>::empty() + pend[0].1));
    }
}

/// A committed transaction replays its ops in the order they were logged:
/// scanning the bytes of one committed transaction yields the payloads of
/// its ops, first to last.
pub proof fn lemma_commit_replays_in_order(ops: Seq<Op>, txn: u64, seq: int)
    requires
        ops.len() > 0,
        ops_fit(ops),
        0 <= seq,
        seq + ops.len() <= u64::MAX,
    ensures
        replay_committed(txn_bytes(ops, txn, seq), 0, Seq::empty(), Seq::empty()) == ops.map_values(|o: Op| op_bytes(o)),
{
    lemma_scan_payloads(ops, txn, seq, 0);
}

/// What a commit appends replays to exactly that transaction: scanning the
/// bytes of one committed transaction yields its id with its number of ops.
pub proof fn lemma_commit_replays(ops: Seq<Op>, txn: u64, seq: int)
    requires
        ops.len() > 0,
        ops_fit(ops),
        0 <= seq,
        seq + ops.len() <= u64::MAX,
    ensures
        replay_scan(txn_bytes(ops, txn, seq), 0, Seq::empty(), Seq::empty()) == Some(seq![(txn, ops.len())]),
{
    lemma_scan_ops(ops, txn, seq, 0);
}

} // verus!
