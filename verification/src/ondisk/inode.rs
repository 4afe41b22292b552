//! Fixed-size on-disk inode record (256 bytes).
//!
//! ```text
//! offset  size  field
//!   0      2    version
//!   2      2    kind            (0 = unused, 1 = file, 2 = dir, 3 = symlink, 4 = system payload)
//!   4      4    mode
//!   8      4    uid
//!  12      4    gid
//!  16      4    link_count
//!  20      4    flags
//!  24      8    size_bytes
//!  32      8    blocks_allocated
//!  40      8    created_at
//!  48      8    modified_at
//!  56      8    changed_at
//!  64      8    accessed_at
//!  72      8    generation
//!  80      4    extent_count
//!  84      4    reserved0
//!  88    128    extents[8] x (u64 physical, u32 logical, u32 length_blocks)
//! 216     36    reserved_tail
//! 252      4    crc32c          (over the record with the crc bytes = 0)
//! ```
use vstd::prelude::*;
use vstd::bytes::*;
use crate::error::{CoreFsError, CoreFsResult, msg, msg_num};
use super::checksum::{Crc32c, crc32c_spec, crc_covered, lemma_crc_slot_detects_change};
use super::codec::{zeros, spec_i64_to_le_bytes, spec_i64_from_le_bytes, lemma_i64_roundtrip, push_u16, push_u32, push_u64, push_i64, push_zeros, read_u16, read_u32, read_u64, read_i64, copy_range};

verus! {

/// Size of an on-disk inode record.
pub const INODE_RECORD_SIZE: usize = 256;
/// Byte offset of the CRC32C checksum field inside the record.
pub const INODE_CHECKSUM_OFFSET: usize = 252;
/// Maximum number of extents stored directly in one record.
pub const MAX_INLINE_EXTENTS: usize = 8;
/// Byte offset of the first extent slot.
pub const EXTENTS_OFFSET: usize = 88;

/// Logical kind of a stored on-disk inode.
#[derive(Debug, Clone, Copy, PartialEq, Eq)]
pub enum OnDiskKind {
    Unused,
    File,
    Directory,
    Symlink,
    SystemPayload,
}

/// Numeric code of a kind.
pub open spec fn kind_code(k: OnDiskKind) -> u16 {
    match k {
        OnDiskKind::Unused => 0,
        OnDiskKind::File => 1,
        OnDiskKind::Directory => 2,
        OnDiskKind::Symlink => 3,
        OnDiskKind::SystemPayload => 4,
    }
}

impl OnDiskKind {
    /// Decode a kind code; codes above 4 are rejected.
    pub fn from_u16(value: u16) -> (r: CoreFsResult<Self>)
        ensures
            r is Ok <==> value <= 4,
            r matches Ok(k) ==> kind_code(k) == value,
            r matches Err(e) ==> e is State,
    {
        match value {
            0 => Ok(OnDiskKind::Unused),
            1 => Ok(OnDiskKind::File),
            2 => Ok(OnDiskKind::Directory),
            3 => Ok(OnDiskKind::Symlink),
            4 => Ok(OnDiskKind::SystemPayload),
            v => Err(CoreFsError::State(msg_num("unknown on-disk inode kind ", v as u64, ""))),
        }
    }

    /// Numeric code of this kind.
    pub fn code(&self) -> (r: u16)
        ensures
            r == kind_code(*self),
    {
        match self {
            OnDiskKind::Unused => 0,
            OnDiskKind::File => 1,
            OnDiskKind::Directory => 2,
            OnDiskKind::Symlink => 3,
            OnDiskKind::SystemPayload => 4,
        }
    }
}

/// A contiguous physical extent owned by an inode.
#[derive(Debug, Clone, Copy, PartialEq, Eq, Default)]
pub struct Extent {
    /// Logical starting block inside the inode's data.
    pub logical_block: u32,
    /// Length of the extent in blocks.
    pub length_blocks: u32,
    /// Physical starting block on the device.
    pub physical_block: u64,
}

/// Memory image of an on-disk inode.
#[derive(Debug, Clone, PartialEq, Eq)]
pub struct OnDiskInode {
    pub version: u16,
    pub kind: OnDiskKind,
    pub mode: u32,
    pub uid: u32,
    pub gid: u32,
    pub link_count: u32,
    pub flags: u32,
    pub size_bytes: u64,
    pub blocks_allocated: u64,
    pub created_at: i64,
    pub modified_at: i64,
    pub changed_at: i64,
    pub accessed_at: i64,
    pub generation: u64,
    pub extents: Vec<Extent>,
}

/// Encoding of one extent slot.
pub open spec fn extent_bytes(e: Extent) -> Seq<u8> {
    spec_u64_to_le_bytes(e.physical_block) + spec_u32_to_le_bytes(e.logical_block)
        + spec_u32_to_le_bytes(e.length_blocks)
}

/// Encoding of consecutive extent slots.
pub open spec fn extents_bytes(es: Seq<Extent>) -> Seq<u8>
    decreases es.len(),
{
    if es.len() == 0 {
        Seq::empty()
    } else {
        extents_bytes(es.drop_last()) + extent_bytes(es.last())
    }
}

/// Encoding of the fixed header fields (offsets 0..88).
pub open spec fn inode_header_bytes(i: OnDiskInode) -> Seq<u8> {
    spec_u16_to_le_bytes(i.version) + spec_u16_to_le_bytes(kind_code(i.kind))
        + spec_u32_to_le_bytes(i.mode) + spec_u32_to_le_bytes(i.uid) + spec_u32_to_le_bytes(i.gid)
        + spec_u32_to_le_bytes(i.link_count) + spec_u32_to_le_bytes(i.flags)
        + spec_u64_to_le_bytes(i.size_bytes) + spec_u64_to_le_bytes(i.blocks_allocated)
        + spec_i64_to_le_bytes(i.created_at) + spec_i64_to_le_bytes(i.modified_at)
        + spec_i64_to_le_bytes(i.changed_at) + spec_i64_to_le_bytes(i.accessed_at)
        + spec_u64_to_le_bytes(i.generation) + spec_u32_to_le_bytes(i.extents@.len() as u32)
        + zeros(4)
}

/// The record without its checksum (offsets 0..252).
pub open spec fn inode_body_bytes(i: OnDiskInode) -> Seq<u8> {
    inode_header_bytes(i) + extents_bytes(i.extents@) + zeros((164 - 16 * i.extents@.len()) as nat)
}

/// The full 256-byte record that `encode` produces.
pub open spec fn inode_record_bytes(i: OnDiskInode) -> Seq<u8> {
    inode_body_bytes(i) + spec_u32_to_le_bytes(crc32c_spec(inode_body_bytes(i) + zeros(4)))
}

/// Extent stored in slot `k` of record `rec`.
pub open spec fn extent_at(rec: Seq<u8>, k: int) -> Extent {
    let o = 88 + 16 * k;
    Extent {
        physical_block: spec_u64_from_le_bytes(rec.subrange(o, o + 8)),
        logical_block: spec_u32_from_le_bytes(rec.subrange(o + 8, o + 12)),
        length_blocks: spec_u32_from_le_bytes(rec.subrange(o + 12, o + 16)),
    }
}

/// The checksum stored in `rec` matches its contents.
pub open spec fn inode_crc_ok(rec: Seq<u8>) -> bool {
    spec_u32_from_le_bytes(rec.subrange(252, 256)) == crc32c_spec(rec.subrange(0, 252) + zeros(4))
}

/// `decode` accepts `rec`.
pub open spec fn inode_decodable(rec: Seq<u8>) -> bool {
    &&& rec.len() == 256
    &&& inode_crc_ok(rec)
    &&& spec_u16_from_le_bytes(rec.subrange(2, 4)) <= 4
    &&& spec_u32_from_le_bytes(rec.subrange(80, 84)) <= 8
}

/// `inode` holds the fields stored in `rec`.
pub open spec fn inode_matches_record(inode: OnDiskInode, rec: Seq<u8>) -> bool {
    &&& inode.version == spec_u16_from_le_bytes(rec.subrange(0, 2))
    &&& kind_code(inode.kind) == spec_u16_from_le_bytes(rec.subrange(2, 4))
    &&& inode.mode == spec_u32_from_le_bytes(rec.subrange(4, 8))
    &&& inode.uid == spec_u32_from_le_bytes(rec.subrange(8, 12))
    &&& inode.gid == spec_u32_from_le_bytes(rec.subrange(12, 16))
    &&& inode.link_count == spec_u32_from_le_bytes(rec.subrange(16, 20))
    &&& inode.flags == spec_u32_from_le_bytes(rec.subrange(20, 24))
    &&& inode.size_bytes == spec_u64_from_le_bytes(rec.subrange(24, 32))
    &&& inode.blocks_allocated == spec_u64_from_le_bytes(rec.subrange(32, 40))
    &&& inode.created_at == spec_i64_from_le_bytes(rec.subrange(40, 48))
    &&& inode.modified_at == spec_i64_from_le_bytes(rec.subrange(48, 56))
    &&& inode.changed_at == spec_i64_from_le_bytes(rec.subrange(56, 64))
    &&& inode.accessed_at == spec_i64_from_le_bytes(rec.subrange(64, 72))
    &&& inode.generation == spec_u64_from_le_bytes(rec.subrange(72, 80))
    &&& inode.extents@.len() == spec_u32_from_le_bytes(rec.subrange(80, 84))
    &&& forall|k: int| 0 <= k < inode.extents@.len() ==> #[trigger] inode.extents@[k] == extent_at(rec, k)
}

/// Two inodes carry the same field values.
pub open spec fn same_inode(a: OnDiskInode, b: OnDiskInode) -> bool {
    &&& a.version == b.version
    &&& a.kind == b.kind
    &&& a.mode == b.mode
    &&& a.uid == b.uid
    &&& a.gid == b.gid
    &&& a.link_count == b.link_count
    &&& a.flags == b.flags
    &&& a.size_bytes == b.size_bytes
    &&& a.blocks_allocated == b.blocks_allocated
    &&& a.created_at == b.created_at
    &&& a.modified_at == b.modified_at
    &&& a.changed_at == b.changed_at
    &&& a.accessed_at == b.accessed_at
    &&& a.generation == b.generation
    &&& a.extents@ == b.extents@
}

fn push_extent(buf: &mut Vec<u8>, e: Extent)
    ensures
        final(buf)@ == old(buf)@ + extent_bytes(e),
{
    push_u64(buf, e.physical_block);
    push_u32(buf, e.logical_block);
    push_u32(buf, e.length_blocks);
    proof {
        assert(final(buf)@ =~= old(buf)@ + extent_bytes(e));
    }
}

proof fn lemma_extents_bytes_len(es: Seq<Extent>)
    ensures
        extents_bytes(es).len() == 16 * es.len(),
    decreases es.len(),
{
    lemma_auto_spec_u64_to_from_le_bytes();
    lemma_auto_spec_u32_to_from_le_bytes();
    if es.len() > 0 {
        lemma_extents_bytes_len(es.drop_last());
    }
}

proof fn lemma_extents_bytes_slot(es: Seq<Extent>, k: int)
    requires
        0 <= k < es.len(),
    ensures
        extents_bytes(es).subrange(16 * k, 16 * k + 16) == extent_bytes(es[k]),
    decreases es.len(),
{
    lemma_auto_spec_u64_to_from_le_bytes();
    lemma_auto_spec_u32_to_from_le_bytes();
    lemma_extents_bytes_len(es.drop_last());
    let pre = extents_bytes(es.drop_last());
    if k < es.len() - 1 {
        lemma_extents_bytes_slot(es.drop_last(), k);
        assert(extents_bytes(es).subrange(16 * k, 16 * k + 16) =~= pre.subrange(16 * k, 16 * k + 16));
    } else {
        assert(extents_bytes(es).subrange(16 * k, 16 * k + 16) =~= extent_bytes(es.last()));
    }
}

impl OnDiskInode {
    /// An unused inode slot.
    pub fn unused() -> (r: Self)
        ensures
            r.version == 1,
            r.kind == OnDiskKind::Unused,
            r.mode == 0 && r.uid == 0 && r.gid == 0 && r.link_count == 0 && r.flags == 0,
            r.size_bytes == 0 && r.blocks_allocated == 0,
            r.created_at == 0 && r.modified_at == 0 && r.changed_at == 0 && r.accessed_at == 0,
            r.generation == 0,
            r.extents@.len() == 0,
    {
        OnDiskInode {
            version: 1,
            kind: OnDiskKind::Unused,
            mode: 0,
            uid: 0,
            gid: 0,
            link_count: 0,
            flags: 0,
            size_bytes: 0,
            blocks_allocated: 0,
            created_at: 0,
            modified_at: 0,
            changed_at: 0,
            accessed_at: 0,
            generation: 0,
            extents: Vec::new(),
        }
    }

    /// Encode into a 256-byte record.  Rejects extent lists longer than
    /// [`MAX_INLINE_EXTENTS`].
    pub fn encode(&self) -> (r: CoreFsResult<Vec<u8>>)
        ensures
            r is Ok <==> self.extents@.len() <= 8,
            r matches Ok(rec) ==> rec@ == inode_record_bytes(*self) && rec@.len() == 256,
            r matches Err(e) ==> e is InvalidInput,
    {
        let n = self.extents.len();
        if n > MAX_INLINE_EXTENTS {
            return Err(CoreFsError::InvalidInput(msg_num(
                "ODF v1 supports at most 8 inline extents, got ",
                n as u64,
                "",
            )));
        }
        let mut rec: Vec<u8> = Vec::with_capacity(INODE_RECORD_SIZE);
        push_u16(&mut rec, self.version);
        push_u16(&mut rec, self.kind.code());
        push_u32(&mut rec, self.mode);
        push_u32(&mut rec, self.uid);
        push_u32(&mut rec, self.gid);
        push_u32(&mut rec, self.link_count);
        push_u32(&mut rec, self.flags);
        push_u64(&mut rec, self.size_bytes);
        push_u64(&mut rec, self.blocks_allocated);
        push_i64(&mut rec, self.created_at);
        push_i64(&mut rec, self.modified_at);
        push_i64(&mut rec, self.changed_at);
        push_i64(&mut rec, self.accessed_at);
        push_u64(&mut rec, self.generation);
        push_u32(&mut rec, n as u32);
        push_zeros(&mut rec, 4);
        proof {
            assert(rec@ =~= inode_header_bytes(*self));
        }
        let mut i: usize = 0;
        while i < n
            invariant
                i <= n,
                n == self.extents@.len(),
                rec@ == inode_header_bytes(*self) + extents_bytes(self.extents@.take(i as int)),
            decreases n - i,
        {
            let e = self.extents[i];
            push_extent(&mut rec, e);
            proof {
                let t = self.extents@.take(i as int + 1);
                assert(t.drop_last() =~= self.extents@.take(i as int));
                assert(rec@ =~= inode_header_bytes(*self) + extents_bytes(t));
            }
            i = i + 1;
        }
        proof {
            assert(self.extents@.take(n as int) =~= self.extents@);
        }
        push_zeros(&mut rec, 164 - 16 * n);
        let ghost body = rec@;
        proof {
            assert(body =~= inode_body_bytes(*self));
        }
        let mut with_zero = rec.clone();
        push_zeros(&mut with_zero, 4);
        let crc = Crc32c::hash(with_zero.as_slice());
        push_u32(&mut rec, crc);
        proof {
            lemma_auto_spec_u64_to_from_le_bytes();
            lemma_auto_spec_u32_to_from_le_bytes();
            lemma_auto_spec_u16_to_from_le_bytes();
            lemma_i64_roundtrip(0);
            assert(inode_header_bytes(*self).len() == 88) by {
                lemma_i64_roundtrip(self.created_at);
                lemma_i64_roundtrip(self.modified_at);
                lemma_i64_roundtrip(self.changed_at);
                lemma_i64_roundtrip(self.accessed_at);
            }
            lemma_extents_bytes_len(self.extents@);
            assert(rec@ =~= inode_record_bytes(*self));
        }
        Ok(rec)
    }

    /// Decode a 256-byte record, validating its checksum, kind and extent count.
    pub fn decode(rec: &[u8]) -> (r: CoreFsResult<Self>)
        ensures
            r is Ok <==> inode_decodable(rec@),
            r matches Ok(inode) ==> inode_matches_record(inode, rec@),
            r matches Err(e) ==> (e is InvalidInput <==> rec@.len() != 256),
            r matches Err(e) ==> (e is InvalidInput || e is State),
    {
        if rec.len() != INODE_RECORD_SIZE {
            return Err(CoreFsError::InvalidInput(msg_num(
                "inode record must be 256 bytes, got ",
                rec.len() as u64,
                "",
            )));
        }
        let stored = read_u32(rec, INODE_CHECKSUM_OFFSET);
        let mut buf = copy_range(rec, 0, INODE_CHECKSUM_OFFSET);
        push_zeros(&mut buf, 4);
        let expected = Crc32c::hash(buf.as_slice());
        if expected != stored {
            return Err(CoreFsError::State(msg("inode checksum mismatch")));
        }
        let version = read_u16(rec, 0);
        let kind = OnDiskKind::from_u16(read_u16(rec, 2))?;
        let mode = read_u32(rec, 4);
        let uid = read_u32(rec, 8);
        let gid = read_u32(rec, 12);
        let link_count = read_u32(rec, 16);
        let flags = read_u32(rec, 20);
        let size_bytes = read_u64(rec, 24);
        let blocks_allocated = read_u64(rec, 32);
        let created_at = read_i64(rec, 40);
        let modified_at = read_i64(rec, 48);
        let changed_at = read_i64(rec, 56);
        let accessed_at = read_i64(rec, 64);
        let generation = read_u64(rec, 72);
        let extent_count = read_u32(rec, 80);
        if extent_count > 8 {
            return Err(CoreFsError::State(msg_num(
                "inode declares ",
                extent_count as u64,
                " extents, more than the 8 inline slots",
            )));
        }
        let count = extent_count as usize;
        let mut extents: Vec<Extent> = Vec::with_capacity(count);
        let mut k: usize = 0;
        while k < count
            invariant
                k <= count <= 8,
                rec@.len() == 256,
                extents@.len() == k,
                forall|j: int| 0 <= j < k ==> #[trigger] extents@[j] == extent_at(rec@, j),
            decreases count - k,
        {
            let off = EXTENTS_OFFSET + 16 * k;
            let physical_block = read_u64(rec, off);
            let logical_block = read_u32(rec, off + 8);
            let length_blocks = read_u32(rec, off + 12);
            extents.push(Extent { logical_block, length_blocks, physical_block });
            k = k + 1;
        }
        Ok(OnDiskInode {
            version,
            kind,
            mode,
            uid,
            gid,
            link_count,
            flags,
            size_bytes,
            blocks_allocated,
            created_at,
            modified_at,
            changed_at,
            accessed_at,
            generation,
            extents,
        })
    }
}

/// Decoding an encoded inode gives back the same inode: the record that
/// `encode` writes is accepted by `decode` and every field reads back as
/// written.
pub proof fn lemma_inode_roundtrip(i: OnDiskInode)
    requires
        i.extents@.len() <= 8,
    ensures
        inode_decodable(inode_record_bytes(i)),
        forall|d: OnDiskInode| inode_matches_record(d, inode_record_bytes(i)) ==> same_inode(d, i),
{
    lemma_auto_spec_u64_to_from_le_bytes();
    lemma_auto_spec_u32_to_from_le_bytes();
    lemma_auto_spec_u16_to_from_le_bytes();
    lemma_i64_roundtrip(i.created_at);
    lemma_i64_roundtrip(i.modified_at);
    lemma_i64_roundtrip(i.changed_at);
    lemma_i64_roundtrip(i.accessed_at);
    lemma_extents_bytes_len(i.extents@);
    let h = inode_header_bytes(i);
    let body = inode_body_bytes(i);
    let rec = inode_record_bytes(i);
    assert(h.len() == 88);
    assert(body.len() == 252);
    assert(rec.subrange(0, 252) =~= body);
    assert(rec.subrange(252, 256) =~= spec_u32_to_le_bytes(crc32c_spec(body + zeros(4))));
    assert(rec.subrange(0, 2) =~= spec_u16_to_le_bytes(i.version));
    assert(rec.subrange(2, 4) =~= spec_u16_to_le_bytes(kind_code(i.kind)));
    assert(rec.subrange(4, 8) =~= spec_u32_to_le_bytes(i.mode));
    assert(rec.subrange(8, 12) =~= spec_u32_to_le_bytes(i.uid));
    assert(rec.subrange(12, 16) =~= spec_u32_to_le_bytes(i.gid));
    assert(rec.subrange(16, 20) =~= spec_u32_to_le_bytes(i.link_count));
    assert(rec.subrange(20, 24) =~= spec_u32_to_le_bytes(i.flags));
    assert(rec.subrange(24, 32) =~= spec_u64_to_le_bytes(i.size_bytes));
    assert(rec.subrange(32, 40) =~= spec_u64_to_le_bytes(i.blocks_allocated));
    assert(rec.subrange(40, 48) =~= spec_i64_to_le_bytes(i.created_at));
    assert(rec.subrange(48, 56) =~= spec_i64_to_le_bytes(i.modified_at));
    assert(rec.subrange(56, 64) =~= spec_i64_to_le_bytes(i.changed_at));
    assert(rec.subrange(64, 72) =~= spec_i64_to_le_bytes(i.accessed_at));
    assert(rec.subrange(72, 80) =~= spec_u64_to_le_bytes(i.generation));
    assert(rec.subrange(80, 84) =~= spec_u32_to_le_bytes(i.extents@.len() as u32));
    assert forall|k: int| 0 <= k < i.extents@.len() implies #[trigger] extent_at(rec, k) == i.extents@[k] by {
        lemma_extents_bytes_slot(i.extents@, k);
        let o = 88 + 16 * k;
        let eb = extents_bytes(i.extents@);
        assert(rec.subrange(o, o + 16) =~= eb.subrange(16 * k, 16 * k + 16));
        let x = i.extents@[k];
        assert(rec.subrange(o, o + 8) =~= spec_u64_to_le_bytes(x.physical_block));
        let xb = extent_bytes(x);
        assert(xb.subrange(8, 12) =~= spec_u32_to_le_bytes(x.logical_block));
        assert(xb.subrange(12, 16) =~= spec_u32_to_le_bytes(x.length_blocks));
        assert(rec.subrange(o + 8, o + 12) =~= xb.subrange(8, 12));
        assert(rec.subrange(o + 12, o + 16) =~= xb.subrange(12, 16));
    }
    assert forall|d: OnDiskInode| inode_matches_record(d, rec) implies same_inode(d, i) by {
        assert(kind_code(d.kind) == kind_code(i.kind));
        assert(d.extents@ =~= i.extents@) by {
            assert forall|k: int| 0 <= k < d.extents@.len() implies d.extents@[k] == i.extents@[k] by {
                assert(d.extents@[k] == extent_at(rec, k));
                assert(extent_at(rec, k) == i.extents@[k]);
            }
        }
    }
}

/// An inode record that `decode` accepts is refused once any one of its
/// 256 bytes is changed: the CRC32C no longer matches.
pub proof fn lemma_inode_detects_corruption(rec: Seq<u8>, k: int, v: u8)
    requires
        inode_decodable(rec),
        0 <= k < 256,
        v != rec[k],
    ensures
        !inode_decodable(rec.update(k, v)),
{
    let r2 = rec.update(k, v);
    assert(crc_covered(rec, 252) =~= rec.subrange(0, 252) + zeros(4));
    assert(crc_covered(r2, 252) =~= r2.subrange(0, 252) + zeros(4));
    lemma_crc_slot_detects_change(rec, 252, k, v);
}

} // verus!
