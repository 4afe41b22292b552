//! On-disk superblock.
//!
//! The superblock occupies one full 4 KiB block.  The first
//! [`SUPERBLOCK_STRUCT_BYTES`] bytes carry the structured fields (zero
//! padded); the last four bytes of that prefix hold a CRC32C over the whole
//! block computed with those four bytes set to zero.
use vstd::prelude::*;
use vstd::bytes::*;
use vstd::string::StringSliceAdditionalSpecFns;
use crate::error::{CoreFsError, CoreFsResult, msg, msg_num};
use super::checksum::{Crc32c, crc32c_spec, crc_covered, lemma_crc_slot_detects_change};
use super::codec::{zeros, spec_i64_to_le_bytes, spec_i64_from_le_bytes, lemma_i64_roundtrip, push_u16, push_u32, push_u64, push_i64, push_zeros, push_bytes, read_u16, read_u32, read_u64, read_i64, copy_range};
use super::layout::{LayoutGeometry, ODF_MAGIC, ODF_VERSION_MAJOR, ODF_VERSION_MINOR, SUPPORTED_INCOMPAT, SUPPORTED_RO_COMPAT, BLOCK_SIZE, FEATURE_COMPAT_BLOCK_CHECKSUMS, FEATURE_COMPAT_REDUNDANT_SUPERBLOCKS, FEATURE_INCOMPAT_PAYLOAD_INODE};

verus! {

/// Length of the structured superblock prefix (bytes).
pub const SUPERBLOCK_STRUCT_BYTES: usize = 512;
/// Offset of the CRC32C checksum inside the block.
pub const SUPERBLOCK_CHECKSUM_OFFSET: usize = 508;
/// Volume state: the previous session shut down cleanly.
pub const STATE_CLEAN: u32 = 0;
/// Volume state: a session was open when the volume was last seen.
pub const STATE_DIRTY: u32 = 1;
/// Layout mode: the whole state is one payload blob in the system inode.
pub const LAYOUT_MODE_BLOB: u32 = 0;
/// Layout mode: every domain inode has its own on-disk slot.
pub const LAYOUT_MODE_NATIVE: u32 = 1;
/// Bytes occupied by the structured fields.
pub const SUPERBLOCK_FIELD_BYTES: usize = 276;

/// Memory representation of the on-disk superblock.
#[derive(Debug, Clone, PartialEq, Eq)]
pub struct Superblock {
    pub magic: u64,
    pub version_major: u16,
    pub version_minor: u16,
    pub block_size: u32,
    pub total_blocks: u64,
    pub free_blocks: u64,
    pub total_inodes: u64,
    pub free_inodes: u64,
    pub block_bitmap_start: u64,
    pub block_bitmap_blocks: u64,
    pub inode_bitmap_start: u64,
    pub inode_bitmap_blocks: u64,
    pub inode_table_start: u64,
    pub inode_table_blocks: u64,
    pub journal_start: u64,
    pub journal_blocks: u64,
    pub data_start: u64,
    pub secondary_superblock_block: u64,
    pub tertiary_superblock_block: u64,
    pub feature_compat: u64,
    pub feature_incompat: u64,
    pub feature_ro_compat: u64,
    pub uuid: [u8; 16],
    pub label: [u8; 32],
    pub created_at: i64,
    pub last_mount_at: i64,
    pub last_write_at: i64,
    pub mount_count: u32,
    pub generation: u64,
    pub state: u32,
    pub payload_inode: u64,
    /// CRC32C of the full block-allocation bitmap buffer.
    pub block_bitmap_crc: u32,
    /// CRC32C of the full inode-allocation bitmap buffer.
    pub inode_bitmap_crc: u32,
    /// 0 = blob payload, 1 = native per-inode layout.
    pub layout_mode: u32,
    /// Inode number of the root directory (0 if not populated).
    pub root_inode: u64,
}

/// Encoding of the structured fields (276 bytes).
pub open spec fn sb_field_bytes(s: Superblock) -> Seq<u8> {
    spec_u64_to_le_bytes(s.magic) + spec_u16_to_le_bytes(s.version_major)
        + spec_u16_to_le_bytes(s.version_minor) + spec_u32_to_le_bytes(s.block_size)
        + spec_u64_to_le_bytes(s.total_blocks) + spec_u64_to_le_bytes(s.free_blocks)
        + spec_u64_to_le_bytes(s.total_inodes) + spec_u64_to_le_bytes(s.free_inodes)
        + spec_u64_to_le_bytes(s.block_bitmap_start) + spec_u64_to_le_bytes(s.block_bitmap_blocks)
        + spec_u64_to_le_bytes(s.inode_bitmap_start) + spec_u64_to_le_bytes(s.inode_bitmap_blocks)
        + spec_u64_to_le_bytes(s.inode_table_start) + spec_u64_to_le_bytes(s.inode_table_blocks)
        + spec_u64_to_le_bytes(s.journal_start) + spec_u64_to_le_bytes(s.journal_blocks)
        + spec_u64_to_le_bytes(s.data_start) + spec_u64_to_le_bytes(s.secondary_superblock_block)
        + spec_u64_to_le_bytes(s.tertiary_superblock_block) + spec_u64_to_le_bytes(s.feature_compat)
        + spec_u64_to_le_bytes(s.feature_incompat) + spec_u64_to_le_bytes(s.feature_ro_compat)
        + s.uuid@ + s.label@
        + spec_i64_to_le_bytes(s.created_at) + spec_i64_to_le_bytes(s.last_mount_at)
        + spec_i64_to_le_bytes(s.last_write_at) + spec_u32_to_le_bytes(s.mount_count)
        + spec_u64_to_le_bytes(s.generation) + spec_u32_to_le_bytes(s.state)
        + spec_u64_to_le_bytes(s.payload_inode) + spec_u32_to_le_bytes(s.block_bitmap_crc)
        + spec_u32_to_le_bytes(s.inode_bitmap_crc) + spec_u32_to_le_bytes(s.layout_mode)
        + spec_u64_to_le_bytes(s.root_inode)
}

/// The block prefix in front of the checksum (508 bytes).
pub open spec fn sb_body_bytes(s: Superblock) -> Seq<u8> {
    sb_field_bytes(s) + zeros(232)
}

/// The full 4 KiB block that `encode_block` produces.
pub open spec fn sb_block_bytes(s: Superblock) -> Seq<u8> {
    sb_body_bytes(s) + spec_u32_to_le_bytes(crc32c_spec(sb_body_bytes(s) + zeros(3588)))
        + zeros(3584)
}

/// The checksum stored in `b` matches the block contents.
pub open spec fn sb_crc_ok(b: Seq<u8>) -> bool {
    spec_u32_from_le_bytes(b.subrange(508, 512)) == crc32c_spec(
        b.subrange(0, 508) + zeros(4) + b.subrange(512, 4096),
    )
}

/// `decode_block` accepts `b`.
pub open spec fn sb_decodable(b: Seq<u8>) -> bool {
    &&& b.len() == 4096
    &&& sb_crc_ok(b)
    &&& spec_u64_from_le_bytes(b.subrange(0, 8)) == ODF_MAGIC
    &&& spec_u16_from_le_bytes(b.subrange(8, 10)) == ODF_VERSION_MAJOR
    &&& spec_u64_from_le_bytes(b.subrange(144, 152)) & !SUPPORTED_INCOMPAT == 0
    &&& spec_u64_from_le_bytes(b.subrange(152, 160)) & !SUPPORTED_RO_COMPAT == 0
}

/// `s` holds the fields stored in block `b`.
pub open spec fn sb_matches_block(s: Superblock, b: Seq<u8>) -> bool {
    &&& s.magic == spec_u64_from_le_bytes(b.subrange(0, 8))
    &&& s.version_major == spec_u16_from_le_bytes(b.subrange(8, 10))
    &&& s.version_minor == spec_u16_from_le_bytes(b.subrange(10, 12))
    &&& s.block_size == spec_u32_from_le_bytes(b.subrange(12, 16))
    &&& s.total_blocks == spec_u64_from_le_bytes(b.subrange(16, 24))
    &&& s.free_blocks == spec_u64_from_le_bytes(b.subrange(24, 32))
    &&& s.total_inodes == spec_u64_from_le_bytes(b.subrange(32, 40))
    &&& s.free_inodes == spec_u64_from_le_bytes(b.subrange(40, 48))
    &&& s.block_bitmap_start == spec_u64_from_le_bytes(b.subrange(48, 56))
    &&& s.block_bitmap_blocks == spec_u64_from_le_bytes(b.subrange(56, 64))
    &&& s.inode_bitmap_start == spec_u64_from_le_bytes(b.subrange(64, 72))
    &&& s.inode_bitmap_blocks == spec_u64_from_le_bytes(b.subrange(72, 80))
    &&& s.inode_table_start == spec_u64_from_le_bytes(b.subrange(80, 88))
    &&& s.inode_table_blocks == spec_u64_from_le_bytes(b.subrange(88, 96))
    &&& s.journal_start == spec_u64_from_le_bytes(b.subrange(96, 104))
    &&& s.journal_blocks == spec_u64_from_le_bytes(b.subrange(104, 112))
    &&& s.data_start == spec_u64_from_le_bytes(b.subrange(112, 120))
    &&& s.secondary_superblock_block == spec_u64_from_le_bytes(b.subrange(120, 128))
    &&& s.tertiary_superblock_block == spec_u64_from_le_bytes(b.subrange(128, 136))
    &&& s.feature_compat == spec_u64_from_le_bytes(b.subrange(136, 144))
    &&& s.feature_incompat == spec_u64_from_le_bytes(b.subrange(144, 152))
    &&& s.feature_ro_compat == spec_u64_from_le_bytes(b.subrange(152, 160))
    &&& s.uuid@ == b.subrange(160, 176)
    &&& s.label@ == b.subrange(176, 208)
    &&& s.created_at == spec_i64_from_le_bytes(b.subrange(208, 216))
    &&& s.last_mount_at == spec_i64_from_le_bytes(b.subrange(216, 224))
    &&& s.last_write_at == spec_i64_from_le_bytes(b.subrange(224, 232))
    &&& s.mount_count == spec_u32_from_le_bytes(b.subrange(232, 236))
    &&& s.generation == spec_u64_from_le_bytes(b.subrange(236, 244))
    &&& s.state == spec_u32_from_le_bytes(b.subrange(244, 248))
    &&& s.payload_inode == spec_u64_from_le_bytes(b.subrange(248, 256))
    &&& s.block_bitmap_crc == spec_u32_from_le_bytes(b.subrange(256, 260))
    &&& s.inode_bitmap_crc == spec_u32_from_le_bytes(b.subrange(260, 264))
    &&& s.layout_mode == spec_u32_from_le_bytes(b.subrange(264, 268))
    &&& s.root_inode == spec_u64_from_le_bytes(b.subrange(268, 276))
}

/// The geometry recorded in superblock `s`.
pub open spec fn sb_geometry(s: Superblock) -> LayoutGeometry {
    LayoutGeometry {
        total_blocks: s.total_blocks,
        block_bitmap_start: s.block_bitmap_start,
        block_bitmap_blocks: s.block_bitmap_blocks,
        inode_bitmap_start: s.inode_bitmap_start,
        inode_bitmap_blocks: s.inode_bitmap_blocks,
        inode_table_start: s.inode_table_start,
        inode_table_blocks: s.inode_table_blocks,
        inode_count: s.total_inodes,
        journal_start: s.journal_start,
        journal_blocks: s.journal_blocks,
        data_start: s.data_start,
        data_blocks: if s.total_blocks >= s.data_start { (s.total_blocks - s.data_start) as u64 } else { 0 },
        secondary_superblock_block: s.secondary_superblock_block,
        tertiary_superblock_block: s.tertiary_superblock_block,
    }
}

/// The label field for a text label: its first 32 bytes, zero padded.
pub open spec fn label_field(label: Seq<u8>) -> Seq<u8> {
    if label.len() >= 32 {
        label.take(32)
    } else {
        label + zeros((32 - label.len()) as nat)
    }
}

fn read_array16(b: &[u8], off: usize) -> (r: [u8; 16])
    requires
        off + 16 <= b@.len(),
    ensures
        r@ == b@.subrange(off as int, off + 16),
{
    let _len = b.len();
    let mut r = [0u8; 16];
    let mut i: usize = 0;
    while i < 16
        invariant
            i <= 16,
            off + 16 <= b@.len(),
            b@.len() == _len,
            forall|k: int| 0 <= k < i ==> r@[k] == b@[off + k],
        decreases 16 - i,
    {
        r[i] = b[off + i];
        i = i + 1;
    }
    proof {
        assert(r@ =~= b@.subrange(off as int, off + 16));
    }
    r
}

fn read_array32(b: &[u8], off: usize) -> (r: [u8; 32])
    requires
        off + 32 <= b@.len(),
    ensures
        r@ == b@.subrange(off as int, off + 32),
{
    let _len = b.len();
    let mut r = [0u8; 32];
    let mut i: usize = 0;
    while i < 32
        invariant
            i <= 32,
            off + 32 <= b@.len(),
            b@.len() == _len,
            forall|k: int| 0 <= k < i ==> r@[k] == b@[off + k],
        decreases 32 - i,
    {
        r[i] = b[off + i];
        i = i + 1;
    }
    proof {
        assert(r@ =~= b@.subrange(off as int, off + 32));
    }
    r
}

impl Superblock {
    /// Fresh superblock for a newly formatted volume with geometry `geom`.
    pub fn for_new_volume(geom: &LayoutGeometry, uuid: [u8; 16], label: &str, now_secs: i64) -> (r: Self)
        ensures
            r.magic == ODF_MAGIC,
            r.version_major == ODF_VERSION_MAJOR,
            r.version_minor == ODF_VERSION_MINOR,
            r.block_size == BLOCK_SIZE,
            r.total_blocks == geom.total_blocks,
            r.free_blocks == geom.data_blocks,
            r.total_inodes == geom.inode_count,
            r.free_inodes == geom.inode_count,
            r.block_bitmap_start == geom.block_bitmap_start,
            r.block_bitmap_blocks == geom.block_bitmap_blocks,
            r.inode_bitmap_start == geom.inode_bitmap_start,
            r.inode_bitmap_blocks == geom.inode_bitmap_blocks,
            r.inode_table_start == geom.inode_table_start,
            r.inode_table_blocks == geom.inode_table_blocks,
            r.journal_start == geom.journal_start,
            r.journal_blocks == geom.journal_blocks,
            r.data_start == geom.data_start,
            r.secondary_superblock_block == geom.secondary_superblock_block,
            r.tertiary_superblock_block == geom.tertiary_superblock_block,
            r.feature_compat == FEATURE_COMPAT_BLOCK_CHECKSUMS | FEATURE_COMPAT_REDUNDANT_SUPERBLOCKS,
            r.feature_incompat == FEATURE_INCOMPAT_PAYLOAD_INODE,
            r.feature_ro_compat == 0,
            r.uuid == uuid,
            r.label@ == label_field(label.spec_bytes()),
            r.created_at == now_secs && r.last_mount_at == now_secs && r.last_write_at == now_secs,
            r.mount_count == 0,
            r.generation == 1,
            r.state == STATE_CLEAN,
            r.payload_inode == 0,
            r.block_bitmap_crc == 0 && r.inode_bitmap_crc == 0,
            r.layout_mode == 0,
            r.root_inode == 0,
    {
        let bytes = label.as_bytes();
        let copy_len = if bytes.len() < 32 { bytes.len() } else { 32 };
        let mut label_bytes = [0u8; 32];
        let mut i: usize = 0;
        while i < copy_len
            invariant
                i <= copy_len <= 32,
                copy_len <= bytes@.len(),
                forall|k: int| 0 <= k < i ==> label_bytes@[k] == bytes@[k],
                forall|k: int| i <= k < 32 ==> label_bytes@[k] == 0u8,
            decreases copy_len - i,
        {
            label_bytes[i] = bytes[i];
            i = i + 1;
        }
        proof {
            assert(label_bytes@ =~= label_field(bytes@));
        }
        Superblock {
            magic: ODF_MAGIC,
            version_major: ODF_VERSION_MAJOR,
            version_minor: ODF_VERSION_MINOR,
            block_size: 4096,
            total_blocks: geom.total_blocks,
            free_blocks: geom.data_blocks,
            total_inodes: geom.inode_count,
            free_inodes: geom.inode_count,
            block_bitmap_start: geom.block_bitmap_start,
            block_bitmap_blocks: geom.block_bitmap_blocks,
            inode_bitmap_start: geom.inode_bitmap_start,
            inode_bitmap_blocks: geom.inode_bitmap_blocks,
            inode_table_start: geom.inode_table_start,
            inode_table_blocks: geom.inode_table_blocks,
            journal_start: geom.journal_start,
            journal_blocks: geom.journal_blocks,
            data_start: geom.data_start,
            secondary_superblock_block: geom.secondary_superblock_block,
            tertiary_superblock_block: geom.tertiary_superblock_block,
            feature_compat: FEATURE_COMPAT_BLOCK_CHECKSUMS | FEATURE_COMPAT_REDUNDANT_SUPERBLOCKS,
            feature_incompat: FEATURE_INCOMPAT_PAYLOAD_INODE,
            feature_ro_compat: 0,
            uuid,
            label: label_bytes,
            created_at: now_secs,
            last_mount_at: now_secs,
            last_write_at: now_secs,
            mount_count: 0,
            generation: 1,
            state: STATE_CLEAN,
            payload_inode: 0,
            block_bitmap_crc: 0,
            inode_bitmap_crc: 0,
            layout_mode: 0,
            root_inode: 0,
        }
    }

    /// Geometry derived from the superblock fields.
    pub fn geometry(&self) -> (r: LayoutGeometry)
        ensures
            r == sb_geometry(*self),
    {
        LayoutGeometry {
            total_blocks: self.total_blocks,
            block_bitmap_start: self.block_bitmap_start,
            block_bitmap_blocks: self.block_bitmap_blocks,
            inode_bitmap_start: self.inode_bitmap_start,
            inode_bitmap_blocks: self.inode_bitmap_blocks,
            inode_table_start: self.inode_table_start,
            inode_table_blocks: self.inode_table_blocks,
            inode_count: self.total_inodes,
            journal_start: self.journal_start,
            journal_blocks: self.journal_blocks,
            data_start: self.data_start,
            data_blocks: if self.total_blocks >= self.data_start { self.total_blocks - self.data_start } else { 0 },
            secondary_superblock_block: self.secondary_superblock_block,
            tertiary_superblock_block: self.tertiary_superblock_block,
        }
    }

    /// Encode into a full 4096-byte block with the checksum filled in.
    pub fn encode_block(&self) -> (r: Vec<u8>)
        ensures
            r@ == sb_block_bytes(*self),
            r@.len() == 4096,
    {
        let mut b: Vec<u8> = Vec::with_capacity(4096);
        push_u64(&mut b, self.magic);
        push_u16(&mut b, self.version_major);
        push_u16(&mut b, self.version_minor);
        push_u32(&mut b, self.block_size);
        push_u64(&mut b, self.total_blocks);
        push_u64(&mut b, self.free_blocks);
        push_u64(&mut b, self.total_inodes);
        push_u64(&mut b, self.free_inodes);
        push_u64(&mut b, self.block_bitmap_start);
        push_u64(&mut b, self.block_bitmap_blocks);
        push_u64(&mut b, self.inode_bitmap_start);
        push_u64(&mut b, self.inode_bitmap_blocks);
        push_u64(&mut b, self.inode_table_start);
        push_u64(&mut b, self.inode_table_blocks);
        push_u64(&mut b, self.journal_start);
        push_u64(&mut b, self.journal_blocks);
        push_u64(&mut b, self.data_start);
        push_u64(&mut b, self.secondary_superblock_block);
        push_u64(&mut b, self.tertiary_superblock_block);
        push_u64(&mut b, self.feature_compat);
        push_u64(&mut b, self.feature_incompat);
        push_u64(&mut b, self.feature_ro_compat);
        push_bytes(&mut b, self.uuid.as_slice());
        push_bytes(&mut b, self.label.as_slice());
        push_i64(&mut b, self.created_at);
        push_i64(&mut b, self.last_mount_at);
        push_i64(&mut b, self.last_write_at);
        push_u32(&mut b, self.mount_count);
        push_u64(&mut b, self.generation);
        push_u32(&mut b, self.state);
        push_u64(&mut b, self.payload_inode);
        push_u32(&mut b, self.block_bitmap_crc);
        push_u32(&mut b, self.inode_bitmap_crc);
        push_u32(&mut b, self.layout_mode);
        push_u64(&mut b, self.root_inode);
        proof {
            assert(b@ =~= sb_field_bytes(*self));
        }
        push_zeros(&mut b, 232);
        let mut for_crc = b.clone();
        push_zeros(&mut for_crc, 3588);
        let crc = Crc32c::hash(for_crc.as_slice());
        push_u32(&mut b, crc);
        push_zeros(&mut b, 3584);
        proof {
            lemma_sb_lengths(*self);
            lemma_auto_spec_u32_to_from_le_bytes();
            assert(b@ =~= sb_block_bytes(*self));
        }
        b
    }

    /// Decode a 4096-byte block, validating checksum, magic, major version
    /// and feature flags.
    pub fn decode_block(block: &[u8]) -> (r: CoreFsResult<Self>)
        ensures
            r is Ok <==> sb_decodable(block@),
            r matches Ok(s) ==> sb_matches_block(s, block@),
            r matches Err(e) ==> (e is InvalidInput <==> block@.len() != 4096),
            r matches Err(e) ==> (e is InvalidInput || e is State),
    {
        if block.len() != 4096 {
            return Err(CoreFsError::InvalidInput(msg_num(
                "superblock block must be 4096 bytes, got ",
                block.len() as u64,
                "",
            )));
        }
        let stored = read_u32(block, SUPERBLOCK_CHECKSUM_OFFSET);
        let mut zeroed = copy_range(block, 0, SUPERBLOCK_CHECKSUM_OFFSET);
        push_zeros(&mut zeroed, 4);
        let tail = copy_range(block, 512, 4096);
        push_bytes(&mut zeroed, tail.as_slice());
        let expected = Crc32c::hash(zeroed.as_slice());
        if expected != stored {
            return Err(CoreFsError::State(msg("superblock checksum mismatch")));
        }
        let magic = read_u64(block, 0);
        if magic != ODF_MAGIC {
            return Err(CoreFsError::State(msg("superblock magic mismatch")));
        }
        let version_major = read_u16(block, 8);
        if version_major != ODF_VERSION_MAJOR {
            return Err(CoreFsError::State(msg_num(
                "unsupported ODF major version: ",
                version_major as u64,
                "",
            )));
        }
        let feature_incompat = read_u64(block, 144);
        let feature_ro_compat = read_u64(block, 152);
        let unknown_incompat = feature_incompat & !SUPPORTED_INCOMPAT;
        if unknown_incompat != 0 {
            return Err(CoreFsError::State(msg("superblock requires unsupported incompat features")));
        }
        let unknown_ro = feature_ro_compat & !SUPPORTED_RO_COMPAT;
        if unknown_ro != 0 {
            return Err(CoreFsError::State(msg("superblock requires unsupported ro-compat features")));
        }
        proof {
            assert(block@.subrange(144, 152) == block@.subrange(144, 152));
        }
        let s = Superblock {
            magic,
            version_major,
            version_minor: read_u16(block, 10),
            block_size: read_u32(block, 12),
            total_blocks: read_u64(block, 16),
            free_blocks: read_u64(block, 24),
            total_inodes: read_u64(block, 32),
            free_inodes: read_u64(block, 40),
            block_bitmap_start: read_u64(block, 48),
            block_bitmap_blocks: read_u64(block, 56),
            inode_bitmap_start: read_u64(block, 64),
            inode_bitmap_blocks: read_u64(block, 72),
            inode_table_start: read_u64(block, 80),
            inode_table_blocks: read_u64(block, 88),
            journal_start: read_u64(block, 96),
            journal_blocks: read_u64(block, 104),
            data_start: read_u64(block, 112),
            secondary_superblock_block: read_u64(block, 120),
            tertiary_superblock_block: read_u64(block, 128),
            feature_compat: read_u64(block, 136),
            feature_incompat,
            feature_ro_compat,
            uuid: read_array16(block, 160),
            label: read_array32(block, 176),
            created_at: read_i64(block, 208),
            last_mount_at: read_i64(block, 216),
            last_write_at: read_i64(block, 224),
            mount_count: read_u32(block, 232),
            generation: read_u64(block, 236),
            state: read_u32(block, 244),
            payload_inode: read_u64(block, 248),
            block_bitmap_crc: read_u32(block, 256),
            inode_bitmap_crc: read_u32(block, 260),
            layout_mode: read_u32(block, 264),
            root_inode: read_u64(block, 268),
        };
        Ok(s)
    }
}

proof fn lemma_sb_lengths(s: Superblock)
    ensures
        sb_field_bytes(s).len() == 276,
        sb_body_bytes(s).len() == 508,
{
    lemma_auto_spec_u64_to_from_le_bytes();
    lemma_auto_spec_u32_to_from_le_bytes();
    lemma_auto_spec_u16_to_from_le_bytes();
    lemma_i64_roundtrip(s.created_at);
    lemma_i64_roundtrip(s.last_mount_at);
    lemma_i64_roundtrip(s.last_write_at);
}

/// Two superblocks carry the same field values.
pub open spec fn same_superblock(a: Superblock, b: Superblock) -> bool {
    &&& a.magic == b.magic
    &&& a.version_major == b.version_major
    &&& a.version_minor == b.version_minor
    &&& a.block_size == b.block_size
    &&& a.total_blocks == b.total_blocks
    &&& a.free_blocks == b.free_blocks
    &&& a.total_inodes == b.total_inodes
    &&& a.free_inodes == b.free_inodes
    &&& a.block_bitmap_start == b.block_bitmap_start
    &&& a.block_bitmap_blocks == b.block_bitmap_blocks
    &&& a.inode_bitmap_start == b.inode_bitmap_start
    &&& a.inode_bitmap_blocks == b.inode_bitmap_blocks
    &&& a.inode_table_start == b.inode_table_start
    &&& a.inode_table_blocks == b.inode_table_blocks
    &&& a.journal_start == b.journal_start
    &&& a.journal_blocks == b.journal_blocks
    &&& a.data_start == b.data_start
    &&& a.secondary_superblock_block == b.secondary_superblock_block
    &&& a.tertiary_superblock_block == b.tertiary_superblock_block
    &&& a.feature_compat == b.feature_compat
    &&& a.feature_incompat == b.feature_incompat
    &&& a.feature_ro_compat == b.feature_ro_compat
    &&& a.uuid == b.uuid
    &&& a.label == b.label
    &&& a.created_at == b.created_at
    &&& a.last_mount_at == b.last_mount_at
    &&& a.last_write_at == b.last_write_at
    &&& a.mount_count == b.mount_count
    &&& a.generation == b.generation
    &&& a.state == b.state
    &&& a.payload_inode == b.payload_inode
    &&& a.block_bitmap_crc == b.block_bitmap_crc
    &&& a.inode_bitmap_crc == b.inode_bitmap_crc
    &&& a.layout_mode == b.layout_mode
    &&& a.root_inode == b.root_inode
}

/// Decoding an encoded superblock gives back the same superblock: the block
/// that `encode_block` writes for a superblock with the current magic, major
/// version and supported feature flags is accepted by `decode_block`, and
/// every field reads back as written.
pub proof fn lemma_superblock_roundtrip(s: Superblock)
    requires
        s.magic == ODF_MAGIC,
        s.version_major == ODF_VERSION_MAJOR,
        s.feature_incompat & !SUPPORTED_INCOMPAT == 0,
        s.feature_ro_compat & !SUPPORTED_RO_COMPAT == 0,
    ensures
        sb_decodable(sb_block_bytes(s)),
        forall|d: Superblock| sb_matches_block(d, sb_block_bytes(s)) ==> same_superblock(d, s),
{
    lemma_sb_lengths(s);
    lemma_auto_spec_u64_to_from_le_bytes();
    lemma_auto_spec_u32_to_from_le_bytes();
    lemma_auto_spec_u16_to_from_le_bytes();
    lemma_i64_roundtrip(s.created_at);
    lemma_i64_roundtrip(s.last_mount_at);
    lemma_i64_roundtrip(s.last_write_at);
    let body = sb_body_bytes(s);
    let blk = sb_block_bytes(s);
    assert(blk.subrange(0, 508) =~= body);
    assert(blk.subrange(508, 512) =~= spec_u32_to_le_bytes(crc32c_spec(body + zeros(3588))));
    assert(blk.subrange(0, 508) + zeros(4) + blk.subrange(512, 4096) =~= body + zeros(3588));
    assert(blk.subrange(0, 8) =~= spec_u64_to_le_bytes(s.magic));
    assert(blk.subrange(8, 10) =~= spec_u16_to_le_bytes(s.version_major));
    assert(blk.subrange(10, 12) =~= spec_u16_to_le_bytes(s.version_minor));
    assert(blk.subrange(12, 16) =~= spec_u32_to_le_bytes(s.block_size));
    assert(blk.subrange(16, 24) =~= spec_u64_to_le_bytes(s.total_blocks));
    assert(blk.subrange(24, 32) =~= spec_u64_to_le_bytes(s.free_blocks));
    assert(blk.subrange(32, 40) =~= spec_u64_to_le_bytes(s.total_inodes));
    assert(blk.subrange(40, 48) =~= spec_u64_to_le_bytes(s.free_inodes));
    assert(blk.subrange(48, 56) =~= spec_u64_to_le_bytes(s.block_bitmap_start));
    assert(blk.subrange(56, 64) =~= spec_u64_to_le_bytes(s.block_bitmap_blocks));
    assert(blk.subrange(64, 72) =~= spec_u64_to_le_bytes(s.inode_bitmap_start));
    assert(blk.subrange(72, 80) =~= spec_u64_to_le_bytes(s.inode_bitmap_blocks));
    assert(blk.subrange(80, 88) =~= spec_u64_to_le_bytes(s.inode_table_start));
    assert(blk.subrange(88, 96) =~= spec_u64_to_le_bytes(s.inode_table_blocks));
    assert(blk.subrange(96, 104) =~= spec_u64_to_le_bytes(s.journal_start));
    assert(blk.subrange(104, 112) =~= spec_u64_to_le_bytes(s.journal_blocks));
    assert(blk.subrange(112, 120) =~= spec_u64_to_le_bytes(s.data_start));
    assert(blk.subrange(120, 128) =~= spec_u64_to_le_bytes(s.secondary_superblock_block));
    assert(blk.subrange(128, 136) =~= spec_u64_to_le_bytes(s.tertiary_superblock_block));
    assert(blk.subrange(136, 144) =~= spec_u64_to_le_bytes(s.feature_compat));
    assert(blk.subrange(144, 152) =~= spec_u64_to_le_bytes(s.feature_incompat));
    assert(blk.subrange(152, 160) =~= spec_u64_to_le_bytes(s.feature_ro_compat));
    assert(blk.subrange(160, 176) =~= s.uuid@);
    assert(blk.subrange(176, 208) =~= s.label@);
    assert(blk.subrange(208, 216) =~= spec_i64_to_le_bytes(s.created_at));
    assert(blk.subrange(216, 224) =~= spec_i64_to_le_bytes(s.last_mount_at));
    assert(blk.subrange(224, 232) =~= spec_i64_to_le_bytes(s.last_write_at));
    assert(blk.subrange(232, 236) =~= spec_u32_to_le_bytes(s.mount_count));
    assert(blk.subrange(236, 244) =~= spec_u64_to_le_bytes(s.generation));
    assert(blk.subrange(244, 248) =~= spec_u32_to_le_bytes(s.state));
    assert(blk.subrange(248, 256) =~= spec_u64_to_le_bytes(s.payload_inode));
    assert(blk.subrange(256, 260) =~= spec_u32_to_le_bytes(s.block_bitmap_crc));
    assert(blk.subrange(260, 264) =~= spec_u32_to_le_bytes(s.inode_bitmap_crc));
    assert(blk.subrange(264, 268) =~= spec_u32_to_le_bytes(s.layout_mode));
    assert(blk.subrange(268, 276) =~= spec_u64_to_le_bytes(s.root_inode));
    assert forall|d: Superblock| sb_matches_block(d, blk) implies same_superblock(d, s) by {
        assert(d.uuid@ =~= s.uuid@);
        assert(d.label@ =~= s.label@);
        assert(d.uuid =~= s.uuid);
        assert(d.label =~= s.label);
    }
}

/// A superblock block that `decode_block` accepts is refused once any one
/// of its 4096 bytes is changed: the CRC32C no longer matches.
pub proof fn lemma_superblock_detects_corruption(b: Seq<u8>, k: int, v: u8)
    requires
        sb_decodable(b),
        0 <= k < 4096,
        v != b[k],
    ensures
        !sb_decodable(b.update(k, v)),
{
    let b2 = b.update(k, v);
    assert(crc_covered(b, 508) =~= b.subrange(0, 508) + zeros(4) + b.subrange(512, 4096));
    assert(crc_covered(b2, 508) =~= b2.subrange(0, 508) + zeros(4) + b2.subrange(512, 4096));
    lemma_crc_slot_detects_change(b, 508, k, v);
}

} // verus!
