//! Physical layout of the on-disk format (ODF v1).
//!
//! ```text
//! block 0        Reserved (boot sector, all zero)
//! block 1        Primary superblock
//! block 2..      Block allocation bitmap
//! block .. ..    Inode allocation bitmap
//! block .. ..    Inode table
//! block .. ..    Journal region
//! block .. N-2   Data blocks
//! block N/2      Tertiary superblock (redundant copy)
//! block N-1      Secondary superblock (redundant copy)
//! ```
use vstd::prelude::*;
use crate::error::{CoreFsError, CoreFsResult, msg, msg_num};

verus! {

/// Size of an on-disk block in bytes (4 KiB).
pub const BLOCK_SIZE: u64 = 4096;
/// Logarithm base 2 of [`BLOCK_SIZE`].
pub const BLOCK_SIZE_LOG2: u32 = 12;
/// Size of a single on-disk inode record in bytes.
pub const INODE_SIZE: u64 = 256;
/// Number of inode records that fit into one block.
pub const INODES_PER_BLOCK: u64 = 16;
/// Number of bits represented by a single bitmap block.
pub const BITS_PER_BITMAP_BLOCK: u64 = 32768;
/// Minimum acceptable volume size in blocks.
pub const MIN_VOLUME_BLOCKS: u64 = 64;
/// Default inode count for a freshly formatted volume.
pub const DEFAULT_INODE_COUNT: u64 = 4096;
/// Default journal region size in blocks.
pub const DEFAULT_JOURNAL_BLOCKS: u64 = 64;
/// Reserved block 0.
pub const RESERVED_BLOCK: u64 = 0;
/// Location of the primary superblock.
pub const PRIMARY_SUPERBLOCK_BLOCK: u64 = 1;
/// ODF magic value — ASCII "COREFSDF" read as a little-endian u64.
pub const ODF_MAGIC: u64 = 0x4644_5346_4552_4F43;
/// Current format major version.
pub const ODF_VERSION_MAJOR: u16 = 1;
/// Current format minor version.
pub const ODF_VERSION_MINOR: u16 = 0;
/// Feature flag — the payload lives in the system inode #0.
pub const FEATURE_INCOMPAT_PAYLOAD_INODE: u64 = 1;
/// Feature flag — per-block CRC32C checksums.
pub const FEATURE_COMPAT_BLOCK_CHECKSUMS: u64 = 1;
/// Feature flag — redundant superblocks at N/2 and N-1.
pub const FEATURE_COMPAT_REDUNDANT_SUPERBLOCKS: u64 = 2;
/// Feature flag — block-group layout.
pub const FEATURE_INCOMPAT_BLOCK_GROUPS: u64 = 2;
/// Union of all incompatible features this build understands.
pub const SUPPORTED_INCOMPAT: u64 = 3;
/// Union of all read-only-compat features this build understands.
pub const SUPPORTED_RO_COMPAT: u64 = 0;

/// `ceil(a / b)` for positive `b`.
pub open spec fn div_ceil_spec(a: int, b: int) -> int {
    a / b + if a % b != 0 { 1int } else { 0int }
}

/// Executable `ceil(a / b)`.
pub fn div_ceil_u64(a: u64, b: u64) -> (r: u64)
    requires
        b > 0,
    ensures
        r == div_ceil_spec(a as int, b as int),
        r as int * b >= a,
{
    let q = a / b;
    let rem = a % b;
    proof {
        vstd::arithmetic::div_mod::lemma_fundamental_div_mod(a as int, b as int);
        assert(q as int * b + rem == a) by {
            assert(q == a / b);
            assert(rem == a % b);
        }
        if rem != 0 {
            assert(b >= 2);
            assert(q as int * b <= a);
            assert(q as int * 2 <= q as int * b) by (nonlinear_arith)
                requires b >= 2, q >= 0;
            assert((q as int + 1) * b == q as int * b + b) by (nonlinear_arith);
        }
    }
    if rem != 0 {
        q + 1
    } else {
        q
    }
}

/// User-controlled parameters for [`LayoutGeometry::plan`].
#[derive(Debug, Clone, Copy, PartialEq, Eq)]
pub struct LayoutParams {
    pub total_blocks: u64,
    pub inode_count: u64,
    pub journal_blocks: u64,
}

impl LayoutParams {
    /// Defaults derived solely from the volume size.
    pub fn with_defaults(total_blocks: u64) -> (r: Self)
        ensures
            r.total_blocks == total_blocks,
            r.inode_count == DEFAULT_INODE_COUNT,
            r.journal_blocks == DEFAULT_JOURNAL_BLOCKS,
    {
        LayoutParams {
            total_blocks,
            inode_count: DEFAULT_INODE_COUNT,
            journal_blocks: DEFAULT_JOURNAL_BLOCKS,
        }
    }
}

/// Resolved block positions of every layout region.
#[derive(Debug, Clone, Copy, PartialEq, Eq)]
pub struct LayoutGeometry {
    pub total_blocks: u64,
    pub block_bitmap_start: u64,
    pub block_bitmap_blocks: u64,
    pub inode_bitmap_start: u64,
    pub inode_bitmap_blocks: u64,
    pub inode_table_start: u64,
    pub inode_table_blocks: u64,
    pub inode_count: u64,
    pub journal_start: u64,
    pub journal_blocks: u64,
    pub data_start: u64,
    pub data_blocks: u64,
    pub secondary_superblock_block: u64,
    pub tertiary_superblock_block: u64,
}

/// First block of the data region that `p` leads to (as an integer, no overflow).
pub open spec fn planned_data_start(p: LayoutParams) -> int {
    2 + div_ceil_spec(p.total_blocks as int, BITS_PER_BITMAP_BLOCK as int)
        + div_ceil_spec(p.inode_count as int, BITS_PER_BITMAP_BLOCK as int)
        + div_ceil_spec(p.inode_count as int, INODES_PER_BLOCK as int)
        + p.journal_blocks
}

/// The region arithmetic of `p` stays inside `u64`.
pub open spec fn plan_fits(p: LayoutParams) -> bool {
    planned_data_start(p) + 4 <= u64::MAX
}

/// `plan` accepts `p`.
pub open spec fn plan_accepts(p: LayoutParams) -> bool {
    &&& p.total_blocks >= MIN_VOLUME_BLOCKS
    &&& p.inode_count > 0
    &&& planned_data_start(p) + 4 <= p.total_blocks
}

/// The geometry that `plan` computes for `p` (meaningful when `plan_accepts(p)`).
pub open spec fn planned_geometry(p: LayoutParams) -> LayoutGeometry {
    let bbm_blocks = div_ceil_spec(p.total_blocks as int, BITS_PER_BITMAP_BLOCK as int);
    let ibm_blocks = div_ceil_spec(p.inode_count as int, BITS_PER_BITMAP_BLOCK as int);
    let it_blocks = div_ceil_spec(p.inode_count as int, INODES_PER_BLOCK as int);
    let ibm_start = 2 + bbm_blocks;
    let it_start = ibm_start + ibm_blocks;
    let j_start = it_start + it_blocks;
    let d_start = j_start + p.journal_blocks;
    LayoutGeometry {
        total_blocks: p.total_blocks,
        block_bitmap_start: 2,
        block_bitmap_blocks: bbm_blocks as u64,
        inode_bitmap_start: ibm_start as u64,
        inode_bitmap_blocks: ibm_blocks as u64,
        inode_table_start: it_start as u64,
        inode_table_blocks: it_blocks as u64,
        inode_count: p.inode_count,
        journal_start: j_start as u64,
        journal_blocks: p.journal_blocks,
        data_start: d_start as u64,
        data_blocks: (p.total_blocks - d_start) as u64,
        secondary_superblock_block: (p.total_blocks - 1) as u64,
        tertiary_superblock_block: (p.total_blocks / 2) as u64,
    }
}

impl LayoutGeometry {
    /// Compute a valid layout for `params` or report why the volume is too
    /// small or misconfigured.
    pub fn plan(params: LayoutParams) -> (r: CoreFsResult<Self>)
        requires
            plan_fits(params),
        ensures
            r is Ok <==> plan_accepts(params),
            r matches Ok(g) ==> g == planned_geometry(params),
            r matches Err(e) ==> e is InvalidInput,
    {
        if params.total_blocks < MIN_VOLUME_BLOCKS {
            return Err(CoreFsError::InvalidInput(msg_num(
                "volume too small: ",
                params.total_blocks,
                " blocks, minimum is 64",
            )));
        }
        if params.inode_count == 0 {
            return Err(CoreFsError::InvalidInput(msg("inode_count must be greater than zero")));
        }
        let total_blocks = params.total_blocks;
        let block_bitmap_start = PRIMARY_SUPERBLOCK_BLOCK + 1;
        let block_bitmap_blocks = div_ceil_u64(total_blocks, BITS_PER_BITMAP_BLOCK);
        let inode_bitmap_start = block_bitmap_start + block_bitmap_blocks;
        let inode_bitmap_blocks = div_ceil_u64(params.inode_count, BITS_PER_BITMAP_BLOCK);
        let inode_table_start = inode_bitmap_start + inode_bitmap_blocks;
        let inode_table_blocks = div_ceil_u64(params.inode_count, INODES_PER_BLOCK);
        let journal_start = inode_table_start + inode_table_blocks;
        let journal_blocks = params.journal_blocks;
        let data_start = journal_start + journal_blocks;
        if data_start + 4 > total_blocks {
            return Err(CoreFsError::InvalidInput(msg_num(
                "layout does not leave room for data blocks: data_start=",
                data_start,
                "",
            )));
        }
        let data_blocks = total_blocks - data_start;
        let secondary_superblock_block = total_blocks - 1;
        let tertiary_superblock_block = total_blocks / 2;
        Ok(LayoutGeometry {
            total_blocks,
            block_bitmap_start,
            block_bitmap_blocks,
            inode_bitmap_start,
            inode_bitmap_blocks,
            inode_table_start,
            inode_table_blocks,
            inode_count: params.inode_count,
            journal_start,
            journal_blocks,
            data_start,
            data_blocks,
            secondary_superblock_block,
            tertiary_superblock_block,
        })
    }

    /// Byte offset (from the start of the device) of block `block`.
    pub fn block_offset(&self, block: u64) -> (r: u64)
        requires
            block * BLOCK_SIZE <= u64::MAX,
        ensures
            r == block * BLOCK_SIZE,
    {
        block * BLOCK_SIZE
    }

    /// `true` if `block` lies inside the data region.
    pub fn is_data_block(&self, block: u64) -> (r: bool)
        ensures
            r == (self.data_start <= block && block < self.total_blocks),
    {
        block >= self.data_start && block < self.total_blocks
    }

    /// Block and in-block byte offset of the inode record `index`.
    pub fn inode_record_location(&self, index: u64) -> (r: CoreFsResult<(u64, u64)>)
        requires
            self.inode_table_start + self.inode_count / INODES_PER_BLOCK <= u64::MAX,
        ensures
            r is Ok <==> index < self.inode_count,
            r matches Ok(loc) ==> loc.0 == self.inode_table_start + index / INODES_PER_BLOCK
                && loc.1 == (index % INODES_PER_BLOCK) * INODE_SIZE,
            r matches Err(e) ==> e is InvalidInput,
    {
        if index >= self.inode_count {
            return Err(CoreFsError::InvalidInput(msg_num("inode index ", index, " out of range")));
        }
        proof {
            vstd::arithmetic::div_mod::lemma_div_is_ordered(index as int, self.inode_count as int, 16);
        }
        let block = self.inode_table_start + index / INODES_PER_BLOCK;
        let offset_in_block = (index % INODES_PER_BLOCK) * INODE_SIZE;
        Ok((block, offset_in_block))
    }
}

} // verus!
