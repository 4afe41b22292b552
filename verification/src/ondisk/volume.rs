//! Volume-level operations of the on-disk format: format a device, store
//! a state payload in the system inode (replacing the previous one and
//! bumping the superblock generation), load it back (falling back to the
//! redundant superblock copies), and inspect the superblock copies.
//!
//! The payload is handed over as bytes; it is framed here with a trailing
//! CRC32C and checked again when it is read back.
use vstd::prelude::*;
use vstd::bytes::*;
use vstd::string::StringSliceAdditionalSpecFns;
use crate::error::{CoreFsError, CoreFsResult, msg};
use crate::block_device::BlockDevice;
use crate::device_volume::now_nanos;
use super::bitmap::Bitmap;
use super::checksum::{Crc32c, crc32c_spec, lemma_crc32c_detects_single_byte_change};
use super::codec::{overwrite, zero_vec, zeros, push_u32, push_bytes, read_u32, copy_range, write_bytes_at};
use super::inode::{Extent, OnDiskInode, OnDiskKind, inode_decodable, inode_matches_record, inode_record_bytes};
use super::journal::{Journal, jh_block_bytes};
use super::layout::{LayoutGeometry, LayoutParams, div_ceil_spec, div_ceil_u64, plan_accepts, plan_fits, planned_geometry, planned_data_start, DEFAULT_INODE_COUNT, DEFAULT_JOURNAL_BLOCKS};
use super::layout::{ODF_MAGIC, ODF_VERSION_MAJOR, SUPPORTED_INCOMPAT, SUPPORTED_RO_COMPAT};
use super::superblock::{Superblock, sb_decodable, sb_matches_block, sb_block_bytes, sb_geometry, label_field, lemma_superblock_roundtrip, STATE_CLEAN, LAYOUT_MODE_BLOB};

verus! {

/// Bytes of the CRC32C trailer after the payload.
pub const PAYLOAD_CRC_TRAILER_BYTES: usize = 4;

/// Options for [`format_device`].
#[derive(Debug, Clone)]
pub struct FormatOptions {
    pub label: String,
    pub uuid: [u8; 16],
    pub inode_count: u64,
    pub journal_blocks: u64,
}

impl Default for FormatOptions {
    fn default() -> (r: Self)
        ensures
            r.label@ == "corefs"@,
            forall|i: int| 0 <= i < 16 ==> r.uuid@[i] == 0,
            r.inode_count == DEFAULT_INODE_COUNT,
            r.journal_blocks == DEFAULT_JOURNAL_BLOCKS,
    {
        FormatOptions {
            label: String::from_str("corefs"),
            uuid: [0u8; 16],
            inode_count: DEFAULT_INODE_COUNT,
            journal_blocks: DEFAULT_JOURNAL_BLOCKS,
        }
    }
}

/// Outcome of [`format_device`].
#[derive(Debug, Clone, PartialEq, Eq)]
pub struct FormatReport {
    pub geometry: LayoutGeometry,
    pub uuid: [u8; 16],
    pub generation: u64,
}

/// What a save under a given superblock writes: the geometry, the framed
/// payload length (payload and CRC32C), the blocks it takes and the next
/// generation.
#[derive(Debug, Clone, Copy, PartialEq, Eq)]
pub struct SavePlan {
    pub geometry: LayoutGeometry,
    pub framed_bytes: u64,
    pub payload_blocks: u64,
    pub generation: u64,
}

/// Outcome of [`save_state`].
#[derive(Debug, Clone, PartialEq, Eq)]
pub struct SaveReport {
    pub generation: u64,
    pub payload_bytes: u64,
    pub payload_blocks: u64,
}

/// Superblock copies and counters of a volume.
#[derive(Debug, Clone, PartialEq, Eq)]
pub struct VolumeInfo {
    pub label: String,
    pub uuid: [u8; 16],
    pub total_blocks: u64,
    pub free_blocks: u64,
    pub total_inodes: u64,
    pub free_inodes: u64,
    pub generation: u64,
    pub state: u32,
    pub primary_ok: bool,
    pub tertiary_ok: bool,
    pub secondary_ok: bool,
}

/// Layout parameters of a device with `cap` bytes under `o`.
pub open spec fn format_params(cap: u64, o: FormatOptions) -> LayoutParams {
    LayoutParams { total_blocks: cap / 4096, inode_count: o.inode_count, journal_blocks: o.journal_blocks }
}

/// Block `blk` of `c`.
pub open spec fn block_of(c: Seq<u8>, blk: int) -> Seq<u8> {
    c.subrange(blk * 4096, blk * 4096 + 4096)
}

/// Block `blk` lies inside `c` and holds a valid superblock.
pub open spec fn sb_copy_ok(c: Seq<u8>, blk: int) -> bool {
    &&& 0 <= blk
    &&& blk * 4096 + 4096 <= c.len()
    &&& sb_decodable(block_of(c, blk))
}

/// `s` is read from a valid superblock copy of `c`: the primary (block 1),
/// or one of the copies at the middle and at the last block of the device.
pub open spec fn sb_located(c: Seq<u8>, s: Superblock) -> bool {
    exists|blk: int| (blk == 1 || blk == (c.len() / 4096) / 2 || blk == (c.len() / 4096) - 1)
        && #[trigger] sb_copy_ok(c, blk) && sb_matches_block(s, block_of(c, blk))
}

/// Every region of `g` lies inside the volume.
pub open spec fn geom_sane(g: LayoutGeometry) -> bool {
    &&& 2 <= g.total_blocks
    &&& g.block_bitmap_start + g.block_bitmap_blocks <= g.total_blocks
    &&& g.inode_bitmap_start + g.inode_bitmap_blocks <= g.total_blocks
    &&& g.inode_table_start + g.inode_table_blocks <= g.total_blocks
    &&& g.journal_start + g.journal_blocks <= g.total_blocks
    &&& g.data_start <= g.total_blocks
    &&& g.tertiary_superblock_block < g.total_blocks
    &&& g.secondary_superblock_block < g.total_blocks
}

/// Block `b` holds control structures of `g`.
pub open spec fn reserved_block(g: LayoutGeometry, b: int) -> bool {
    ||| b == 0
    ||| b == 1
    ||| g.block_bitmap_start <= b < g.block_bitmap_start + g.block_bitmap_blocks
    ||| g.inode_bitmap_start <= b < g.inode_bitmap_start + g.inode_bitmap_blocks
    ||| g.inode_table_start <= b < g.inode_table_start + g.inode_table_blocks
    ||| g.journal_start <= b < g.journal_start + g.journal_blocks
    ||| b == g.tertiary_superblock_block
    ||| b == g.secondary_superblock_block
}

/// Seconds since the epoch (0 for a clock before it).
fn now_secs() -> (r: i64)
    ensures
        r >= 0,
{
    (now_nanos() / 1_000_000_000) as i64
}

/// Mark `count` units from `start`.
fn set_range(bm: &mut Bitmap, start: u64, count: u64) -> (r: CoreFsResult<()>)
    requires
        old(bm).wf(),
        start + count <= old(bm).cap(),
        start + count <= u64::MAX,
    ensures
        r is Ok,
        final(bm).wf(),
        final(bm).cap() == old(bm).cap(),
        final(bm).bytes().len() == old(bm).bytes().len(),
        forall|j: int| 0 <= j < final(bm).bytes().len() * 8 ==> #[trigger] final(bm).is_set_spec(j)
            == ((start <= j < start + count) || old(bm).is_set_spec(j)),
{
    let mut i: u64 = 0;
    while i < count
        invariant
            bm.wf(),
            bm.cap() == old(bm).cap(),
            bm.bytes().len() == old(bm).bytes().len(),
            start + count <= bm.cap(),
            start + count <= u64::MAX,
            i <= count,
            forall|j: int| 0 <= j < bm.bytes().len() * 8 ==> #[trigger] bm.is_set_spec(j)
                == ((start <= j < start + i) || old(bm).is_set_spec(j)),
        decreases count - i,
    {
        let _ = bm.set(start + i);
        i = i + 1;
    }
    Ok(())
}

/// Mark every control block of `g`.
fn mark_reserved_blocks(bm: &mut Bitmap, g: &LayoutGeometry) -> (r: CoreFsResult<()>)
    requires
        old(bm).wf(),
        geom_sane(*g),
        old(bm).cap() == g.total_blocks,
    ensures
        r is Ok,
        final(bm).wf(),
        final(bm).cap() == old(bm).cap(),
        final(bm).bytes().len() == old(bm).bytes().len(),
        forall|j: int| 0 <= j < final(bm).bytes().len() * 8 ==> #[trigger] final(bm).is_set_spec(j)
            == (reserved_block(*g, j) || old(bm).is_set_spec(j)),
{
    let ghost b0 = *bm;
    let _ = bm.set(0);
    let _ = bm.set(1);
    let ghost b1 = *bm;
    set_range(bm, g.block_bitmap_start, g.block_bitmap_blocks)?;
    let ghost b2 = *bm;
    set_range(bm, g.inode_bitmap_start, g.inode_bitmap_blocks)?;
    let ghost b3 = *bm;
    set_range(bm, g.inode_table_start, g.inode_table_blocks)?;
    let ghost b4 = *bm;
    set_range(bm, g.journal_start, g.journal_blocks)?;
    let ghost b5 = *bm;
    let _ = bm.set(g.tertiary_superblock_block);
    let ghost b6 = *bm;
    let _ = bm.set(g.secondary_superblock_block);
    proof {
        assert forall|j: int| 0 <= j < bm.bytes().len() * 8 implies #[trigger] bm.is_set_spec(j)
            == (reserved_block(*g, j) || b0.is_set_spec(j)) by {
            assert(b6.is_set_spec(j) == (j == g.tertiary_superblock_block || b5.is_set_spec(j)));
            assert(b5.is_set_spec(j) == ((g.journal_start <= j < g.journal_start + g.journal_blocks) || b4.is_set_spec(j)));
            assert(b4.is_set_spec(j) == ((g.inode_table_start <= j < g.inode_table_start + g.inode_table_blocks) || b3.is_set_spec(j)));
            assert(b3.is_set_spec(j) == ((g.inode_bitmap_start <= j < g.inode_bitmap_start + g.inode_bitmap_blocks) || b2.is_set_spec(j)));
            assert(b2.is_set_spec(j) == ((g.block_bitmap_start <= j < g.block_bitmap_start + g.block_bitmap_blocks) || b1.is_set_spec(j)));
        }
    }
    Ok(())
}

/// A bitmap with `capacity` units, or an error where its buffer cannot be
/// held in memory.
fn new_bitmap(capacity: u64) -> (r: CoreFsResult<Bitmap>)
    ensures
        r is Ok <==> div_ceil_spec(capacity as int, 32768) <= usize::MAX / 4096,
        r matches Err(e) ==> e is State,
        r matches Ok(bm) ==> bm.wf() && bm.cap() == capacity && bm.bytes().len() == bitmap_len(capacity as int)
            && forall|j: int| 0 <= j < bm.bytes().len() * 8 ==> !#[trigger] bm.is_set_spec(j),
{
    let blocks = div_ceil_u64(capacity, 32768);
    if blocks > (usize::MAX as u64) / 4096 {
        return Err(CoreFsError::State(msg("bitmap too large for memory")));
    }
    let bm = Bitmap::new(capacity);
    proof {
        assert(forall|k: u8| #[trigger] (0u8 >> k) & 1u8 == 0u8) by (bit_vector);
        assert forall|j: int| 0 <= j < bm.bytes().len() * 8 implies !#[trigger] bm.is_set_spec(j) by {
            assert(bm.bytes()[j / 8] == 0u8);
            let k = (j % 8) as u8;
            assert((0u8 >> k) & 1u8 == 0u8);
        }
    }
    Ok(bm)
}

/// Write `bytes` at block `start`.
fn write_blocks<D: BlockDevice>(device: &mut D, start: u64, bytes: &[u8]) -> (r: CoreFsResult<()>)
    requires
        old(device).inv(),
    ensures
        final(device).inv(),
        final(device).spec_geometry() == old(device).spec_geometry(),
        final(device).stores_writes() == old(device).stores_writes(),
        r is Err ==> final(device).content() == old(device).content(),
        start > u64::MAX / 4096 ==> r is Err,
        r is Ok && old(device).stores_writes() ==> start * 4096 + bytes@.len() <= old(device).content().len()
            && final(device).content() == super::codec::overwrite(old(device).content(), start * 4096, bytes@),
{
    if start > u64::MAX / 4096 {
        return Err(CoreFsError::State(msg("block number out of range")));
    }
    device.write_at(start * 4096, bytes)
}

proof fn lemma_zero_extend(c: Seq<u8>, s: int, w: nat, t: nat)
    requires
        0 <= s,
        s + w + t <= c.len(),
    ensures
        super::codec::overwrite(c, s, zeros(w)).len() == c.len(),
        super::codec::overwrite(super::codec::overwrite(c, s, zeros(w)), s + w, zeros(t))
            == super::codec::overwrite(c, s, zeros(w + t)),
{
    let a = super::codec::overwrite(super::codec::overwrite(c, s, zeros(w)), s + w, zeros(t));
    let b = super::codec::overwrite(c, s, zeros(w + t));
    assert(a.len() == b.len());
    assert forall|k: int| 0 <= k < a.len() implies a[k] == b[k] by {}
    assert(a =~= b);
}

/// Zero `blocks` blocks from `start`, 64 blocks at a time.
fn zero_fill_region<D: BlockDevice>(device: &mut D, start: u64, blocks: u64) -> (r: CoreFsResult<()>)
    requires
        old(device).inv(),
        start + blocks <= u64::MAX / 4096,
    ensures
        final(device).inv(),
        final(device).spec_geometry() == old(device).spec_geometry(),
        final(device).stores_writes() == old(device).stores_writes(),
        blocks == 0 ==> r is Ok && final(device).content() == old(device).content(),
        blocks > 0 && r is Ok && old(device).stores_writes() ==> (start + blocks) * 4096 <= old(device).content().len()
            && final(device).content() == super::codec::overwrite(old(device).content(), start * 4096, zeros((blocks * 4096) as nat)),
{
    let ghost c0 = device.content();
    let mut written: u64 = 0;
    while written < blocks
        invariant
            device.inv(),
            device.spec_geometry() == old(device).spec_geometry(),
            device.stores_writes() == old(device).stores_writes(),
            c0 == old(device).content(),
            start + blocks <= u64::MAX / 4096,
            written <= blocks,
            written == 0 ==> device.content() == c0,
            device.stores_writes() && written > 0 ==> (start + written) * 4096 <= c0.len()
                && device.content() == super::codec::overwrite(c0, start * 4096, zeros((written * 4096) as nat)),
        decreases blocks - written,
    {
        let take = if blocks - written < 64 { blocks - written } else { 64 };
        let buf = zero_vec((take * 4096) as usize);
        let ghost cb = device.content();
        write_blocks(device, start + written, buf.as_slice())?;
        proof {
            if device.stores_writes() {
                if written > 0 {
                    lemma_zero_extend(c0, start * 4096, (written * 4096) as nat, (take * 4096) as nat);
                }
                assert(device.content() =~= super::codec::overwrite(c0, start * 4096, zeros(((written + take) * 4096) as nat)));
            }
        }
        written = written + take;
    }
    Ok(())
}

/// The superblock stored in block `block`.
fn read_superblock_at<D: BlockDevice>(device: &D, block: u64) -> (r: CoreFsResult<Superblock>)
    requires
        device.inv(),
    ensures
        block > u64::MAX / 4096 - 1 ==> r is Err,
        r matches Ok(s) ==> sb_copy_ok(device.content(), block as int) && sb_matches_block(s, block_of(device.content(), block as int)),
{
    if block > u64::MAX / 4096 - 1 {
        return Err(CoreFsError::State(msg("block number out of range")));
    }
    let buf = device.read_at(block * 4096, 4096)?;
    Superblock::decode_block(buf.as_slice())
}

/// The primary superblock, or else the copy in the middle of the device,
/// or else the one in its last block.
pub fn read_sb_with_fallbacks<D: BlockDevice>(device: &D) -> (r: CoreFsResult<Superblock>)
    requires
        device.inv(),
    ensures
        r matches Ok(s) ==> sb_located(device.content(), s),
        (forall|blk: int| (blk == 1 || blk == (device.content().len() / 4096) / 2 || blk == (device.content().len() / 4096) - 1)
            ==> !#[trigger] sb_copy_ok(device.content(), blk)) ==> r is Err,
{
    proof {
        device.lemma_inv();
    }
    if let Ok(sb) = read_superblock_at(device, 1) {
        return Ok(sb);
    }
    let total_blocks = device.capacity() / 4096;
    if let Ok(sb) = read_superblock_at(device, total_blocks / 2) {
        return Ok(sb);
    }
    if total_blocks == 0 {
        return Err(CoreFsError::State(msg("all superblock copies are unreadable")));
    }
    match read_superblock_at(device, total_blocks - 1) {
        Ok(sb) => Ok(sb),
        Err(_) => Err(CoreFsError::State(msg("all superblock copies are unreadable"))),
    }
}

/// The bitmaps still hash to the checksums recorded in `sb` (a checksum of
/// zero is not checked).
pub fn verify_bitmap_integrity<D: BlockDevice>(device: &D, sb: &Superblock) -> (r: CoreFsResult<()>)
    requires
        device.inv(),
    ensures
        r is Ok ==> (sb.block_bitmap_crc != 0 ==> sb.block_bitmap_start * 4096 + sb.block_bitmap_blocks * 4096 <= device.content().len()
            && crc32c_spec(device.content().subrange(sb.block_bitmap_start * 4096, sb.block_bitmap_start * 4096
                + sb.block_bitmap_blocks * 4096)) == sb.block_bitmap_crc),
        r is Ok ==> (sb.inode_bitmap_crc != 0 ==> sb.inode_bitmap_start * 4096 + sb.inode_bitmap_blocks * 4096 <= device.content().len()
            && crc32c_spec(device.content().subrange(sb.inode_bitmap_start * 4096, sb.inode_bitmap_start * 4096
                + sb.inode_bitmap_blocks * 4096)) == sb.inode_bitmap_crc),
{
    if sb.block_bitmap_crc != 0 {
        if sb.block_bitmap_start > u64::MAX / 4096 || sb.block_bitmap_blocks > u64::MAX / 4096 {
            return Err(CoreFsError::State(msg("block bitmap out of range")));
        }
        let bytes = device.read_at(sb.block_bitmap_start * 4096, sb.block_bitmap_blocks * 4096)?;
        let actual = Crc32c::hash(bytes.as_slice());
        if actual != sb.block_bitmap_crc {
            return Err(CoreFsError::State(msg("ODF: block bitmap CRC mismatch")));
        }
    }
    if sb.inode_bitmap_crc != 0 {
        if sb.inode_bitmap_start > u64::MAX / 4096 || sb.inode_bitmap_blocks > u64::MAX / 4096 {
            return Err(CoreFsError::State(msg("inode bitmap out of range")));
        }
        let bytes = device.read_at(sb.inode_bitmap_start * 4096, sb.inode_bitmap_blocks * 4096)?;
        let actual = Crc32c::hash(bytes.as_slice());
        if actual != sb.inode_bitmap_crc {
            return Err(CoreFsError::State(msg("ODF: inode bitmap CRC mismatch")));
        }
    }
    Ok(())
}

/// Byte range of inode slot `index` of `g`.
pub open spec fn inode_slot_offset(g: LayoutGeometry, index: u64) -> int {
    (g.inode_table_start + index / 16) * 4096 + (index % 16) * 256
}

/// The inode record in slot `index`.
fn read_inode_record<D: BlockDevice>(device: &D, g: &LayoutGeometry, index: u64) -> (r: CoreFsResult<OnDiskInode>)
    requires
        device.inv(),
    ensures
        r matches Ok(ino) ==> index < g.inode_count
            && inode_slot_offset(*g, index) + 256 <= device.content().len()
            && inode_decodable(device.content().subrange(inode_slot_offset(*g, index), inode_slot_offset(*g, index) + 256))
            && inode_matches_record(ino, device.content().subrange(inode_slot_offset(*g, index), inode_slot_offset(*g, index) + 256)),
{
    if g.inode_table_start > u64::MAX - g.inode_count / 16 {
        return Err(CoreFsError::State(msg("inode table out of range")));
    }
    let (block, offset_in_block) = g.inode_record_location(index)?;
    if block > u64::MAX / 4096 - 1 {
        return Err(CoreFsError::State(msg("inode table out of range")));
    }
    let buf = device.read_at(block * 4096, 4096)?;
    proof {
        assert(offset_in_block + 256 <= 4096) by (nonlinear_arith)
            requires offset_in_block == (index % 16) * 256;
    }
    let rec = copy_range(buf.as_slice(), offset_in_block as usize, offset_in_block as usize + 256);
    proof {
        assert(rec@ =~= device.content().subrange(inode_slot_offset(*g, index), inode_slot_offset(*g, index) + 256));
    }
    OnDiskInode::decode(rec.as_slice())
}

/// Rewrite slot `index` with `inode` (read-modify-write of its block).
fn write_inode_record<D: BlockDevice>(device: &mut D, g: &LayoutGeometry, index: u64, inode: &OnDiskInode) -> (r: CoreFsResult<()>)
    requires
        old(device).inv(),
    ensures
        final(device).inv(),
        final(device).spec_geometry() == old(device).spec_geometry(),
        final(device).stores_writes() == old(device).stores_writes(),
        r is Ok ==> index < g.inode_count && inode.extents@.len() <= 8,
        r is Err ==> final(device).content() == old(device).content(),
        r is Ok && old(device).stores_writes() ==> inode_slot_offset(*g, index) + 256 <= old(device).content().len()
            && final(device).content() == super::codec::overwrite(old(device).content(), inode_slot_offset(*g, index),
                super::inode::inode_record_bytes(*inode)),
{
    if g.inode_table_start > u64::MAX - g.inode_count / 16 {
        return Err(CoreFsError::State(msg("inode table out of range")));
    }
    let (block, offset_in_block) = g.inode_record_location(index)?;
    if block > u64::MAX / 4096 - 1 {
        return Err(CoreFsError::State(msg("inode table out of range")));
    }
    let mut buf = device.read_at(block * 4096, 4096)?;
    let encoded = inode.encode()?;
    proof {
        assert(offset_in_block + 256 <= 4096) by (nonlinear_arith)
            requires offset_in_block == (index % 16) * 256;
    }
    let ghost c = device.content();
    let ghost bufc = buf@;
    write_bytes_at(&mut buf, offset_in_block as usize, encoded.as_slice());
    let r = device.write_at(block * 4096, buf.as_slice());
    proof {
        if r is Ok && device.stores_writes() {
            let base = block * 4096;
            assert(inode_slot_offset(*g, index) == base + offset_in_block);
            assert(device.content() =~= super::codec::overwrite(c, base + offset_in_block, encoded@));
        }
    }
    r
}

/// Discard the blocks of `extents` where the device supports it; failures
/// are ignored (discarding is advisory).
fn trim_extents<D: BlockDevice>(device: &mut D, extents: &Vec<Extent>)
    requires
        old(device).inv(),
    ensures
        final(device).inv(),
        final(device).spec_geometry() == old(device).spec_geometry(),
        final(device).stores_writes() == old(device).stores_writes(),
{
    if !device.supports_trim() {
        return;
    }
    let mut i: usize = 0;
    while i < extents.len()
        invariant
            device.inv(),
            device.spec_geometry() == old(device).spec_geometry(),
            device.stores_writes() == old(device).stores_writes(),
            i <= extents@.len(),
        decreases extents@.len() - i,
    {
        let ext = extents[i];
        if ext.length_blocks != 0 && ext.physical_block <= u64::MAX / 4096 {
            let _ = device.trim(ext.physical_block * 4096, ext.length_blocks as u64 * 4096);
        }
        i = i + 1;
    }
}


/// The text of `bytes` read as UTF-8, each invalid sequence replaced by
/// U+FFFD (`String::from_utf8_lossy`).  Of the result this states the
/// case its documentation fixes without a replacement: valid UTF-8 comes
/// back as the characters it encodes (and ASCII bytes as the same
/// characters); where replacements are made, nothing is stated.
#[verifier::external_body]
pub(crate) fn lossy_text(bytes: &[u8]) -> (r: String)
    ensures
        (forall|i: int| 0 <= i < bytes@.len() ==> bytes@[i] < 128) ==> r@ == bytes@.map_values(|b: u8| b as char),
        vstd::utf8::valid_utf8(bytes@) ==> r@ == vstd::utf8::decode_utf8(bytes@),
{
    String::from_utf8_lossy(bytes).into_owned()
}

/// The label bytes in front of the first zero byte.
pub open spec fn label_text(label: Seq<u8>) -> Seq<u8>
    decreases label.len(),
{
    if label.len() == 0 {
        label
    } else if label[0] == 0 {
        Seq::empty()
    } else {
        seq![label[0]] + label_text(label.drop_first())
    }
}

fn label_prefix(label: &[u8; 32]) -> (r: Vec<u8>)
    ensures
        r@ == label_text(label@),
{
    let mut n: usize = 0;
    while n < 32 && label[n] != 0
        invariant
            n <= 32,
            forall|k: int| 0 <= k < n ==> label@[k] != 0,
        decreases 32 - n,
    {
        n = n + 1;
    }
    let out = copy_range(label.as_slice(), 0, n);
    proof {
        lemma_label_text(label@, n as int);
    }
    out
}

proof fn lemma_label_text(l: Seq<u8>, n: int)
    requires
        0 <= n <= l.len(),
        forall|k: int| 0 <= k < n ==> l[k] != 0,
        n == l.len() || l[n] == 0,
    ensures
        label_text(l) == l.subrange(0, n),
    decreases l.len(),
{
    if l.len() > 0 && n > 0 {
        lemma_label_text(l.drop_first(), n - 1);
        assert(l.subrange(0, n) =~= seq![l[0]] + l.drop_first().subrange(0, n - 1));
    } else if l.len() > 0 {
        assert(l.subrange(0, n) =~= Seq::<u8>::empty());
    } else {
        assert(l.subrange(0, n) =~= l);
    }
}

fn plan_fits_exec(p: LayoutParams) -> (r: bool)
    ensures
        r == plan_fits(p),
{
    let a = div_ceil_u64(p.total_blocks, 32768) as u128;
    let b = div_ceil_u64(p.inode_count, 32768) as u128;
    let c = div_ceil_u64(p.inode_count, 16) as u128;
    2 + a + b + c + p.journal_blocks as u128 + 4 <= 0xFFFF_FFFF_FFFF_FFFFu128
}

proof fn lemma_planned_sane(p: LayoutParams)
    requires
        plan_accepts(p),
        plan_fits(p),
    ensures
        geom_sane(planned_geometry(p)),
        planned_geometry(p).inode_table_blocks >= 1,
{
    let g = planned_geometry(p);
    let d = planned_data_start(p);
    assert(d + 4 <= p.total_blocks);
    assert(div_ceil_spec(p.inode_count as int, 16) >= 1) by (nonlinear_arith)
        requires p.inode_count > 0;
}

fn geom_sane_exec(g: &LayoutGeometry) -> (r: bool)
    ensures
        r == geom_sane(*g),
{
    let t = g.total_blocks as u128;
    2 <= t
        && g.block_bitmap_start as u128 + g.block_bitmap_blocks as u128 <= t
        && g.inode_bitmap_start as u128 + g.inode_bitmap_blocks as u128 <= t
        && g.inode_table_start as u128 + g.inode_table_blocks as u128 <= t
        && g.journal_start as u128 + g.journal_blocks as u128 <= t
        && g.data_start <= g.total_blocks
        && g.tertiary_superblock_block < g.total_blocks
        && g.secondary_superblock_block < g.total_blocks
}

/// Write a fresh volume: zeroed reserved block, block bitmap with the
/// control blocks marked, inode bitmap with the system inode marked, inode
/// table of unused slots with an empty system payload inode in slot 0, a
/// zeroed journal region with a fresh journal header, and the three
/// superblock copies.
pub fn format_device<D: BlockDevice>(device: &mut D, options: &FormatOptions) -> (r: CoreFsResult<FormatReport>)
    requires
        old(device).inv(),
    ensures
        final(device).inv(),
        final(device).spec_geometry() == old(device).spec_geometry(),
        final(device).stores_writes() == old(device).stores_writes(),
        !plan_accepts(format_params(old(device).spec_geometry().capacity_bytes, *options)) ==> r is Err
            && final(device).content() == old(device).content(),
        r is Ok && old(device).stores_writes()
            && copies_clear_of_journal(planned_geometry(format_params(old(device).spec_geometry().capacity_bytes, *options)))
            ==> exists|s: Superblock| #[trigger] copies_hold(final(device).content(), s,
                s.tertiary_superblock_block as int, s.secondary_superblock_block as int)
                && sb_geometry(s) == planned_geometry(format_params(old(device).spec_geometry().capacity_bytes, *options))
                && s.uuid == options.uuid && s.generation == 1 && s.state == STATE_CLEAN && s.payload_inode == 0
                && s.label@ == label_field(vstd::utf8::encode_utf8(options.label@))
                && s.free_inodes == options.inode_count
                && s.free_blocks == sb_geometry(s).data_blocks,
        r matches Ok(rep) ==> plan_accepts(format_params(old(device).spec_geometry().capacity_bytes, *options))
            && rep.geometry == planned_geometry(format_params(old(device).spec_geometry().capacity_bytes, *options))
            && rep.uuid == options.uuid
            && rep.generation == 1,
{
    let total_blocks = device.capacity() / 4096;
    let params = LayoutParams {
        total_blocks,
        inode_count: options.inode_count,
        journal_blocks: options.journal_blocks,
    };
    if !plan_fits_exec(params) {
        return Err(CoreFsError::InvalidInput(msg("layout parameters out of range")));
    }
    let geom = LayoutGeometry::plan(params)?;
    proof {
        lemma_planned_sane(params);
    }
    let now = now_secs();
    let sb = Superblock::for_new_volume(&geom, options.uuid, options.label.as_str(), now);

    let zero = zero_vec(4096);
    write_blocks(device, 0, zero.as_slice())?;

    let mut block_bitmap = new_bitmap(geom.total_blocks)?;
    mark_reserved_blocks(&mut block_bitmap, &geom)?;
    write_blocks(device, geom.block_bitmap_start, block_bitmap.as_bytes())?;

    let mut inode_bitmap = new_bitmap(geom.inode_count)?;
    let _ = inode_bitmap.set(0)?;
    write_blocks(device, geom.inode_bitmap_start, inode_bitmap.as_bytes())?;

    let unused = OnDiskInode::unused().encode()?;
    if geom.inode_table_blocks > (usize::MAX as u64) / 4096 {
        return Err(CoreFsError::State(msg("inode table too large for memory")));
    }
    let table_len = (geom.inode_table_blocks * 4096) as usize;
    let mut table = zero_vec(table_len);
    let slot_cap = geom.inode_table_blocks * 16;
    let slot_count = if geom.inode_count < slot_cap { geom.inode_count } else { slot_cap };
    let mut i: u64 = 0;
    while i < slot_count
        invariant
            table@.len() == table_len,
            table_len == geom.inode_table_blocks * 4096,
            slot_count <= geom.inode_table_blocks * 16,
            unused@.len() == 256,
            i <= slot_count,
        decreases slot_count - i,
    {
        write_bytes_at(&mut table, (i * 256) as usize, unused.as_slice());
        i = i + 1;
    }
    let system_inode = OnDiskInode {
        version: 1,
        kind: OnDiskKind::SystemPayload,
        mode: 0o600,
        uid: 0,
        gid: 0,
        link_count: 1,
        flags: 0,
        size_bytes: 0,
        blocks_allocated: 0,
        created_at: now,
        modified_at: now,
        changed_at: now,
        accessed_at: now,
        generation: 1,
        extents: Vec::new(),
    };
    let sys_enc = system_inode.encode()?;
    if table.len() < 256 {
        return Err(CoreFsError::State(msg("inode table too small for the system inode")));
    }
    write_bytes_at(&mut table, 0, sys_enc.as_slice());
    write_blocks(device, geom.inode_table_start, table.as_slice())?;

    zero_fill_region(device, geom.journal_start, geom.journal_blocks)?;

    let sb_block = sb.encode_block();
    let ghost c0 = device.content();
    write_blocks(device, 1, sb_block.as_slice())?;
    let ghost c1 = device.content();
    write_blocks(device, geom.tertiary_superblock_block, sb_block.as_slice())?;
    let ghost c2 = device.content();
    write_blocks(device, geom.secondary_superblock_block, sb_block.as_slice())?;
    let ghost c3 = device.content();
    proof {
        if device.stores_writes() {
            let t = geom.tertiary_superblock_block as int;
            let z = geom.secondary_superblock_block as int;
            let bb = sb_block_bytes(sb);
            lemma_block_set(c0, 1, bb);
            lemma_block_set(c1, t, bb);
            if t != 1 {
                lemma_block_write(c1, t, bb, 1);
            }
            lemma_block_set(c2, z, bb);
            if z != 1 {
                lemma_block_write(c2, z, bb, 1);
            }
            if z != t {
                lemma_block_write(c2, z, bb, t);
            }
            assert(copies_hold(c3, sb, t, z));
        }
    }

    let journal = Journal::format(device, &sb)?;
    proof {
        if device.stores_writes() && copies_clear_of_journal(geom) {
            let t = geom.tertiary_superblock_block as int;
            let z = geom.secondary_superblock_block as int;
            let js = geom.journal_start as int;
            let c4 = overwrite(c3, js * 4096, jh_block_bytes(journal.spec_header()));
            super::journal::lemma_jh_lengths(journal.spec_header());
            assert(device.content() == overwrite(c4, (js + 1) * 4096, zeros(4096)));
            assert(device.content().len() == c3.len());
            assert(c4.len() == c3.len());
            lemma_block_write(c3, js, jh_block_bytes(journal.spec_header()), 1);
            lemma_block_write(c3, js, jh_block_bytes(journal.spec_header()), t);
            lemma_block_write(c3, js, jh_block_bytes(journal.spec_header()), z);
            lemma_block_write(c4, js + 1, zeros(4096), 1);
            lemma_block_write(c4, js + 1, zeros(4096), t);
            lemma_block_write(c4, js + 1, zeros(4096), z);
            assert(copies_hold(device.content(), sb, t, z));
        }
    }
    let ghost c5 = device.content();
    device.sync()?;
    proof {
        assert(device.content() == c5);
        assert(sb_geometry(sb) == geom);
    }
    Ok(FormatReport { geometry: geom, uuid: options.uuid, generation: sb.generation })
}

/// The superblock copies of `g` (blocks 1, middle and last) lie outside the
/// journal header and first record block, which a fresh journal rewrites.
pub open spec fn copies_clear_of_journal(g: LayoutGeometry) -> bool {
    let js = g.journal_start as int;
    &&& (1 < js || 1 > js + 1)
    &&& (g.tertiary_superblock_block < js || g.tertiary_superblock_block > js + 1)
    &&& (g.secondary_superblock_block < js || g.secondary_superblock_block > js + 1)
}

/// Blocks 1, `t` and `z` of `c` all hold the encoded superblock `s`.
pub open spec fn copies_hold(c: Seq<u8>, s: Superblock, t: int, z: int) -> bool {
    &&& 2 * 4096 <= c.len()
    &&& t * 4096 + 4096 <= c.len()
    &&& z * 4096 + 4096 <= c.len()
    &&& block_of(c, 1) == sb_block_bytes(s)
    &&& block_of(c, t) == sb_block_bytes(s)
    &&& block_of(c, z) == sb_block_bytes(s)
}

proof fn lemma_block_write(c: Seq<u8>, blk: int, data: Seq<u8>, b: int)
    requires
        0 <= blk,
        0 <= b,
        blk * 4096 + data.len() <= c.len(),
        b * 4096 + 4096 <= c.len(),
        b * 4096 + 4096 <= blk * 4096 || blk * 4096 + data.len() <= b * 4096,
    ensures
        block_of(overwrite(c, blk * 4096, data), b) == block_of(c, b),
{
    assert(block_of(overwrite(c, blk * 4096, data), b) =~= block_of(c, b));
}

proof fn lemma_block_set(c: Seq<u8>, blk: int, data: Seq<u8>)
    requires
        0 <= blk,
        data.len() == 4096,
        blk * 4096 + 4096 <= c.len(),
    ensures
        block_of(overwrite(c, blk * 4096, data), blk) == data,
{
    assert(block_of(overwrite(c, blk * 4096, data), blk) =~= data);
}

/// Blocks needed for `n` bytes.
pub open spec fn blocks_for(n: int) -> int {
    div_ceil_spec(n, 4096)
}

/// The framed form of a payload: the bytes and their CRC32C.
pub open spec fn framed_payload(payload: Seq<u8>) -> Seq<u8> {
    payload + spec_u32_to_le_bytes(crc32c_spec(payload))
}

/// Where [`save_state`] writes, under geometry `g` on a device of `len`
/// bytes with a payload of `nblocks` blocks, nothing that is written later
/// lands on what was written earlier: the redundant superblock copies sit
/// where the device's size puts them, and the first inode-table block and
/// the payload blocks stay clear of the superblock copies and of each
/// other.
pub open spec fn save_layout_ok(g: LayoutGeometry, len: int, nblocks: int) -> bool {
    let nb = len / 4096;
    let its = g.inode_table_start as int;
    let ds = g.data_start as int;
    let t = g.tertiary_superblock_block as int;
    let z = g.secondary_superblock_block as int;
    &&& nb / 2 == t
    &&& nb - 1 == z
    &&& its != 1 && its != t && its != z
    &&& (1 < ds || ds + nblocks <= 1)
    &&& (t < ds || ds + nblocks <= t)
    &&& (z < ds || ds + nblocks <= z)
    &&& (its < ds || ds + nblocks <= its)
}

/// Bytes of a bitmap of `cap` units: whole blocks, at least one.
pub open spec fn bitmap_len(cap: int) -> int {
    (if cap == 0 { 1int } else { div_ceil_spec(cap, 32768) }) * 4096
}

/// Byte ranges `[a0, a1)` and `[b0, b1)` do not overlap.
pub open spec fn apart(a0: int, a1: int, b0: int, b1: int) -> bool {
    a1 <= b0 || b1 <= a0
}

/// Where [`save_state`] writes the bitmaps under geometry `g` (with a
/// payload of `n` blocks), nothing written later lands on them: the two
/// bitmaps, the payload blocks, the payload inode's slot and the three
/// superblock copies do not overlap.
pub open spec fn bitmaps_layout_ok(g: LayoutGeometry, n: int) -> bool {
    let bb0 = g.block_bitmap_start * 4096;
    let bb1 = bb0 + bitmap_len(g.total_blocks as int);
    let ib0 = g.inode_bitmap_start * 4096;
    let ib1 = ib0 + bitmap_len(g.inode_count as int);
    let ds0 = g.data_start * 4096;
    let ds1 = ds0 + n * 4096;
    let it0 = g.inode_table_start * 4096;
    let t0 = g.tertiary_superblock_block * 4096;
    let z0 = g.secondary_superblock_block * 4096;
    &&& apart(bb0, bb1, ib0, ib1)
    &&& apart(bb0, bb1, ds0, ds1) && apart(ib0, ib1, ds0, ds1)
    &&& apart(bb0, bb1, it0, it0 + 256) && apart(ib0, ib1, it0, it0 + 256)
    &&& apart(bb0, bb1, 4096, 8192) && apart(ib0, ib1, 4096, 8192)
    &&& apart(bb0, bb1, t0, t0 + 4096) && apart(ib0, ib1, t0, t0 + 4096)
    &&& apart(bb0, bb1, z0, z0 + 4096) && apart(ib0, ib1, z0, z0 + 4096)
}

/// The bitmaps of `c` are as [`save_state`] leaves them for a payload of
/// `n` blocks under superblock `s`: the block bitmap marks exactly the
/// control blocks and the payload blocks, the inode bitmap exactly inode 0,
/// and `s` records their checksums and the free counts.
pub open spec fn bitmaps_saved(c: Seq<u8>, s: Superblock, n: int) -> bool {
    let g = sb_geometry(s);
    let bb0 = g.block_bitmap_start * 4096;
    let ib0 = g.inode_bitmap_start * 4096;
    let bb = c.subrange(bb0, bb0 + bitmap_len(g.total_blocks as int));
    let ib = c.subrange(ib0, ib0 + bitmap_len(g.inode_count as int));
    &&& bb0 + bitmap_len(g.total_blocks as int) <= c.len()
    &&& ib0 + bitmap_len(g.inode_count as int) <= c.len()
    &&& forall|j: int| 0 <= j < bb.len() * 8 ==> #[trigger] super::bitmap::bit_set(bb, j)
        == (reserved_block(g, j) || g.data_start <= j < g.data_start + n)
    &&& forall|j: int| 0 <= j < ib.len() * 8 ==> #[trigger] super::bitmap::bit_set(ib, j) == (j == 0)
    &&& s.block_bitmap_crc == crc32c_spec(bb)
    &&& s.inode_bitmap_crc == crc32c_spec(ib)
    &&& s.free_blocks == g.data_blocks - n
    &&& s.free_inodes == g.inode_count - 1
}

/// `c` holds `payload` as [`save_state`] leaves it, under superblock `s`:
/// every superblock copy is `s`, the payload inode (slot 0) is a system
/// payload inode with one extent from the first data block, and those
/// blocks start with the framed payload.
pub open spec fn payload_saved(c: Seq<u8>, s: Superblock, payload: Seq<u8>) -> bool {
    &&& frame_saved(c, s, framed_payload(payload))
    &&& block_of(c, 1) == sb_block_bytes(s)
}

/// `c` holds the bytes `f` where [`save_state`] puts a framed payload,
/// under superblock `s`, with everything else as [`payload_saved`] says,
/// except that the primary copy may instead be unreadable.
pub open spec fn frame_saved(c: Seq<u8>, s: Superblock, f: Seq<u8>) -> bool {
    let nb: int = c.len() as int / 4096;
    let its = s.inode_table_start as int;
    let ds = s.data_start as int;
    &&& s.magic == ODF_MAGIC
    &&& s.version_major == ODF_VERSION_MAJOR
    &&& s.feature_incompat & !SUPPORTED_INCOMPAT == 0
    &&& s.feature_ro_compat & !SUPPORTED_RO_COMPAT == 0
    &&& s.payload_inode == 0
    &&& 0 < s.total_inodes
    &&& 2 * 4096 <= c.len()
    &&& (block_of(c, 1) == sb_block_bytes(s) || !sb_copy_ok(c, 1))
    &&& block_of(c, nb / 2) == sb_block_bytes(s)
    &&& block_of(c, nb - 1) == sb_block_bytes(s)
    &&& its * 4096 + 256 <= c.len()
    &&& exists|ino: OnDiskInode| #[trigger] inode_record_bytes(ino) == c.subrange(its * 4096, its * 4096 + 256)
        && ino.kind == OnDiskKind::SystemPayload
        && ino.extents@.len() == 1
        && ino.extents@[0].logical_block == 0
        && ino.extents@[0].physical_block == s.data_start
        && ino.size_bytes == f.len()
        && f.len() <= ino.extents@[0].length_blocks * 4096
        && ds * 4096 + ino.extents@[0].length_blocks * 4096 <= c.len()
    &&& c.subrange(ds * 4096, ds * 4096 + f.len()) == f
}

/// A payload saved and then loaded comes back unchanged: whatever
/// [`load_state`] can read from bytes that hold a payload as
/// [`save_state`] leaves them is that payload.
pub proof fn lemma_saved_payload_loads(c: Seq<u8>, s: Superblock, payload: Seq<u8>, d: Seq<u8>)
    requires
        payload_saved(c, s, payload),
        payload_loaded(c, d),
    ensures
        d == payload,
{
    lemma_frame_loads(c, s, framed_payload(payload), d);
    lemma_auto_spec_u32_to_from_le_bytes();
    assert(d.len() == payload.len());
    assert(d =~= framed_payload(d).subrange(0, d.len() as int));
    assert(payload =~= framed_payload(payload).subrange(0, payload.len() as int));
}

/// A saved payload still loads after the primary superblock copy is lost:
/// where block 1 no longer holds a valid superblock and nothing else
/// changed, whatever [`load_state`] reads (from the copies in the middle
/// and the last block) is the saved payload.
pub proof fn lemma_primary_loss_tolerated(c: Seq<u8>, s: Superblock, payload: Seq<u8>, c2: Seq<u8>, d: Seq<u8>)
    requires
        payload_saved(c, s, payload),
        c2.len() == c.len(),
        forall|i: int| 0 <= i < c.len() && !(4096 <= i < 8192) ==> #[trigger] c2[i] == c[i],
        !sb_copy_ok(c2, 1),
        (c.len() as int / 4096) / 2 != 1,
        c.len() as int / 4096 - 1 != 1,
        s.inode_table_start >= 2,
        s.data_start >= 2,
        payload_loaded(c2, d),
    ensures
        d == payload,
{
    let nb: int = c.len() as int / 4096;
    let its = s.inode_table_start as int;
    let ds = s.data_start as int;
    let f = framed_payload(payload);
    assert(block_of(c2, nb / 2) =~= block_of(c, nb / 2));
    assert(block_of(c2, nb - 1) =~= block_of(c, nb - 1));
    assert(c2.subrange(its * 4096, its * 4096 + 256) =~= c.subrange(its * 4096, its * 4096 + 256));
    assert(c2.subrange(ds * 4096, ds * 4096 + f.len()) =~= c.subrange(ds * 4096, ds * 4096 + f.len()));
    assert(frame_saved(c2, s, f));
    lemma_frame_loads(c2, s, f, d);
    lemma_auto_spec_u32_to_from_le_bytes();
    assert(d.len() == payload.len());
    assert(d =~= framed_payload(d).subrange(0, d.len() as int));
    assert(payload =~= framed_payload(payload).subrange(0, payload.len() as int));
}

/// A payload with one byte of its stored frame changed (in the data or in
/// the CRC32C trailer) is refused: nothing loads from such bytes.
pub proof fn lemma_corrupted_payload_refused(c: Seq<u8>, s: Superblock, payload: Seq<u8>, pos: int, x: u8, d: Seq<u8>)
    requires
        payload_saved(c, s, payload),
        s.data_start * 4096 <= pos < s.data_start * 4096 + framed_payload(payload).len(),
        c[pos] != x,
        pos / 4096 != 1,
        pos / 4096 != (c.len() as int / 4096) / 2,
        pos / 4096 != c.len() as int / 4096 - 1,
        pos < s.inode_table_start * 4096 || s.inode_table_start * 4096 + 256 <= pos,
    ensures
        !payload_loaded(c.update(pos, x), d),
{
    let c2 = c.update(pos, x);
    let f = framed_payload(payload);
    let ds = s.data_start as int;
    let its = s.inode_table_start as int;
    let nb: int = c.len() as int / 4096;
    let k = pos - ds * 4096;
    let f2 = f.update(k, x);
    assert forall|b: int| 0 <= b && b * 4096 + 4096 <= c.len() && b != pos / 4096
        implies #[trigger] block_of(c2, b) == block_of(c, b) by {
        assert(block_of(c2, b) =~= block_of(c, b));
    }
    assert(block_of(c2, 1) == block_of(c, 1));
    assert(block_of(c2, nb / 2) == block_of(c, nb / 2));
    assert(block_of(c2, nb - 1) == block_of(c, nb - 1));
    assert(c2.subrange(its * 4096, its * 4096 + 256) =~= c.subrange(its * 4096, its * 4096 + 256));
    assert(c2.subrange(ds * 4096, ds * 4096 + f.len()) =~= f2);
    assert(c2.len() / 4096 == nb);
    assert(frame_saved(c2, s, f2));
    if payload_loaded(c2, d) {
        lemma_frame_loads(c2, s, f2, d);
        lemma_auto_spec_u32_to_from_le_bytes();
        let p = payload;
        assert(framed_payload(d).len() == f.len());
        assert(d.len() == p.len());
        if k < p.len() {
            assert(d =~= framed_payload(d).subrange(0, d.len() as int));
            assert(f2.subrange(0, p.len() as int) =~= p.update(k, x));
            assert(d == p.update(k, x));
            assert(f2.subrange(p.len() as int, f.len() as int) =~= f.subrange(p.len() as int, f.len() as int));
            assert(spec_u32_to_le_bytes(crc32c_spec(d)) == framed_payload(d).subrange(d.len() as int, f.len() as int));
            assert(spec_u32_to_le_bytes(crc32c_spec(p)) == f.subrange(p.len() as int, f.len() as int));
            assert(crc32c_spec(d) == crc32c_spec(p)) by {
                assert(spec_u32_from_le_bytes(spec_u32_to_le_bytes(crc32c_spec(d))) == crc32c_spec(d));
                assert(spec_u32_from_le_bytes(spec_u32_to_le_bytes(crc32c_spec(p))) == crc32c_spec(p));
            }
            assert(c.subrange(ds * 4096, ds * 4096 + f.len())[k] == c[pos]);
            assert(f[k] == c[pos]);
            assert(p[k] == f[k]);
            assert(d[k] == x);
            lemma_crc32c_detects_single_byte_change(p, d, k);
        } else {
            assert(f2.subrange(0, p.len() as int) =~= p);
            assert(d =~= framed_payload(d).subrange(0, d.len() as int));
            assert(d == p);
            assert(f2[k] == x);
            assert(f[k] == c[pos]);
        }
    }
}

/// What [`load_state`] reads from bytes that hold the frame `f` where
/// [`save_state`] puts it is a payload framed as `f`.
proof fn lemma_frame_loads(c: Seq<u8>, s: Superblock, f: Seq<u8>, d: Seq<u8>)
    requires
        frame_saved(c, s, f),
        payload_loaded(c, d),
    ensures
        f == framed_payload(d),
{
    let (s2, ino2, sorted) = choose|s2: Superblock, ino2: OnDiskInode, sorted: Seq<Extent>| #[trigger] payload_read_from(c, s2, ino2, sorted, d);
    lemma_superblock_roundtrip(s);
    let blk = choose|blk: int| (blk == 1 || blk == (c.len() / 4096) / 2 || blk == (c.len() / 4096) - 1)
        && #[trigger] sb_copy_ok(c, blk) && sb_matches_block(s2, block_of(c, blk));
    assert(sb_matches_block(s2, sb_block_bytes(s)));
    assert(super::superblock::same_superblock(s2, s));
    let its = s.inode_table_start as int;
    let ino = choose|ino: OnDiskInode| #[trigger] inode_record_bytes(ino) == c.subrange(its * 4096, its * 4096 + 256)
        && ino.kind == OnDiskKind::SystemPayload
        && ino.extents@.len() == 1
        && ino.extents@[0].logical_block == 0
        && ino.extents@[0].physical_block == s.data_start
        && ino.size_bytes == f.len()
        && f.len() <= ino.extents@[0].length_blocks * 4096
        && s.data_start * 4096 + ino.extents@[0].length_blocks * 4096 <= c.len();
    let n = ino.extents@[0].length_blocks as int;
    super::inode::lemma_inode_roundtrip(ino);
    assert(inode_slot_offset(sb_geometry(s2), s2.payload_inode) == its * 4096);
    assert(super::inode::same_inode(ino2, ino));
    let e = ino.extents@[0];
    assert(ino2.extents@.contains(sorted[0]));
    assert(sorted[0] == e);
    let ds = s.data_start as int;
    reveal_with_fuel(extents_data, 2);
    assert(extents_data(c, sorted, 1) =~= c.subrange(ds * 4096, ds * 4096 + n * 4096));
    assert(extents_data(c, sorted, 1).take(f.len() as int) =~= f);
    lemma_auto_spec_u32_to_from_le_bytes();
    assert(ino2.size_bytes == ino.size_bytes);
}

/// What an overwrite leaves in a range: the old bytes where the range is
/// clear of the written bytes, the written bytes where it lies inside them.
proof fn lemma_overwrite_range(c: Seq<u8>, o: int, b: Seq<u8>, x: int, y: int)
    requires
        0 <= o,
        o + b.len() <= c.len(),
        0 <= x <= y <= c.len(),
    ensures
        super::codec::overwrite(c, o, b).len() == c.len(),
        y <= o || o + b.len() <= x ==> super::codec::overwrite(c, o, b).subrange(x, y) == c.subrange(x, y),
        o <= x && y <= o + b.len() ==> super::codec::overwrite(c, o, b).subrange(x, y) == b.subrange(x - o, y - o),
{
    let w = super::codec::overwrite(c, o, b);
    if y <= o || o + b.len() <= x {
        assert(w.subrange(x, y) =~= c.subrange(x, y));
    }
    if o <= x && y <= o + b.len() {
        assert(w.subrange(x, y) =~= b.subrange(x - o, y - o));
    }
}

/// The bitmaps written first by [`save_state`] survive its later writes
/// where [`bitmaps_layout_ok`] holds.
#[verifier::spinoff_prover]
proof fn lemma_save_bitmaps(
    ca: Seq<u8>, cb: Seq<u8>, c2: Seq<u8>, c3: Seq<u8>, c4: Seq<u8>, c5: Seq<u8>, c6: Seq<u8>, c7: Seq<u8>,
    bbb: Seq<u8>, ibb: Seq<u8>, buf: Seq<u8>, rec: Seq<u8>, sb: Superblock, geom: LayoutGeometry, n: int,
)
    requires
        sb_geometry(sb) == geom,
        bitmaps_layout_ok(geom, n),
        0 <= n,
        bbb.len() == bitmap_len(geom.total_blocks as int),
        ibb.len() == bitmap_len(geom.inode_count as int),
        geom.block_bitmap_start * 4096 + bbb.len() <= ca.len(),
        cb == super::codec::overwrite(ca, geom.block_bitmap_start * 4096, bbb),
        geom.inode_bitmap_start * 4096 + ibb.len() <= cb.len(),
        c2 == super::codec::overwrite(cb, geom.inode_bitmap_start * 4096, ibb),
        buf.len() == n * 4096,
        rec.len() == 256,
        geom.data_start * 4096 + n * 4096 <= c2.len(),
        c3 == super::codec::overwrite(c2, geom.data_start * 4096, buf),
        geom.inode_table_start * 4096 + 256 <= c3.len(),
        c4 == super::codec::overwrite(c3, geom.inode_table_start * 4096, rec),
        2 * 4096 <= c4.len(),
        c5 == super::codec::overwrite(c4, 4096, sb_block_bytes(sb)),
        geom.tertiary_superblock_block * 4096 + 4096 <= c5.len(),
        c6 == super::codec::overwrite(c5, geom.tertiary_superblock_block * 4096, sb_block_bytes(sb)),
        geom.secondary_superblock_block * 4096 + 4096 <= c6.len(),
        c7 == super::codec::overwrite(c6, geom.secondary_superblock_block * 4096, sb_block_bytes(sb)),
        sb_block_bytes(sb).len() == 4096,
        forall|j: int| 0 <= j < bbb.len() * 8 ==> #[trigger] super::bitmap::bit_set(bbb, j)
            == (reserved_block(geom, j) || geom.data_start <= j < geom.data_start + n),
        forall|j: int| 0 <= j < ibb.len() * 8 ==> #[trigger] super::bitmap::bit_set(ibb, j) == (j == 0),
        sb.block_bitmap_crc == crc32c_spec(bbb),
        sb.inode_bitmap_crc == crc32c_spec(ibb),
        sb.free_blocks == geom.data_blocks - n,
        sb.free_inodes == geom.inode_count - 1,
    ensures
        bitmaps_saved(c7, sb, n),
{
    let bb0 = geom.block_bitmap_start * 4096;
    let ib0 = geom.inode_bitmap_start * 4096;
    let bl = bbb.len() as int;
    let il = ibb.len() as int;
    lemma_overwrite_range(ca, bb0, bbb, bb0, bb0 + bl);
    assert(bbb.subrange(0, bl) =~= bbb);
    lemma_overwrite_range(cb, ib0, ibb, bb0, bb0 + bl);
    lemma_overwrite_range(cb, ib0, ibb, ib0, ib0 + il);
    assert(ibb.subrange(0, il) =~= ibb);
    let ds = geom.data_start as int;
    let its = geom.inode_table_start as int;
    let t = geom.tertiary_superblock_block as int;
    let z = geom.secondary_superblock_block as int;
    lemma_later_writes_keep(c2, c3, c4, c5, c6, c7, buf, rec, sb_block_bytes(sb), ds, its, t, z, n, bb0, bb0 + bl);
    lemma_later_writes_keep(c2, c3, c4, c5, c6, c7, buf, rec, sb_block_bytes(sb), ds, its, t, z, n, ib0, ib0 + il);
}

/// A byte range clear of everything that [`save_state`] writes after the
/// bitmaps keeps its bytes through those writes.
proof fn lemma_later_writes_keep(
    c2: Seq<u8>, c3: Seq<u8>, c4: Seq<u8>, c5: Seq<u8>, c6: Seq<u8>, c7: Seq<u8>,
    buf: Seq<u8>, rec: Seq<u8>, sbb: Seq<u8>,
    ds: int, its: int, t: int, z: int, n: int, x: int, y: int,
)
    requires
        0 <= ds, 0 <= its, 0 <= t, 0 <= z, 0 <= n,
        0 <= x <= y <= c2.len(),
        buf.len() == n * 4096,
        rec.len() == 256,
        sbb.len() == 4096,
        ds * 4096 + n * 4096 <= c2.len(),
        c3 == super::codec::overwrite(c2, ds * 4096, buf),
        its * 4096 + 256 <= c3.len(),
        c4 == super::codec::overwrite(c3, its * 4096, rec),
        2 * 4096 <= c4.len(),
        c5 == super::codec::overwrite(c4, 4096, sbb),
        t * 4096 + 4096 <= c5.len(),
        c6 == super::codec::overwrite(c5, t * 4096, sbb),
        z * 4096 + 4096 <= c6.len(),
        c7 == super::codec::overwrite(c6, z * 4096, sbb),
        apart(x, y, ds * 4096, ds * 4096 + n * 4096),
        apart(x, y, its * 4096, its * 4096 + 256),
        apart(x, y, 4096, 8192),
        apart(x, y, t * 4096, t * 4096 + 4096),
        apart(x, y, z * 4096, z * 4096 + 4096),
    ensures
        c7.subrange(x, y) == c2.subrange(x, y),
{
    lemma_overwrite_range(c2, ds * 4096, buf, x, y);
    lemma_overwrite_range(c3, its * 4096, rec, x, y);
    lemma_overwrite_range(c4, 4096, sbb, x, y);
    lemma_overwrite_range(c5, t * 4096, sbb, x, y);
    lemma_overwrite_range(c6, z * 4096, sbb, x, y);
}

/// The writes of [`save_state`], one after the other: the payload blocks,
/// the inode slot and the three superblock copies hold what was written
/// last to them when the writes do not overlap.
#[verifier::spinoff_prover]
proof fn lemma_save_chain(
    c2: Seq<u8>, c3: Seq<u8>, c4: Seq<u8>, c5: Seq<u8>, c6: Seq<u8>, c7: Seq<u8>,
    buf: Seq<u8>, rec: Seq<u8>, sbb: Seq<u8>, f: Seq<u8>,
    ds: int, its: int, t: int, z: int, n: int,
)
    requires
        0 <= ds, 0 <= its, 0 <= t, 0 <= z, 0 <= n,
        buf.len() == n * 4096,
        f.len() <= n * 4096,
        buf.subrange(0, f.len() as int) == f,
        rec.len() == 256,
        sbb.len() == 4096,
        ds * 4096 + n * 4096 <= c2.len(),
        c3 == super::codec::overwrite(c2, ds * 4096, buf),
        its * 4096 + 256 <= c3.len(),
        c4 == super::codec::overwrite(c3, its * 4096, rec),
        2 * 4096 <= c4.len(),
        c5 == super::codec::overwrite(c4, 4096, sbb),
        t * 4096 + 4096 <= c5.len(),
        c6 == super::codec::overwrite(c5, t * 4096, sbb),
        z * 4096 + 4096 <= c6.len(),
        c7 == super::codec::overwrite(c6, z * 4096, sbb),
        its != 1 && its != t && its != z,
        1 < ds || ds + n <= 1,
        t < ds || ds + n <= t,
        z < ds || ds + n <= z,
        its < ds || ds + n <= its,
    ensures
        c7.len() == c2.len(),
        c7.subrange(ds * 4096, ds * 4096 + f.len()) == f,
        c7.subrange(its * 4096, its * 4096 + 256) == rec,
        c7.subrange(4096, 8192) == sbb,
        c7.subrange(t * 4096, t * 4096 + 4096) == sbb,
        c7.subrange(z * 4096, z * 4096 + 4096) == sbb,
{
    let fl = f.len() as int;
    assert(c7.subrange(ds * 4096, ds * 4096 + fl) == f) by {
        lemma_overwrite_range(c2, ds * 4096, buf, ds * 4096, ds * 4096 + fl);
        lemma_overwrite_range(c3, its * 4096, rec, ds * 4096, ds * 4096 + fl);
        lemma_overwrite_range(c4, 4096, sbb, ds * 4096, ds * 4096 + fl);
        lemma_overwrite_range(c5, t * 4096, sbb, ds * 4096, ds * 4096 + fl);
        lemma_overwrite_range(c6, z * 4096, sbb, ds * 4096, ds * 4096 + fl);
    }
    assert(c7.subrange(its * 4096, its * 4096 + 256) == rec) by {
        lemma_overwrite_range(c2, ds * 4096, buf, 0, 0);
        lemma_overwrite_range(c3, its * 4096, rec, its * 4096, its * 4096 + 256);
        lemma_overwrite_range(c4, 4096, sbb, its * 4096, its * 4096 + 256);
        lemma_overwrite_range(c5, t * 4096, sbb, its * 4096, its * 4096 + 256);
        lemma_overwrite_range(c6, z * 4096, sbb, its * 4096, its * 4096 + 256);
        assert(rec.subrange(0, 256) =~= rec);
    }
    assert(c7.subrange(4096, 8192) == sbb) by {
        lemma_overwrite_range(c2, ds * 4096, buf, 0, 0);
        lemma_overwrite_range(c3, its * 4096, rec, 0, 0);
        lemma_overwrite_range(c4, 4096, sbb, 4096, 8192);
        lemma_overwrite_range(c5, t * 4096, sbb, 4096, 8192);
        lemma_overwrite_range(c6, z * 4096, sbb, 4096, 8192);
        assert(sbb.subrange(0, 4096) =~= sbb);
    }
    assert(c7.subrange(t * 4096, t * 4096 + 4096) == sbb && c7.subrange(z * 4096, z * 4096 + 4096) == sbb) by {
        lemma_overwrite_range(c2, ds * 4096, buf, 0, 0);
        lemma_overwrite_range(c3, its * 4096, rec, 0, 0);
        lemma_overwrite_range(c4, 4096, sbb, 0, 0);
        lemma_overwrite_range(c5, t * 4096, sbb, t * 4096, t * 4096 + 4096);
        lemma_overwrite_range(c6, z * 4096, sbb, t * 4096, t * 4096 + 4096);
        lemma_overwrite_range(c6, z * 4096, sbb, z * 4096, z * 4096 + 4096);
        assert(sbb.subrange(0, 4096) =~= sbb);
    }
    lemma_overwrite_range(c2, ds * 4096, buf, 0, 0);
    lemma_overwrite_range(c3, its * 4096, rec, 0, 0);
    lemma_overwrite_range(c4, 4096, sbb, 0, 0);
    lemma_overwrite_range(c5, t * 4096, sbb, 0, 0);
    lemma_overwrite_range(c6, z * 4096, sbb, 0, 0);
}

/// Store `payload` as the volume's state: the previous payload extents are
/// discarded where the device supports it, the payload with a CRC32C
/// trailer is written from the first data block, both bitmaps are rebuilt
/// (control blocks, the payload extent and the system inode marked), the
/// system inode is rewritten with one extent, and the three superblock
/// copies are rewritten with the next generation and the bitmap checksums.
pub fn save_state<D: BlockDevice>(device: &mut D, payload: &[u8]) -> (r: CoreFsResult<SaveReport>)
    requires
        old(device).inv(),
    ensures
        final(device).inv(),
        final(device).spec_geometry() == old(device).spec_geometry(),
        final(device).stores_writes() == old(device).stores_writes(),
        r matches Ok(rep) ==> rep.payload_bytes == payload@.len() + 4
            && rep.payload_blocks == blocks_for(payload@.len() + 4int)
            && exists|s: Superblock| #[trigger] sb_located(old(device).content(), s)
                && rep.generation == s.generation + 1
                && rep.payload_blocks <= sb_geometry(s).data_blocks,
        r is Ok ==> exists|s: Superblock| #[trigger] sb_located(old(device).content(), s)
            && save_plan_ok(s, payload@.len() as int),
        (forall|s: Superblock| #[trigger] sb_located(old(device).content(), s) ==> !save_plan_ok(s, payload@.len() as int))
            ==> r is Err,
        r is Ok && old(device).stores_writes() ==> exists|s: Superblock| #[trigger] sb_located(old(device).content(), s)
            && (save_layout_ok(sb_geometry(s), old(device).content().len() as int, blocks_for(payload@.len() + 4int))
                && bitmaps_layout_ok(sb_geometry(s), blocks_for(payload@.len() + 4int))
                ==> exists|s1: Superblock| #[trigger] payload_saved(final(device).content(), s1, payload@)
                    && bitmaps_saved(final(device).content(), s1, blocks_for(payload@.len() + 4int))
                    && s1.generation == s.generation + 1 && sb_geometry(s1) == sb_geometry(s)),
        r is Ok && old(device).stores_writes() ==> exists|s: Superblock| #[trigger] sb_located(old(device).content(), s)
            && (save_layout_ok(sb_geometry(s), old(device).content().len() as int, blocks_for(payload@.len() + 4int))
                ==> exists|s1: Superblock| #[trigger] payload_saved(final(device).content(), s1, payload@)),
{
    proof {
        device.lemma_inv();
    }
    let ghost len0 = device.content().len();
    let mut sb = read_sb_with_fallbacks(&*device)?;
    let ghost s0 = sb;
    proof {
        let c = device.content();
        let blk = choose|blk: int| (blk == 1 || blk == (c.len() / 4096) / 2 || blk == (c.len() / 4096) - 1)
            && #[trigger] sb_copy_ok(c, blk) && sb_matches_block(s0, block_of(c, blk));
        assert(s0.magic == ODF_MAGIC);
        assert(s0.version_major == ODF_VERSION_MAJOR);
        assert(s0.feature_incompat & !SUPPORTED_INCOMPAT == 0);
        assert(s0.feature_ro_compat & !SUPPORTED_RO_COMPAT == 0);
    }
    let geom = sb.geometry();
    if !geom_sane_exec(&geom) {
        return Err(CoreFsError::State(msg("superblock geometry is inconsistent")));
    }

    if let Ok(old_inode) = read_inode_record(&*device, &geom, sb.payload_inode) {
        if matches!(old_inode.kind, OnDiskKind::SystemPayload) && old_inode.extents.len() > 0 {
            trim_extents(device, &old_inode.extents);
        }
    }

    let plan = plan_save(&sb, payload.len())?;
    let crc = Crc32c::hash(payload);
    let mut framed: Vec<u8> = Vec::new();
    push_bytes(&mut framed, payload);
    push_u32(&mut framed, crc);
    proof {
        lemma_auto_spec_u32_to_from_le_bytes();
    }
    let payload_blocks_needed = plan.payload_blocks;

    let mut block_bitmap = new_bitmap(geom.total_blocks)?;
    mark_reserved_blocks(&mut block_bitmap, &geom)?;
    set_range(&mut block_bitmap, geom.data_start, payload_blocks_needed)?;
    let ghost ca = device.content();
    write_blocks(device, geom.block_bitmap_start, block_bitmap.as_bytes())?;
    let ghost cb = device.content();

    let mut inode_bitmap = new_bitmap(geom.inode_count)?;
    let ghost ibm_empty = inode_bitmap;
    let _ = inode_bitmap.set(0)?;
    write_blocks(device, geom.inode_bitmap_start, inode_bitmap.as_bytes())?;

    let mut buf = zero_vec((payload_blocks_needed * 4096) as usize);
    write_bytes_at(&mut buf, 0, framed.as_slice());
    let ghost c2 = device.content();
    proof {
        device.lemma_inv();
    }
    write_blocks(device, geom.data_start, buf.as_slice())?;
    let ghost c3 = device.content();

    let now = now_secs();
    let framed_crc = Crc32c::hash(framed.as_slice());
    let _ = framed_crc;
    let mut extents: Vec<Extent> = Vec::new();
    extents.push(Extent {
        logical_block: 0,
        length_blocks: payload_blocks_needed as u32,
        physical_block: geom.data_start,
    });
    let system_inode = OnDiskInode {
        version: 1,
        kind: OnDiskKind::SystemPayload,
        mode: 0o600,
        uid: 0,
        gid: 0,
        link_count: 1,
        flags: 0,
        size_bytes: framed.len() as u64,
        blocks_allocated: payload_blocks_needed,
        created_at: sb.created_at,
        modified_at: now,
        changed_at: now,
        accessed_at: now,
        generation: sb.generation + 1,
        extents,
    };
    write_inode_record(device, &geom, 0, &system_inode)?;
    let ghost c4 = device.content();

    sb.generation = sb.generation + 1;
    sb.last_write_at = now;
    sb.state = STATE_CLEAN;
    sb.payload_inode = 0;
    sb.free_blocks = geom.data_blocks - payload_blocks_needed;
    sb.free_inodes = geom.inode_count - 1;
    sb.block_bitmap_crc = Crc32c::hash(block_bitmap.as_bytes());
    sb.inode_bitmap_crc = Crc32c::hash(inode_bitmap.as_bytes());
    sb.layout_mode = LAYOUT_MODE_BLOB;
    sb.root_inode = 0;
    let sb_block = sb.encode_block();
    write_blocks(device, 1, sb_block.as_slice())?;
    let ghost c5 = device.content();
    write_blocks(device, geom.tertiary_superblock_block, sb_block.as_slice())?;
    let ghost c6 = device.content();
    write_blocks(device, geom.secondary_superblock_block, sb_block.as_slice())?;
    device.sync()?;
    proof {
        let n = payload_blocks_needed as int;
        device.lemma_inv();
        if device.stores_writes() && save_layout_ok(geom, len0 as int, n) {
            assert(framed@ == framed_payload(payload@));
            assert(c2.len() == len0);
            let c7 = device.content();
            let f = framed@;
            let ds = geom.data_start as int;
            let its = geom.inode_table_start as int;
            let t = geom.tertiary_superblock_block as int;
            let z = geom.secondary_superblock_block as int;
            assert(buf@.subrange(0, f.len() as int) =~= f);
            assert(sb_block_bytes(sb).len() == 4096 && sb_decodable(sb_block_bytes(sb))) by {
                lemma_superblock_roundtrip(sb);
            }
            assert(inode_record_bytes(system_inode).len() == 256) by {
                super::inode::lemma_inode_roundtrip(system_inode);
            }
            assert(inode_slot_offset(geom, 0) == its * 4096);
            lemma_save_chain(c2, c3, c4, c5, c6, c7, buf@, inode_record_bytes(system_inode), sb_block_bytes(sb), f,
                ds, its, t, z, n);
            assert(block_of(c7, 1) == sb_block_bytes(sb));
            assert(block_of(c7, (c7.len() as int / 4096) / 2) == sb_block_bytes(sb));
            assert(block_of(c7, c7.len() as int / 4096 - 1) == sb_block_bytes(sb));
            assert(inode_record_bytes(system_inode) == c7.subrange(its * 4096, its * 4096 + 256));
            assert(payload_saved(c7, sb, payload@));
            if bitmaps_layout_ok(geom, n) {
                assert forall|j: int| 0 <= j < inode_bitmap.bytes().len() * 8
                    implies #[trigger] super::bitmap::bit_set(inode_bitmap.bytes(), j) == (j == 0) by {
                    assert(inode_bitmap.is_set_spec(j) == (j == 0 || ibm_empty.is_set_spec(j)));
                }
                assert forall|j: int| 0 <= j < block_bitmap.bytes().len() * 8
                    implies #[trigger] super::bitmap::bit_set(block_bitmap.bytes(), j)
                    == (reserved_block(geom, j) || geom.data_start <= j < geom.data_start + n) by {
                    assert(block_bitmap.is_set_spec(j) == super::bitmap::bit_set(block_bitmap.bytes(), j));
                }
                lemma_save_bitmaps(ca, cb, c2, c3, c4, c5, c6, c7, block_bitmap.bytes(), inode_bitmap.bytes(), buf@,
                    inode_record_bytes(system_inode), sb, geom, n);
            }
        }
    }
    Ok(SaveReport {
        generation: sb.generation,
        payload_bytes: framed.len() as u64,
        payload_blocks: payload_blocks_needed,
    })
}

/// A payload of `payload_len` bytes can be saved under superblock `sb`:
/// its geometry lies inside the volume, the framed payload fits the data
/// region (and a 32-bit extent length, and memory), and the generation
/// counter is not exhausted.
pub open spec fn save_plan_ok(sb: Superblock, payload_len: int) -> bool {
    &&& geom_sane(sb_geometry(sb))
    &&& payload_len + 4 <= usize::MAX
    &&& blocks_for(payload_len + 4) <= sb_geometry(sb).data_blocks
    &&& blocks_for(payload_len + 4) <= 0xFFFF_FFFF
    &&& blocks_for(payload_len + 4) <= usize::MAX / 4096
    &&& sb.generation < u64::MAX
}

/// Plan the save of a payload of `payload_len` bytes under the superblock
/// `sb` that was read from the volume; refused exactly when
/// [`save_plan_ok`] fails.
pub fn plan_save(sb: &Superblock, payload_len: usize) -> (r: CoreFsResult<SavePlan>)
    ensures
        r is Ok <==> save_plan_ok(*sb, payload_len as int),
        r matches Err(e) ==> e is State,
        r matches Ok(p) ==> p.geometry == sb_geometry(*sb)
            && p.framed_bytes == payload_len + 4
            && p.payload_blocks == blocks_for(payload_len + 4)
            && p.generation == sb.generation + 1,
{
    let geom = sb.geometry();
    if !geom_sane_exec(&geom) {
        return Err(CoreFsError::State(msg("superblock geometry is inconsistent")));
    }
    if payload_len > usize::MAX - 4 {
        return Err(CoreFsError::State(msg("ODF: payload too large")));
    }
    let framed = (payload_len + 4) as u64;
    let blocks = div_ceil_u64(framed, 4096);
    if blocks > geom.data_blocks {
        return Err(CoreFsError::State(msg("ODF: payload requires more blocks than the data region holds")));
    }
    if blocks > 0xFFFF_FFFF || blocks > (usize::MAX as u64) / 4096 {
        return Err(CoreFsError::State(msg("ODF: payload too large")));
    }
    if sb.generation == u64::MAX {
        return Err(CoreFsError::State(msg("ODF: generation counter exhausted")));
    }
    Ok(SavePlan { geometry: geom, framed_bytes: framed, payload_blocks: blocks, generation: sb.generation + 1 })
}

/// Extents ordered by logical block.
fn sort_extents(v: &Vec<Extent>) -> (r: Vec<Extent>)
    ensures
        r@.len() == v@.len(),
        forall|i: int, j: int| 0 <= i < j < r@.len() ==> (#[trigger] r@[i]).logical_block <= (#[trigger] r@[j]).logical_block,
        forall|i: int| 0 <= i < r@.len() ==> v@.contains(#[trigger] r@[i]),
{
    let mut out: Vec<Extent> = Vec::new();
    let mut k: usize = 0;
    while k < v.len()
        invariant
            k <= v@.len(),
            out@.len() == k,
            forall|i: int, j: int| 0 <= i < j < out@.len() ==> (#[trigger] out@[i]).logical_block <= (#[trigger] out@[j]).logical_block,
            forall|i: int| 0 <= i < out@.len() ==> v@.contains(#[trigger] out@[i]),
        decreases v@.len() - k,
    {
        let e = v[k];
        let mut pos: usize = out.len();
        while pos > 0 && out[pos - 1].logical_block > e.logical_block
            invariant
                pos <= out@.len(),
                forall|i: int| pos <= i < out@.len() ==> (#[trigger] out@[i]).logical_block > e.logical_block,
            decreases pos,
        {
            pos = pos - 1;
        }
        let ghost before = out@;
        out.insert(pos, e);
        proof {
            assert(v@[k as int] == e);
            assert forall|i: int, j: int| 0 <= i < j < out@.len() implies (#[trigger] out@[i]).logical_block <= (#[trigger] out@[j]).logical_block by {
                if i < pos && j > pos {
                    assert(before[i].logical_block <= before[j - 1].logical_block);
                }
                if i < pos && j == pos && pos > 0 {
                    assert(before[i].logical_block <= before[pos - 1].logical_block);
                }
                if i > pos {
                    assert(before[i - 1].logical_block <= before[j - 1].logical_block);
                }
                if i == pos && j > pos {
                    assert(before[j - 1].logical_block > e.logical_block);
                }
            }
            assert forall|i: int| 0 <= i < out@.len() implies v@.contains(#[trigger] out@[i]) by {
                if i < pos {
                    assert(out@[i] == before[i]);
                } else if i > pos {
                    assert(out@[i] == before[i - 1]);
                }
            }
        }
        k = k + 1;
    }
    out
}

/// The slot of inode `index` in `c` under geometry `g` holds an inode
/// record of the system payload kind with at least one extent and
/// `size` bytes.
pub open spec fn payload_inode_ok(c: Seq<u8>, g: LayoutGeometry, index: u64, size: int) -> bool {
    let off = inode_slot_offset(g, index);
    &&& index < g.inode_count
    &&& off + 256 <= c.len()
    &&& exists|ino: OnDiskInode| #[trigger] inode_matches_record(ino, c.subrange(off, off + 256))
        && inode_decodable(c.subrange(off, off + 256))
        && ino.kind == OnDiskKind::SystemPayload && ino.extents@.len() > 0 && ino.size_bytes == size
}

/// The blocks of extent `e` in `c`.
pub open spec fn extent_data(c: Seq<u8>, e: Extent) -> Seq<u8> {
    c.subrange(e.physical_block * 4096, e.physical_block * 4096 + e.length_blocks * 4096)
}

/// The blocks of the first `k` extents of `s`, one after the other.
pub open spec fn extents_data(c: Seq<u8>, s: Seq<Extent>, k: int) -> Seq<u8>
    decreases k,
{
    if k <= 0 { Seq::empty() } else { extents_data(c, s, k - 1) + extent_data(c, s[k - 1]) }
}

/// `d` is the payload read from `c` through superblock `s`, payload inode
/// `ino` and its extents in logical order `sorted`: the first
/// `ino.size_bytes` bytes of the extents are `d` followed by its CRC32C.
pub open spec fn payload_read_from(c: Seq<u8>, s: Superblock, ino: OnDiskInode, sorted: Seq<Extent>, d: Seq<u8>) -> bool {
    let g = sb_geometry(s);
    let off = inode_slot_offset(g, s.payload_inode);
    &&& sb_located(c, s)
    &&& s.payload_inode < g.inode_count
    &&& off + 256 <= c.len()
    &&& inode_decodable(c.subrange(off, off + 256))
    &&& inode_matches_record(ino, c.subrange(off, off + 256))
    &&& ino.kind == OnDiskKind::SystemPayload
    &&& ino.extents@.len() > 0
    &&& ino.size_bytes == d.len() + 4
    &&& sorted.len() == ino.extents@.len()
    &&& forall|i: int| 0 <= i < sorted.len() ==> ino.extents@.contains(#[trigger] sorted[i])
    &&& forall|i: int, j: int| 0 <= i < j < sorted.len() ==> (#[trigger] sorted[i]).logical_block <= (#[trigger] sorted[j]).logical_block
    &&& ino.size_bytes <= extents_data(c, sorted, sorted.len() as int).len()
    &&& d + spec_u32_to_le_bytes(crc32c_spec(d)) == extents_data(c, sorted, sorted.len() as int).take(ino.size_bytes as int)
}

/// `d` is a payload that [`load_state`] can read from `c`.
pub open spec fn payload_loaded(c: Seq<u8>, d: Seq<u8>) -> bool {
    exists|s: Superblock, ino: OnDiskInode, sorted: Seq<Extent>| #[trigger] payload_read_from(c, s, ino, sorted, d)
}

/// The payload inode `ino` can be read: a system payload inode with at
/// least one extent and a size that fits in memory.  Returns its size.
pub fn check_payload_inode(ino: &OnDiskInode) -> (r: CoreFsResult<usize>)
    ensures
        r is Ok <==> ino.kind == OnDiskKind::SystemPayload && ino.extents@.len() > 0 && ino.size_bytes <= usize::MAX,
        r matches Ok(n) ==> n == ino.size_bytes,
        r matches Err(e) ==> e is State,
{
    if !matches!(ino.kind, OnDiskKind::SystemPayload) {
        return Err(CoreFsError::State(msg("payload inode has unexpected kind")));
    }
    if ino.extents.len() == 0 {
        return Err(CoreFsError::State(msg("ODF: system payload inode has no extents")));
    }
    if ino.size_bytes > usize::MAX as u64 {
        return Err(CoreFsError::State(msg("ODF: payload too large")));
    }
    Ok(ino.size_bytes as usize)
}

/// `raw` is a framed payload: at least the 4-byte trailer, which holds the
/// CRC32C of the bytes before it.
pub open spec fn frame_intact(raw: Seq<u8>) -> bool {
    raw.len() >= 4 && raw.subrange(raw.len() - 4, raw.len() as int)
        == spec_u32_to_le_bytes(crc32c_spec(raw.subrange(0, raw.len() - 4)))
}

/// The payload in `raw`, the bytes read from the payload extents, when they
/// cover the declared `size` and the CRC32C trailer matches.
pub fn unframe_payload(raw: &[u8], size: usize) -> (r: CoreFsResult<Vec<u8>>)
    ensures
        r is Ok <==> raw@.len() == size && frame_intact(raw@),
        r matches Ok(d) ==> raw@ == framed_payload(d@),
        r matches Err(e) ==> e is State,
{
    if raw.len() != size {
        return Err(CoreFsError::State(msg("ODF: payload extents did not cover declared size")));
    }
    if raw.len() < PAYLOAD_CRC_TRAILER_BYTES {
        return Err(CoreFsError::State(msg("ODF: payload is shorter than CRC trailer")));
    }
    let data_len = raw.len() - PAYLOAD_CRC_TRAILER_BYTES;
    let data = copy_range(raw, 0, data_len);
    let stored = read_u32(raw, data_len);
    let expected = Crc32c::hash(data.as_slice());
    proof {
        lemma_auto_spec_u32_to_from_le_bytes();
        assert(data@ =~= raw@.subrange(0, raw@.len() - 4));
        if frame_intact(raw@) {
            assert(raw@.subrange(data_len as int, data_len + 4) == spec_u32_to_le_bytes(expected));
            assert(stored == spec_u32_from_le_bytes(spec_u32_to_le_bytes(expected)));
        }
    }
    if stored != expected {
        return Err(CoreFsError::State(msg("ODF: payload CRC mismatch")));
    }
    proof {
        assert(data@ + spec_u32_to_le_bytes(crc32c_spec(data@)) =~= raw@);
    }
    Ok(data)
}

/// Read back the payload stored by [`save_state`]: the superblock (with
/// fallbacks) must be valid, the bitmaps must match their checksums, the
/// payload inode must be a system payload inode whose extents, read in
/// logical order, cover its size, and the trailing CRC32C must match.
/// Returns the payload without its trailer.
pub fn load_state<D: BlockDevice>(device: &D) -> (r: CoreFsResult<Vec<u8>>)
    requires
        device.inv(),
    ensures
        r matches Ok(d) ==> payload_loaded(device.content(), d@),
        r matches Ok(d) ==> exists|s: Superblock| #[trigger] sb_located(device.content(), s)
            && payload_inode_ok(device.content(), sb_geometry(s), s.payload_inode, d@.len() + 4int),
{
    let ghost c = device.content();
    let sb = read_sb_with_fallbacks(device)?;
    verify_bitmap_integrity(device, &sb)?;
    let geom = sb.geometry();
    let system_inode = read_inode_record(device, &geom, sb.payload_inode)?;
    let size = check_payload_inode(&system_inode)?;
    let sorted = sort_extents(&system_inode.extents);
    let mut raw: Vec<u8> = Vec::new();
    let mut remaining: usize = size;
    let mut k: usize = 0;
    while k < sorted.len()
        invariant
            device.inv(),
            c == device.content(),
            k <= sorted@.len(),
            raw@.len() + remaining == size,
            raw@.len() <= extents_data(c, sorted@, k as int).len(),
            raw@ == extents_data(c, sorted@, k as int).take(raw@.len() as int),
            remaining > 0 ==> raw@.len() == extents_data(c, sorted@, k as int).len(),
        decreases sorted@.len() - k,
    {
        let ext = sorted[k];
        if ext.physical_block > u64::MAX / 4096 {
            return Err(CoreFsError::State(msg("ODF: payload extent out of range")));
        }
        let block_data = device.read_at(ext.physical_block * 4096, ext.length_blocks as u64 * 4096)?;
        let wanted = if remaining < block_data.len() { remaining } else { block_data.len() };
        let part = copy_range(block_data.as_slice(), 0, wanted);
        let ghost before = raw@;
        push_bytes(&mut raw, part.as_slice());
        proof {
            let ed = extents_data(c, sorted@, k as int);
            let ed2 = extents_data(c, sorted@, k as int + 1);
            assert(block_data@ == extent_data(c, sorted@[k as int]));
            assert(ed2 == ed + block_data@);
            if remaining > 0 {
                assert(raw@ =~= ed2.take(raw@.len() as int));
                if remaining - wanted > 0 {
                    assert(raw@ =~= ed2);
                }
            } else {
                assert(raw@ =~= ed2.take(raw@.len() as int));
            }
        }
        remaining = remaining - wanted;
        k = k + 1;
    }
    let data = unframe_payload(raw.as_slice(), size)?;
    proof {
        let off = inode_slot_offset(geom, sb.payload_inode);
        assert(inode_matches_record(system_inode, device.content().subrange(off, off + 256)));
        lemma_auto_spec_u32_to_from_le_bytes();
        assert(payload_read_from(c, sb, system_inode, sorted@, data@));
    }
    Ok(data)
}

/// Read the superblock copies and report the volume's counters and which
/// copies are intact.  The primary copy is used when it is valid, else the
/// copy in the middle of the device, else the one in its last block.
pub fn inspect<D: BlockDevice>(device: &D) -> (r: CoreFsResult<VolumeInfo>)
    requires
        device.inv(),
    ensures
        r matches Ok(info) ==> (info.primary_ok ==> sb_copy_ok(device.content(), 1))
            && exists|s: Superblock| #[trigger] sb_located(device.content(), s)
                && info.uuid == s.uuid
                && info.total_blocks == s.total_blocks
                && info.free_blocks == s.free_blocks
                && info.total_inodes == s.total_inodes
                && info.free_inodes == s.free_inodes
                && info.generation == s.generation
                && info.state == s.state
                && (info.tertiary_ok ==> sb_copy_ok(device.content(), s.tertiary_superblock_block as int))
                && (info.secondary_ok ==> sb_copy_ok(device.content(), s.secondary_superblock_block as int))
                && ((forall|i: int| 0 <= i < label_text(s.label@).len() ==> label_text(s.label@)[i] < 128)
                    ==> info.label@ == label_text(s.label@).map_values(|b: u8| b as char)),
{
    proof {
        device.lemma_inv();
    }
    let ghost c = device.content();
    let ghost mut blk: int = 1;
    let (sb, primary_ok) = match read_superblock_at(device, 1) {
        Ok(s) => (s, true),
        Err(_) => {
            let total = device.capacity() / 4096;
            match read_superblock_at(device, total / 2) {
                Ok(s) => {
                    proof {
                        blk = (total / 2) as int;
                    }
                    (s, false)
                },
                Err(_) => {
                    if total == 0 {
                        return Err(CoreFsError::State(msg("no superblock readable")));
                    }
                    match read_superblock_at(device, total - 1) {
                        Ok(s) => {
                            proof {
                                blk = (total - 1) as int;
                            }
                            (s, false)
                        },
                        Err(_) => {
                            return Err(CoreFsError::State(msg("no superblock readable")));
                        },
                    }
                },
            }
        },
    };
    proof {
        assert(sb_copy_ok(c, blk) && sb_matches_block(sb, block_of(c, blk)));
        assert(blk == 1 || blk == (c.len() / 4096) / 2 || blk == (c.len() / 4096) - 1);
        assert(sb_located(c, sb));
    }
    let tertiary_ok = read_superblock_at(device, sb.tertiary_superblock_block).is_ok();
    let secondary_ok = read_superblock_at(device, sb.secondary_superblock_block).is_ok();
    let prefix = label_prefix(&sb.label);
    let label = lossy_text(prefix.as_slice());
    Ok(VolumeInfo {
        label,
        uuid: sb.uuid,
        total_blocks: sb.total_blocks,
        free_blocks: sb.free_blocks,
        total_inodes: sb.total_inodes,
        free_inodes: sb.free_inodes,
        generation: sb.generation,
        state: sb.state,
        primary_ok,
        tertiary_ok,
        secondary_ok,
    })
}

} // verus!
