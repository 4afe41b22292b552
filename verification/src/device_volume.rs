//! Segment-granular access to a CoreFS volume image stored on a block
//! device, and the write-ahead journal region that follows the image.
//!
//! Image layout: a 16-byte header (magic `COREFS01`, format version,
//! segment count), a directory of 24-byte entries (kind tag, four reserved
//! bytes, offset, length), then the segment payloads, each starting on a
//! 64-byte boundary.  The journal region starts on the first sector
//! boundary after the image.
use vstd::prelude::*;
use vstd::bytes::*;
use crate::error::{CoreFsError, CoreFsResult, msg, msg_num};
use crate::block_device::BlockDevice;
use crate::ondisk::codec::{zeros, overwrite, push_bytes, push_u32, push_u64, push_zeros, read_u32, read_u64, copy_range, bytes_eq};
use crate::segment_cache::{SegmentCache, kind_eq};

verus! {

/// Image format version written and accepted here: version 5, the version
/// of the volume images that `volume_image` writes, so that a volume opens
/// on a device holding such an image.
pub const FORMAT_VERSION: u32 = 5;
/// Bytes of the image header.
pub const HEADER_SIZE: usize = 16;
/// Bytes of one directory entry.
pub const SEGMENT_ENTRY_SIZE: usize = 24;
/// Alignment of every segment payload.
pub const SEGMENT_ALIGNMENT: usize = 64;
/// Bytes of an encoded superblock segment.
pub const SUPERBLOCK_SIZE: usize = 56;
/// Bytes reserved for the device journal.
pub const DEVICE_JOURNAL_SIZE: usize = 262144;
/// Bytes of the journal header before sector padding.
pub const JOURNAL_HEADER_SIZE: usize = 64;

/// `COREFS01`.
pub open spec fn volume_magic() -> Seq<u8> {
    seq![0x43u8, 0x4Fu8, 0x52u8, 0x45u8, 0x46u8, 0x53u8, 0x30u8, 0x31u8]
}

/// `CFSJ0001`.
pub open spec fn journal_magic() -> Seq<u8> {
    seq![0x43u8, 0x46u8, 0x53u8, 0x4Au8, 0x30u8, 0x30u8, 0x30u8, 0x31u8]
}

/// Kind tag of the primary superblock segment, `SUPR`.
pub open spec fn supr_kind() -> Seq<u8> {
    seq![0x53u8, 0x55u8, 0x50u8, 0x52u8]
}

/// Kind tag of the secondary superblock segment, `SUP2`.
pub open spec fn sup2_kind() -> Seq<u8> {
    seq![0x53u8, 0x55u8, 0x50u8, 0x32u8]
}

/// `kind` names one of the two superblock segments.
pub open spec fn is_superblock_kind(kind: Seq<u8>) -> bool {
    kind == supr_kind() || kind == sup2_kind()
}

fn volume_magic_bytes() -> (r: Vec<u8>)
    ensures
        r@ == volume_magic(),
{
    let r: Vec<u8> = vec![0x43, 0x4F, 0x52, 0x45, 0x46, 0x53, 0x30, 0x31];
    proof {
        assert(r@ =~= volume_magic());
    }
    r
}

fn journal_magic_bytes() -> (r: Vec<u8>)
    ensures
        r@ == journal_magic(),
{
    let r: Vec<u8> = vec![0x43, 0x46, 0x53, 0x4A, 0x30, 0x30, 0x30, 0x31];
    proof {
        assert(r@ =~= journal_magic());
    }
    r
}

pub(crate) fn is_superblock_tag(kind: &[u8; 4]) -> (r: bool)
    ensures
        r == is_superblock_kind(kind@),
{
    let supr: [u8; 4] = [0x53, 0x55, 0x50, 0x52];
    let sup2: [u8; 4] = [0x53, 0x55, 0x50, 0x32];
    proof {
        assert(supr@ =~= supr_kind());
        assert(sup2@ =~= sup2_kind());
    }
    kind_eq(kind, &supr) || kind_eq(kind, &sup2)
}

/// `value` rounded up to a multiple of `alignment` (unchanged for 0).
pub open spec fn align_up_spec(value: int, alignment: int) -> int {
    if alignment == 0 {
        value
    } else if value % alignment == 0 {
        value
    } else {
        value + (alignment - value % alignment)
    }
}

pub(crate) proof fn lemma_align_up(value: int, alignment: int)
    requires
        0 <= value,
        0 < alignment,
    ensures
        value <= align_up_spec(value, alignment) < value + alignment,
        align_up_spec(value, alignment) % alignment == 0,
{
    assert((value + (alignment - value % alignment)) % alignment == 0) by (nonlinear_arith)
        requires 0 < alignment, 0 <= value;
}

/// Round `value` up to a multiple of `alignment`.
pub fn align_up(value: usize, alignment: usize) -> (r: usize)
    requires
        align_up_spec(value as int, alignment as int) <= usize::MAX,
    ensures
        r == align_up_spec(value as int, alignment as int),
{
    if alignment == 0 {
        return value;
    }
    let remainder = value % alignment;
    if remainder == 0 { value } else { value + (alignment - remainder) }
}

/// Round `value` up to a multiple of `alignment`.
pub fn align_up_u64(value: u64, alignment: u64) -> (r: u64)
    requires
        align_up_spec(value as int, alignment as int) <= u64::MAX,
    ensures
        r == align_up_spec(value as int, alignment as int),
{
    if alignment == 0 {
        return value;
    }
    let remainder = value % alignment;
    if remainder == 0 { value } else { value + (alignment - remainder) }
}

/// `align_up_u64`, or `None` when the result does not fit in `u64`.
pub(crate) fn checked_align_up_u64(value: u64, alignment: u64) -> (r: Option<u64>)
    ensures
        r is Some <==> align_up_spec(value as int, alignment as int) <= u64::MAX,
        r matches Some(v) ==> v == align_up_spec(value as int, alignment as int),
{
    if alignment == 0 {
        return Some(value);
    }
    let remainder = value % alignment;
    if remainder == 0 {
        Some(value)
    } else {
        value.checked_add(alignment - remainder)
    }
}

/// Multiplicative checksum of the image format: for each byte,
/// `acc * 16777619 + byte`, wrapping at 2^64.
pub open spec fn fold_checksum(s: Seq<u8>) -> u64
    decreases s.len(),
{
    if s.len() == 0 {
        0
    } else {
        vstd::wrapping::u64_specs::wrapping_add(
            vstd::wrapping::u64_specs::wrapping_mul(fold_checksum(s.drop_last()), 16777619),
            s.last() as u64,
        )
    }
}

/// Checksum of `bytes` (see [`fold_checksum`]).
pub fn checksum(bytes: &[u8]) -> (r: u64)
    ensures
        r == fold_checksum(bytes@),
{
    let mut acc: u64 = 0;
    let mut i: usize = 0;
    while i < bytes.len()
        invariant
            i <= bytes@.len(),
            acc == fold_checksum(bytes@.subrange(0, i as int)),
        decreases bytes@.len() - i,
    {
        proof {
            assert(bytes@.subrange(0, i as int + 1).drop_last() =~= bytes@.subrange(0, i as int));
        }
        acc = acc.wrapping_mul(16777619).wrapping_add(bytes[i] as u64);
        i = i + 1;
    }
    proof {
        assert(bytes@.subrange(0, i as int) =~= bytes@);
    }
    acc
}

/// Location of one segment in the image.
#[derive(Debug, Clone, Copy, PartialEq, Eq)]
pub struct SegmentLocation {
    pub kind: [u8; 4],
    pub offset: u64,
    pub length: u64,
}

/// Parsed segment directory.
#[derive(Debug, Clone)]
pub struct SegmentIndex {
    pub segment_count: usize,
    pub segments: Vec<SegmentLocation>,
    /// Byte offset one past the last segment payload, 64-byte aligned.
    pub image_end: u64,
}

impl SegmentIndex {
    /// The first segment of kind `kind`.
    pub fn find(&self, kind: &[u8; 4]) -> (r: Option<&SegmentLocation>)
        ensures
            r is None <==> forall|i: int| 0 <= i < self.segments@.len() ==> (#[trigger] self.segments@[i]).kind@ != kind@,
            r matches Some(l) ==> exists|i: int| 0 <= i < self.segments@.len() && self.segments@[i] == *l
                && l.kind@ == kind@
                && forall|j: int| 0 <= j < i ==> (#[trigger] self.segments@[j]).kind@ != kind@,
    {
        let mut i: usize = 0;
        while i < self.segments.len()
            invariant
                i <= self.segments@.len(),
                forall|j: int| 0 <= j < i ==> (#[trigger] self.segments@[j]).kind@ != kind@,
            decreases self.segments@.len() - i,
        {
            if kind_eq(&self.segments[i].kind, kind) {
                return Some(&self.segments[i]);
            }
            i = i + 1;
        }
        None
    }
}

/// Little-endian `u32` at `off`.
pub open spec fn le_u32_at(c: Seq<u8>, off: int) -> u32 {
    spec_u32_from_le_bytes(c.subrange(off, off + 4))
}

/// Little-endian `u64` at `off`.
pub open spec fn le_u64_at(c: Seq<u8>, off: int) -> u64 {
    spec_u64_from_le_bytes(c.subrange(off, off + 8))
}

/// `c` starts with a header of this format: the magic and version 5.
pub open spec fn header_ok(c: Seq<u8>) -> bool {
    &&& c.len() >= 16
    &&& c.subrange(0, 8) == volume_magic()
    &&& le_u32_at(c, 8) == FORMAT_VERSION
}

/// Directory entry `i` of `c`, as stored.
pub open spec fn entry_matches(loc: SegmentLocation, c: Seq<u8>, i: int) -> bool {
    let base = 16 + 24 * i;
    &&& loc.kind@ == c.subrange(base, base + 4)
    &&& loc.offset == le_u64_at(c, base + 8)
    &&& loc.length == le_u64_at(c, base + 16)
}

/// Aligned end of a segment.
pub open spec fn seg_end(loc: SegmentLocation) -> int {
    align_up_spec(loc.offset + loc.length, 64)
}

/// Largest aligned segment end among the first `n` segments (`n >= 1`).
pub open spec fn max_seg_end(s: Seq<SegmentLocation>, n: int) -> int
    decreases n,
{
    if n <= 1 {
        seg_end(s[0])
    } else {
        let m = max_seg_end(s, n - 1);
        if seg_end(s[n - 1]) > m { seg_end(s[n - 1]) } else { m }
    }
}

/// The header and directory stored in `c` are those of `idx`.
pub open spec fn directory_of_image(idx: SegmentIndex, c: Seq<u8>) -> bool {
    let n = le_u32_at(c, 12) as int;
    &&& header_ok(c)
    &&& idx.segment_count == n
    &&& idx.segments@.len() == n
    &&& forall|i: int| 0 <= i < n ==> entry_matches(#[trigger] idx.segments@[i], c, i)
}

/// `idx` is the directory stored in `c`, with the image end computed from it.
pub open spec fn index_of_image(idx: SegmentIndex, c: Seq<u8>) -> bool {
    let n = le_u32_at(c, 12) as int;
    &&& directory_of_image(idx, c)
    &&& forall|i: int| 0 <= i < n ==> seg_end(#[trigger] idx.segments@[i]) <= u64::MAX
    &&& idx.image_end == if n == 0 { 16 + 24 * n } else { max_seg_end(idx.segments@, n) }
}

/// Parse the header and directory of the image on `device`, reading only
/// the sectors that hold them.
pub fn read_segment_index<D: BlockDevice>(device: &D) -> (r: CoreFsResult<SegmentIndex>)
    requires
        device.inv(),
    ensures
        r matches Ok(idx) ==> index_of_image(idx, device.content()),
{
    proof {
        device.lemma_inv();
    }
    let ss = device.sector_size() as u64;
    let header_sector = device.read_at(0, ss)?;
    let ghost c = device.content();
    if header_sector.len() < HEADER_SIZE {
        return Err(CoreFsError::State(msg("device too small for CoreFS header")));
    }
    let magic = volume_magic_bytes();
    let head = copy_range(header_sector.as_slice(), 0, 8);
    if !bytes_eq(head.as_slice(), magic.as_slice()) {
        return Err(CoreFsError::State(msg("device does not contain a CoreFS volume (invalid magic)")));
    }
    let version = read_u32(header_sector.as_slice(), 8);
    if version != FORMAT_VERSION {
        return Err(CoreFsError::State(msg_num("unsupported CoreFS format version ", version as u64, "")));
    }
    let count = read_u32(header_sector.as_slice(), 12);
    proof {
        assert(header_sector@.subrange(0, 8) =~= c.subrange(0, 8));
        assert(header_sector@.subrange(8, 12) =~= c.subrange(8, 12));
        assert(header_sector@.subrange(12, 16) =~= c.subrange(12, 16));
    }
    let dir_end: u64 = 16 + 24 * (count as u64);
    let needed = match checked_align_up_u64(dir_end, ss) {
        Some(v) => v,
        None => {
            return Err(CoreFsError::State(msg("CoreFS directory runs past the addressable range")));
        },
    };
    proof {
        lemma_align_up(dir_end as int, ss as int);
    }
    let header_bytes = if needed > ss {
        let extra = device.read_at(ss, needed - ss)?;
        let mut combined = header_sector;
        push_bytes(&mut combined, extra.as_slice());
        proof {
            assert(combined@ =~= c.subrange(0, needed as int));
        }
        combined
    } else {
        header_sector
    };
    // header_bytes@ is a prefix of c covering the directory.
    let mut segments: Vec<SegmentLocation> = Vec::new();
    let mut image_end: u64 = dir_end;
    let mut i: u64 = 0;
    while i < count as u64
        invariant
            i <= count,
            dir_end == 16 + 24 * count,
            dir_end <= header_bytes@.len() <= c.len(),
            header_bytes@ == c.subrange(0, header_bytes@.len() as int),
            segments@.len() == i,
            forall|j: int| 0 <= j < i ==> entry_matches(#[trigger] segments@[j], c, j),
            forall|j: int| 0 <= j < i ==> seg_end(#[trigger] segments@[j]) <= u64::MAX,
            image_end == if i == 0 { dir_end as int } else { max_seg_end(segments@, i as int) },
        decreases count - i,
    {
        let base = (16 + 24 * i) as usize;
        let kind: [u8; 4] = [header_bytes[base], header_bytes[base + 1], header_bytes[base + 2], header_bytes[base + 3]];
        let offset = read_u64(header_bytes.as_slice(), base + 8);
        let length = read_u64(header_bytes.as_slice(), base + 16);
        let end = match offset.checked_add(length) {
            Some(v) => v,
            None => {
                return Err(CoreFsError::State(msg("corrupt CoreFS directory entry")));
            },
        };
        let aligned = match checked_align_up_u64(end, 64) {
            Some(v) => v,
            None => {
                return Err(CoreFsError::State(msg("corrupt CoreFS directory entry")));
            },
        };
        let loc = SegmentLocation { kind, offset, length };
        proof {
            assert(kind@ =~= c.subrange(base as int, base + 4));
            assert(header_bytes@.subrange(base + 8, base + 16) =~= c.subrange(base + 8, base + 16));
            assert(header_bytes@.subrange(base + 16, base + 24) =~= c.subrange(base + 16, base + 24));
        }
        let ghost old_segments = segments@;
        segments.push(loc);
        proof {
            assert(segments@.subrange(0, i as int) =~= old_segments);
            assert forall|n: int| 1 <= n <= i implies max_seg_end(segments@, n) == max_seg_end(old_segments, n) by {
                lemma_max_seg_end_prefix(segments@, old_segments, n);
            }
        }
        if i == 0 || aligned > image_end {
            image_end = aligned;
        }
        i = i + 1;
    }
    Ok(SegmentIndex { segment_count: count as usize, segments, image_end })
}

proof fn lemma_max_seg_end_prefix(s: Seq<SegmentLocation>, t: Seq<SegmentLocation>, n: int)
    requires
        1 <= n <= t.len(),
        t.len() <= s.len(),
        forall|j: int| 0 <= j < t.len() ==> s[j] == t[j],
    ensures
        max_seg_end(s, n) == max_seg_end(t, n),
    decreases n,
{
    if n > 1 {
        lemma_max_seg_end_prefix(s, t, n - 1);
    }
}

/// Read the payload of `loc` from `device`, using sector-aligned reads.
pub fn read_segment_from_device<D: BlockDevice>(device: &D, loc: &SegmentLocation) -> (r: CoreFsResult<Vec<u8>>)
    requires
        device.inv(),
    ensures
        loc.length == 0 ==> (r matches Ok(v) && v@.len() == 0),
        loc.length > 0 ==> (r matches Ok(v) ==> loc.offset + loc.length <= device.content().len()
            && v@ == device.content().subrange(loc.offset as int, loc.offset + loc.length)),
{
    proof {
        device.lemma_inv();
    }
    let ss = device.sector_size() as u64;
    if loc.length == 0 {
        return Ok(Vec::new());
    }
    let rem = loc.offset % ss;
    proof {
        assert(rem <= loc.offset) by (nonlinear_arith)
            requires rem == loc.offset % ss, ss > 0;
    }
    let aligned_start = loc.offset - rem;
    let end = match loc.offset.checked_add(loc.length) {
        Some(v) => v,
        None => {
            return Err(CoreFsError::State(msg("segment runs past the addressable range")));
        },
    };
    let aligned_end = match checked_align_up_u64(end, ss) {
        Some(v) => v,
        None => {
            return Err(CoreFsError::State(msg("segment runs past the addressable range")));
        },
    };
    proof {
        lemma_align_up(end as int, ss as int);
    }
    let read_len = aligned_end - aligned_start;
    let raw = device.read_at(aligned_start, read_len)?;
    let start_in_raw = loc.offset - aligned_start;
    let end_in_raw = start_in_raw + loc.length;
    if end_in_raw > raw.len() as u64 {
        return Err(CoreFsError::State(msg("truncated segment on device")));
    }
    let out = copy_range(raw.as_slice(), start_in_raw as usize, end_in_raw as usize);
    proof {
        assert(out@ =~= device.content().subrange(loc.offset as int, loc.offset + loc.length));
    }
    Ok(out)
}

/// The first segment of kind `k` in `s`.
pub open spec fn index_lookup(s: Seq<SegmentLocation>, k: Seq<u8>) -> Option<SegmentLocation>
    decreases s.len(),
{
    if s.len() == 0 {
        None
    } else if s[0].kind@ == k {
        Some(s[0])
    } else {
        index_lookup(s.drop_first(), k)
    }
}

proof fn lemma_index_lookup_none(s: Seq<SegmentLocation>, k: Seq<u8>)
    requires
        forall|i: int| 0 <= i < s.len() ==> (#[trigger] s[i]).kind@ != k,
    ensures
        index_lookup(s, k) is None,
    decreases s.len(),
{
    if s.len() > 0 {
        assert(s[0].kind@ != k);
        assert forall|i: int| 0 <= i < s.drop_first().len() implies (#[trigger] s.drop_first()[i]).kind@ != k by {
            assert(s.drop_first()[i] == s[i + 1]);
        }
        lemma_index_lookup_none(s.drop_first(), k);
    }
}

proof fn lemma_index_lookup_some(s: Seq<SegmentLocation>, k: Seq<u8>, i: int)
    requires
        0 <= i < s.len(),
        s[i].kind@ == k,
        forall|j: int| 0 <= j < i ==> (#[trigger] s[j]).kind@ != k,
    ensures
        index_lookup(s, k) == Some(s[i]),
    decreases i,
{
    if i > 0 {
        assert(s[0].kind@ != k);
        assert forall|j: int| 0 <= j < i - 1 implies (#[trigger] s.drop_first()[j]).kind@ != k by {
            assert(s.drop_first()[j] == s[j + 1]);
        }
        lemma_index_lookup_some(s.drop_first(), k, i - 1);
    }
}

/// The bytes of segment `loc` in image `c`.
pub open spec fn segment_bytes(c: Seq<u8>, loc: SegmentLocation) -> Seq<u8> {
    if loc.length == 0 {
        Seq::empty()
    } else {
        c.subrange(loc.offset as int, loc.offset + loc.length)
    }
}

/// On-demand, segment-granular access to a CoreFS volume on a device.
///
/// Only the header and directory are read when the volume is opened;
/// segments are fetched when asked for and kept in a read cache.  Writes
/// are buffered per segment until [`DeviceVolume::flush`].
#[derive(Debug)]
pub struct DeviceVolume<D: BlockDevice> {
    device: D,
    index: SegmentIndex,
    read_cache: SegmentCache,
    write_buffer: SegmentCache,
    journal_offset: u64,
}

impl<D: BlockDevice> DeviceVolume<D> {
    /// Internal consistency.
    pub closed spec fn wf(&self) -> bool {
        &&& self.device.inv()
        &&& self.read_cache.wf()
        &&& self.write_buffer.wf()
    }

    /// The device underneath.
    pub closed spec fn spec_device(&self) -> D {
        self.device
    }

    /// The segment directory in use.
    pub closed spec fn spec_index(&self) -> SegmentIndex {
        self.index
    }

    /// Clean segments held in memory, by kind.
    pub closed spec fn cached(&self) -> Map<Seq<u8>, Seq<u8>> {
        self.read_cache.map()
    }

    /// Segments written but not yet flushed, by kind.
    pub closed spec fn dirty(&self) -> Map<Seq<u8>, Seq<u8>> {
        self.write_buffer.map()
    }

    /// Start of the journal region.
    pub closed spec fn spec_journal_offset(&self) -> u64 {
        self.journal_offset
    }

    /// Open the volume on `device`, reading only its header and directory.
    pub fn open(device: D) -> (r: CoreFsResult<Self>)
        requires
            device.inv(),
        ensures
            r matches Ok(v) ==> {
                &&& v.wf()
                &&& v.spec_device() == device
                &&& index_of_image(v.spec_index(), device.content())
                &&& v.cached() == Map::<Seq<u8>, Seq<u8>>::empty()
                &&& v.dirty() == Map::<Seq<u8>, Seq<u8>>::empty()
                &&& v.spec_journal_offset() == align_up_spec(
                    v.spec_index().image_end as int,
                    device.spec_geometry().sector_size as int,
                )
            },
    {
        let index = read_segment_index(&device)?;
        let ss = device.sector_size() as u64;
        let journal_offset = match checked_align_up_u64(index.image_end, ss) {
            Some(v) => v,
            None => {
                return Err(CoreFsError::State(msg("CoreFS image runs past the addressable range")));
            },
        };
        Ok(DeviceVolume {
            device,
            index,
            read_cache: SegmentCache::new(),
            write_buffer: SegmentCache::new(),
            journal_offset,
        })
    }

    /// The parsed segment directory.
    pub fn index(&self) -> (r: &SegmentIndex)
        ensures
            *r == self.spec_index(),
    {
        &self.index
    }

    /// Payload of the segment of kind `kind`: the unflushed write if there
    /// is one, else the cached copy, else the bytes on the device (which
    /// are then cached).
    pub fn read_segment(&mut self, kind: &[u8; 4]) -> (r: CoreFsResult<Vec<u8>>)
        requires
            old(self).wf(),
        ensures
            final(self).wf(),
            final(self).spec_device() == old(self).spec_device(),
            final(self).spec_index() == old(self).spec_index(),
            final(self).dirty() == old(self).dirty(),
            final(self).spec_journal_offset() == old(self).spec_journal_offset(),
            old(self).dirty().contains_key(kind@) ==> (r matches Ok(v) && v@ == old(self).dirty()[kind@])
                && final(self).cached() == old(self).cached(),
            !old(self).dirty().contains_key(kind@) && old(self).cached().contains_key(kind@)
                ==> (r matches Ok(v) && v@ == old(self).cached()[kind@])
                && final(self).cached() == old(self).cached(),
            !old(self).dirty().contains_key(kind@) && !old(self).cached().contains_key(kind@) ==> {
                match index_lookup(old(self).spec_index().segments@, kind@) {
                    None => (r matches Err(e) && e is NotFound) && final(self).cached() == old(self).cached(),
                    Some(loc) => (r matches Ok(v) ==> v@ == segment_bytes(old(self).spec_device().content(), loc)
                        && final(self).cached() == old(self).cached().insert(kind@, v@))
                        && (r is Err ==> final(self).cached() == old(self).cached()),
                }
            },
    {
        if let Some(data) = self.write_buffer.get(kind) {
            return Ok(data.clone());
        }
        if let Some(data) = self.read_cache.get(kind) {
            return Ok(data.clone());
        }
        let loc = match self.index.find(kind) {
            Some(l) => *l,
            None => {
                proof {
                    lemma_index_lookup_none(self.index.segments@, kind@);
                }
                return Err(CoreFsError::NotFound(msg("segment not found on device")));
            },
        };
        proof {
            let i = choose|i: int| 0 <= i < self.index.segments@.len() && self.index.segments@[i] == loc
                && loc.kind@ == kind@
                && forall|j: int| 0 <= j < i ==> (#[trigger] self.index.segments@[j]).kind@ != kind@;
            lemma_index_lookup_some(self.index.segments@, kind@, i);
        }
        let data = read_segment_from_device(&self.device, &loc)?;
        let copy = data.clone();
        self.read_cache.insert(*kind, copy);
        Ok(data)
    }

    /// Stage `data` as the new payload of segment `kind`; it reaches the
    /// device on the next flush.
    pub fn write_segment(&mut self, kind: [u8; 4], data: Vec<u8>)
        requires
            old(self).wf(),
        ensures
            final(self).wf(),
            final(self).spec_device() == old(self).spec_device(),
            final(self).spec_index() == old(self).spec_index(),
            final(self).spec_journal_offset() == old(self).spec_journal_offset(),
            final(self).cached() == old(self).cached().remove(kind@),
            final(self).dirty() == old(self).dirty().insert(kind@, data@),
    {
        let _ = self.read_cache.remove(&kind);
        self.write_buffer.insert(kind, data);
    }

    /// Whether any segment awaits a flush.
    pub fn is_dirty(&self) -> (r: bool)
        requires
            self.wf(),
        ensures
            r <==> self.dirty().dom().len() > 0,
    {
        !self.write_buffer.is_empty()
    }

    /// Drop every cached segment; later reads go to the device.
    pub fn invalidate_cache(&mut self)
        requires
            old(self).wf(),
        ensures
            final(self).wf(),
            final(self).spec_device() == old(self).spec_device(),
            final(self).spec_index() == old(self).spec_index(),
            final(self).spec_journal_offset() == old(self).spec_journal_offset(),
            final(self).dirty() == old(self).dirty(),
            final(self).cached() == Map::<Seq<u8>, Seq<u8>>::empty(),
    {
        self.read_cache.clear();
    }

    /// Number of cached segments.
    pub fn cached_segment_count(&self) -> (r: usize)
        requires
            self.wf(),
        ensures
            r == self.cached().dom().len(),
    {
        self.read_cache.len()
    }

    /// Number of segments awaiting a flush.
    pub fn dirty_segment_count(&self) -> (r: usize)
        requires
            self.wf(),
        ensures
            r == self.dirty().dom().len(),
    {
        self.write_buffer.len()
    }

    /// The device underneath.
    pub fn device(&self) -> (r: &D)
        ensures
            *r == self.spec_device(),
    {
        &self.device
    }

    /// The device underneath, for writing (journal commits).
    pub fn device_mut(&mut self) -> (r: &mut D)
        ensures
            *r == old(self).spec_device(),
            final(self).spec_device() == *final(r),
            final(self).spec_index() == old(self).spec_index(),
            final(self).cached() == old(self).cached(),
            final(self).dirty() == old(self).dirty(),
            final(self).spec_journal_offset() == old(self).spec_journal_offset(),
            old(self).wf() && final(r).inv() ==> final(self).wf(),
    {
        &mut self.device
    }

    /// Start of the journal region on the device.
    pub fn journal_offset(&self) -> (r: u64)
        ensures
            r == self.spec_journal_offset(),
    {
        self.journal_offset
    }
}

/// One encoded directory entry: kind, four zero bytes, offset, length.
pub open spec fn entry_bytes(e: SegmentLocation) -> Seq<u8> {
    e.kind@ + spec_u32_to_le_bytes(0) + spec_u64_to_le_bytes(e.offset) + spec_u64_to_le_bytes(e.length)
}

/// Encoded directory.
pub open spec fn dir_bytes(s: Seq<SegmentLocation>) -> Seq<u8>
    decreases s.len(),
{
    if s.len() == 0 {
        Seq::empty()
    } else {
        dir_bytes(s.drop_last()) + entry_bytes(s.last())
    }
}

pub(crate) proof fn lemma_entry_bytes(e: SegmentLocation)
    ensures
        entry_bytes(e).len() == 24,
        entry_bytes(e).subrange(0, 4) == e.kind@,
        spec_u64_from_le_bytes(entry_bytes(e).subrange(8, 16)) == e.offset,
        spec_u64_from_le_bytes(entry_bytes(e).subrange(16, 24)) == e.length,
{
    lemma_auto_spec_u32_to_from_le_bytes();
    lemma_auto_spec_u64_to_from_le_bytes();
    let b = entry_bytes(e);
    assert(e.kind@.len() == 4);
    assert(b.subrange(0, 4) =~= e.kind@);
    assert(b.subrange(8, 16) =~= spec_u64_to_le_bytes(e.offset));
    assert(b.subrange(16, 24) =~= spec_u64_to_le_bytes(e.length));
}

pub(crate) proof fn lemma_dir_bytes(s: Seq<SegmentLocation>)
    ensures
        dir_bytes(s).len() == 24 * s.len(),
        forall|i: int| 0 <= i < s.len() ==> (#[trigger] dir_bytes(s).subrange(24 * i, 24 * i + 24)) == entry_bytes(s[i]),
    decreases s.len(),
{
    if s.len() > 0 {
        let t = s.drop_last();
        lemma_dir_bytes(t);
        lemma_entry_bytes(s.last());
        assert forall|i: int| 0 <= i < s.len() implies (#[trigger] dir_bytes(s).subrange(24 * i, 24 * i + 24)) == entry_bytes(s[i]) by {
            if i < t.len() {
                assert(dir_bytes(s).subrange(24 * i, 24 * i + 24) =~= dir_bytes(t).subrange(24 * i, 24 * i + 24));
                assert(t[i] == s[i]);
            } else {
                assert(dir_bytes(s).subrange(24 * i, 24 * i + 24) =~= entry_bytes(s.last()));
            }
        }
    }
}

/// Encode the directory for `entries`.
pub fn encode_directory(entries: &[SegmentLocation]) -> (r: Vec<u8>)
    ensures
        r@ == dir_bytes(entries@),
{
    let mut bytes: Vec<u8> = Vec::new();
    let mut i: usize = 0;
    while i < entries.len()
        invariant
            i <= entries@.len(),
            bytes@ == dir_bytes(entries@.subrange(0, i as int)),
        decreases entries@.len() - i,
    {
        let e = entries[i];
        let k: [u8; 4] = e.kind;
        let ghost before = bytes@;
        bytes.push(k[0]);
        bytes.push(k[1]);
        bytes.push(k[2]);
        bytes.push(k[3]);
        push_u32(&mut bytes, 0);
        push_u64(&mut bytes, e.offset);
        push_u64(&mut bytes, e.length);
        proof {
            assert(entries@.subrange(0, i as int + 1).drop_last() =~= entries@.subrange(0, i as int));
            assert(before.push(k[0]).push(k[1]).push(k[2]).push(k[3]) =~= before + k@);
        }
        i = i + 1;
    }
    proof {
        assert(entries@.subrange(0, i as int) =~= entries@);
    }
    bytes
}

/// Encoded superblock segment (56 bytes).
pub open spec fn superblock_bytes(
    segment_count: u32,
    clean_unmount: bool,
    directory_offset: u64,
    directory_length: u64,
    directory_checksum: u64,
    payload_checksum: u64,
    generation: u64,
) -> Seq<u8> {
    spec_u32_to_le_bytes(FORMAT_VERSION) + spec_u32_to_le_bytes(64) + spec_u32_to_le_bytes(segment_count)
        + spec_u32_to_le_bytes(if clean_unmount { 1u32 } else { 0u32 }) + spec_u64_to_le_bytes(generation)
        + spec_u64_to_le_bytes(directory_offset) + spec_u64_to_le_bytes(directory_length)
        + spec_u64_to_le_bytes(directory_checksum) + spec_u64_to_le_bytes(payload_checksum)
}

/// Encode a superblock segment.
pub fn encode_superblock(
    segment_count: u32,
    clean_unmount: bool,
    directory_offset: u64,
    directory_length: u64,
    directory_checksum: u64,
    payload_checksum: u64,
    generation: u64,
) -> (r: Vec<u8>)
    ensures
        r@ == superblock_bytes(segment_count, clean_unmount, directory_offset, directory_length,
            directory_checksum, payload_checksum, generation),
        r@.len() == 56,
{
    let mut bytes: Vec<u8> = Vec::new();
    push_u32(&mut bytes, FORMAT_VERSION);
    push_u32(&mut bytes, 64);
    push_u32(&mut bytes, segment_count);
    push_u32(&mut bytes, if clean_unmount { 1 } else { 0 });
    push_u64(&mut bytes, generation);
    push_u64(&mut bytes, directory_offset);
    push_u64(&mut bytes, directory_length);
    push_u64(&mut bytes, directory_checksum);
    push_u64(&mut bytes, payload_checksum);
    proof {
        lemma_auto_spec_u32_to_from_le_bytes();
        lemma_auto_spec_u64_to_from_le_bytes();
    }
    bytes
}

/// Nanoseconds since the Unix epoch, as the generation stamp of a
/// superblock.
///
/// Calls `std::time::SystemTime::now` and `duration_since(UNIX_EPOCH)`;
/// nothing is promised of the value (it reads the clock), and a clock set
/// before the epoch gives 0.
#[verifier::external_body]
pub(crate) fn now_nanos() -> u64 {
    match std::time::SystemTime::now().duration_since(std::time::UNIX_EPOCH) {
        Ok(d) => d.as_nanos() as u64,
        Err(_) => 0,
    }
}

/// Segment offsets for payload lengths `lens`: the first payload starts on
/// the first 64-byte boundary after the directory, every further payload on
/// the first 64-byte boundary after the previous one.
pub open spec fn laid_out(entries: Seq<SegmentLocation>) -> bool {
    &&& entries.len() > 0 ==> entries[0].offset == align_up_spec((16 + 24 * entries.len()) as int, 64)
    &&& forall|i: int| 0 <= i < entries.len() - 1 ==> #[trigger] entries[i + 1].offset == align_up_spec(
        entries[i].offset + entries[i].length, 64)
}

/// End of the last payload, aligned (the directory end when empty).
pub open spec fn layout_end(entries: Seq<SegmentLocation>) -> int {
    if entries.len() == 0 {
        align_up_spec((16 + 24 * entries.len()) as int, 64)
    } else {
        align_up_spec(entries.last().offset + entries.last().length, 64)
    }
}

/// Where the payload after the first `k` of `lens` would start, counting
/// from the end of a directory of `n` entries.
pub open spec fn layout_cursor(n: int, lens: Seq<u64>, k: int) -> int
    decreases k,
{
    if k <= 0 {
        align_up_spec(16 + 24 * n, 64)
    } else {
        align_up_spec(layout_cursor(n, lens, k - 1) + lens[k - 1], 64)
    }
}

/// The cursor only moves forward.
pub(crate) proof fn lemma_layout_cursor_grows(n: int, lens: Seq<u64>, j: int, k: int)
    requires
        0 <= n,
        0 <= j <= k,
    ensures
        16 + 24 * n <= layout_cursor(n, lens, j) <= layout_cursor(n, lens, k),
        j < k ==> layout_cursor(n, lens, j) + lens[j] <= layout_cursor(n, lens, k),
    decreases k,
{
    lemma_align_up(16 + 24 * n, 64);
    if k > 0 {
        lemma_layout_cursor_grows(n, lens, 0, k - 1);
        lemma_align_up(layout_cursor(n, lens, k - 1) + lens[k - 1], 64);
        if j < k {
            lemma_layout_cursor_grows(n, lens, j, k - 1);
        }
    }
}

/// Payload lengths of an image of `kinds`/`datas`: a superblock segment
/// holds the 56-byte superblock, every other one its data.
pub open spec fn stored_lens(kinds: Seq<[u8; 4]>, datas: Seq<Vec<u8>>) -> Seq<u64> {
    Seq::new(kinds.len(), |j: int| if is_superblock_kind(kinds[j]@) { 56u64 } else { datas[j]@.len() as u64 })
}

/// An image of `kinds`/`datas`, padded to `ss`-byte sectors, can be laid
/// out, fits in `cap` bytes and in memory.
pub open spec fn image_fits(kinds: Seq<[u8; 4]>, datas: Seq<Vec<u8>>, ss: int, cap: int) -> bool {
    let end = layout_cursor(kinds.len() as int, stored_lens(kinds, datas), kinds.len() as int);
    &&& end <= u64::MAX
    &&& align_up_spec(end, ss) <= cap
    &&& align_up_spec(end, ss) <= usize::MAX
    &&& kinds.len() <= u32::MAX
}

/// Lay out segments of the given kinds and lengths; this fails exactly
/// where the layout runs past the `u64` range.
pub(crate) fn layout_segments(kinds: &Vec<[u8; 4]>, lens: &Vec<u64>) -> (r: CoreFsResult<(Vec<SegmentLocation>, u64)>)
    requires
        kinds@.len() == lens@.len(),
    ensures
        r is Ok <==> layout_cursor(kinds@.len() as int, lens@, kinds@.len() as int) <= u64::MAX,
        r matches Err(e) ==> e is State,
        r matches Ok((entries, total)) ==> {
            &&& entries@.len() == kinds@.len()
            &&& forall|i: int| 0 <= i < kinds@.len() ==> (#[trigger] entries@[i]).kind == kinds@[i]
                && entries@[i].length == lens@[i]
            &&& laid_out(entries@)
            &&& total == layout_end(entries@)
            &&& total == layout_cursor(kinds@.len() as int, lens@, kinds@.len() as int)
        },
{
    let n = kinds.len();
    proof {
        lemma_layout_cursor_grows(n as int, lens@, 0, n as int);
    }
    let dir_end = match (n as u64).checked_mul(24) {
        Some(v) => match v.checked_add(16) {
            Some(w) => w,
            None => { return Err(CoreFsError::State(msg("too many segments"))); },
        },
        None => { return Err(CoreFsError::State(msg("too many segments"))); },
    };
    let mut offset = match checked_align_up_u64(dir_end, 64) {
        Some(v) => v,
        None => { return Err(CoreFsError::State(msg("too many segments"))); },
    };
    let mut entries: Vec<SegmentLocation> = Vec::new();
    let mut i: usize = 0;
    while i < n
        invariant
            n == kinds@.len() == lens@.len(),
            dir_end == 16 + 24 * n,
            i <= n,
            entries@.len() == i,
            forall|j: int| 0 <= j < i ==> (#[trigger] entries@[j]).kind == kinds@[j] && entries@[j].length == lens@[j],
            i > 0 ==> entries@[0].offset == align_up_spec(16 + 24 * n, 64),
            forall|j: int| 0 <= j < i - 1 ==> #[trigger] entries@[j + 1].offset == align_up_spec(
                entries@[j].offset + entries@[j].length, 64),
            offset == if i == 0 { align_up_spec(16 + 24 * n, 64) } else {
                align_up_spec(entries@[i - 1].offset + entries@[i - 1].length, 64) },
            offset == layout_cursor(n as int, lens@, i as int),
        decreases n - i,
    {
        let len = lens[i];
        proof {
            lemma_layout_cursor_grows(n as int, lens@, i as int, n as int);
            lemma_layout_cursor_grows(n as int, lens@, i + 1, n as int);
            lemma_align_up(offset + len, 64);
        }
        let end = match offset.checked_add(len) {
            Some(v) => v,
            None => { return Err(CoreFsError::State(msg("volume image exceeds the addressable range"))); },
        };
        let next = match checked_align_up_u64(end, 64) {
            Some(v) => v,
            None => { return Err(CoreFsError::State(msg("volume image exceeds the addressable range"))); },
        };
        entries.push(SegmentLocation { kind: kinds[i], offset, length: len });
        offset = next;
        i = i + 1;
    }
    Ok((entries, offset))
}

/// The assembled image: header, directory, payloads at their offsets,
/// zeros elsewhere up to `padded` bytes.
pub(crate) fn assemble_image(entries: &Vec<SegmentLocation>, datas: &Vec<Vec<u8>>, dir: &Vec<u8>, padded: u64, version: u32) -> (r: Vec<u8>)
    requires
        entries@.len() == datas@.len(),
        entries@.len() <= u32::MAX,
        dir@.len() == 24 * entries@.len(),
        laid_out(entries@),
        forall|i: int| 0 <= i < entries@.len() ==> (#[trigger] entries@[i]).length == datas@[i]@.len(),
        layout_end(entries@) <= padded,
        padded <= usize::MAX,
    ensures
        r@.len() == padded,
        r@.subrange(0, 8) == volume_magic(),
        le_u32_at(r@, 8) == version,
        le_u32_at(r@, 12) == entries@.len(),
        r@.subrange(16, (16 + dir@.len()) as int) == dir@,
        forall|i: int| 0 <= i < entries@.len() ==> r@.subrange(
            (#[trigger] entries@[i]).offset as int, entries@[i].offset + entries@[i].length) == datas@[i]@,
{
    let n = entries.len();
    let mut out = volume_magic_bytes();
    push_u32(&mut out, version);
    push_u32(&mut out, n as u32);
    push_bytes(&mut out, dir.as_slice());
    let ghost hdr = out@;
    proof {
        lemma_auto_spec_u32_to_from_le_bytes();
        lemma_align_up(16 + 24 * n, 64);
        assert(hdr.subrange(0, 8) =~= volume_magic());
        assert(hdr.subrange(8, 12) =~= spec_u32_to_le_bytes(version));
        assert(hdr.subrange(12, 16) =~= spec_u32_to_le_bytes(n as u32));
        assert(hdr.subrange(16, (16 + dir@.len()) as int) =~= dir@);
    }
    let mut i: usize = 0;
    while i < n
        invariant
            n == entries@.len() == datas@.len(),
            dir@.len() == 24 * n,
            hdr.len() == 16 + 24 * n,
            laid_out(entries@),
            forall|j: int| 0 <= j < n ==> (#[trigger] entries@[j]).length == datas@[j]@.len(),
            layout_end(entries@) <= padded <= usize::MAX,
            i <= n,
            out@.len() == if i == 0 { hdr.len() as int } else { entries@[i - 1].offset + entries@[i - 1].length },
            out@.len() >= hdr.len(),
            out@.subrange(0, hdr.len() as int) == hdr,
            forall|j: int| 0 <= j < i ==> out@.subrange(
                (#[trigger] entries@[j]).offset as int, entries@[j].offset + entries@[j].length) == datas@[j]@,
        decreases n - i,
    {
        let e = entries[i];
        proof {
            if i == 0 {
                lemma_align_up(16 + 24 * n, 64);
            } else {
                lemma_align_up(entries@[i - 1].offset + entries@[i - 1].length, 64);
                assert(entries@[(i - 1) + 1].offset == align_up_spec(entries@[i - 1].offset + entries@[i - 1].length, 64));
            }
            lemma_layout_bound(entries@, i as int);
        }
        let gap = (e.offset - out.len() as u64) as usize;
        let ghost before = out@;
        push_zeros(&mut out, gap);
        push_bytes(&mut out, datas[i].as_slice());
        proof {
            assert(out@.subrange(0, hdr.len() as int) =~= before.subrange(0, hdr.len() as int));
            lemma_layout_first(entries@, i as int);
            assert forall|j: int| 0 <= j < i + 1 implies out@.subrange(
                (#[trigger] entries@[j]).offset as int, entries@[j].offset + entries@[j].length) == datas@[j]@ by {
                if j < i {
                    lemma_layout_order(entries@, j, i as int - 1);
                    assert(out@.subrange(entries@[j].offset as int, entries@[j].offset + entries@[j].length)
                        =~= before.subrange(entries@[j].offset as int, entries@[j].offset + entries@[j].length));
                } else {
                    assert(out@.subrange(entries@[j].offset as int, entries@[j].offset + entries@[j].length) =~= datas@[j]@);
                }
            }
        }
        i = i + 1;
    }
    proof {
        if n > 0 {
            lemma_align_up(entries@[n - 1].offset + entries@[n - 1].length, 64);
        } else {
            lemma_align_up(16 + 24 * n, 64);
        }
    }
    let ghost before = out@;
    let tail = (padded - out.len() as u64) as usize;
    push_zeros(&mut out, tail);
    proof {
        assert(out@.subrange(0, hdr.len() as int) =~= before.subrange(0, hdr.len() as int));
        assert(out@.subrange(0, 8) =~= hdr.subrange(0, 8));
        assert(out@.subrange(8, 12) =~= hdr.subrange(8, 12));
        assert(out@.subrange(12, 16) =~= hdr.subrange(12, 16));
        assert(out@.subrange(16, (16 + dir@.len()) as int) =~= hdr.subrange(16, (16 + dir@.len()) as int));
        assert forall|j: int| 0 <= j < n implies out@.subrange(
            (#[trigger] entries@[j]).offset as int, entries@[j].offset + entries@[j].length) == datas@[j]@ by {
            lemma_layout_order(entries@, j, n - 1);
            assert(out@.subrange(entries@[j].offset as int, entries@[j].offset + entries@[j].length)
                =~= before.subrange(entries@[j].offset as int, entries@[j].offset + entries@[j].length));
        }
    }
    out
}

pub(crate) proof fn lemma_layout_bound(entries: Seq<SegmentLocation>, i: int)
    requires
        laid_out(entries),
        0 <= i < entries.len(),
    ensures
        16 + 24 * entries.len() <= entries[i].offset,
        entries[i].offset + entries[i].length <= layout_end(entries),
    decreases entries.len() - i,
{
    lemma_align_up((16 + 24 * entries.len()) as int, 64);
    lemma_align_up(entries[i].offset + entries[i].length, 64);
    if i > 0 {
        assert(entries[(i - 1) + 1].offset == align_up_spec(entries[i - 1].offset + entries[i - 1].length, 64));
        lemma_align_up(entries[i - 1].offset + entries[i - 1].length, 64);
        lemma_layout_first(entries, i);
    }
    if i < entries.len() - 1 {
        lemma_layout_bound(entries, i + 1);
        assert(entries[i + 1].offset == align_up_spec(entries[i].offset + entries[i].length, 64));
    }
}

proof fn lemma_layout_first(entries: Seq<SegmentLocation>, i: int)
    requires
        laid_out(entries),
        0 <= i < entries.len(),
    ensures
        16 + 24 * entries.len() <= entries[i].offset,
    decreases i,
{
    lemma_align_up((16 + 24 * entries.len()) as int, 64);
    if i > 0 {
        lemma_layout_first(entries, i - 1);
        assert(entries[(i - 1) + 1].offset == align_up_spec(entries[i - 1].offset + entries[i - 1].length, 64));
        lemma_align_up(entries[i - 1].offset + entries[i - 1].length, 64);
    }
}

proof fn lemma_layout_order(entries: Seq<SegmentLocation>, j: int, k: int)
    requires
        laid_out(entries),
        0 <= j <= k < entries.len(),
    ensures
        entries[j].offset + entries[j].length <= entries[k].offset + entries[k].length,
    decreases k - j,
{
    if j < k {
        lemma_layout_order(entries, j, k - 1);
        assert(entries[(k - 1) + 1].offset == align_up_spec(entries[k - 1].offset + entries[k - 1].length, 64));
        lemma_align_up(entries[k - 1].offset + entries[k - 1].length, 64);
    }
}

/// Write `bytes` at the start of `device`, one sector at a time, then sync.
pub(crate) fn write_image<D: BlockDevice>(device: &mut D, bytes: &Vec<u8>) -> (r: CoreFsResult<()>)
    requires
        old(device).inv(),
    ensures
        final(device).inv(),
        final(device).spec_geometry() == old(device).spec_geometry(),
        final(device).stores_writes() == old(device).stores_writes(),
        r is Ok && old(device).stores_writes() ==> bytes@.len() <= old(device).content().len()
            && final(device).content().subrange(0, bytes@.len() as int) == bytes@
            && final(device).content().len() == old(device).content().len(),
{
    proof {
        device.lemma_inv();
    }
    let ss = device.sector_size() as usize;
    let total = bytes.len();
    let mut w: usize = 0;
    while w < total
        invariant
            device.inv(),
            device.spec_geometry() == old(device).spec_geometry(),
            device.stores_writes() == old(device).stores_writes(),
            ss > 0,
            ss == old(device).spec_geometry().sector_size,
            total == bytes@.len(),
            w <= total,
            device.stores_writes() ==> w <= device.content().len()
                && device.content().subrange(0, w as int) == bytes@.subrange(0, w as int)
                && device.content().len() == old(device).content().len(),
        decreases total - w,
    {
        let end = if total - w > ss { w + ss } else { total };
        let chunk = copy_range(bytes.as_slice(), w, end);
        let ghost before = device.content();
        proof {
            device.lemma_inv();
        }
        device.write_at(w as u64, chunk.as_slice())?;
        proof {
            if device.stores_writes() {
                assert(device.content().subrange(0, end as int) =~= bytes@.subrange(0, end as int)) by {
                    assert(device.content() == overwrite(before, w as int, chunk@));
                    assert forall|k: int| 0 <= k < end implies device.content()[k] == bytes@[k] by {
                        if k < w {
                            assert(before.subrange(0, w as int)[k] == bytes@.subrange(0, w as int)[k]);
                        }
                    }
                }
            }
        }
        w = end;
    }
    device.sync()?;
    proof {
        if device.stores_writes() {
            assert(bytes@.subrange(0, total as int) =~= bytes@);
        }
    }
    Ok(())
}

/// No other segment of `segs` has the kind of segment `i`.
pub open spec fn kind_once(segs: Seq<SegmentLocation>, i: int) -> bool {
    forall|j: int| 0 <= j < segs.len() && j != i ==> (#[trigger] segs[j]).kind@ != segs[i].kind@
}

/// No earlier segment of `segs` has the kind of segment `i`.
pub open spec fn first_of_kind(segs: Seq<SegmentLocation>, i: int) -> bool {
    forall|j: int| 0 <= j < i ==> (#[trigger] segs[j]).kind@ != segs[i].kind@
}

/// A flush takes segment `i` without reading the device: from an
/// unflushed write, from the cache, or because it is empty.
pub open spec fn served_without_device(
    dirty: Map<Seq<u8>, Seq<u8>>,
    cached: Map<Seq<u8>, Seq<u8>>,
    segs: Seq<SegmentLocation>,
    i: int,
) -> bool {
    ||| dirty.contains_key(segs[i].kind@) && first_of_kind(segs, i)
    ||| cached.contains_key(segs[i].kind@)
    ||| segs[i].length == 0
}

/// Payload that a flush takes for segment `i` of the current directory:
/// the unflushed write (for the first segment of that kind), else the
/// cached copy, else the bytes on the device.
pub open spec fn pending_data(
    dirty: Map<Seq<u8>, Seq<u8>>,
    cached: Map<Seq<u8>, Seq<u8>>,
    content: Seq<u8>,
    segs: Seq<SegmentLocation>,
    i: int,
) -> Seq<u8> {
    let k = segs[i].kind@;
    if dirty.contains_key(k) && first_of_kind(segs, i) {
        dirty[k]
    } else if cached.contains_key(k) {
        cached[k]
    } else {
        segment_bytes(content, segs[i])
    }
}

/// The first `n` collected segments are the directory's, with the
/// payloads a flush takes for them.
pub open spec fn collected_prefix(
    kinds: Seq<[u8; 4]>,
    datas: Seq<Vec<u8>>,
    dirty: Map<Seq<u8>, Seq<u8>>,
    cached: Map<Seq<u8>, Seq<u8>>,
    content: Seq<u8>,
    segs: Seq<SegmentLocation>,
    n: int,
) -> bool {
    &&& kinds.len() >= n
    &&& datas.len() >= n
    &&& forall|j: int| 0 <= j < n ==> (#[trigger] kinds[j])@ == segs[j].kind@
        && datas[j]@ == pending_data(dirty, cached, content, segs, j)
}

/// The segments collected after the first `n` are unflushed segments of
/// kinds absent from the directory, each kind once, with their payloads.
pub open spec fn collected_new(
    kinds: Seq<[u8; 4]>,
    datas: Seq<Vec<u8>>,
    dirty: Map<Seq<u8>, Seq<u8>>,
    segs: Seq<SegmentLocation>,
    n: int,
) -> bool {
    &&& forall|t: int| n <= t < kinds.len() ==> dirty.contains_key((#[trigger] kinds[t])@)
        && datas[t]@ == dirty[kinds[t]@]
        && forall|j: int| 0 <= j < n ==> (#[trigger] segs[j]).kind@ != kinds[t]@
    &&& forall|t1: int, t2: int| n <= t1 < kinds.len() && n <= t2 < kinds.len() && t1 != t2
        ==> (#[trigger] kinds[t1])@ != (#[trigger] kinds[t2])@
}

/// `kinds`/`datas` are the segments that a flush of `v` writes, in some
/// order of its new kinds: the directory's segments with their pending
/// payloads, then every unflushed new kind once.
pub open spec fn pending_collection<D: BlockDevice>(v: DeviceVolume<D>, kinds: Seq<[u8; 4]>, datas: Seq<Vec<u8>>) -> bool {
    let segs = v.spec_index().segments@;
    &&& kinds.len() == datas.len()
    &&& collected_prefix(kinds, datas, v.dirty(), v.cached(), v.spec_device().content(), segs, segs.len() as int)
    &&& collected_new(kinds, datas, v.dirty(), segs, segs.len() as int)
    &&& covers_kinds(kinds, v.dirty())
}

/// Every kind of `dirty` occurs in `kinds`.
pub open spec fn covers_kinds(kinds: Seq<[u8; 4]>, dirty: Map<Seq<u8>, Seq<u8>>) -> bool {
    forall|k: Seq<u8>| #[trigger] dirty.contains_key(k) ==> exists|t: int| 0 <= t < kinds.len() && (#[trigger] kinds[t])@ == k
}

proof fn lemma_collected_extend(
    kinds: Seq<[u8; 4]>,
    datas: Seq<Vec<u8>>,
    dirty: Map<Seq<u8>, Seq<u8>>,
    cached: Map<Seq<u8>, Seq<u8>>,
    content: Seq<u8>,
    segs: Seq<SegmentLocation>,
    n: int,
    kind: [u8; 4],
    data: Vec<u8>,
)
    requires
        0 <= n < segs.len(),
        kinds.len() == n,
        datas.len() == n,
        collected_prefix(kinds, datas, dirty, cached, content, segs, n),
        kind@ == segs[n].kind@,
        data@ == pending_data(dirty, cached, content, segs, n),
    ensures
        collected_prefix(kinds.push(kind), datas.push(data), dirty, cached, content, segs, n + 1),
{
    let k2 = kinds.push(kind);
    let d2 = datas.push(data);
    assert forall|j: int| 0 <= j < n + 1 implies (#[trigger] k2[j])@ == segs[j].kind@
        && d2[j]@ == pending_data(dirty, cached, content, segs, j) by {
        if j < n {
            assert(k2[j] == kinds[j]);
            assert(d2[j] == datas[j]);
        }
    }
}

proof fn lemma_collected_keep(
    kinds: Seq<[u8; 4]>,
    datas: Seq<Vec<u8>>,
    dirty: Map<Seq<u8>, Seq<u8>>,
    cached: Map<Seq<u8>, Seq<u8>>,
    content: Seq<u8>,
    segs: Seq<SegmentLocation>,
    n: int,
    kind: [u8; 4],
    data: Vec<u8>,
)
    requires
        0 <= n,
        collected_prefix(kinds, datas, dirty, cached, content, segs, n),
    ensures
        collected_prefix(kinds.push(kind), datas.push(data), dirty, cached, content, segs, n),
{
    let k2 = kinds.push(kind);
    let d2 = datas.push(data);
    assert forall|j: int| 0 <= j < n implies (#[trigger] k2[j])@ == segs[j].kind@
        && d2[j]@ == pending_data(dirty, cached, content, segs, j) by {
        assert(k2[j] == kinds[j]);
        assert(d2[j] == datas[j]);
    }
}

impl<D: BlockDevice> DeviceVolume<D> {
    /// Gather the payload of every segment (directory order first, then
    /// unflushed segments of new kinds) and empty the write buffer.
    fn collect_segments(&mut self) -> (r: CoreFsResult<(Vec<[u8; 4]>, Vec<Vec<u8>>)>)
        requires
            old(self).wf(),
        ensures
            final(self).wf(),
            final(self).spec_device() == old(self).spec_device(),
            final(self).spec_index() == old(self).spec_index(),
            final(self).cached() == old(self).cached(),
            final(self).spec_journal_offset() == old(self).spec_journal_offset(),
            (forall|j: int| 0 <= j < old(self).spec_index().segments@.len() ==> #[trigger] served_without_device(
                old(self).dirty(), old(self).cached(), old(self).spec_index().segments@, j)) ==> r is Ok,
            r matches Ok((kinds, datas)) ==> {
                let segs = old(self).spec_index().segments@;
                let n = segs.len();
                &&& final(self).dirty() == Map::<Seq<u8>, Seq<u8>>::empty()
                &&& kinds@.len() == datas@.len() >= n
                &&& collected_prefix(kinds@, datas@, old(self).dirty(), old(self).cached(),
                        old(self).spec_device().content(), segs, n as int)
                &&& collected_new(kinds@, datas@, old(self).dirty(), segs, n as int)
                &&& covers_kinds(kinds@, old(self).dirty())
            },
    {
        let ghost dirty0 = self.write_buffer.map();
        let ghost cached0 = self.read_cache.map();
        let ghost content = self.device.content();
        let ghost segs = self.index.segments@;
        let n = self.index.segments.len();
        let mut kinds: Vec<[u8; 4]> = Vec::new();
        let mut datas: Vec<Vec<u8>> = Vec::new();
        let mut i: usize = 0;
        while i < n
            invariant
                self.wf(),
                self.device.content() == content,
                self.index.segments@ == segs,
                self.read_cache.map() == cached0,
                self.spec_device() == old(self).spec_device(),
                self.spec_index() == old(self).spec_index(),
                self.spec_journal_offset() == old(self).spec_journal_offset(),
                dirty0 == old(self).dirty(),
                cached0 == old(self).cached(),
                content == old(self).spec_device().content(),
                segs == old(self).spec_index().segments@,
                n == segs.len(),
                i <= n,
                kinds@.len() == i,
                datas@.len() == i,
                collected_prefix(kinds@, datas@, dirty0, cached0, content, segs, i as int),
                forall|k: Seq<u8>| #[trigger] self.write_buffer.map().contains_key(k) <==> (dirty0.contains_key(k)
                    && forall|j: int| 0 <= j < i ==> (#[trigger] segs[j]).kind@ != k),
                forall|k: Seq<u8>| #[trigger] self.write_buffer.map().contains_key(k) ==> self.write_buffer.map()[k] == dirty0[k],
            decreases n - i,
        {
            let loc = self.index.segments[i];
            let kind = loc.kind;
            let ghost wb = self.write_buffer.map();
            let data = match self.write_buffer.remove(&kind) {
                Some(d) => {
                    proof {
                        assert(first_of_kind(segs, i as int));
                    }
                    d
                },
                None => {
                    proof {
                        if dirty0.contains_key(kind@) && first_of_kind(segs, i as int) {
                            assert(wb.contains_key(kind@));
                        }
                    }
                    match self.read_cache.get(&kind) {
                        Some(c) => c.clone(),
                        None => {
                            proof {
                                assert(!served_without_device(dirty0, cached0, segs, i as int) || loc.length == 0);
                            }
                            read_segment_from_device(&self.device, &loc)?
                        },
                    }
                },
            };
            let ghost dv = data@;
            proof {
                assert(kind@ == segs[i as int].kind@);
                assert(dv == pending_data(dirty0, cached0, content, segs, i as int));
            }
            proof {
                lemma_collected_extend(kinds@, datas@, dirty0, cached0, content, segs, i as int, kind, data);
            }
            kinds.push(kind);
            datas.push(data);
            proof {
                assert forall|k: Seq<u8>| #[trigger] self.write_buffer.map().contains_key(k) <==> (dirty0.contains_key(k)
                    && forall|j: int| 0 <= j < i + 1 ==> (#[trigger] segs[j]).kind@ != k) by {
                    if dirty0.contains_key(k) && k != kind@ && (forall|j: int| 0 <= j < i ==> (#[trigger] segs[j]).kind@ != k) {
                        assert forall|j: int| 0 <= j < i + 1 implies (#[trigger] segs[j]).kind@ != k by {
                            if j == i {
                                assert(segs[j] == loc);
                            }
                        }
                    }
                    if !(forall|j: int| 0 <= j < i ==> (#[trigger] segs[j]).kind@ != k) {
                        let w = choose|j: int| 0 <= j < i && !((#[trigger] segs[j]).kind@ != k);
                        assert(0 <= w < i + 1 && segs[w].kind@ == k);
                    }
                    if k == kind@ {
                        assert(segs[i as int].kind@ == k);
                    }
                }
            }
            i = i + 1;
        }
        let ghost rest = self.write_buffer.map();
        let entries = self.write_buffer.entries();
        let m = entries.len();
        let mut t: usize = 0;
        while t < m
            invariant
                forall|q1: int, q2: int| 0 <= q1 < entries@.len() && 0 <= q2 < entries@.len() && q1 != q2
                    ==> (#[trigger] entries@[q1]).0@ != (#[trigger] entries@[q2]).0@,
                forall|k: Seq<u8>| #[trigger] rest.contains_key(k) ==> exists|q: int| 0 <= q < entries@.len() && entries@[q].0@ == k,
                forall|q: int| 0 <= q < entries@.len() ==> rest.contains_key(#[trigger] entries@[q].0@),
                forall|q: int| 0 <= q < entries@.len() ==> rest[#[trigger] entries@[q].0@] == entries@[q].1@,
                forall|k: Seq<u8>| #[trigger] rest.contains_key(k) <==> (dirty0.contains_key(k)
                    && forall|j: int| 0 <= j < n ==> (#[trigger] segs[j]).kind@ != k),
                forall|k: Seq<u8>| #[trigger] rest.contains_key(k) ==> rest[k] == dirty0[k],
                m == entries@.len(),
                n == segs.len(),
                t <= m,
                kinds@.len() == n + t,
                datas@.len() == n + t,
                collected_prefix(kinds@, datas@, dirty0, cached0, content, segs, n as int),
                forall|p: int| n <= p < n + t ==> (#[trigger] kinds@[p]) == entries@[p - n].0 && datas@[p]@ == entries@[p - n].1@,
            decreases m - t,
        {
            let k = entries[t].0;
            let d = entries[t].1.clone();
            let ghost ok = kinds@;
            let ghost od = datas@;
            proof {
                lemma_collected_keep(ok, od, dirty0, cached0, content, segs, n as int, k, d);
            }
            kinds.push(k);
            datas.push(d);
            proof {
                assert forall|p: int| n <= p < n + t + 1 implies (#[trigger] kinds@[p]) == entries@[p - n].0
                    && datas@[p]@ == entries@[p - n].1@ by {
                    if p < n + t {
                        assert(kinds@[p] == ok[p]);
                        assert(datas@[p] == od[p]);
                    }
                }
            }
            t = t + 1;
        }
        proof {
            assert(collected_new(kinds@, datas@, dirty0, segs, n as int)) by {
            assert forall|t1: int, t2: int| n <= t1 < kinds@.len() && n <= t2 < kinds@.len() && t1 != t2
                implies (#[trigger] kinds@[t1])@ != (#[trigger] kinds@[t2])@ by {
                assert(kinds@[t1] == entries@[t1 - n].0);
                assert(kinds@[t2] == entries@[t2 - n].0);
                assert(entries@[t1 - n].0@ != entries@[t2 - n].0@);
            }
            assert forall|tt: int| n <= tt < kinds@.len() implies old(self).dirty().contains_key((#[trigger] kinds@[tt])@)
                && datas@[tt]@ == old(self).dirty()[kinds@[tt]@]
                && forall|j: int| 0 <= j < n ==> (#[trigger] segs[j]).kind@ != kinds@[tt]@ by {
                assert(kinds@[tt] == entries@[tt - n].0);
                assert(rest.contains_key(entries@[tt - n].0@));
            }
            }
            assert(covers_kinds(kinds@, dirty0)) by {
            assert forall|k: Seq<u8>| #[trigger] old(self).dirty().contains_key(k) implies exists|tt: int|
                0 <= tt < kinds@.len() && (#[trigger] kinds@[tt])@ == k by {
                if rest.contains_key(k) {
                    let q = choose|q: int| 0 <= q < entries@.len() && entries@[q].0@ == k;
                    assert(kinds@[n + q] == entries@[q].0);
                } else {
                    let w = choose|j: int| 0 <= j < n && !((#[trigger] segs[j]).kind@ != k);
                    assert(kinds@[w]@ == k);
                }
            }
            }
        }
        self.write_buffer.clear();
        Ok((kinds, datas))
    }
}

/// What a successful flush of a volume with unflushed segments leaves:
/// an empty write buffer; a directory that keeps the old segments in
/// order and adds the new kinds after them, laid out back to back; every
/// segment cached with the payload that was flushed for it; and, on a
/// device that stores writes, that very image on the device.
pub open spec fn flushed<D: BlockDevice>(o: DeviceVolume<D>, f: DeviceVolume<D>) -> bool {
    let os = o.spec_index().segments@;
    let segs = f.spec_index().segments@;
    let n = os.len();
    let ss = o.spec_device().spec_geometry().sector_size as int;
    &&& f.dirty() == Map::<Seq<u8>, Seq<u8>>::empty()
    &&& f.spec_device().spec_geometry() == o.spec_device().spec_geometry()
    &&& f.spec_device().stores_writes() == o.spec_device().stores_writes()
    &&& segs.len() >= n
    &&& f.spec_index().segment_count == segs.len()
    &&& forall|i: int| 0 <= i < n ==> (#[trigger] segs[i]).kind@ == os[i].kind@
    &&& forall|k: Seq<u8>| #[trigger] o.dirty().contains_key(k) ==> exists|i: int| 0 <= i < segs.len() && (#[trigger] segs[i]).kind@ == k
    &&& laid_out(segs)
    &&& f.spec_index().image_end == align_up_spec(layout_end(segs), ss)
    &&& f.spec_journal_offset() == align_up_spec(f.spec_index().image_end as int, ss)
    &&& forall|i: int| 0 <= i < segs.len() ==> f.cached().contains_key((#[trigger] segs[i]).kind@)
    &&& forall|i: int| 0 <= i < segs.len() && kind_once(segs, i) ==> (#[trigger] segs[i]).length == f.cached()[segs[i].kind@].len()
    &&& forall|i: int| 0 <= i < n && kind_once(segs, i) && !is_superblock_kind(os[i].kind@)
        ==> f.cached()[(#[trigger] segs[i]).kind@] == pending_data(o.dirty(), o.cached(), o.spec_device().content(), os, i)
    &&& forall|t: int| n <= t < segs.len() && kind_once(segs, t) && !is_superblock_kind(segs[t].kind@)
        ==> f.cached()[(#[trigger] segs[t]).kind@] == o.dirty()[segs[t].kind@]
    &&& forall|i: int| 0 <= i < segs.len() && kind_once(segs, i) && is_superblock_kind((#[trigger] segs[i]).kind@)
        ==> exists|pc: u64, g: u64| f.cached()[segs[i].kind@] == #[trigger] superblock_bytes(segs.len() as u32, true, 16,
            (24 * segs.len()) as u64, fold_checksum(dir_bytes(segs)), pc, g)
    &&& o.spec_device().stores_writes() ==> {
        &&& directory_of_image(f.spec_index(), f.spec_device().content())
        &&& forall|i: int| 0 <= i < segs.len() && kind_once(segs, i)
            ==> segment_bytes(f.spec_device().content(), #[trigger] segs[i]) == f.cached()[segs[i].kind@]
    }
}

/// A flush writes what was written: after a successful flush of `o` into
/// `f` on a device that stores writes, a kind `k` written since the last
/// flush (not a superblock kind, and once in the new directory) is found
/// in the directory at a location whose bytes on the device are the data
/// written; so, with the cache dropped, reading `k` gives that data back.
/// A segment of the old directory that was not written keeps the bytes it
/// had (its cached copy, else what the device held).
pub proof fn lemma_flush_then_read<D: BlockDevice>(o: DeviceVolume<D>, f: DeviceVolume<D>, k: Seq<u8>)
    requires
        flushed(o, f),
        o.spec_device().stores_writes(),
        o.dirty().contains_key(k),
        !is_superblock_kind(k),
        forall|a: int, b: int| 0 <= a < b < f.spec_index().segments@.len()
            ==> (#[trigger] f.spec_index().segments@[a]).kind@ != (#[trigger] f.spec_index().segments@[b]).kind@,
    ensures
        index_lookup(f.spec_index().segments@, k) matches Some(loc)
            && segment_bytes(f.spec_device().content(), loc) == o.dirty()[k],
        forall|i: int| 0 <= i < o.spec_index().segments@.len()
            && !o.dirty().contains_key((#[trigger] o.spec_index().segments@[i]).kind@)
            && !is_superblock_kind(o.spec_index().segments@[i].kind@)
            ==> segment_bytes(f.spec_device().content(), f.spec_index().segments@[i])
                == pending_data(o.dirty(), o.cached(), o.spec_device().content(), o.spec_index().segments@, i),
{
    let os = o.spec_index().segments@;
    let segs = f.spec_index().segments@;
    let n = os.len() as int;
    let i = choose|i: int| 0 <= i < segs.len() && (#[trigger] segs[i]).kind@ == k;
    assert(kind_once(segs, i)) by {
        assert forall|j: int| 0 <= j < segs.len() && j != i implies (#[trigger] segs[j]).kind@ != segs[i].kind@ by {
            if j < i {
                assert(segs[j].kind@ != segs[i].kind@);
            } else {
                assert(segs[i].kind@ != segs[j].kind@);
            }
        }
    }
    if i < n {
        assert(first_of_kind(os, i)) by {
            assert forall|j: int| 0 <= j < i implies (#[trigger] os[j]).kind@ != os[i].kind@ by {
                assert(segs[j].kind@ == os[j].kind@);
                assert(segs[i].kind@ == os[i].kind@);
            }
        }
        assert(f.cached()[segs[i].kind@] == pending_data(o.dirty(), o.cached(), o.spec_device().content(), os, i));
    }
    lemma_index_lookup_some(segs, k, i);
    assert forall|q: int| 0 <= q < os.len()
        && !o.dirty().contains_key((#[trigger] os[q]).kind@) && !is_superblock_kind(os[q].kind@)
        implies segment_bytes(f.spec_device().content(), segs[q]) == pending_data(o.dirty(), o.cached(), o.spec_device().content(), os, q) by {
        assert(kind_once(segs, q)) by {
            assert forall|j: int| 0 <= j < segs.len() && j != q implies (#[trigger] segs[j]).kind@ != segs[q].kind@ by {
                if j < q {
                    assert(segs[j].kind@ != segs[q].kind@);
                } else {
                    assert(segs[q].kind@ != segs[j].kind@);
                }
            }
        }
        assert(segs[q].kind@ == os[q].kind@);
    }
}

proof fn lemma_image_directory(c: Seq<u8>, bytes: Seq<u8>, entries: Seq<SegmentLocation>, dir: Seq<u8>)
    requires
        bytes.len() <= c.len(),
        c.subrange(0, bytes.len() as int) == bytes,
        bytes.len() >= 16 + 24 * entries.len(),
        entries.len() <= u32::MAX,
        bytes.subrange(0, 8) == volume_magic(),
        le_u32_at(bytes, 8) == FORMAT_VERSION,
        le_u32_at(bytes, 12) == entries.len(),
        dir == dir_bytes(entries),
        bytes.subrange(16, (16 + dir.len()) as int) == dir,
    ensures
        header_ok(c),
        le_u32_at(c, 12) == entries.len(),
        forall|i: int| 0 <= i < entries.len() ==> entry_matches(#[trigger] entries[i], c, i),
{
    lemma_dir_bytes(entries);
    assert(c.subrange(0, 8) =~= bytes.subrange(0, 8));
    assert(c.subrange(8, 12) =~= bytes.subrange(8, 12));
    assert(c.subrange(12, 16) =~= bytes.subrange(12, 16));
    assert forall|i: int| 0 <= i < entries.len() implies entry_matches(#[trigger] entries[i], c, i) by {
        let e = entries[i];
        lemma_entry_bytes(e);
        let base = 16 + 24 * i;
        let eb = dir.subrange(24 * i, 24 * i + 24);
        assert(eb == entry_bytes(e));
        assert(c.subrange(base, base + 4) =~= eb.subrange(0, 4));
        assert(c.subrange(base + 8, base + 16) =~= eb.subrange(8, 16));
        assert(c.subrange(base + 16, base + 24) =~= eb.subrange(16, 24));
    }
}

/// `bytes` is an image with the header and directory of `entries` and
/// payload `fdatas[j]` at the place of entry `j`.
pub open spec fn image_bytes_ok(bytes: Seq<u8>, entries: Seq<SegmentLocation>, fdatas: Seq<Vec<u8>>) -> bool {
    &&& entries.len() <= u32::MAX
    &&& entries.len() == fdatas.len()
    &&& bytes.len() >= 16 + 24 * entries.len()
    &&& bytes.subrange(0, 8) == volume_magic()
    &&& le_u32_at(bytes, 8) == FORMAT_VERSION
    &&& le_u32_at(bytes, 12) == entries.len()
    &&& bytes.subrange(16, (16 + 24 * entries.len()) as int) == dir_bytes(entries)
    &&& forall|j: int| 0 <= j < entries.len() ==> (#[trigger] entries[j]).offset + entries[j].length <= bytes.len()
        && bytes.subrange(entries[j].offset as int, entries[j].offset + entries[j].length) == fdatas[j]@
}

/// Opening an image that was written whole gives back what was written:
/// when a device's bytes start with an image of directory `entries` and
/// payloads `fdatas` (as [`save_segments`] leaves it on a device that
/// stores writes), the directory that [`DeviceVolume::open`] reads is
/// `entries`, and the bytes of every segment, as
/// [`DeviceVolume::read_segment`] fetches them, are its payload.
pub proof fn lemma_saved_image_reads_back(
    bytes: Seq<u8>,
    entries: Seq<SegmentLocation>,
    fdatas: Seq<Vec<u8>>,
    c: Seq<u8>,
    idx: SegmentIndex,
)
    requires
        image_bytes_ok(bytes, entries, fdatas),
        bytes.len() <= c.len(),
        c.subrange(0, bytes.len() as int) == bytes,
        index_of_image(idx, c),
    ensures
        idx.segments@ == entries,
        forall|j: int| 0 <= j < entries.len() ==> segment_bytes(c, #[trigger] entries[j]) == fdatas[j]@,
{
    lemma_auto_spec_u32_to_from_le_bytes();
    lemma_auto_spec_u64_to_from_le_bytes();
    lemma_dir_bytes(entries);
    let n = entries.len() as int;
    assert(c.subrange(12, 16) =~= bytes.subrange(12, 16));
    assert(le_u32_at(c, 12) == n);
    let d = dir_bytes(entries);
    assert forall|i: int| 0 <= i < n implies #[trigger] idx.segments@[i] == entries[i] by {
        let base = 16 + 24 * i;
        let e = entries[i];
        let loc = idx.segments@[i];
        lemma_entry_bytes(e);
        assert(entry_matches(loc, c, i));
        assert(d.subrange(24 * i, 24 * i + 24) == entry_bytes(e));
        assert(c.subrange(base, base + 4) =~= entry_bytes(e).subrange(0, 4));
        assert(c.subrange(base + 8, base + 16) =~= entry_bytes(e).subrange(8, 16));
        assert(c.subrange(base + 16, base + 24) =~= entry_bytes(e).subrange(16, 24));
        assert(loc.kind@ == e.kind@);
        assert(loc.kind =~= e.kind);
    }
    assert(idx.segments@ =~= entries);
    assert forall|j: int| 0 <= j < n implies segment_bytes(c, #[trigger] entries[j]) == fdatas[j]@ by {
        let e = entries[j];
        if e.length == 0 {
            assert(fdatas[j]@ =~= Seq::<u8>::empty());
        } else {
            assert(c.subrange(e.offset as int, e.offset + e.length) =~= bytes.subrange(e.offset as int, e.offset + e.length));
        }
    }
}

/// The payloads written for `kinds`: `datas`, except that both superblock
/// segments get a fresh superblock for directory `entries`.
pub open spec fn final_payloads(kinds: Seq<[u8; 4]>, datas: Seq<Vec<u8>>, entries: Seq<SegmentLocation>, fdatas: Seq<Vec<u8>>) -> bool {
    &&& fdatas.len() == kinds.len()
    &&& forall|j: int| 0 <= j < kinds.len() && !is_superblock_kind((#[trigger] kinds[j])@) ==> fdatas[j]@ == datas[j]@
    &&& forall|j: int| 0 <= j < kinds.len() && is_superblock_kind((#[trigger] kinds[j])@) ==> exists|pc: u64, g: u64|
        fdatas[j]@ == #[trigger] superblock_bytes(entries.len() as u32, true, 16, (24 * entries.len()) as u64,
            fold_checksum(dir_bytes(entries)), pc, g)
}

/// Lay out `kinds` with payloads `datas` and assemble the image, padded to
/// whole sectors; fails when it would not fit in `cap` bytes.
fn build_image(kinds: &Vec<[u8; 4]>, datas: &Vec<Vec<u8>>, ss: u64, cap: u64)
    -> (r: CoreFsResult<(Vec<SegmentLocation>, Vec<Vec<u8>>, Vec<u8>, u64)>)
    requires
        kinds@.len() == datas@.len(),
        ss > 0,
    ensures
        r is Ok <==> image_fits(kinds@, datas@, ss as int, cap as int),
        r matches Ok((entries, fdatas, bytes, padded)) ==> {
            &&& entries@.len() == kinds@.len()
            &&& forall|j: int| 0 <= j < kinds@.len() ==> (#[trigger] entries@[j]).kind == kinds@[j]
            &&& laid_out(entries@)
            &&& forall|j: int| 0 <= j < kinds@.len() ==> (#[trigger] entries@[j]).length == fdatas@[j]@.len()
            &&& final_payloads(kinds@, datas@, entries@, fdatas@)
            &&& padded == align_up_spec(layout_end(entries@), ss as int)
            &&& padded <= cap
            &&& bytes@.len() == padded
            &&& image_bytes_ok(bytes@, entries@, fdatas@)
        },
{
    let n = kinds.len();
    let mut lens: Vec<u64> = Vec::new();
    let mut i: usize = 0;
    while i < n
        invariant
            n == kinds@.len() == datas@.len(),
            i <= n,
            lens@.len() == i,
            forall|j: int| 0 <= j < i ==> #[trigger] lens@[j] == if is_superblock_kind(kinds@[j]@) {
                56
            } else {
                datas@[j]@.len()
            },
        decreases n - i,
    {
        let l: u64 = if is_superblock_tag(&kinds[i]) { 56 } else { datas[i].len() as u64 };
        lens.push(l);
        i = i + 1;
    }
    proof {
        assert(lens@ =~= stored_lens(kinds@, datas@));
        lemma_layout_cursor_grows(n as int, lens@, 0, n as int);
        lemma_align_up(layout_cursor(n as int, lens@, n as int), ss as int);
    }
    let (entries, total) = layout_segments(kinds, &lens)?;
    let padded = match checked_align_up_u64(total, ss) {
        Some(v) => v,
        None => {
            return Err(CoreFsError::State(msg("volume image exceeds the addressable range")));
        },
    };
    if padded > cap {
        return Err(CoreFsError::State(msg_num("volume image exceeds device capacity of ", cap, " bytes")));
    }
    if padded > usize::MAX as u64 || n > u32::MAX as usize {
        return Err(CoreFsError::State(msg("volume image exceeds the addressable range")));
    }
    let dir = encode_directory(entries.as_slice());
    proof {
        lemma_dir_bytes(entries@);
    }
    let dir_ck = checksum(dir.as_slice());
    let mut payload_ck: u64 = 0;
    let mut i: usize = 0;
    while i < n
        invariant
            n == kinds@.len() == datas@.len(),
            i <= n,
        decreases n - i,
    {
        if !is_superblock_tag(&kinds[i]) {
            payload_ck = payload_ck ^ checksum(datas[i].as_slice());
        }
        i = i + 1;
    }
    let generation = now_nanos();
    let sb = encode_superblock(n as u32, true, 16, dir.len() as u64, dir_ck, payload_ck, generation);
    let mut fdatas: Vec<Vec<u8>> = Vec::new();
    let mut i: usize = 0;
    while i < n
        invariant
            n == kinds@.len() == datas@.len(),
            i <= n,
            fdatas@.len() == i,
            forall|j: int| 0 <= j < i ==> (#[trigger] fdatas@[j])@ == if is_superblock_kind(kinds@[j]@) {
                sb@
            } else {
                datas@[j]@
            },
        decreases n - i,
    {
        if is_superblock_tag(&kinds[i]) {
            fdatas.push(sb.clone());
        } else {
            fdatas.push(datas[i].clone());
        }
        i = i + 1;
    }
    proof {
        assert forall|j: int| 0 <= j < entries@.len() implies (#[trigger] entries@[j]).length == fdatas@[j]@.len() by {
            assert(lens@[j] == entries@[j].length);
        }
        if n > 0 {
            lemma_align_up(entries@[n - 1].offset + entries@[n - 1].length, 64);
        }
        lemma_align_up(total as int, ss as int);
        assert forall|j: int| 0 <= j < kinds@.len() && is_superblock_kind((#[trigger] kinds@[j])@) implies exists|pc: u64, g: u64|
            fdatas@[j]@ == #[trigger] superblock_bytes(entries@.len() as u32, true, 16, (24 * entries@.len()) as u64,
                fold_checksum(dir_bytes(entries@)), pc, g) by {
            assert(fdatas@[j]@ == superblock_bytes(entries@.len() as u32, true, 16, (24 * entries@.len()) as u64,
                fold_checksum(dir_bytes(entries@)), payload_ck, generation));
        }
    }
    let bytes = assemble_image(&entries, &fdatas, &dir, padded, FORMAT_VERSION);
    proof {
        assert forall|j: int| 0 <= j < entries@.len() implies (#[trigger] entries@[j]).offset + entries@[j].length <= bytes@.len()
            && bytes@.subrange(entries@[j].offset as int, entries@[j].offset + entries@[j].length) == fdatas@[j]@ by {
            lemma_layout_bound(entries@, j);
        }
    }
    Ok((entries, fdatas, bytes, padded))
}

/// Write a fresh image holding the segments `kinds`/`datas` in that order
/// to the start of `device`: header, directory, 64-byte aligned payloads,
/// and for the superblock kinds (`SUPR`, `SUP2`) a superblock over the
/// directory checksum and the payload checksums; the image is padded to
/// whole sectors.  Returns the directory of the new image.
pub fn save_segments<D: BlockDevice>(device: &mut D, kinds: &Vec<[u8; 4]>, datas: &Vec<Vec<u8>>) -> (r: CoreFsResult<SegmentIndex>)
    requires
        old(device).inv(),
        kinds@.len() == datas@.len(),
    ensures
        final(device).inv(),
        final(device).spec_geometry() == old(device).spec_geometry(),
        final(device).stores_writes() == old(device).stores_writes(),
        !image_fits(kinds@, datas@, old(device).spec_geometry().sector_size as int,
            old(device).spec_geometry().capacity_bytes as int) ==> r is Err
            && final(device).content() == old(device).content(),
        r matches Ok(idx) ==> {
            &&& idx.segment_count == kinds@.len()
            &&& idx.segments@.len() == kinds@.len()
            &&& forall|j: int| 0 <= j < kinds@.len() ==> (#[trigger] idx.segments@[j]).kind == kinds@[j]
            &&& laid_out(idx.segments@)
            &&& idx.image_end == align_up_spec(layout_end(idx.segments@), old(device).spec_geometry().sector_size as int)
            &&& exists|fdatas: Seq<Vec<u8>>, bytes: Seq<u8>| #[trigger] final_payloads(kinds@, datas@, idx.segments@, fdatas)
                && #[trigger] image_bytes_ok(bytes, idx.segments@, fdatas)
                && bytes.len() == idx.image_end
                && (old(device).stores_writes() ==> final(device).content().subrange(0, bytes.len() as int) == bytes)
        },
{
    proof {
        device.lemma_inv();
    }
    let ss = device.sector_size() as u64;
    let cap = device.capacity();
    let (entries, fdatas, bytes, padded) = build_image(kinds, datas, ss, cap)?;
    write_image(device, &bytes)?;
    let n = entries.len();
    proof {
        assert(final_payloads(kinds@, datas@, entries@, fdatas@) && image_bytes_ok(bytes@, entries@, fdatas@));
    }
    Ok(SegmentIndex { segment_count: n, segments: entries, image_end: padded })
}

impl<D: BlockDevice> DeviceVolume<D> {
    /// Make `entries` the directory and `fdatas` the cached payloads.
    fn install(&mut self, entries: Vec<SegmentLocation>, fdatas: Vec<Vec<u8>>, padded: u64, journal_offset: u64)
        requires
            old(self).wf(),
            entries@.len() == fdatas@.len(),
        ensures
            final(self).wf(),
            final(self).spec_device() == old(self).spec_device(),
            final(self).dirty() == old(self).dirty(),
            final(self).spec_index() == (SegmentIndex { segment_count: entries@.len() as usize, segments: entries, image_end: padded }),
            final(self).spec_journal_offset() == journal_offset,
            forall|j: int| 0 <= j < entries@.len() ==> final(self).cached().contains_key((#[trigger] entries@[j]).kind@),
            forall|j: int| 0 <= j < entries@.len() && kind_once(entries@, j)
                ==> final(self).cached()[(#[trigger] entries@[j]).kind@] == fdatas@[j]@,
    {
        let n = entries.len();
        self.read_cache.clear();
        let mut i: usize = 0;
        while i < n
            invariant
                self.read_cache.wf(),
                self.device == old(self).device,
                self.write_buffer == old(self).write_buffer,
                self.device.inv(),
                self.write_buffer.wf(),
                n == entries@.len() == fdatas@.len(),
                i <= n,
                forall|j: int| 0 <= j < i ==> self.read_cache.map().contains_key((#[trigger] entries@[j]).kind@),
                forall|j: int| 0 <= j < i && kind_once(entries@, j)
                    ==> self.read_cache.map()[(#[trigger] entries@[j]).kind@] == fdatas@[j]@,
            decreases n - i,
        {
            let k = entries[i].kind;
            let d = fdatas[i].clone();
            self.read_cache.insert(k, d);
            proof {
                assert forall|j: int| 0 <= j < i + 1 && kind_once(entries@, j)
                    implies self.read_cache.map()[(#[trigger] entries@[j]).kind@] == fdatas@[j]@ by {
                    if j < i {
                        assert(entries@[i as int].kind@ != entries@[j].kind@);
                    }
                }
            }
            i = i + 1;
        }
        self.index = SegmentIndex { segment_count: n, segments: entries, image_end: padded };
        self.journal_offset = journal_offset;
    }

    /// Write every segment, with the unflushed ones in place of their old
    /// payloads, as a fresh image: header, directory, payloads laid out back
    /// to back, and both superblock segments rewritten with a new
    /// generation and the checksums of the directory and of the other
    /// payloads.  The image is written sector by sector and synced; the
    /// directory, journal offset and read cache then follow the new image.
    /// Nothing is written when no segment is dirty.
    pub fn flush(&mut self) -> (r: CoreFsResult<()>)
        requires
            old(self).wf(),
        ensures
            final(self).wf(),
            old(self).dirty().dom().len() == 0 ==> r is Ok && *final(self) == *old(self),
            r is Err ==> final(self).spec_index() == old(self).spec_index()
                && final(self).cached() == old(self).cached()
                && final(self).spec_journal_offset() == old(self).spec_journal_offset(),
            r is Ok && old(self).dirty().dom().len() > 0 ==> flushed(*old(self), *final(self)),
            old(self).dirty().dom().len() > 0 && (forall|kinds: Seq<[u8; 4]>, datas: Seq<Vec<u8>>|
                #[trigger] pending_collection(*old(self), kinds, datas) ==> !image_fits(kinds, datas,
                    old(self).spec_device().spec_geometry().sector_size as int,
                    old(self).spec_device().spec_geometry().capacity_bytes as int))
                ==> r is Err && final(self).spec_device() == old(self).spec_device(),
    {
        if self.write_buffer.is_empty() {
            return Ok(());
        }
        let ghost o = *self;
        let (kinds, datas) = self.collect_segments()?;
        proof {
            self.device.lemma_inv();
        }
        let ss = self.device.sector_size() as u64;
        let cap = self.device.capacity();
        proof {
            assert(pending_collection(o, kinds@, datas@));
        }
        let (entries, fdatas, bytes, padded) = build_image(&kinds, &datas, ss, cap)?;
        let journal_offset = match checked_align_up_u64(padded, ss) {
            Some(v) => v,
            None => {
                return Err(CoreFsError::State(msg("volume image exceeds the addressable range")));
            },
        };
        write_image(&mut self.device, &bytes)?;
        let ghost content = self.device.content();
        let ghost es = entries@;
        let ghost fs = fdatas@;
        self.install(entries, fdatas, padded, journal_offset);
        proof {
            lemma_flushed(o, *self, kinds@, datas@, es, fs, bytes@, content);
        }
        Ok(())
    }

    /// Open the journal region that follows the image.
    pub fn open_journal(&self) -> (r: CoreFsResult<DeviceJournal>)
        requires
            self.wf(),
        ensures
            align_up_spec(self.spec_journal_offset() as int, self.spec_device().spec_geometry().sector_size as int)
                > u64::MAX ==> r is Err,
            journal_room_missing(self.spec_device(), self.spec_journal_offset()) ==> r is Ok,
            r matches Ok(j) ==> journal_opened(j, self.spec_device(), self.spec_journal_offset()),
    {
        DeviceJournal::open(&self.device, self.journal_offset)
    }
}

#[verifier::rlimit(80)]
proof fn lemma_flushed<D: BlockDevice>(
    o: DeviceVolume<D>,
    f: DeviceVolume<D>,
    kinds: Seq<[u8; 4]>,
    datas: Seq<Vec<u8>>,
    es: Seq<SegmentLocation>,
    fs: Seq<Vec<u8>>,
    bytes: Seq<u8>,
    content: Seq<u8>,
)
    requires
        o.wf(),
        f.wf(),
        kinds.len() == datas.len() >= o.spec_index().segments@.len(),
        collected_prefix(kinds, datas, o.dirty(), o.cached(), o.spec_device().content(), o.spec_index().segments@,
            o.spec_index().segments@.len() as int),
        collected_new(kinds, datas, o.dirty(), o.spec_index().segments@, o.spec_index().segments@.len() as int),
        covers_kinds(kinds, o.dirty()),
        f.dirty() == Map::<Seq<u8>, Seq<u8>>::empty(),
        es.len() == kinds.len(),
        forall|j: int| 0 <= j < kinds.len() ==> (#[trigger] es[j]).kind == kinds[j],
        laid_out(es),
        forall|j: int| 0 <= j < kinds.len() ==> (#[trigger] es[j]).length == fs[j]@.len(),
        final_payloads(kinds, datas, es, fs),
        image_bytes_ok(bytes, es, fs),
        bytes.len() == align_up_spec(layout_end(es), o.spec_device().spec_geometry().sector_size as int),
        f.spec_index().segments@ == es,
        f.spec_index().segment_count == es.len(),
        f.spec_index().image_end == bytes.len(),
        f.spec_journal_offset() == align_up_spec(bytes.len() as int, o.spec_device().spec_geometry().sector_size as int),
        f.spec_device().content() == content,
        f.spec_device().spec_geometry() == o.spec_device().spec_geometry(),
        f.spec_device().stores_writes() == o.spec_device().stores_writes(),
        o.spec_device().stores_writes() ==> bytes.len() <= content.len() && content.subrange(0, bytes.len() as int) == bytes,
        forall|j: int| 0 <= j < es.len() ==> f.cached().contains_key((#[trigger] es[j]).kind@),
        forall|j: int| 0 <= j < es.len() && kind_once(es, j) ==> f.cached()[(#[trigger] es[j]).kind@] == fs[j]@,
    ensures
        flushed(o, f),
{
    let segs = es;
    let os = o.spec_index().segments@;
    assert forall|k: Seq<u8>| #[trigger] o.dirty().contains_key(k) implies exists|q: int| 0 <= q < segs.len() && (#[trigger] segs[q]).kind@ == k by {
        let t = choose|t: int| 0 <= t < kinds.len() && (#[trigger] kinds[t])@ == k;
        assert(segs[t].kind == kinds[t]);
    }
    assert forall|i: int| 0 <= i < os.len() implies (#[trigger] segs[i]).kind@ == os[i].kind@ by {
        assert(segs[i].kind == kinds[i]);
        assert(kinds[i]@ == os[i].kind@);
    }
    assert forall|q: int| 0 <= q < os.len() && kind_once(segs, q) && !is_superblock_kind(os[q].kind@)
        implies f.cached()[(#[trigger] segs[q]).kind@] == pending_data(o.dirty(), o.cached(), o.spec_device().content(), os, q) by {
        assert(segs[q].kind == kinds[q]);
        assert(kinds[q]@ == os[q].kind@);
    }
    assert forall|t: int| os.len() <= t < segs.len() && kind_once(segs, t) && !is_superblock_kind(segs[t].kind@)
        implies f.cached()[(#[trigger] segs[t]).kind@] == o.dirty()[segs[t].kind@] by {
        assert(segs[t].kind == kinds[t]);
    }
    assert forall|q: int| 0 <= q < segs.len() && kind_once(segs, q) && is_superblock_kind((#[trigger] segs[q]).kind@)
        implies exists|pc: u64, g: u64| f.cached()[segs[q].kind@] == #[trigger] superblock_bytes(segs.len() as u32, true, 16,
            (24 * segs.len()) as u64, fold_checksum(dir_bytes(segs)), pc, g) by {
        assert(segs[q].kind == kinds[q]);
    }
    if o.spec_device().stores_writes() {
        lemma_image_directory(content, bytes, es, dir_bytes(es));
        assert forall|q: int| 0 <= q < segs.len() && kind_once(segs, q)
            implies segment_bytes(content, #[trigger] segs[q]) == f.cached()[segs[q].kind@] by {
            let e = segs[q];
            if e.length == 0 {
                assert(fs[q]@ =~= Seq::<u8>::empty());
            } else {
                assert(content.subrange(e.offset as int, e.offset + e.length)
                    =~= bytes.subrange(e.offset as int, e.offset + e.length));
            }
        }
    }
}

/// Smaller of two integers.
pub open spec fn min_int(a: int, b: int) -> int {
    if a < b { a } else { b }
}

/// What opening the journal region at `offset` finds in image `c` of a
/// device with `cap` bytes and `ss`-byte sectors: the region's aligned
/// offset, its size, the stored generation and the committed payload.
///
/// Region layout: a header sector (magic `CFSJ0001`, operation count `u32`
/// at 8, generation `u64` at 12, payload checksum `u64` at 20, payload
/// length `u64` at 28) followed by the payload padded to whole sectors;
/// the checksum covers the padded payload.
pub open spec fn journal_view(c: Seq<u8>, cap: int, ss: int, offset: int) -> (int, int, u64, Option<Seq<u8>>) {
    let a = align_up_spec(offset, ss);
    if a + 262144 > cap {
        (a, 0, 0, None)
    } else if ss < 64 || c.subrange(a, a + 8) != journal_magic() {
        (a, 262144, 0, None)
    } else {
        let p = journal_payload_view(c, cap, ss, a);
        (a, 262144, p.0, p.1)
    }
}

/// Generation and committed payload of a journal region at `a` whose
/// header carries the magic.
pub open spec fn journal_payload_view(c: Seq<u8>, cap: int, ss: int, a: int) -> (u64, Option<Seq<u8>>) {
    let cnt = le_u32_at(c, a + 8);
    let generation = le_u64_at(c, a + 12);
    let ck = le_u64_at(c, a + 20);
    let plen = le_u64_at(c, a + 28);
    let po = a + align_up_spec(64, ss);
    let rs = min_int(align_up_spec(plen as int, ss), if cap - po > 0 { cap - po } else { 0 });
    if cnt == 0 || plen == 0 || rs == 0 || fold_checksum(c.subrange(po, po + rs)) != ck {
        (generation, None)
    } else {
        (generation, Some(c.subrange(po, po + min_int(plen as int, rs))))
    }
}

/// A write-ahead journal in a reserved region of the device (256 KiB
/// after the image).  The committed payload is kept as the serialized
/// bytes of the journal entries.
#[derive(Debug)]
pub struct DeviceJournal {
    offset: u64,
    size: usize,
    generation: u64,
    entries: Option<Vec<u8>>,
}

/// The journal region at `offset` cannot fit on `d`, so opening it
/// reads nothing.
pub open spec fn journal_room_missing<D: BlockDevice>(d: D, offset: u64) -> bool {
    let a = align_up_spec(offset as int, d.spec_geometry().sector_size as int);
    a <= u64::MAX && (a > d.spec_geometry().capacity_bytes || d.spec_geometry().capacity_bytes - a < 262144)
}

/// `j` is what opening the journal at `offset` on `d` gives.
pub open spec fn journal_opened<D: BlockDevice>(j: DeviceJournal, d: D, offset: u64) -> bool {
    let v = journal_view(d.content(), d.spec_geometry().capacity_bytes as int,
        d.spec_geometry().sector_size as int, offset as int);
    &&& j.spec_offset() == v.0
    &&& j.spec_size() == v.1
    &&& j.spec_generation() == v.2
    &&& j.spec_entries() == v.3
}

impl DeviceJournal {
    /// Aligned start of the region.
    pub closed spec fn spec_offset(&self) -> u64 {
        self.offset
    }

    /// Size of the region (0 when the device has no room for it).
    pub closed spec fn spec_size(&self) -> usize {
        self.size
    }

    /// Generation counter.
    pub closed spec fn spec_generation(&self) -> u64 {
        self.generation
    }

    /// Committed payload, if any.
    pub closed spec fn spec_entries(&self) -> Option<Seq<u8>> {
        match self.entries {
            Some(v) => Some(v@),
            None => None,
        }
    }

    /// Read the journal region that starts on the first sector boundary at
    /// or after `offset`.  A region that does not fit on the device has
    /// size 0; an uninitialised, empty, truncated or corrupt one has no
    /// entries.
    #[verifier::rlimit(100)]
    pub fn open<D: BlockDevice>(device: &D, offset: u64) -> (r: CoreFsResult<Self>)
        requires
            device.inv(),
        ensures
            align_up_spec(offset as int, device.spec_geometry().sector_size as int) > u64::MAX ==> r is Err,
            journal_room_missing(*device, offset) ==> r is Ok,
            r matches Ok(j) ==> journal_opened(j, *device, offset),
    {
        proof {
            device.lemma_inv();
        }
        let ghost c = device.content();
        let ss = device.sector_size() as u64;
        let cap = device.capacity();
        let aligned = match checked_align_up_u64(offset, ss) {
            Some(v) => v,
            None => {
                return Err(CoreFsError::InvalidInput(msg("journal offset out of range")));
            },
        };
        if aligned > cap || cap - aligned < 262144 {
            return Ok(DeviceJournal { offset: aligned, size: 0, generation: 0, entries: None });
        }
        let header = device.read_at(aligned, ss)?;
        if header.len() < JOURNAL_HEADER_SIZE {
            return Ok(DeviceJournal { offset: aligned, size: DEVICE_JOURNAL_SIZE, generation: 0, entries: None });
        }
        let magic = journal_magic_bytes();
        let head = copy_range(header.as_slice(), 0, 8);
        proof {
            assert(head@ =~= c.subrange(aligned as int, aligned + 8));
        }
        if !bytes_eq(head.as_slice(), magic.as_slice()) {
            return Ok(DeviceJournal { offset: aligned, size: DEVICE_JOURNAL_SIZE, generation: 0, entries: None });
        }
        Self::open_payload(device, aligned, &header)
    }

    /// Read the payload of a journal region at `aligned` whose header
    /// sector `header` carries the magic.
    #[verifier::rlimit(80)]
    #[verifier::spinoff_prover]
    fn open_payload<D: BlockDevice>(device: &D, aligned: u64, header: &Vec<u8>) -> (r: CoreFsResult<Self>)
        requires
            device.inv(),
            device.spec_geometry().sector_size >= 64,
            aligned + device.spec_geometry().sector_size <= device.content().len(),
            header@ == device.content().subrange(aligned as int, aligned + device.spec_geometry().sector_size),
            aligned + 262144 <= device.spec_geometry().capacity_bytes,
        ensures
            r matches Ok(j) ==> {
                let p = journal_payload_view(device.content(), device.spec_geometry().capacity_bytes as int,
                    device.spec_geometry().sector_size as int, aligned as int);
                &&& j.spec_offset() == aligned
                &&& j.spec_size() == 262144
                &&& j.spec_generation() == p.0
                &&& j.spec_entries() == p.1
            },
    {
        proof {
            device.lemma_inv();
        }
        let ghost c = device.content();
        let ss = device.sector_size() as u64;
        let cap = device.capacity();
        let entry_count = read_u32(header.as_slice(), 8);
        let generation = read_u64(header.as_slice(), 12);
        let entries_checksum = read_u64(header.as_slice(), 20);
        let payload_length = read_u64(header.as_slice(), 28);
        proof {
            assert(header@.subrange(8, 12) =~= c.subrange(aligned + 8, aligned + 12));
            assert(header@.subrange(12, 20) =~= c.subrange(aligned + 12, aligned + 20));
            assert(header@.subrange(20, 28) =~= c.subrange(aligned + 20, aligned + 28));
            assert(header@.subrange(28, 36) =~= c.subrange(aligned + 28, aligned + 36));
        }
        let header_span = match checked_align_up_u64(64, ss) {
            Some(v) => v,
            None => {
                return Err(CoreFsError::InvalidInput(msg("journal offset out of range")));
            },
        };
        let payload_offset = match aligned.checked_add(header_span) {
            Some(v) => v,
            None => {
                return Err(CoreFsError::InvalidInput(msg("journal offset out of range")));
            },
        };
        let padded_len = match checked_align_up_u64(payload_length, ss) {
            Some(v) => v,
            None => {
                return Err(CoreFsError::State(msg("journal payload length out of range")));
            },
        };
        if entry_count == 0 || payload_length == 0 {
            return Ok(DeviceJournal { offset: aligned, size: DEVICE_JOURNAL_SIZE, generation, entries: None });
        }
        let available = cap.saturating_sub(payload_offset);
        let read_size = if padded_len < available { padded_len } else { available };
        if read_size == 0 {
            return Ok(DeviceJournal { offset: aligned, size: DEVICE_JOURNAL_SIZE, generation, entries: None });
        }
        let payload = device.read_at(payload_offset, read_size)?;
        if checksum(payload.as_slice()) != entries_checksum {
            return Ok(DeviceJournal { offset: aligned, size: DEVICE_JOURNAL_SIZE, generation, entries: None });
        }
        let keep = if payload_length < read_size { payload_length } else { read_size };
        let data = copy_range(payload.as_slice(), 0, keep as usize);
        proof {
            assert(data@ =~= c.subrange(payload_offset as int, payload_offset + keep));
        }
        Ok(DeviceJournal { offset: aligned, size: DEVICE_JOURNAL_SIZE, generation, entries: Some(data) })
    }

    /// Generation counter (bumped by every commit and clear).
    pub fn generation(&self) -> (r: u64)
        ensures
            r == self.spec_generation(),
    {
        self.generation
    }

    /// The committed payload, if any.
    pub fn entries(&self) -> (r: Option<&Vec<u8>>)
        ensures
            r is Some <==> self.spec_entries() is Some,
            r matches Some(v) ==> self.spec_entries() == Some(v@),
    {
        match &self.entries {
            Some(v) => Some(v),
            None => None,
        }
    }

    /// Take the committed payload out of the journal.
    pub fn take_entries(&mut self) -> (r: Option<Vec<u8>>)
        ensures
            final(self).spec_entries() is None,
            final(self).spec_offset() == old(self).spec_offset(),
            final(self).spec_size() == old(self).spec_size(),
            final(self).spec_generation() == old(self).spec_generation(),
            r is Some <==> old(self).spec_entries() is Some,
            r matches Some(v) ==> old(self).spec_entries() == Some(v@),
    {
        let out = self.entries.take();
        out
    }

    /// Whether a committed payload is held.
    pub fn has_entries(&self) -> (r: bool)
        ensures
            r <==> self.spec_entries() is Some,
    {
        self.entries.is_some()
    }

    /// Size of the region in bytes (0 when the device has no room for it).
    pub fn size(&self) -> (r: usize)
        ensures
            r == self.spec_size(),
    {
        self.size
    }
}

/// What a commit leaves is what a later open finds: where the journal
/// opened at `offset` on `d0` was committed with `p`, leaving `d1` (as the
/// `ensures` of [`DeviceJournal::commit`] states of a device that stores
/// writes), opening at `offset` on `d1` gives back `p` with the next
/// generation.
#[verifier::spinoff_prover]
#[verifier::rlimit(50)]
pub proof fn lemma_commit_then_open<D: BlockDevice>(d0: D, offset: u64, j0: DeviceJournal, d1: D, j2: DeviceJournal, p: Seq<u8>)
    requires
        d0.spec_geometry().sector_size > 0,
        journal_opened(j0, d0, offset),
        d1.spec_geometry() == d0.spec_geometry(),
        journal_view(d1.content(), d0.spec_geometry().capacity_bytes as int, d0.spec_geometry().sector_size as int,
            j0.spec_offset() as int) == (j0.spec_offset() as int, 262144int, (j0.spec_generation() + 1) as u64, Some(p)),
        journal_opened(j2, d1, offset),
    ensures
        j2.spec_entries() == Some(p),
        j2.spec_generation() == (j0.spec_generation() + 1) as u64,
        j2.spec_size() == 262144,
        j2.spec_offset() == j0.spec_offset(),
{
    let ss = d0.spec_geometry().sector_size as int;
    let a = align_up_spec(offset as int, ss);
    lemma_align_up(offset as int, ss);
    lemma_align_up(a, ss);
    assert(align_up_spec(a, ss) == a);
    assert(j0.spec_offset() == a);
    let c = d1.content();
    let cap = d0.spec_geometry().capacity_bytes as int;
    assert(journal_view(c, cap, ss, offset as int) == journal_view(c, cap, ss, a));
}

/// Journal `j` was opened on a region that fits on `d`, at an offset that
/// is a whole number of sectors of at least 64 bytes.
pub open spec fn journal_region_ok<D: BlockDevice>(j: DeviceJournal, d: D) -> bool {
    let ss = d.spec_geometry().sector_size as int;
    &&& j.spec_size() == 262144
    &&& ss >= 64
    &&& align_up_spec(j.spec_offset() as int, ss) == j.spec_offset()
    &&& j.spec_offset() + 262144 <= d.spec_geometry().capacity_bytes
}

proof fn lemma_align_64(ss: int)
    requires
        ss >= 64,
    ensures
        align_up_spec(64, ss) == ss,
{
    if ss > 64 {
        vstd::arithmetic::div_mod::lemma_small_mod(64, ss as nat);
    }
}

/// Header sector of a journal region.
fn journal_header(operation_count: u32, generation: u64, checksum: u64, payload_length: u64, span: usize) -> (r: Vec<u8>)
    requires
        span >= 36,
    ensures
        r@.len() == span,
        r@.subrange(0, 8) == journal_magic(),
        le_u32_at(r@, 8) == operation_count,
        le_u64_at(r@, 12) == generation,
        le_u64_at(r@, 20) == checksum,
        le_u64_at(r@, 28) == payload_length,
{
    let mut h = journal_magic_bytes();
    push_u32(&mut h, operation_count);
    push_u64(&mut h, generation);
    push_u64(&mut h, checksum);
    push_u64(&mut h, payload_length);
    let ghost pre = h@;
    push_zeros(&mut h, span - 36);
    proof {
        lemma_auto_spec_u32_to_from_le_bytes();
        lemma_auto_spec_u64_to_from_le_bytes();
        assert(h@.subrange(0, 8) =~= journal_magic());
        assert(h@.subrange(8, 12) =~= spec_u32_to_le_bytes(operation_count));
        assert(h@.subrange(12, 20) =~= spec_u64_to_le_bytes(generation));
        assert(h@.subrange(20, 28) =~= spec_u64_to_le_bytes(checksum));
        assert(h@.subrange(28, 36) =~= spec_u64_to_le_bytes(payload_length));
    }
    h
}

impl DeviceJournal {
    /// Commit `payload` (the serialized journal entries, `operation_count`
    /// of them): write the header sector with the next generation, then the
    /// payload padded to whole sectors, then sync.  Reopening the region
    /// afterwards finds exactly this payload.
    pub fn commit<D: BlockDevice>(&mut self, device: &mut D, payload: &[u8], operation_count: u32) -> (r: CoreFsResult<()>)
        requires
            old(device).inv(),
            old(self).spec_generation() < u64::MAX,
        ensures
            final(device).inv(),
            final(device).spec_geometry() == old(device).spec_geometry(),
            final(device).stores_writes() == old(device).stores_writes(),
            final(self).spec_offset() == old(self).spec_offset(),
            final(self).spec_size() == old(self).spec_size(),
            old(self).spec_size() == 0 ==> (r matches Err(e) && e is State) && *final(device) == *old(device)
                && *final(self) == *old(self),
            journal_region_ok(*old(self), *old(device)) && payload@.len()
                > 262144 - old(device).spec_geometry().sector_size ==> (r matches Err(e) && e is State)
                && *final(device) == *old(device) && *final(self) == *old(self),
            r is Ok ==> final(self).spec_generation() == old(self).spec_generation() + 1
                && final(self).spec_entries() == Some(payload@),
            r is Ok && old(device).stores_writes() && journal_region_ok(*old(self), *old(device))
                && operation_count > 0 && payload@.len() > 0 ==> journal_view(final(device).content(),
                    old(device).spec_geometry().capacity_bytes as int, old(device).spec_geometry().sector_size as int,
                    old(self).spec_offset() as int) == (old(self).spec_offset() as int, 262144int,
                    (old(self).spec_generation() + 1) as u64, Some(payload@)),
    {
        if self.size == 0 {
            return Err(CoreFsError::State(msg("device journal region has no space")));
        }
        proof {
            device.lemma_inv();
        }
        let ss = device.sector_size() as u64;
        let span = match checked_align_up_u64(64, ss) {
            Some(v) => v,
            None => {
                return Err(CoreFsError::State(msg("device journal region has no space")));
            },
        };
        proof {
            lemma_align_up(64, ss as int);
        }
        if span > self.size as u64 {
            return Err(CoreFsError::State(msg("device journal region has no space")));
        }
        let payload_offset = match self.offset.checked_add(span) {
            Some(v) => v,
            None => {
                return Err(CoreFsError::State(msg("device journal region has no space")));
            },
        };
        let max_payload = self.size as u64 - span;
        proof {
            if journal_region_ok(*old(self), *old(device)) {
                lemma_align_64(ss as int);
            }
        }
        if payload.len() as u64 > max_payload {
            return Err(CoreFsError::State(msg_num("journal entry exceeds journal capacity of ", max_payload, " bytes")));
        }
        let raw_len = payload.len();
        let padded_len = match checked_align_up_u64(raw_len as u64, ss) {
            Some(v) => v,
            None => {
                return Err(CoreFsError::State(msg("journal entry exceeds the addressable range")));
            },
        };
        proof {
            lemma_align_up(raw_len as int, ss as int);
        }
        if padded_len > usize::MAX as u64 {
            return Err(CoreFsError::State(msg("journal entry exceeds the addressable range")));
        }
        let padded_len = padded_len as usize;
        let mut padded: Vec<u8> = Vec::new();
        push_bytes(&mut padded, payload);
        push_zeros(&mut padded, padded_len - raw_len);
        let ck = checksum(padded.as_slice());
        self.generation = self.generation + 1;
        let header = journal_header(operation_count, self.generation, ck, raw_len as u64, span as usize);
        let ghost c0 = device.content();
        device.write_at(self.offset, header.as_slice())?;
        let ghost c1 = device.content();
        device.write_at(payload_offset, padded.as_slice())?;
        let ghost c2 = device.content();
        device.sync()?;
        let mut kept: Vec<u8> = Vec::new();
        push_bytes(&mut kept, payload);
        self.entries = Some(kept);
        proof {
            if device.stores_writes() && journal_region_ok(*old(self), *old(device)) && operation_count > 0 && raw_len > 0 {
                lemma_align_64(ss as int);
                let a = self.offset as int;
                let c = device.content();
                assert(c == overwrite(c1, payload_offset as int, padded@));
                assert(c1 == overwrite(c0, a, header@));
                assert(c.subrange(a, a + ss) =~= header@);
                assert(c.subrange(a, a + 8) =~= header@.subrange(0, 8));
                assert(c.subrange(a + 8, a + 12) =~= header@.subrange(8, 12));
                assert(c.subrange(a + 12, a + 20) =~= header@.subrange(12, 20));
                assert(c.subrange(a + 20, a + 28) =~= header@.subrange(20, 28));
                assert(c.subrange(a + 28, a + 36) =~= header@.subrange(28, 36));
                let po = payload_offset as int;
                assert(c.subrange(po, po + padded_len) =~= padded@);
                assert(c.subrange(po, po + raw_len) =~= payload@);
                assert(padded@.subrange(0, raw_len as int) =~= payload@);
            }
        }
        Ok(())
    }

    /// Mark the region empty: rewrite the header with no entries and the
    /// next generation, then sync.  Reopening the region afterwards finds
    /// no entries.
    pub fn clear<D: BlockDevice>(&mut self, device: &mut D) -> (r: CoreFsResult<()>)
        requires
            old(device).inv(),
            old(self).spec_generation() < u64::MAX,
        ensures
            final(device).inv(),
            final(device).spec_geometry() == old(device).spec_geometry(),
            final(device).stores_writes() == old(device).stores_writes(),
            final(self).spec_offset() == old(self).spec_offset(),
            final(self).spec_size() == old(self).spec_size(),
            old(self).spec_size() == 0 ==> r is Ok && *final(device) == *old(device) && *final(self) == *old(self),
            r is Ok && old(self).spec_size() != 0 ==> final(self).spec_generation() == old(self).spec_generation() + 1
                && final(self).spec_entries() is None,
            r is Ok && old(device).stores_writes() && journal_region_ok(*old(self), *old(device))
                ==> journal_view(final(device).content(),
                    old(device).spec_geometry().capacity_bytes as int, old(device).spec_geometry().sector_size as int,
                    old(self).spec_offset() as int) == (old(self).spec_offset() as int, 262144int,
                    (old(self).spec_generation() + 1) as u64, None::<Seq<u8>>),
    {
        if self.size == 0 {
            return Ok(());
        }
        proof {
            device.lemma_inv();
        }
        let ss = device.sector_size() as u64;
        let span = match checked_align_up_u64(64, ss) {
            Some(v) => v,
            None => {
                return Err(CoreFsError::State(msg("device journal region has no space")));
            },
        };
        proof {
            lemma_align_up(64, ss as int);
        }
        if span > usize::MAX as u64 {
            return Err(CoreFsError::State(msg("device journal region has no space")));
        }
        self.generation = self.generation + 1;
        let header = journal_header(0, self.generation, 0, 0, span as usize);
        let ghost c0 = device.content();
        device.write_at(self.offset, header.as_slice())?;
        device.sync()?;
        self.entries = None;
        proof {
            if device.stores_writes() && journal_region_ok(*old(self), *old(device)) {
                lemma_align_64(ss as int);
                let a = self.offset as int;
                let c = device.content();
                assert(c.subrange(a, a + 8) =~= header@.subrange(0, 8));
                assert(c.subrange(a + 8, a + 12) =~= header@.subrange(8, 12));
                assert(c.subrange(a + 12, a + 20) =~= header@.subrange(12, 20));
            }
        }
        Ok(())
    }
}

} // verus!
