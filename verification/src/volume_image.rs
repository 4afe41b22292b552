//! The single-file volume image format (version 5).
//!
//! An image is a 16-byte header (magic `COREFS01`, format version,
//! segment count), a directory of 24-byte entries (kind tag, four reserved
//! bytes, offset, length) and the segments, each on a 64-byte boundary.
//! Two segments, `SUPR` and `SUP2`, hold a 56-byte superblock each; every
//! other segment is a frame: kind tag, four reserved bytes, payload length
//! and payload checksum, then the payload.  A superblock records the
//! directory checksum and the XOR of the payload checksums; of the two
//! copies the valid one with the higher generation is used.
use vstd::prelude::*;
use vstd::bytes::*;
use crate::error::{CoreFsError, CoreFsResult, msg, msg_num};
use crate::device_volume::{
    align_up_spec, checksum, fold_checksum, SegmentLocation, dir_bytes, entry_bytes, volume_magic,
    le_u32_at, le_u64_at, index_lookup, lemma_dir_bytes, lemma_entry_bytes, is_superblock_kind,
    is_superblock_tag, checked_align_up_u64, lemma_align_up, laid_out, layout_end, layout_segments,
    assemble_image, write_image, encode_directory, now_nanos, layout_cursor, lemma_layout_cursor_grows,
};
use crate::ondisk::codec::{push_bytes, push_u32, push_u64, read_u32, read_u64, copy_range, bytes_eq, zeros, zero_vec, overwrite, write_bytes_at, push_zeros};
use crate::block_store::{BlockRecord, FreeExtentRecord, insert_sorted, sort_by_start, sort_free};
use crate::domain::InodeId;
use crate::segment_cache::kind_eq;
use crate::block_device::BlockDevice;
use crate::ondisk::volume::lossy_text;

verus! {

/// Image format version written and accepted here.
pub const IMAGE_FORMAT_VERSION: u32 = 5;
/// Bytes of a frame header in front of a segment payload.
pub const SEGMENT_FRAME_SIZE: usize = 24;
/// Bytes of an encoded image superblock.
pub const IMAGE_SUPERBLOCK_SIZE: usize = 56;

/// Round `value` up to the next multiple of `alignment`.
pub fn align_up(value: usize, alignment: usize) -> (r: usize)
    requires
        alignment > 0,
        align_up_spec(value as int, alignment as int) <= usize::MAX,
    ensures
        r == align_up_spec(value as int, alignment as int),
{
    if value % alignment == 0 {
        value
    } else {
        value + (alignment - (value % alignment))
    }
}

/// A framed segment: kind, four zero bytes, payload length, payload
/// checksum, payload.
pub open spec fn frame_bytes(kind: Seq<u8>, payload: Seq<u8>) -> Seq<u8> {
    kind + spec_u32_to_le_bytes(0) + spec_u64_to_le_bytes(payload.len() as u64)
        + spec_u64_to_le_bytes(fold_checksum(payload)) + payload
}

/// Frame `payload` as a segment of kind `kind`.
pub fn encode_segment_frame(kind: [u8; 4], payload: &[u8]) -> (r: Vec<u8>)
    ensures
        r@ == frame_bytes(kind@, payload@),
        r@.len() == payload@.len() + 24,
{
    let mut bytes: Vec<u8> = Vec::new();
    bytes.push(kind[0]);
    bytes.push(kind[1]);
    bytes.push(kind[2]);
    bytes.push(kind[3]);
    push_u32(&mut bytes, 0);
    push_u64(&mut bytes, payload.len() as u64);
    push_u64(&mut bytes, checksum(payload));
    push_bytes(&mut bytes, payload);
    proof {
        assert(kind@.len() == 4);
        assert(bytes@ =~= frame_bytes(kind@, payload@));
        lemma_auto_spec_u32_to_from_le_bytes();
        lemma_auto_spec_u64_to_from_le_bytes();
    }
    bytes
}

/// The header fields of a frame.
#[derive(Debug, Clone, Copy, PartialEq, Eq)]
pub struct SegmentFrameHeader {
    pub kind: [u8; 4],
    pub payload_length: u64,
    pub payload_checksum: u64,
}

/// Read the header of the frame at the start of `bytes` (at least 24 bytes).
pub fn parse_segment_frame_header(bytes: &[u8]) -> (r: CoreFsResult<SegmentFrameHeader>)
    ensures
        r is Ok <==> bytes@.len() >= 24,
        r matches Err(e) ==> e is State,
        r matches Ok(h) ==> h.kind@ == bytes@.subrange(0, 4) && h.payload_length == le_u64_at(bytes@, 8)
            && h.payload_checksum == le_u64_at(bytes@, 16),
{
    if bytes.len() < SEGMENT_FRAME_SIZE {
        return Err(CoreFsError::State(msg("truncated CoreFS segment frame")));
    }
    let kind: [u8; 4] = [bytes[0], bytes[1], bytes[2], bytes[3]];
    proof {
        assert(kind@ =~= bytes@.subrange(0, 4));
    }
    Ok(SegmentFrameHeader {
        kind,
        payload_length: read_u64(bytes, 8),
        payload_checksum: read_u64(bytes, 16),
    })
}

/// `bytes` start with a frame of kind `kind` whose payload lies inside
/// `bytes` and matches its checksum.
pub open spec fn frame_ok(bytes: Seq<u8>, kind: Seq<u8>) -> bool {
    &&& bytes.len() >= 24
    &&& bytes.subrange(0, 4) == kind
    &&& 24 + le_u64_at(bytes, 8) <= bytes.len()
    &&& fold_checksum(bytes.subrange(24, 24 + le_u64_at(bytes, 8))) == le_u64_at(bytes, 16)
}

/// The payload of the frame at the start of `bytes`.
pub open spec fn frame_payload(bytes: Seq<u8>) -> Seq<u8> {
    bytes.subrange(24, 24 + le_u64_at(bytes, 8))
}

/// The payload of the frame of kind `expected_kind` at the start of
/// `bytes`; bytes after the payload are ignored.
pub fn decode_segment_frame(bytes: &[u8], expected_kind: &[u8; 4]) -> (r: CoreFsResult<Vec<u8>>)
    ensures
        r is Ok <==> frame_ok(bytes@, expected_kind@),
        r matches Ok(p) ==> p@ == frame_payload(bytes@),
        r matches Err(e) ==> e is State,
{
    let header = parse_segment_frame_header(bytes)?;
    if !kind_eq(&header.kind, expected_kind) {
        return Err(CoreFsError::State(msg("mismatched CoreFS segment frame kind")));
    }
    let len = header.payload_length;
    if len > (bytes.len() - SEGMENT_FRAME_SIZE) as u64 {
        return Err(CoreFsError::State(msg("truncated CoreFS segment payload")));
    }
    let payload = copy_range(bytes, SEGMENT_FRAME_SIZE, SEGMENT_FRAME_SIZE + len as usize);
    if checksum(payload.as_slice()) != header.payload_checksum {
        return Err(CoreFsError::State(msg("invalid CoreFS segment payload checksum")));
    }
    Ok(payload)
}

/// Decoding a frame gives back what was framed: the frame that
/// `encode_segment_frame` writes for `kind` and `payload` is accepted for
/// `kind`, and its payload is `payload`.
pub proof fn lemma_frame_roundtrip(kind: Seq<u8>, payload: Seq<u8>)
    requires
        kind.len() == 4,
        payload.len() <= u64::MAX,
    ensures
        frame_ok(frame_bytes(kind, payload), kind),
        frame_payload(frame_bytes(kind, payload)) == payload,
{
    lemma_auto_spec_u32_to_from_le_bytes();
    lemma_auto_spec_u64_to_from_le_bytes();
    let f = frame_bytes(kind, payload);
    assert(f.subrange(0, 4) =~= kind);
    assert(f.subrange(8, 16) =~= spec_u64_to_le_bytes(payload.len() as u64));
    assert(f.subrange(16, 24) =~= spec_u64_to_le_bytes(fold_checksum(payload)));
    assert(f.subrange(24, 24 + payload.len() as int) =~= payload);
}

/// Length of the frame of kind `kind` at `offset` in `bytes`: its header
/// and payload, once the frame is checked.
pub fn detect_framed_segment_length(bytes: &[u8], offset: usize, kind: &[u8; 4]) -> (r: CoreFsResult<usize>)
    ensures
        r is Ok <==> offset <= bytes@.len() && frame_ok(bytes@.subrange(offset as int, bytes@.len() as int), kind@),
        r matches Ok(n) ==> n == 24 + le_u64_at(bytes@.subrange(offset as int, bytes@.len() as int), 8),
        r matches Err(e) ==> e is State,
{
    if offset > bytes.len() {
        return Err(CoreFsError::State(msg("reconstructed segment starts outside the image")));
    }
    let segment = copy_range(bytes, offset, bytes.len());
    let header = parse_segment_frame_header(segment.as_slice())?;
    if !kind_eq(&header.kind, kind) {
        return Err(CoreFsError::State(msg("unable to reconstruct segment, frame kind mismatch")));
    }
    if header.payload_length > (segment.len() - SEGMENT_FRAME_SIZE) as u64 {
        return Err(CoreFsError::State(msg("truncated reconstructed segment")));
    }
    let total = SEGMENT_FRAME_SIZE + header.payload_length as usize;
    let frame = copy_range(segment.as_slice(), 0, total);
    proof {
        assert(frame@.subrange(0, 4) =~= segment@.subrange(0, 4));
        assert(frame@.subrange(8, 16) =~= segment@.subrange(8, 16));
        assert(frame@.subrange(16, 24) =~= segment@.subrange(16, 24));
        assert(frame@.subrange(24, total as int) =~= segment@.subrange(24, total as int));
    }
    let _ = decode_segment_frame(frame.as_slice(), kind)?;
    Ok(total)
}

/// The superblock of an image.
#[derive(Debug, Clone, Copy, PartialEq, Eq)]
pub struct ImageSuperblock {
    pub format_version: u32,
    pub alignment: u32,
    pub segment_count: u32,
    pub clean_unmount: u32,
    pub generation: u64,
    pub directory_offset: u64,
    pub directory_length: u64,
    pub directory_checksum: u64,
    pub payload_checksum: u64,
}

/// The 56 bytes of an encoded superblock.
pub open spec fn image_superblock_bytes(s: ImageSuperblock) -> Seq<u8> {
    spec_u32_to_le_bytes(s.format_version) + spec_u32_to_le_bytes(s.alignment)
        + spec_u32_to_le_bytes(s.segment_count) + spec_u32_to_le_bytes(s.clean_unmount)
        + spec_u64_to_le_bytes(s.generation) + spec_u64_to_le_bytes(s.directory_offset)
        + spec_u64_to_le_bytes(s.directory_length) + spec_u64_to_le_bytes(s.directory_checksum)
        + spec_u64_to_le_bytes(s.payload_checksum)
}

/// The superblock whose fields stand in the first 56 bytes of `b`.
pub open spec fn image_superblock_of(b: Seq<u8>) -> ImageSuperblock {
    ImageSuperblock {
        format_version: le_u32_at(b, 0),
        alignment: le_u32_at(b, 4),
        segment_count: le_u32_at(b, 8),
        clean_unmount: le_u32_at(b, 12),
        generation: le_u64_at(b, 16),
        directory_offset: le_u64_at(b, 24),
        directory_length: le_u64_at(b, 32),
        directory_checksum: le_u64_at(b, 40),
        payload_checksum: le_u64_at(b, 48),
    }
}

/// Encode a superblock (56 bytes).
pub fn encode_superblock(s: &ImageSuperblock) -> (r: Vec<u8>)
    ensures
        r@ == image_superblock_bytes(*s),
        r@.len() == 56,
{
    let mut b: Vec<u8> = Vec::new();
    push_u32(&mut b, s.format_version);
    push_u32(&mut b, s.alignment);
    push_u32(&mut b, s.segment_count);
    push_u32(&mut b, s.clean_unmount);
    push_u64(&mut b, s.generation);
    push_u64(&mut b, s.directory_offset);
    push_u64(&mut b, s.directory_length);
    push_u64(&mut b, s.directory_checksum);
    push_u64(&mut b, s.payload_checksum);
    proof {
        lemma_auto_spec_u32_to_from_le_bytes();
        lemma_auto_spec_u64_to_from_le_bytes();
    }
    b
}

/// Decode a superblock from the first 56 bytes of `bytes`.
pub fn decode_superblock(bytes: &[u8]) -> (r: CoreFsResult<ImageSuperblock>)
    ensures
        r is Ok <==> bytes@.len() >= 56,
        r matches Ok(s) ==> s == image_superblock_of(bytes@),
        r matches Err(e) ==> e is State,
{
    if bytes.len() < IMAGE_SUPERBLOCK_SIZE {
        return Err(CoreFsError::State(msg("truncated CoreFS superblock segment")));
    }
    Ok(ImageSuperblock {
        format_version: read_u32(bytes, 0),
        alignment: read_u32(bytes, 4),
        segment_count: read_u32(bytes, 8),
        clean_unmount: read_u32(bytes, 12),
        generation: read_u64(bytes, 16),
        directory_offset: read_u64(bytes, 24),
        directory_length: read_u64(bytes, 32),
        directory_checksum: read_u64(bytes, 40),
        payload_checksum: read_u64(bytes, 48),
    })
}

/// Decoding an encoded superblock gives back the same superblock.
pub proof fn lemma_image_superblock_roundtrip(s: ImageSuperblock)
    ensures
        image_superblock_bytes(s).len() == 56,
        image_superblock_of(image_superblock_bytes(s)) == s,
{
    lemma_auto_spec_u32_to_from_le_bytes();
    lemma_auto_spec_u64_to_from_le_bytes();
    let b = image_superblock_bytes(s);
    assert(b.subrange(0, 4) =~= spec_u32_to_le_bytes(s.format_version));
    assert(b.subrange(4, 8) =~= spec_u32_to_le_bytes(s.alignment));
    assert(b.subrange(8, 12) =~= spec_u32_to_le_bytes(s.segment_count));
    assert(b.subrange(12, 16) =~= spec_u32_to_le_bytes(s.clean_unmount));
    assert(b.subrange(16, 24) =~= spec_u64_to_le_bytes(s.generation));
    assert(b.subrange(24, 32) =~= spec_u64_to_le_bytes(s.directory_offset));
    assert(b.subrange(32, 40) =~= spec_u64_to_le_bytes(s.directory_length));
    assert(b.subrange(40, 48) =~= spec_u64_to_le_bytes(s.directory_checksum));
    assert(b.subrange(48, 56) =~= spec_u64_to_le_bytes(s.payload_checksum));
}

/// A superblock is valid for an image whose directory and payloads have
/// the given checksums and which has `segment_count` segments.
pub open spec fn superblock_valid(s: ImageSuperblock, dir_ck: u64, payload_ck: u64, segment_count: int) -> bool {
    &&& s.directory_checksum == dir_ck
    &&& s.payload_checksum == payload_ck
    &&& s.format_version == IMAGE_FORMAT_VERSION
    &&& s.alignment == 64
    &&& s.segment_count == segment_count
}

/// Whether `s` is valid (see [`superblock_valid`]).
pub fn is_valid_superblock(s: &ImageSuperblock, dir_ck: u64, payload_ck: u64, segment_count: usize) -> (r: bool)
    ensures
        r == superblock_valid(*s, dir_ck, payload_ck, segment_count as int),
{
    s.directory_checksum == dir_ck && s.payload_checksum == payload_ck && s.format_version == IMAGE_FORMAT_VERSION
        && s.alignment == 64 && s.segment_count as usize == segment_count
}

/// The directory entries encoded in `bytes` (a whole number of 24-byte
/// entries).
pub open spec fn directory_entries(bytes: Seq<u8>) -> Seq<SegmentLocation> {
    Seq::new(bytes.len() / 24, |i: int| SegmentLocation {
        kind: [bytes[24 * i], bytes[24 * i + 1], bytes[24 * i + 2], bytes[24 * i + 3]],
        offset: le_u64_at(bytes, 24 * i + 8),
        length: le_u64_at(bytes, 24 * i + 16),
    })
}

/// Parse a directory: refused unless its size is a whole number of entries.
pub fn parse_directory(bytes: &[u8]) -> (r: CoreFsResult<Vec<SegmentLocation>>)
    ensures
        r is Ok <==> bytes@.len() % 24 == 0,
        r matches Ok(es) ==> es@ == directory_entries(bytes@),
        r matches Err(e) ==> e is State,
{
    if bytes.len() % 24 != 0 {
        return Err(CoreFsError::State(msg("invalid CoreFS volume image directory size")));
    }
    let len = bytes.len();
    let n = len / 24;
    let mut entries: Vec<SegmentLocation> = Vec::new();
    let mut i: usize = 0;
    while i < n
        invariant
            len == bytes@.len(),
            n == bytes@.len() / 24,
            bytes@.len() % 24 == 0,
            i <= n,
            entries@ == directory_entries(bytes@).subrange(0, i as int),
        decreases n - i,
    {
        proof {
            assert(24 * i + 24 <= len) by (nonlinear_arith)
                requires i < n, n == len / 24;
        }
        let base = 24 * i;
        let e = SegmentLocation {
            kind: [bytes[base], bytes[base + 1], bytes[base + 2], bytes[base + 3]],
            offset: read_u64(bytes, base + 8),
            length: read_u64(bytes, base + 16),
        };
        entries.push(e);
        proof {
            assert(entries@ =~= directory_entries(bytes@).subrange(0, i as int + 1));
        }
        i = i + 1;
    }
    proof {
        assert(directory_entries(bytes@).subrange(0, n as int) =~= directory_entries(bytes@));
    }
    Ok(entries)
}

/// Parsing an encoded directory gives back its entries.
pub proof fn lemma_directory_roundtrip(es: Seq<SegmentLocation>)
    ensures
        dir_bytes(es).len() % 24 == 0,
        directory_entries(dir_bytes(es)) == es,
{
    lemma_dir_bytes(es);
    let d = dir_bytes(es);
    assert forall|i: int| 0 <= i < es.len() implies #[trigger] directory_entries(d)[i] == es[i] by {
        lemma_entry_bytes(es[i]);
        assert(d.subrange(24 * i, 24 * i + 24) == entry_bytes(es[i]));
        let k = directory_entries(d)[i].kind;
        assert(d[24 * i] == entry_bytes(es[i])[0]);
        assert(d[24 * i + 1] == entry_bytes(es[i])[1]);
        assert(d[24 * i + 2] == entry_bytes(es[i])[2]);
        assert(d[24 * i + 3] == entry_bytes(es[i])[3]);
        assert(entry_bytes(es[i]).subrange(0, 4)[0] == es[i].kind@[0]);
        assert(k =~= es[i].kind);
        assert(d.subrange(24 * i + 8, 24 * i + 16) =~= entry_bytes(es[i]).subrange(8, 16));
        assert(d.subrange(24 * i + 16, 24 * i + 24) =~= entry_bytes(es[i]).subrange(16, 24));
    }
    assert(directory_entries(d) =~= es);
}

/// `bytes` start with a header of this format: at least 16 bytes, the
/// magic, and version 5.
pub open spec fn image_header_ok(bytes: Seq<u8>) -> bool {
    &&& bytes.len() >= 16
    &&& bytes.subrange(0, 8) == volume_magic()
    &&& le_u32_at(bytes, 8) == IMAGE_FORMAT_VERSION
}

/// Check the header: size, magic and version.
pub fn validate_header_basics(bytes: &[u8]) -> (r: CoreFsResult<()>)
    ensures
        r is Ok <==> image_header_ok(bytes@),
        r matches Err(e) ==> e is State,
{
    if bytes.len() < 16 {
        return Err(CoreFsError::State(msg("invalid CoreFS volume image, file too small")));
    }
    let m = bytes[0] == 0x43 && bytes[1] == 0x4F && bytes[2] == 0x52 && bytes[3] == 0x45
        && bytes[4] == 0x46 && bytes[5] == 0x53 && bytes[6] == 0x30 && bytes[7] == 0x31;
    proof {
        if m {
            assert(bytes@.subrange(0, 8) =~= volume_magic());
        } else {
            if bytes@.subrange(0, 8) == volume_magic() {
                assert(bytes@.subrange(0, 8)[0] == bytes@[0]);
                assert(bytes@.subrange(0, 8)[1] == bytes@[1]);
                assert(bytes@.subrange(0, 8)[2] == bytes@[2]);
                assert(bytes@.subrange(0, 8)[3] == bytes@[3]);
                assert(bytes@.subrange(0, 8)[4] == bytes@[4]);
                assert(bytes@.subrange(0, 8)[5] == bytes@[5]);
                assert(bytes@.subrange(0, 8)[6] == bytes@[6]);
                assert(bytes@.subrange(0, 8)[7] == bytes@[7]);
            }
        }
    }
    if !m {
        return Err(CoreFsError::State(msg("invalid CoreFS volume image magic")));
    }
    let version = read_u32(bytes, 8);
    if version != IMAGE_FORMAT_VERSION {
        return Err(CoreFsError::State(msg_num("unsupported CoreFS volume image version ", version as u64, "")));
    }
    Ok(())
}

/// The directory that the header of `bytes` announces.
pub fn load_directory_from_header(bytes: &[u8]) -> (r: CoreFsResult<Vec<SegmentLocation>>)
    ensures
        r is Ok <==> image_header_ok(bytes@) && 16 + 24 * le_u32_at(bytes@, 12) <= bytes@.len(),
        r matches Ok(es) ==> es@ == directory_entries(bytes@.subrange(16, 16 + 24 * le_u32_at(bytes@, 12))),
        r matches Err(e) ==> e is State,
{
    validate_header_basics(bytes)?;
    let count = read_u32(bytes, 12) as usize;
    if count > (bytes.len() - 16) / 24 {
        return Err(CoreFsError::State(msg("truncated CoreFS volume image segment directory")));
    }
    let dir = copy_range(bytes, 16, 16 + count * 24);
    proof {
        assert(dir@.len() % 24 == 0) by (nonlinear_arith)
            requires dir@.len() == count * 24;
    }
    parse_directory(dir.as_slice())
}

/// The first entry of kind `kind`.
pub fn find_segment(entries: &[SegmentLocation], kind: &[u8; 4]) -> (r: CoreFsResult<SegmentLocation>)
    ensures
        r is Ok <==> index_lookup(entries@, kind@) is Some,
        r matches Ok(l) ==> index_lookup(entries@, kind@) == Some(l),
        r matches Err(e) ==> e is State,
{
    let mut i: usize = 0;
    proof {
        assert(entries@.subrange(0, entries@.len() as int) =~= entries@);
    }
    while i < entries.len()
        invariant
            i <= entries@.len(),
            index_lookup(entries@, kind@) == index_lookup(entries@.subrange(i as int, entries@.len() as int), kind@),
        decreases entries@.len() - i,
    {
        proof {
            let rest = entries@.subrange(i as int, entries@.len() as int);
            assert(rest[0] == entries@[i as int]);
            assert(rest.drop_first() =~= entries@.subrange(i as int + 1, entries@.len() as int));
        }
        if kind_eq(&entries[i].kind, kind) {
            return Ok(entries[i]);
        }
        i = i + 1;
    }
    proof {
        assert(entries@.subrange(i as int, entries@.len() as int).len() == 0);
    }
    Err(CoreFsError::State(msg("missing CoreFS volume image segment")))
}

/// The contents of segment `e` of image `bytes`: the raw bytes of a
/// superblock segment, the checked payload of any other (framed) segment;
/// none when the segment lies outside the image or its frame is broken.
pub open spec fn segment_view(bytes: Seq<u8>, e: SegmentLocation) -> Option<Seq<u8>> {
    if e.offset + e.length > bytes.len() {
        None
    } else {
        let seg = bytes.subrange(e.offset as int, e.offset + e.length);
        if is_superblock_kind(e.kind@) {
            Some(seg)
        } else if frame_ok(seg, e.kind@) {
            Some(frame_payload(seg))
        } else {
            None
        }
    }
}

/// The contents of segment `entry` (see [`segment_view`]).
pub fn segment_bytes(bytes: &[u8], entry: &SegmentLocation) -> (r: CoreFsResult<Vec<u8>>)
    ensures
        r is Ok <==> segment_view(bytes@, *entry) is Some,
        r matches Ok(v) ==> segment_view(bytes@, *entry) == Some(v@),
        r matches Err(e) ==> e is State,
{
    if entry.offset > bytes.len() as u64 || entry.length > bytes.len() as u64 - entry.offset {
        return Err(CoreFsError::State(msg("truncated CoreFS volume image segment")));
    }
    let start = entry.offset as usize;
    let end = start + entry.length as usize;
    let seg = copy_range(bytes, start, end);
    if is_superblock_tag(&entry.kind) {
        Ok(seg)
    } else {
        decode_segment_frame(seg.as_slice(), &entry.kind)
    }
}

/// XOR of the checksums of the contents of the first `n` entries that are
/// not superblock segments; none when one of them cannot be read.
pub open spec fn payload_checksum_of(bytes: Seq<u8>, es: Seq<SegmentLocation>, n: int) -> Option<u64>
    decreases n,
{
    if n <= 0 {
        Some(0u64)
    } else {
        match payload_checksum_of(bytes, es, n - 1) {
            None => None,
            Some(acc) => {
                if is_superblock_kind(es[n - 1].kind@) {
                    Some(acc)
                } else {
                    match segment_view(bytes, es[n - 1]) {
                        None => None,
                        Some(v) => Some(acc ^ fold_checksum(v)),
                    }
                }
            },
        }
    }
}

/// The payload checksum of an image (see [`payload_checksum_of`]).
pub fn checksum_of_segment_data(bytes: &[u8], entries: &[SegmentLocation]) -> (r: CoreFsResult<u64>)
    ensures
        r is Ok <==> payload_checksum_of(bytes@, entries@, entries@.len() as int) is Some,
        r matches Ok(v) ==> payload_checksum_of(bytes@, entries@, entries@.len() as int) == Some(v),
        r matches Err(e) ==> e is State,
{
    let mut value: u64 = 0;
    let mut i: usize = 0;
    while i < entries.len()
        invariant
            i <= entries@.len(),
            payload_checksum_of(bytes@, entries@, i as int) == Some(value),
        decreases entries@.len() - i,
    {
        if !is_superblock_tag(&entries[i].kind) {
            let seg = match segment_bytes(bytes, &entries[i]) {
                Ok(v) => v,
                Err(e) => {
                    proof {
                        lemma_payload_checksum_none(bytes@, entries@, i as int + 1, entries@.len() as int);
                    }
                    return Err(e);
                },
            };
            value = value ^ checksum(seg.as_slice());
        }
        i = i + 1;
    }
    Ok(value)
}

proof fn lemma_payload_checksum_none(bytes: Seq<u8>, es: Seq<SegmentLocation>, k: int, n: int)
    requires
        0 < k <= n,
        payload_checksum_of(bytes, es, k) is None,
    ensures
        payload_checksum_of(bytes, es, n) is None,
    decreases n - k,
{
    if k < n {
        lemma_payload_checksum_none(bytes, es, k, n - 1);
    }
}

/// The superblock in segment `e` when it can be decoded and is valid.
pub open spec fn superblock_candidate(bytes: Seq<u8>, e: SegmentLocation, dir_ck: u64, payload_ck: u64, count: int) -> Option<ImageSuperblock> {
    match segment_view(bytes, e) {
        Some(v) => if v.len() >= 56 && superblock_valid(image_superblock_of(v), dir_ck, payload_ck, count) {
            Some(image_superblock_of(v))
        } else {
            None
        },
        None => None,
    }
}

/// The superblock chosen from the two copies and the number of valid
/// copies: the valid copy with the higher generation, the second copy on
/// a tie.
pub open spec fn best_superblock(c1: Option<ImageSuperblock>, c2: Option<ImageSuperblock>) -> Option<(ImageSuperblock, usize)> {
    match (c1, c2) {
        (Some(a), Some(b)) => Some((if b.generation >= a.generation { b } else { a }, 2usize)),
        (Some(a), None) => Some((a, 1usize)),
        (None, Some(b)) => Some((b, 1usize)),
        (None, None) => None,
    }
}

/// The superblock to use (see [`best_superblock`]); an error when either
/// copy cannot be read or neither is valid.
pub fn read_best_superblock(
    bytes: &[u8],
    primary: &SegmentLocation,
    secondary: &SegmentLocation,
    dir_ck: u64,
    payload_ck: u64,
    count: usize,
) -> (r: CoreFsResult<(ImageSuperblock, usize)>)
    ensures
        segment_view(bytes@, *primary) is None ==> r is Err,
        segment_view(bytes@, *primary) is Some && segment_view(bytes@, *secondary) is None ==> r is Err,
        segment_view(bytes@, *primary) is Some && segment_view(bytes@, *secondary) is Some ==> match best_superblock(
            superblock_candidate(bytes@, *primary, dir_ck, payload_ck, count as int),
            superblock_candidate(bytes@, *secondary, dir_ck, payload_ck, count as int),
        ) {
            Some(b) => r == Ok::<(ImageSuperblock, usize), CoreFsError>(b),
            None => r is Err,
        },
        r matches Err(e) ==> e is State,
{
    let p = segment_bytes(bytes, primary)?;
    let c1 = match decode_superblock(p.as_slice()) {
        Ok(s) => if is_valid_superblock(&s, dir_ck, payload_ck, count) { Some(s) } else { None },
        Err(_) => None,
    };
    let q = segment_bytes(bytes, secondary)?;
    let c2 = match decode_superblock(q.as_slice()) {
        Ok(s) => if is_valid_superblock(&s, dir_ck, payload_ck, count) { Some(s) } else { None },
        Err(_) => None,
    };
    match (c1, c2) {
        (Some(a), Some(b)) => Ok((if b.generation >= a.generation { b } else { a }, 2)),
        (Some(a), None) => Ok((a, 1)),
        (None, Some(b)) => Ok((b, 1)),
        (None, None) => Err(CoreFsError::State(msg("no valid CoreFS superblock copy found"))),
    }
}

/// The kinds every image must hold: `SUPR`, `SUP2`, `CNFG`, `VOLM`,
/// `AINO`, `DINO`, `JOUR`, `VERS`, `SYNC`, `HOTP`, `SNAP`, `TXNJ`, `BLKD`,
/// `DATA` (`FREE` is optional).
pub open spec fn required_kinds() -> Seq<Seq<u8>> {
    seq![
        seq![0x53u8, 0x55, 0x50, 0x52], seq![0x53u8, 0x55, 0x50, 0x32], seq![0x43u8, 0x4E, 0x46, 0x47],
        seq![0x56u8, 0x4F, 0x4C, 0x4D], seq![0x41u8, 0x49, 0x4E, 0x4F], seq![0x44u8, 0x49, 0x4E, 0x4F],
        seq![0x4Au8, 0x4F, 0x55, 0x52], seq![0x56u8, 0x45, 0x52, 0x53], seq![0x53u8, 0x59, 0x4E, 0x43],
        seq![0x48u8, 0x4F, 0x54, 0x50], seq![0x53u8, 0x4E, 0x41, 0x50], seq![0x54u8, 0x58, 0x4E, 0x4A],
        seq![0x42u8, 0x4C, 0x4B, 0x44], seq![0x44u8, 0x41, 0x54, 0x41],
    ]
}

fn required_kind_tags() -> (r: Vec<[u8; 4]>)
    ensures
        r@.len() == required_kinds().len(),
        forall|i: int| 0 <= i < r@.len() ==> (#[trigger] r@[i])@ == required_kinds()[i],
{
    let v: Vec<[u8; 4]> = vec![
        [0x53, 0x55, 0x50, 0x52], [0x53, 0x55, 0x50, 0x32], [0x43, 0x4E, 0x46, 0x47],
        [0x56, 0x4F, 0x4C, 0x4D], [0x41, 0x49, 0x4E, 0x4F], [0x44, 0x49, 0x4E, 0x4F],
        [0x4A, 0x4F, 0x55, 0x52], [0x56, 0x45, 0x52, 0x53], [0x53, 0x59, 0x4E, 0x43],
        [0x48, 0x4F, 0x54, 0x50], [0x53, 0x4E, 0x41, 0x50], [0x54, 0x58, 0x4E, 0x4A],
        [0x42, 0x4C, 0x4B, 0x44], [0x44, 0x41, 0x54, 0x41],
    ];
    proof {
        assert forall|i: int| 0 <= i < v@.len() implies (#[trigger] v@[i])@ == required_kinds()[i] by {
            assert(v@[i]@ =~= required_kinds()[i]);
        }
    }
    v
}

/// Every required kind has a segment in `entries`.
pub fn validate_required_segments(entries: &[SegmentLocation]) -> (r: CoreFsResult<()>)
    ensures
        r is Ok <==> forall|i: int| 0 <= i < required_kinds().len() ==> index_lookup(entries@, #[trigger] required_kinds()[i]) is Some,
        r matches Err(e) ==> e is State,
{
    let kinds = required_kind_tags();
    let mut i: usize = 0;
    while i < kinds.len()
        invariant
            kinds@.len() == required_kinds().len(),
            forall|j: int| 0 <= j < kinds@.len() ==> (#[trigger] kinds@[j])@ == required_kinds()[j],
            i <= kinds@.len(),
            forall|j: int| 0 <= j < i ==> index_lookup(entries@, #[trigger] required_kinds()[j]) is Some,
        decreases kinds@.len() - i,
    {
        let k = kinds[i];
        match find_segment(entries, &k) {
            Ok(_) => {},
            Err(e) => {
                return Err(e);
            },
        }
        i = i + 1;
    }
    Ok(())
}

/// What the structure of an image yields: its directory, the chosen
/// superblock, the number of valid superblock copies, and the directory
/// and payload checksums.
#[derive(Debug, Clone)]
pub struct ImageStructure {
    pub entries: Vec<SegmentLocation>,
    pub superblock: ImageSuperblock,
    pub valid_superblocks: usize,
    pub directory_checksum: u64,
    pub payload_checksum: u64,
}

/// The checks of an image's structure, in the order they are made: the
/// header, the directory, both superblock segments, the payload checksum,
/// a valid superblock copy, and every required segment.
pub open spec fn image_structure_ok(bytes: Seq<u8>, st: ImageStructure) -> bool {
    let n = le_u32_at(bytes, 12) as int;
    let dir = bytes.subrange(16, 16 + 24 * n);
    let es = directory_entries(dir);
    &&& image_header_ok(bytes)
    &&& 16 + 24 * n <= bytes.len()
    &&& st.entries@ == es
    &&& index_lookup(es, seq![0x53u8, 0x55, 0x50, 0x52]) matches Some(p)
    &&& index_lookup(es, seq![0x53u8, 0x55, 0x50, 0x32]) matches Some(q)
    &&& payload_checksum_of(bytes, es, es.len() as int) == Some(st.payload_checksum)
    &&& st.directory_checksum == fold_checksum(dir)
    &&& segment_view(bytes, p) is Some
    &&& segment_view(bytes, q) is Some
    &&& best_superblock(
        superblock_candidate(bytes, p, st.directory_checksum, st.payload_checksum, n),
        superblock_candidate(bytes, q, st.directory_checksum, st.payload_checksum, n),
    ) == Some((st.superblock, st.valid_superblocks))
    &&& forall|i: int| 0 <= i < required_kinds().len() ==> index_lookup(es, #[trigger] required_kinds()[i]) is Some
}

/// Check the structure of the image `bytes` (see [`image_structure_ok`]).
/// When the checks pass, the result is determined by the image; which
/// check failed is not distinguished beyond the message.
pub fn inspect_image_structure(bytes: &[u8]) -> (r: CoreFsResult<ImageStructure>)
    ensures
        r matches Ok(st) ==> image_structure_ok(bytes@, st),
        (exists|st: ImageStructure| #[trigger] image_structure_ok(bytes@, st)) ==> r is Ok,
        r matches Err(e) ==> e is State,
{
    let entries = load_directory_from_header(bytes)?;
    let count = read_u32(bytes, 12) as usize;
    let blen = bytes.len();
    proof {
        assert(count == le_u32_at(bytes@, 12));
        assert(16 + 24 * count <= blen);
    }
    let dir = copy_range(bytes, 16, 16 + 24 * count);
    let supr: [u8; 4] = [0x53, 0x55, 0x50, 0x52];
    let sup2: [u8; 4] = [0x53, 0x55, 0x50, 0x32];
    proof {
        assert(supr@ =~= seq![0x53u8, 0x55, 0x50, 0x52]);
        assert(sup2@ =~= seq![0x53u8, 0x55, 0x50, 0x32]);
    }
    let primary = find_segment(entries.as_slice(), &supr)?;
    let secondary = find_segment(entries.as_slice(), &sup2)?;
    let payload_ck = checksum_of_segment_data(bytes, entries.as_slice())?;
    let dir_ck = checksum(dir.as_slice());
    let (superblock, valid) = read_best_superblock(bytes, &primary, &secondary, dir_ck, payload_ck, count)?;
    validate_required_segments(entries.as_slice())?;
    let st = ImageStructure {
        entries,
        superblock,
        valid_superblocks: valid,
        directory_checksum: dir_ck,
        payload_checksum: payload_ck,
    };
    proof {
        assert(image_structure_ok(bytes@, st));
    }
    Ok(st)
}

/// Structural health of an image.
#[derive(Debug, Clone, PartialEq, Eq)]
pub struct VolumeImageInspectionReport {
    pub format_version: u32,
    pub segment_count: usize,
    pub valid_superblocks: usize,
    pub selected_generation: u64,
    pub directory_checksum_valid: bool,
    pub payload_checksum_valid: bool,
    pub segment_kinds: Vec<String>,
    pub block_descriptors: usize,
}

/// The report on an image of structure `st` with `block_descriptors`
/// block descriptors: version 5, the segment count, the number of valid
/// superblock copies, the chosen generation, whether the chosen copy
/// records the directory and payload checksums, and the segment kinds as
/// text.
pub fn inspection_report(st: &ImageStructure, block_descriptors: usize) -> (r: VolumeImageInspectionReport)
    ensures
        r.format_version == IMAGE_FORMAT_VERSION,
        r.segment_count == st.entries@.len(),
        r.valid_superblocks == st.valid_superblocks,
        r.selected_generation == st.superblock.generation,
        r.directory_checksum_valid == (st.superblock.directory_checksum == st.directory_checksum),
        r.payload_checksum_valid == (st.superblock.payload_checksum == st.payload_checksum),
        r.segment_kinds@.len() == st.entries@.len(),
        forall|i: int| 0 <= i < st.entries@.len() && (forall|j: int| 0 <= j < 4 ==> st.entries@[i].kind@[j] < 128)
            ==> (#[trigger] r.segment_kinds@[i])@ == st.entries@[i].kind@.map_values(|b: u8| b as char),
        r.block_descriptors == block_descriptors,
{
    let mut kinds: Vec<String> = Vec::new();
    let mut i: usize = 0;
    while i < st.entries.len()
        invariant
            i <= st.entries@.len(),
            kinds@.len() == i,
            forall|k: int| 0 <= k < i && (forall|j: int| 0 <= j < 4 ==> st.entries@[k].kind@[j] < 128)
                ==> (#[trigger] kinds@[k])@ == st.entries@[k].kind@.map_values(|b: u8| b as char),
        decreases st.entries@.len() - i,
    {
        let kind = st.entries[i].kind;
        let text = lossy_text(kind.as_slice());
        kinds.push(text);
        i = i + 1;
    }
    VolumeImageInspectionReport {
        format_version: IMAGE_FORMAT_VERSION,
        segment_count: st.entries.len(),
        valid_superblocks: st.valid_superblocks,
        selected_generation: st.superblock.generation,
        directory_checksum_valid: st.superblock.directory_checksum == st.directory_checksum,
        payload_checksum_valid: st.superblock.payload_checksum == st.payload_checksum,
        segment_kinds: kinds,
        block_descriptors,
    }
}

/// The largest end (offset plus length) among the first `n` entries.
pub open spec fn entries_end(es: Seq<SegmentLocation>, n: int) -> int
    decreases n,
{
    if n <= 0 {
        0
    } else {
        let e = es[n - 1].offset + es[n - 1].length;
        if n == 1 { e } else {
            let m = entries_end(es, n - 1);
            if e > m { e } else { m }
        }
    }
}

/// Where the image with directory `es` (ending at `dir_end`) ends: the
/// largest segment end, or the directory end when there are no segments.
pub open spec fn image_extent(es: Seq<SegmentLocation>, dir_end: int) -> int {
    if es.len() == 0 { dir_end } else { entries_end(es, es.len() as int) }
}

/// The directory stored in `c` (per its header).
pub open spec fn stored_directory(c: Seq<u8>) -> Seq<SegmentLocation> {
    directory_entries(c.subrange(16, 16 + 24 * (le_u32_at(c, 12) as int)))
}

/// Read the image at the start of `device`: the header sector, the sectors
/// holding the directory, then everything up to the end of the last
/// segment, rounded up to whole sectors and cut at the device's end.  The
/// magic is checked, and with `require_version` the format version too.
pub fn read_image_from_device<D: BlockDevice>(device: &D, require_version: bool) -> (r: CoreFsResult<Vec<u8>>)
    requires
        device.inv(),
    ensures
        r matches Ok(v) ==> {
            let c = device.content();
            let ss = device.spec_geometry().sector_size as int;
            let cap = device.spec_geometry().capacity_bytes as int;
            let dir_end = 16 + 24 * (le_u32_at(c, 12) as int);
            let want = align_up_spec(image_extent(stored_directory(c), dir_end), ss);
            &&& c.len() >= 16
            &&& c.subrange(0, 8) == volume_magic()
            &&& (require_version ==> le_u32_at(c, 8) == IMAGE_FORMAT_VERSION)
            &&& v@.len() == (if want < cap { want } else { cap })
            &&& v@ == c.subrange(0, v@.len() as int)
        },
{
    proof {
        device.lemma_inv();
    }
    let ghost c = device.content();
    let ss = device.sector_size() as u64;
    let cap = device.capacity();
    let header_sector = device.read_at(0, ss)?;
    if header_sector.len() < 16 {
        return Err(CoreFsError::State(msg("device too small for CoreFS header")));
    }
    let magic: [u8; 8] = [0x43, 0x4F, 0x52, 0x45, 0x46, 0x53, 0x30, 0x31];
    proof {
        assert(magic@ =~= volume_magic());
    }
    let head = copy_range(header_sector.as_slice(), 0, 8);
    if !bytes_eq(head.as_slice(), magic.as_slice()) {
        return Err(CoreFsError::State(msg("device does not contain a CoreFS volume (invalid magic)")));
    }
    proof {
        assert(header_sector@.subrange(0, 8) =~= c.subrange(0, 8));
        assert(header_sector@.subrange(8, 12) =~= c.subrange(8, 12));
        assert(header_sector@.subrange(12, 16) =~= c.subrange(12, 16));
    }
    if require_version {
        let version = read_u32(header_sector.as_slice(), 8);
        if version != IMAGE_FORMAT_VERSION {
            return Err(CoreFsError::State(msg_num("unsupported CoreFS format version ", version as u64, " on device")));
        }
    }
    let count = read_u32(header_sector.as_slice(), 12);
    let dir_end: u64 = 16 + 24 * (count as u64);
    let needed = match checked_align_up_u64(dir_end, ss) {
        Some(v) => v,
        None => {
            return Err(CoreFsError::State(msg("CoreFS directory runs past the addressable range")));
        },
    };
    proof {
        lemma_align_up(dir_end as int, ss as int);
    }
    let header_bytes = if needed > ss {
        let extra = device.read_at(ss, needed - ss)?;
        let mut combined = header_sector;
        push_bytes(&mut combined, extra.as_slice());
        proof {
            assert(combined@ =~= c.subrange(0, needed as int));
        }
        combined
    } else {
        header_sector
    };
    if dir_end > header_bytes.len() as u64 {
        return Err(CoreFsError::State(msg("truncated CoreFS directory on device")));
    }
    let dir = copy_range(header_bytes.as_slice(), 16, dir_end as usize);
    proof {
        assert(dir@ =~= c.subrange(16, dir_end as int));
        assert(dir@.len() % 24 == 0) by (nonlinear_arith)
            requires dir@.len() == 24 * count;
    }
    let entries = parse_directory(dir.as_slice())?;
    let mut image_end: u64 = dir_end;
    let mut i: usize = 0;
    while i < entries.len()
        invariant
            i <= entries@.len(),
            image_end == (if i == 0 { dir_end as int } else { entries_end(entries@, i as int) }),
        decreases entries@.len() - i,
    {
        let e = entries[i];
        let end = match e.offset.checked_add(e.length) {
            Some(v) => v,
            None => {
                return Err(CoreFsError::State(msg("corrupt CoreFS directory entry")));
            },
        };
        if i == 0 || end > image_end {
            image_end = end;
        }
        i = i + 1;
    }
    let want = match checked_align_up_u64(image_end, ss) {
        Some(v) => v,
        None => {
            return Err(CoreFsError::State(msg("CoreFS image runs past the addressable range")));
        },
    };
    let total = if want < cap { want } else { cap };
    let hl = header_bytes.len() as u64;
    if total > hl {
        let rest = device.read_at(hl, total - hl)?;
        let mut full = header_bytes;
        push_bytes(&mut full, rest.as_slice());
        proof {
            assert(full@ =~= c.subrange(0, total as int));
        }
        Ok(full)
    } else {
        let part = copy_range(header_bytes.as_slice(), 0, total as usize);
        proof {
            assert(part@ =~= c.subrange(0, total as int));
        }
        Ok(part)
    }
}

/// Where the bytes of one stored inode sit in the `DATA` segment.
#[derive(Debug, Clone, Copy, PartialEq, Eq)]
pub struct BlockDescriptor {
    pub inode: InodeId,
    pub checksum: u64,
    pub device_block: u64,
    pub allocated_blocks: u64,
    pub offset: u64,
    pub length: u64,
}

/// `a * b`, saturating at `u64::MAX`.
pub open spec fn sat_mul(a: u64, b: u64) -> u64 {
    if a * b > u64::MAX { u64::MAX } else { (a * b) as u64 }
}

/// `a + b`, saturating at `u64::MAX`.
pub open spec fn sat_add(a: u64, b: u64) -> u64 {
    if a + b > u64::MAX { u64::MAX } else { (a + b) as u64 }
}

/// At least one block.
pub open spec fn at_least_one(n: u64) -> u64 {
    if n == 0 { 1 } else { n }
}

/// End of the blocks of `r` in bytes (saturating).
pub open spec fn record_span_end(r: BlockRecord, bs: u64) -> u64 {
    sat_mul(sat_add(r.device_block, at_least_one(r.allocated_blocks)), bs)
}

/// The largest span end among the first `n` records (0 for none).
pub open spec fn records_span_end(rs: Seq<BlockRecord>, bs: u64, n: int) -> u64
    decreases n,
{
    if n <= 0 {
        0
    } else {
        let m = records_span_end(rs, bs, n - 1);
        let e = record_span_end(rs[n - 1], bs);
        if e > m { e } else { m }
    }
}

/// The block size used: `block_size`, or 1 for zero.
pub open spec fn effective_block_size(block_size: usize) -> u64 {
    if block_size == 0 { 1u64 } else { block_size as u64 }
}

/// The descriptor of record `r` with blocks of `bs` bytes.
pub open spec fn descriptor_of(r: BlockRecord, bs: u64) -> BlockDescriptor {
    BlockDescriptor {
        inode: r.inode,
        checksum: r.checksum,
        device_block: r.device_block,
        allocated_blocks: at_least_one(r.allocated_blocks),
        offset: sat_mul(r.device_block, bs),
        length: r.bytes@.len() as u64,
    }
}

/// The `DATA` bytes after the first `n` records were placed: zeros up to
/// the largest span end, then each record's bytes at its block offset,
/// extending the buffer where they run past its end.
pub open spec fn split_data(rs: Seq<BlockRecord>, bs: u64, n: int) -> Seq<u8>
    decreases n,
{
    if n <= 0 {
        zeros(records_span_end(rs, bs, rs.len() as int) as nat)
    } else {
        let prev = split_data(rs, bs, n - 1);
        let r = rs[n - 1];
        let st = sat_mul(r.device_block, bs) as int;
        let end = st + r.bytes@.len();
        let ext = if end > prev.len() { prev + zeros((end - prev.len()) as nat) } else { prev };
        overwrite(ext, st, r.bytes@)
    }
}

fn sat_mul_exec(a: u64, b: u64) -> (r: u64)
    ensures
        r == sat_mul(a, b),
{
    match a.checked_mul(b) {
        Some(v) => v,
        None => u64::MAX,
    }
}

fn sat_add_exec(a: u64, b: u64) -> (r: u64)
    ensures
        r == sat_add(a, b),
{
    match a.checked_add(b) {
        Some(v) => v,
        None => u64::MAX,
    }
}

/// The byte ranges of the records do not overlap.
pub open spec fn record_ranges_disjoint(rs: Seq<BlockRecord>, bs: u64) -> bool {
    forall|i: int, j: int| 0 <= i < j < rs.len() ==> ({
        let oi = sat_mul(#[trigger] rs[i].device_block, bs) as int;
        let oj = sat_mul(#[trigger] rs[j].device_block, bs) as int;
        oi + rs[i].bytes@.len() <= oj || oj + rs[j].bytes@.len() <= oi
    })
}

proof fn lemma_split_data_keeps(rs: Seq<BlockRecord>, bs: u64, k: int, n: int)
    requires
        record_ranges_disjoint(rs, bs),
        0 <= k < n <= rs.len(),
    ensures ({
        let o = sat_mul(rs[k].device_block, bs) as int;
        &&& o + rs[k].bytes@.len() <= split_data(rs, bs, n).len()
        &&& split_data(rs, bs, n).subrange(o, o + rs[k].bytes@.len()) == rs[k].bytes@
    }),
    decreases n,
{
    let o = sat_mul(rs[k].device_block, bs) as int;
    let l = rs[k].bytes@.len() as int;
    let prev = split_data(rs, bs, n - 1);
    let r = rs[n - 1];
    let st = sat_mul(r.device_block, bs) as int;
    let end = st + r.bytes@.len();
    let ext = if end > prev.len() { prev + zeros((end - prev.len()) as nat) } else { prev };
    if n == k + 1 {
        assert(split_data(rs, bs, n).subrange(o, o + l) =~= rs[k].bytes@);
    } else {
        lemma_split_data_keeps(rs, bs, k, n - 1);
        assert(ext.subrange(o, o + l) =~= prev.subrange(o, o + l));
        assert(split_data(rs, bs, n).subrange(o, o + l) =~= ext.subrange(o, o + l));
    }
}

/// Splitting records into descriptors and a `DATA` buffer and joining
/// them again gives back each record (with at least one allocated block)
/// when the records' byte ranges do not overlap.
pub proof fn lemma_split_join_roundtrip(rs: Seq<BlockRecord>, bs: u64, joined: Seq<BlockRecord>)
    requires
        record_ranges_disjoint(rs, bs),
        forall|k: int| 0 <= k < rs.len() ==> #[trigger] rs[k].bytes@.len() <= usize::MAX,
        joined.len() == rs.len(),
        forall|k: int| 0 <= k < rs.len() ==> record_matches(#[trigger] joined[k], descriptor_of(rs[k], bs),
            split_data(rs, bs, rs.len() as int)),
    ensures
        forall|k: int| 0 <= k < rs.len() ==> {
            &&& (#[trigger] joined[k]).inode == rs[k].inode
            &&& joined[k].bytes@ == rs[k].bytes@
            &&& joined[k].checksum == rs[k].checksum
            &&& joined[k].device_block == rs[k].device_block
            &&& joined[k].allocated_blocks == at_least_one(rs[k].allocated_blocks)
        },
        forall|k: int| 0 <= k < rs.len() ==> #[trigger] descriptor_of(rs[k], bs).offset + descriptor_of(rs[k], bs).length
            <= split_data(rs, bs, rs.len() as int).len(),
{
    assert forall|k: int| 0 <= k < rs.len() implies #[trigger] descriptor_of(rs[k], bs).offset + descriptor_of(rs[k], bs).length
        <= split_data(rs, bs, rs.len() as int).len() by {
        lemma_split_data_keeps(rs, bs, k, rs.len() as int);
    }
    assert forall|k: int| 0 <= k < rs.len() implies {
        &&& (#[trigger] joined[k]).inode == rs[k].inode
        &&& joined[k].bytes@ == rs[k].bytes@
        &&& joined[k].checksum == rs[k].checksum
        &&& joined[k].device_block == rs[k].device_block
        &&& joined[k].allocated_blocks == at_least_one(rs[k].allocated_blocks)
    } by {
        lemma_split_data_keeps(rs, bs, k, rs.len() as int);
        assert(record_matches(joined[k], descriptor_of(rs[k], bs), split_data(rs, bs, rs.len() as int)));
        assert(rs[k].bytes@.len() <= usize::MAX);
        assert(at_least_one(at_least_one(rs[k].allocated_blocks)) == at_least_one(rs[k].allocated_blocks));
    }
}

/// Lay the records out as descriptors and one `DATA` buffer: each
/// record's bytes at its first block times the block size (`block_size`,
/// at least one).
pub fn split_blocks(block_records: &[BlockRecord], block_size: usize) -> (r: (Vec<BlockDescriptor>, Vec<u8>))
    requires
        records_span_end(block_records@, effective_block_size(block_size), block_records@.len() as int) <= usize::MAX,
        forall|k: int| 0 <= k < block_records@.len() ==> #[trigger] sat_mul(block_records@[k].device_block,
            effective_block_size(block_size)) + block_records@[k].bytes@.len() <= usize::MAX,
    ensures ({
        let bs = effective_block_size(block_size);
        &&& r.0@.len() == block_records@.len()
        &&& forall|k: int| 0 <= k < block_records@.len() ==> #[trigger] r.0@[k] == descriptor_of(block_records@[k], bs)
        &&& r.1@ == split_data(block_records@, bs, block_records@.len() as int)
    }),
{
    let bs: u64 = if block_size == 0 { 1 } else { block_size as u64 };
    let n = block_records.len();
    let mut total: u64 = 0;
    let mut i: usize = 0;
    while i < n
        invariant
            n == block_records@.len(),
            i <= n,
            total == records_span_end(block_records@, bs, i as int),
        decreases n - i,
    {
        let r = &block_records[i];
        let alloc = if r.allocated_blocks == 0 { 1 } else { r.allocated_blocks };
        let e = sat_mul_exec(sat_add_exec(r.device_block, alloc), bs);
        if e > total {
            total = e;
        }
        i = i + 1;
    }
    let mut data = zero_vec(total as usize);
    let mut descriptors: Vec<BlockDescriptor> = Vec::new();
    let mut i: usize = 0;
    while i < n
        invariant
            n == block_records@.len(),
            i <= n,
            bs == (effective_block_size(block_size)),
            forall|k: int| 0 <= k < n ==> #[trigger] sat_mul(block_records@[k].device_block, bs) + block_records@[k].bytes@.len() <= usize::MAX,
            descriptors@.len() == i,
            forall|k: int| 0 <= k < i ==> #[trigger] descriptors@[k] == descriptor_of(block_records@[k], bs),
            data@ == split_data(block_records@, bs, i as int),
        decreases n - i,
    {
        let r = &block_records[i];
        let offset = sat_mul_exec(r.device_block, bs);
        let length = r.bytes.len() as u64;
        proof {
            assert(sat_mul(block_records@[i as int].device_block, bs) + block_records@[i as int].bytes@.len() <= usize::MAX);
        }
        let start = offset as usize;
        let end = start + r.bytes.len();
        if end > data.len() {
            let extra = end - data.len();
            push_zeros(&mut data, extra);
        }
        write_bytes_at(&mut data, start, r.bytes.as_slice());
        descriptors.push(BlockDescriptor {
            inode: r.inode,
            checksum: r.checksum,
            device_block: r.device_block,
            allocated_blocks: if r.allocated_blocks == 0 { 1 } else { r.allocated_blocks },
            offset,
            length,
        });
        i = i + 1;
    }
    (descriptors, data)
}

/// The record that descriptor `d` describes in `data`.
pub open spec fn record_matches(r: BlockRecord, d: BlockDescriptor, data: Seq<u8>) -> bool {
    &&& r.inode == d.inode
    &&& r.bytes@ == data.subrange(d.offset as int, d.offset + d.length)
    &&& r.checksum == d.checksum
    &&& r.device_block == d.device_block
    &&& r.allocated_blocks == at_least_one(d.allocated_blocks)
}

/// Rebuild the records from descriptors and the `DATA` bytes; refused when
/// a descriptor points past the data.
pub fn join_blocks(descriptors: Vec<BlockDescriptor>, data: &[u8]) -> (r: CoreFsResult<Vec<BlockRecord>>)
    ensures
        r is Ok <==> forall|k: int| 0 <= k < descriptors@.len() ==> #[trigger] descriptors@[k].offset + descriptors@[k].length <= data@.len(),
        r matches Ok(rs) ==> rs@.len() == descriptors@.len()
            && forall|k: int| 0 <= k < rs@.len() ==> record_matches(#[trigger] rs@[k], descriptors@[k], data@),
        r matches Err(e) ==> e is State,
{
    let mut records: Vec<BlockRecord> = Vec::new();
    let mut i: usize = 0;
    while i < descriptors.len()
        invariant
            i <= descriptors@.len(),
            forall|k: int| 0 <= k < i ==> #[trigger] descriptors@[k].offset + descriptors@[k].length <= data@.len(),
            records@.len() == i,
            forall|k: int| 0 <= k < i ==> record_matches(#[trigger] records@[k], descriptors@[k], data@),
        decreases descriptors@.len() - i,
    {
        let d = descriptors[i];
        if d.offset > data.len() as u64 || d.length > data.len() as u64 - d.offset {
            return Err(CoreFsError::State(msg("invalid CoreFS block descriptor range in volume image")));
        }
        let bytes = copy_range(data, d.offset as usize, (d.offset + d.length) as usize);
        records.push(BlockRecord {
            inode: d.inode,
            bytes,
            checksum: d.checksum,
            device_block: d.device_block,
            allocated_blocks: if d.allocated_blocks == 0 { 1 } else { d.allocated_blocks },
        });
        i = i + 1;
    }
    Ok(records)
}

/// The kinds of an image in the order they are written: `SUPR`, `SUP2`,
/// `CNFG`, `VOLM`, `AINO`, `DINO`, `JOUR`, `VERS`, `SYNC`, `HOTP`, `SNAP`,
/// `TXNJ`, `FREE`, `BLKD`, `DATA`.
pub open spec fn image_kinds() -> Seq<Seq<u8>> {
    seq![
        seq![0x53u8, 0x55, 0x50, 0x52], seq![0x53u8, 0x55, 0x50, 0x32], seq![0x43u8, 0x4E, 0x46, 0x47],
        seq![0x56u8, 0x4F, 0x4C, 0x4D], seq![0x41u8, 0x49, 0x4E, 0x4F], seq![0x44u8, 0x49, 0x4E, 0x4F],
        seq![0x4Au8, 0x4F, 0x55, 0x52], seq![0x56u8, 0x45, 0x52, 0x53], seq![0x53u8, 0x59, 0x4E, 0x43],
        seq![0x48u8, 0x4F, 0x54, 0x50], seq![0x53u8, 0x4E, 0x41, 0x50], seq![0x54u8, 0x58, 0x4E, 0x4A],
        seq![0x46u8, 0x52, 0x45, 0x45], seq![0x42u8, 0x4C, 0x4B, 0x44], seq![0x44u8, 0x41, 0x54, 0x41],
    ]
}

fn image_kind_tags() -> (r: Vec<[u8; 4]>)
    ensures
        r@.len() == 15,
        forall|i: int| 0 <= i < 15 ==> (#[trigger] r@[i])@ == image_kinds()[i],
{
    let v: Vec<[u8; 4]> = vec![
        [0x53, 0x55, 0x50, 0x52], [0x53, 0x55, 0x50, 0x32], [0x43, 0x4E, 0x46, 0x47],
        [0x56, 0x4F, 0x4C, 0x4D], [0x41, 0x49, 0x4E, 0x4F], [0x44, 0x49, 0x4E, 0x4F],
        [0x4A, 0x4F, 0x55, 0x52], [0x56, 0x45, 0x52, 0x53], [0x53, 0x59, 0x4E, 0x43],
        [0x48, 0x4F, 0x54, 0x50], [0x53, 0x4E, 0x41, 0x50], [0x54, 0x58, 0x4E, 0x4A],
        [0x46, 0x52, 0x45, 0x45], [0x42, 0x4C, 0x4B, 0x44], [0x44, 0x41, 0x54, 0x41],
    ];
    proof {
        assert forall|i: int| 0 <= i < 15 implies (#[trigger] v@[i])@ == image_kinds()[i] by {
            assert(v@[i]@ =~= image_kinds()[i]);
        }
    }
    v
}

/// XOR of the checksums of `payloads`.
pub open spec fn payloads_checksum(payloads: Seq<Vec<u8>>, n: int) -> u64
    decreases n,
{
    if n <= 0 { 0 } else { payloads_checksum(payloads, n - 1) ^ fold_checksum(payloads[n - 1]@) }
}

/// The superblock of the image of `payloads` with directory `entries` and
/// generation `g`.
pub open spec fn image_superblock_for(entries: Seq<SegmentLocation>, payloads: Seq<Vec<u8>>, clean_unmount: bool, g: u64) -> ImageSuperblock {
    ImageSuperblock {
        format_version: IMAGE_FORMAT_VERSION,
        alignment: 64,
        segment_count: 15,
        clean_unmount: if clean_unmount { 1u32 } else { 0u32 },
        generation: g,
        directory_offset: 16,
        directory_length: 360u64,
        directory_checksum: fold_checksum(dir_bytes(entries)),
        payload_checksum: payloads_checksum(payloads, 13),
    }
}

/// The header of `bytes` announces version 5 and fifteen segments, and
/// the directory of `entries` follows it.
#[verifier::opaque]
pub open spec fn image_header_of(bytes: Seq<u8>, entries: Seq<SegmentLocation>) -> bool {
    &&& bytes.len() >= 376
    &&& bytes.subrange(0, 8) == volume_magic()
    &&& le_u32_at(bytes, 8) == IMAGE_FORMAT_VERSION
    &&& le_u32_at(bytes, 12) == 15
    &&& bytes.subrange(16, 376int) == dir_bytes(entries)
}

/// Both superblock segments (entries 0 and 1) hold the superblock of this
/// image, with some generation.
#[verifier::opaque]
pub open spec fn image_superblocks_of(bytes: Seq<u8>, entries: Seq<SegmentLocation>, payloads: Seq<Vec<u8>>, clean_unmount: bool) -> bool {
    exists|g: u64| {
        &&& image_superblock_bytes(#[trigger] image_superblock_for(entries, payloads, clean_unmount, g))
            == bytes.subrange(entries[0].offset as int, entries[0].offset + entries[0].length)
        &&& image_superblock_bytes(image_superblock_for(entries, payloads, clean_unmount, g))
            == bytes.subrange(entries[1].offset as int, entries[1].offset + entries[1].length)
    }
}

/// Entries 2 to 14 hold the framed payloads.
#[verifier::opaque]
pub open spec fn image_frames_of(bytes: Seq<u8>, entries: Seq<SegmentLocation>, payloads: Seq<Vec<u8>>) -> bool {
    forall|i: int| 2 <= i < 15 ==> bytes.subrange((#[trigger] entries[i]).offset as int, entries[i].offset + entries[i].length)
        == frame_bytes(image_kinds()[i], payloads[i - 2]@)
}

/// `bytes` is the image of `payloads` (the thirteen payloads of `CNFG` to
/// `DATA`, in that order) laid out from `entries`, padded to `padded`
/// bytes: header with version 5 and fifteen segments, the directory, both
/// superblock segments holding a superblock for this directory and these
/// payloads (with `clean_unmount` and some generation), and every payload
/// framed.
#[verifier::opaque]
pub open spec fn image_of_payloads(bytes: Seq<u8>, entries: Seq<SegmentLocation>, payloads: Seq<Vec<u8>>, clean_unmount: bool, padded: int) -> bool {
    &&& payloads.len() == 13
    &&& entries.len() == 15
    &&& forall|i: int| 0 <= i < 15 ==> (#[trigger] entries[i]).kind@ == image_kinds()[i]
    &&& laid_out(entries)
    &&& padded == bytes.len()
    &&& layout_end(entries) <= padded
    &&& image_header_of(bytes, entries)
    &&& image_superblocks_of(bytes, entries, payloads, clean_unmount)
    &&& image_frames_of(bytes, entries, payloads)
}

proof fn lemma_assembled_image(
    b: Seq<u8>, entries: Seq<SegmentLocation>, datas: Seq<Vec<u8>>, payloads: Seq<Vec<u8>>,
    clean_unmount: bool, generation: u64,
)
    requires
        payloads.len() == 13,
        entries.len() == 15,
        datas.len() == 15,
        laid_out(entries),
        b.len() >= 376,
        b.subrange(0, 8) == volume_magic(),
        le_u32_at(b, 8) == IMAGE_FORMAT_VERSION,
        le_u32_at(b, 12) == 15,
        b.subrange(16, 376int) == dir_bytes(entries),
        forall|i: int| 0 <= i < 15 ==> b.subrange((#[trigger] entries[i]).offset as int, entries[i].offset + entries[i].length) == datas[i]@,
        datas[0]@ == image_superblock_bytes(image_superblock_for(entries, payloads, clean_unmount, generation)),
        datas[1]@ == datas[0]@,
        forall|k: int| 2 <= k < 15 ==> (#[trigger] datas[k])@ == frame_bytes(image_kinds()[k], payloads[k - 2]@),
    ensures
        image_header_of(b, entries),
        image_superblocks_of(b, entries, payloads, clean_unmount),
        image_frames_of(b, entries, payloads),
{
    assert(image_header_of(b, entries)) by {
        reveal(image_header_of);
    }
    let sbb = image_superblock_bytes(image_superblock_for(entries, payloads, clean_unmount, generation));
    assert(sbb == b.subrange(entries[0].offset as int, entries[0].offset + entries[0].length));
    assert(sbb == b.subrange(entries[1].offset as int, entries[1].offset + entries[1].length));
    assert(image_superblocks_of(b, entries, payloads, clean_unmount)) by {
        reveal(image_superblocks_of);
    }
    assert(image_frames_of(b, entries, payloads)) by {
        reveal(image_frames_of);
        assert forall|i: int| 2 <= i < 15 implies b.subrange((#[trigger] entries[i]).offset as int, entries[i].offset + entries[i].length)
            == frame_bytes(image_kinds()[i], payloads[i - 2]@) by {
            assert(datas[i]@ == frame_bytes(image_kinds()[i], payloads[i - 2]@));
        }
    }
}

/// Segment lengths of the image of `payloads`: two superblocks, then the
/// thirteen framed payloads.
pub open spec fn image_lens(payloads: Seq<Vec<u8>>) -> Seq<u64> {
    Seq::new(15, |k: int| if k < 2 { 56u64 } else { (payloads[k - 2]@.len() + 24) as u64 })
}

/// Where the laid-out image of `payloads` ends, before padding.
pub open spec fn image_end_of(payloads: Seq<Vec<u8>>) -> int {
    layout_cursor(15, image_lens(payloads), 15)
}

/// `e` refuses an image for exceeding the device's capacity: a state error
/// whose message starts "volume image exceeds device capacity of ".
#[verifier::opaque]
pub open spec fn capacity_refusal(e: CoreFsError) -> bool {
    &&& e is State
    &&& e.message()@.len() >= "volume image exceeds device capacity of "@.len()
    &&& e.message()@.subrange(0, "volume image exceeds device capacity of "@.len() as int)
        == "volume image exceeds device capacity of "@
}

/// The refusal of an image larger than a device of `limit` bytes.
fn capacity_error(limit: u64) -> (e: CoreFsError)
    ensures
        e is State,
        capacity_refusal(e),
{
    let e = CoreFsError::State(msg_num("volume image exceeds device capacity of ", limit, " bytes"));
    proof {
        reveal(capacity_refusal);
    }
    e
}

proof fn lemma_image_lens(lens: Seq<u64>, payloads: Seq<Vec<u8>>)
    requires
        payloads.len() == 13,
        lens.len() == 15,
        lens[0] == 56 && lens[1] == 56,
        forall|k: int| 2 <= k < 15 ==> #[trigger] lens[k] == payloads[k - 2]@.len() + 24,
    ensures
        lens == image_lens(payloads),
{
    assert(lens =~= image_lens(payloads));
}

/// Lay out and assemble the image of `payloads`, padded up to a multiple
/// of `pad_to` bytes; refused when that exceeds `limit` bytes (or the
/// `u64` range, or memory).
#[verifier::spinoff_prover]
#[verifier::rlimit(40)]
fn assemble_payloads(payloads: &Vec<Vec<u8>>, clean_unmount: bool, pad_to: u64, limit: u64)
    -> (r: CoreFsResult<(Vec<SegmentLocation>, Vec<u8>)>)
    requires
        payloads@.len() == 13,
        pad_to > 0,
    ensures
        r is Ok <==> image_end_of(payloads@) <= u64::MAX && align_up_spec(image_end_of(payloads@), pad_to as int) <= limit
            && align_up_spec(image_end_of(payloads@), pad_to as int) <= usize::MAX,
        r matches Err(e) ==> e is State,
        limit < align_up_spec(image_end_of(payloads@), pad_to as int) <= u64::MAX
            ==> (r matches Err(e) && capacity_refusal(e)),
        r matches Ok((entries, bytes)) ==> image_of_payloads(bytes@, entries@, payloads@, clean_unmount, bytes@.len() as int)
            && laid_out(entries@) && entries@.len() == 15
            && bytes@.len() == align_up_spec(layout_end(entries@), pad_to as int)
            && bytes@.len() <= limit,
{
    let kinds = image_kind_tags();
    let mut datas: Vec<Vec<u8>> = Vec::new();
    let mut lens: Vec<u64> = Vec::new();
    let zero_sb: Vec<u8> = zero_vec(56);
    datas.push(zero_sb.clone());
    datas.push(zero_sb);
    lens.push(56);
    lens.push(56);
    let mut payload_ck: u64 = 0;
    let mut i: usize = 0;
    while i < 13
        invariant
            payloads@.len() == 13,
            kinds@.len() == 15,
            forall|k: int| 0 <= k < 15 ==> (#[trigger] kinds@[k])@ == image_kinds()[k],
            i <= 13,
            datas@.len() == i + 2,
            lens@.len() == i + 2,
            lens@[0] == 56 && lens@[1] == 56,
            datas@[0]@.len() == 56 && datas@[1]@.len() == 56,
            forall|k: int| 2 <= k < i + 2 ==> (#[trigger] datas@[k])@ == frame_bytes(image_kinds()[k], payloads@[k - 2]@)
                && lens@[k] == datas@[k]@.len(),
            forall|k: int| 2 <= k < i + 2 ==> #[trigger] lens@[k] == payloads@[k - 2]@.len() + 24,
            payload_ck == payloads_checksum(payloads@, i as int),
        decreases 13 - i,
    {
        let frame = encode_segment_frame(kinds[i + 2], payloads[i].as_slice());
        payload_ck = payload_ck ^ checksum(payloads[i].as_slice());
        lens.push(frame.len() as u64);
        datas.push(frame);
        i = i + 1;
    }
    proof {
        lemma_image_lens(lens@, payloads@);
    }
    let (entries, total) = layout_segments(&kinds, &lens)?;
    let padded = match checked_align_up_u64(total, pad_to) {
        Some(v) => v,
        None => {
            return Err(CoreFsError::State(msg("volume image exceeds the addressable range")));
        },
    };
    proof {
        lemma_align_up(total as int, pad_to as int);
    }
    if padded > limit {
        return Err(capacity_error(limit));
    }
    if padded > usize::MAX as u64 {
        return Err(CoreFsError::State(msg("volume image exceeds the addressable range")));
    }
    let dir = encode_directory(entries.as_slice());
    proof {
        lemma_dir_bytes(entries@);
    }
    let dir_ck = checksum(dir.as_slice());
    let generation = now_nanos();
    let sb = ImageSuperblock {
        format_version: IMAGE_FORMAT_VERSION,
        alignment: 64,
        segment_count: 15,
        clean_unmount: if clean_unmount { 1 } else { 0 },
        generation,
        directory_offset: 16,
        directory_length: 24 * 15,
        directory_checksum: dir_ck,
        payload_checksum: payload_ck,
    };
    let sbb = encode_superblock(&sb);
    datas.set(0, sbb.clone());
    datas.set(1, sbb);
    proof {
        assert(datas@[0]@ == image_superblock_bytes(image_superblock_for(entries@, payloads@, clean_unmount, generation)));
        crate::device_volume::lemma_layout_bound(entries@, 0);
    }
    let bytes = assemble_image(&entries, &datas, &dir, padded, IMAGE_FORMAT_VERSION);
    proof {
        lemma_assembled_image(bytes@, entries@, datas@, payloads@, clean_unmount, generation);
        reveal(image_of_payloads);
    }
    Ok((entries, bytes))
}

/// `bytes` is an image of `payloads`, unpadded.
pub open spec fn built_image(bytes: Seq<u8>, payloads: Seq<Vec<u8>>, clean_unmount: bool) -> bool {
    exists|entries: Seq<SegmentLocation>| #[trigger] image_of_payloads(bytes, entries, payloads, clean_unmount, bytes.len() as int)
        && bytes.len() == layout_end(entries)
}

/// The image of `payloads` (the thirteen payloads of `CNFG` to `DATA`, in
/// that order, unframed) with a fresh superblock.
pub fn build_volume_image_bytes(payloads: &Vec<Vec<u8>>, clean_unmount: bool) -> (r: CoreFsResult<Vec<u8>>)
    requires
        payloads@.len() == 13,
    ensures
        r is Ok <==> image_end_of(payloads@) <= usize::MAX,
        r matches Ok(bytes) ==> built_image(bytes@, payloads@, clean_unmount),
{
    proof {
        lemma_layout_cursor_grows(15, image_lens(payloads@), 0, 15);
        lemma_align_up(image_end_of(payloads@), 1);
        assert(align_up_spec(image_end_of(payloads@), 1) == image_end_of(payloads@));
    }
    let (entries, bytes) = assemble_payloads(payloads, clean_unmount, 1, u64::MAX)?;
    proof {
        crate::device_volume::lemma_layout_bound(entries@, 0);
        lemma_align_up(layout_end(entries@), 1);
        assert(align_up_spec(layout_end(entries@), 1) == layout_end(entries@));
        assert(bytes@.len() == layout_end(entries@));
        assert(image_of_payloads(bytes@, entries@, payloads@, clean_unmount, bytes@.len() as int));
        assert(built_image(bytes@, payloads@, clean_unmount));
    }
    Ok(bytes)
}

/// Write the image of `payloads` to the start of `device`, padded to whole
/// sectors, and sync; refused when it does not fit.
pub fn save_to_device<D: BlockDevice>(device: &mut D, payloads: &Vec<Vec<u8>>, clean_unmount: bool) -> (r: CoreFsResult<()>)
    requires
        old(device).inv(),
        payloads@.len() == 13,
    ensures
        final(device).inv(),
        final(device).spec_geometry() == old(device).spec_geometry(),
        final(device).stores_writes() == old(device).stores_writes(),
        !(image_end_of(payloads@) <= u64::MAX
            && align_up_spec(image_end_of(payloads@), old(device).spec_geometry().sector_size as int)
                <= old(device).spec_geometry().capacity_bytes
            && align_up_spec(image_end_of(payloads@), old(device).spec_geometry().sector_size as int) <= usize::MAX)
            ==> (r matches Err(e) && e is State) && final(device).content() == old(device).content(),
        old(device).spec_geometry().capacity_bytes
            < align_up_spec(image_end_of(payloads@), old(device).spec_geometry().sector_size as int) <= u64::MAX
            ==> (r matches Err(e) && capacity_refusal(e)),
        r is Ok && old(device).stores_writes() ==> exists|entries: Seq<SegmentLocation>, bytes: Seq<u8>|
            #[trigger] image_of_payloads(bytes, entries, payloads@, clean_unmount, bytes.len() as int)
            && bytes.len() == align_up_spec(layout_end(entries), old(device).spec_geometry().sector_size as int)
            && final(device).content().subrange(0, bytes.len() as int) == bytes,
{
    proof {
        device.lemma_inv();
    }
    let ss = device.sector_size() as u64;
    let cap = device.capacity();
    let (entries, bytes) = assemble_payloads(payloads, clean_unmount, ss, cap)?;
    write_image(device, &bytes)?;
    device.sync()?;
    proof {
        assert(image_of_payloads(bytes@, entries@, payloads@, clean_unmount, bytes@.len() as int));
    }
    Ok(())
}

/// Extents in order of their first block.
pub open spec fn starts_sorted(s: Seq<FreeExtentRecord>) -> bool {
    forall|i: int, j: int| 0 <= i < j < s.len() ==> (#[trigger] s[i]).device_block <= (#[trigger] s[j]).device_block
}

proof fn lemma_insert_sorted(s: Seq<FreeExtentRecord>, x: FreeExtentRecord)
    requires
        starts_sorted(s),
    ensures
        starts_sorted(insert_sorted(s, x)),
        insert_sorted(s, x).len() == s.len() + 1,
        forall|y: FreeExtentRecord| #[trigger] insert_sorted(s, x).contains(y) <==> (s.contains(y) || y == x),
    decreases s.len(),
{
    let r = insert_sorted(s, x);
    if s.len() == 0 {
        assert(r =~= seq![x]);
        assert forall|y: FreeExtentRecord| #[trigger] r.contains(y) <==> (s.contains(y) || y == x) by {
            if r.contains(y) {
                let k = choose|k: int| 0 <= k < r.len() && r[k] == y;
                assert(k == 0);
            }
            if y == x {
                assert(r[0] == x);
            }
        }
    } else if s.last().device_block <= x.device_block {
        assert forall|y: FreeExtentRecord| #[trigger] r.contains(y) <==> (s.contains(y) || y == x) by {
            if r.contains(y) {
                let k = choose|k: int| 0 <= k < r.len() && r[k] == y;
                if k < s.len() {
                    assert(s[k] == y);
                }
            }
            if s.contains(y) {
                let k = choose|k: int| 0 <= k < s.len() && s[k] == y;
                assert(r[k] == y);
            }
            if y == x {
                assert(r[s.len() as int] == x);
            }
        }
    } else {
        let t = s.drop_last();
        assert(starts_sorted(t)) by {
            assert forall|i: int, j: int| 0 <= i < j < t.len() implies (#[trigger] t[i]).device_block <= (#[trigger] t[j]).device_block by {
                assert(t[i] == s[i] && t[j] == s[j]);
            }
        }
        lemma_insert_sorted(t, x);
        let m = insert_sorted(t, x);
        assert(r == m.push(s.last()));
        assert forall|i: int, j: int| 0 <= i < j < r.len() implies (#[trigger] r[i]).device_block <= (#[trigger] r[j]).device_block by {
            if j == r.len() - 1 {
                assert(m.contains(r[i]));
                if r[i] == x {
                } else {
                    assert(t.contains(r[i]));
                    let k = choose|k: int| 0 <= k < t.len() && t[k] == r[i];
                    assert(s[k] == r[i]);
                    assert(s[k].device_block <= s[s.len() - 1].device_block);
                }
            }
        }
        assert forall|y: FreeExtentRecord| #[trigger] r.contains(y) <==> (s.contains(y) || y == x) by {
            if r.contains(y) {
                let k = choose|k: int| 0 <= k < r.len() && r[k] == y;
                if k < m.len() {
                    assert(m.contains(y));
                    if t.contains(y) {
                        let q = choose|q: int| 0 <= q < t.len() && t[q] == y;
                        assert(s[q] == y);
                    }
                } else {
                    assert(y == s.last());
                    assert(s[s.len() - 1] == y);
                }
            }
            if s.contains(y) {
                let k = choose|k: int| 0 <= k < s.len() && s[k] == y;
                if k < t.len() {
                    assert(t[k] == y);
                    assert(t.contains(y));
                    assert(m.contains(y));
                    let q = choose|q: int| 0 <= q < m.len() && m[q] == y;
                    assert(r[q] == y);
                } else {
                    assert(r[r.len() - 1] == y);
                }
            }
            if y == x {
                assert(m.contains(x));
                let q = choose|q: int| 0 <= q < m.len() && m[q] == x;
                assert(r[q] == x);
            }
        }
    }
}

proof fn lemma_sort_by_start(s: Seq<FreeExtentRecord>)
    ensures
        starts_sorted(sort_by_start(s)),
        sort_by_start(s).len() == s.len(),
        forall|y: FreeExtentRecord| #[trigger] sort_by_start(s).contains(y) <==> s.contains(y),
    decreases s.len(),
{
    if s.len() > 0 {
        let t = s.drop_last();
        lemma_sort_by_start(t);
        lemma_insert_sorted(sort_by_start(t), s.last());
        assert forall|y: FreeExtentRecord| #[trigger] sort_by_start(s).contains(y) <==> s.contains(y) by {
            if t.contains(y) {
                let k = choose|k: int| 0 <= k < t.len() && t[k] == y;
                assert(s[k] == y);
            }
            if s.contains(y) {
                let k = choose|k: int| 0 <= k < s.len() && s[k] == y;
                if k < t.len() {
                    assert(t[k] == y);
                    assert(t.contains(y));
                }
            }
        }
    } else {
        assert forall|y: FreeExtentRecord| #[trigger] sort_by_start(s).contains(y) <==> s.contains(y) by {}
    }
}

/// End block (exclusive) of the blocks held by record `r`: at least one
/// block, saturating.
pub open spec fn occ_end(r: BlockRecord) -> u64 {
    sat_add(r.device_block, at_least_one(r.allocated_blocks))
}

/// Block `b` is held by one of the records.
pub open spec fn occupied(rs: Seq<BlockRecord>, b: int) -> bool {
    exists|j: int| 0 <= j < rs.len() && (#[trigger] rs[j]).device_block <= b < occ_end(rs[j])
}

/// `b` is a block below `c`.
pub open spec fn block_below(b: int, c: int) -> bool {
    0 <= b < c
}

/// End block (exclusive) of an extent.
pub open spec fn extent_end(e: FreeExtentRecord) -> int {
    e.device_block + e.allocated_blocks
}

/// `fs` are the free runs between the blocks of `rs`: non-empty, in order
/// and separated by held blocks, holding no held block, covering every
/// free block below the end of some record, each ending where a record
/// starts.
pub open spec fn free_gaps_of(rs: Seq<BlockRecord>, fs: Seq<FreeExtentRecord>) -> bool {
    &&& forall|i: int| 0 <= i < fs.len() ==> (#[trigger] fs[i]).allocated_blocks > 0
    &&& forall|i: int, j: int| 0 <= i < j < fs.len() ==> extent_end(#[trigger] fs[i]) < (#[trigger] fs[j]).device_block
    &&& forall|i: int, b: int| 0 <= i < fs.len() && (#[trigger] fs[i]).device_block <= b < extent_end(fs[i])
        ==> !#[trigger] occupied(rs, b)
    &&& forall|b: int| 0 <= b && (exists|j: int| 0 <= j < rs.len() && b < occ_end(#[trigger] rs[j])) && !#[trigger] occupied(rs, b)
        ==> exists|i: int| 0 <= i < fs.len() && (#[trigger] fs[i]).device_block <= b < extent_end(fs[i])
    &&& forall|i: int| 0 <= i < fs.len() ==> exists|j: int| 0 <= j < rs.len() && extent_end(#[trigger] fs[i]) == (#[trigger] rs[j]).device_block
}

/// The held run of record `r` as an extent.
pub open spec fn occupied_extent(r: BlockRecord) -> FreeExtentRecord {
    FreeExtentRecord { device_block: r.device_block, allocated_blocks: (occ_end(r) - r.device_block) as u64 }
}

/// The free runs between the blocks held by `block_records` (see
/// [`free_gaps_of`]).
pub fn reconstruct_free_extents_from_records(block_records: &[BlockRecord]) -> (r: Vec<FreeExtentRecord>)
    ensures
        free_gaps_of(block_records@, r@),
{
    let ghost rs = block_records@;
    let mut occ: Vec<FreeExtentRecord> = Vec::new();
    let mut i: usize = 0;
    while i < block_records.len()
        invariant
            rs == block_records@,
            i <= rs.len(),
            occ@.len() == i,
            forall|k: int| 0 <= k < i ==> #[trigger] occ@[k] == occupied_extent(rs[k]),
        decreases rs.len() - i,
    {
        let r = &block_records[i];
        let alloc = if r.allocated_blocks == 0 { 1 } else { r.allocated_blocks };
        let end = sat_add_exec(r.device_block, alloc);
        occ.push(FreeExtentRecord { device_block: r.device_block, allocated_blocks: end - r.device_block });
        i = i + 1;
    }
    let ghost os = occ@;
    let sorted = sort_free(occ);
    proof {
        lemma_sort_by_start(os);
    }
    let ghost ss = sorted@;
    let mut out: Vec<FreeExtentRecord> = Vec::new();
    let mut cursor: u64 = 0;
    let mut k: usize = 0;
    while k < sorted.len()
        invariant
            rs == block_records@,
            os.len() == rs.len(),
            forall|q: int| 0 <= q < rs.len() ==> #[trigger] os[q] == occupied_extent(rs[q]),
            ss == sorted@,
            starts_sorted(ss),
            ss.len() == os.len(),
            forall|y: FreeExtentRecord| #[trigger] ss.contains(y) <==> os.contains(y),
            k <= ss.len(),
            forall|j: int| 0 <= j < k ==> extent_end(#[trigger] ss[j]) <= cursor,
            forall|i: int| 0 <= i < out@.len() ==> (#[trigger] out@[i]).allocated_blocks > 0,
            forall|i: int, j: int| 0 <= i < j < out@.len() ==> extent_end(#[trigger] out@[i]) < (#[trigger] out@[j]).device_block,
            forall|i: int| 0 <= i < out@.len() ==> extent_end(#[trigger] out@[i]) <= cursor,
            out@.len() > 0 ==> (extent_end(out@.last()) < cursor || extent_end(out@.last()) == u64::MAX),
            forall|i: int, b: int| 0 <= i < out@.len() && (#[trigger] out@[i]).device_block <= b < extent_end(out@[i])
                ==> !#[trigger] occupied(rs, b),
            forall|b: int| #[trigger] block_below(b, cursor as int) ==> (exists|i: int| 0 <= i < out@.len() && (#[trigger] out@[i]).device_block <= b < extent_end(out@[i]))
                || exists|j: int| 0 <= j < k && (#[trigger] ss[j]).device_block <= b < extent_end(ss[j]),
            forall|i: int| 0 <= i < out@.len() ==> exists|j: int| 0 <= j < rs.len() && extent_end(#[trigger] out@[i]) == (#[trigger] rs[j]).device_block,
        decreases ss.len() - k,
    {
        let e = sorted[k];
        proof {
            assert(ss.contains(e));
            let q = choose|q: int| 0 <= q < os.len() && os[q] == e;
            assert(os[q] == occupied_extent(rs[q]));
        }
        let ghost prev = out@;
        if e.device_block > cursor {
            let gap = FreeExtentRecord { device_block: cursor, allocated_blocks: e.device_block - cursor };
            out.push(gap);
            proof {
                let q = choose|q: int| 0 <= q < os.len() && os[q] == e;
                assert(extent_end(out@[out@.len() - 1]) == rs[q].device_block);
                assert forall|b: int| gap.device_block <= b < extent_end(gap) implies !#[trigger] occupied(rs, b) by {
                    if occupied(rs, b) {
                        let j = choose|j: int| 0 <= j < rs.len() && (#[trigger] rs[j]).device_block <= b < occ_end(rs[j]);
                        let y = occupied_extent(rs[j]);
                        assert(os[j] == y);
                        assert(os.contains(y));
                        assert(ss.contains(y));
                        let p = choose|p: int| 0 <= p < ss.len() && ss[p] == y;
                        if p < k {
                            assert(extent_end(ss[p]) <= cursor);
                        } else if p > k {
                            assert(ss[k as int].device_block <= ss[p].device_block);
                        }
                    }
                }
                assert forall|i: int, b: int| 0 <= i < out@.len() && (#[trigger] out@[i]).device_block <= b < extent_end(out@[i])
                    implies !#[trigger] occupied(rs, b) by {
                    if i < prev.len() {
                        assert(out@[i] == prev[i]);
                    }
                }
                assert forall|i: int| 0 <= i < out@.len() implies exists|j: int| 0 <= j < rs.len() && extent_end(#[trigger] out@[i]) == (#[trigger] rs[j]).device_block by {
                    if i < prev.len() {
                        assert(out@[i] == prev[i]);
                    }
                }
            }
        }
        let end = e.device_block + e.allocated_blocks;
        let ghost old_cursor = cursor;
        if end > cursor {
            cursor = end;
        }
        proof {
            assert forall|b: int| #[trigger] block_below(b, cursor as int) implies (exists|i: int| 0 <= i < out@.len() && (#[trigger] out@[i]).device_block <= b < extent_end(out@[i]))
                || exists|j: int| 0 <= j < k + 1 && (#[trigger] ss[j]).device_block <= b < extent_end(ss[j]) by {
                if b < old_cursor {
                    assert(block_below(b, old_cursor as int));
                    if exists|i: int| 0 <= i < prev.len() && (#[trigger] prev[i]).device_block <= b < extent_end(prev[i]) {
                        let i = choose|i: int| 0 <= i < prev.len() && (#[trigger] prev[i]).device_block <= b < extent_end(prev[i]);
                        assert(out@[i] == prev[i]);
                    }
                } else if b < e.device_block {
                    assert(out@[out@.len() - 1].device_block <= b);
                } else {
                    assert(ss[k as int].device_block <= b < extent_end(ss[k as int]));
                }
            }
        }
        k = k + 1;
    }
    proof {
        assert forall|b: int| 0 <= b && (exists|j: int| 0 <= j < rs.len() && b < occ_end(#[trigger] rs[j])) && !#[trigger] occupied(rs, b)
            implies exists|i: int| 0 <= i < out@.len() && (#[trigger] out@[i]).device_block <= b < extent_end(out@[i]) by {
            let j = choose|j: int| 0 <= j < rs.len() && b < occ_end(#[trigger] rs[j]);
            let y = occupied_extent(rs[j]);
            assert(os[j] == y);
            assert(os.contains(y));
            assert(ss.contains(y));
            let p = choose|p: int| 0 <= p < ss.len() && ss[p] == y;
            assert(extent_end(ss[p]) <= cursor);
            assert(block_below(b, cursor as int));
            if exists|q: int| 0 <= q < ss.len() && (#[trigger] ss[q]).device_block <= b < extent_end(ss[q]) {
                let q = choose|q: int| 0 <= q < ss.len() && (#[trigger] ss[q]).device_block <= b < extent_end(ss[q]);
                assert(ss.contains(ss[q]));
                assert(os.contains(ss[q]));
                let t = choose|t: int| 0 <= t < os.len() && os[t] == ss[q];
                assert(rs[t].device_block <= b < occ_end(rs[t]));
                assert(occupied(rs, b));
            }
        }
    }
    out
}

/// End block (exclusive, saturating) of a free extent.
pub open spec fn free_end(e: FreeExtentRecord) -> u64 {
    sat_add(e.device_block, e.allocated_blocks)
}

/// A free-space list is consistent with the records: no extent is empty,
/// in order of their first block each extent ends before the next begins,
/// and no extent overlaps the blocks of a record.
pub open spec fn free_space_valid(rs: Seq<BlockRecord>, free: Seq<FreeExtentRecord>) -> bool {
    let sorted = sort_by_start(free);
    &&& forall|i: int| 0 <= i < free.len() ==> (#[trigger] free[i]).allocated_blocks > 0
    &&& forall|i: int| 0 <= i < sorted.len() - 1 ==> free_end(#[trigger] sorted[i]) <= sorted[i + 1].device_block
    &&& forall|i: int, j: int| 0 <= i < free.len() && 0 <= j < rs.len()
        ==> !((#[trigger] free[i]).device_block < occ_end(#[trigger] rs[j]) && rs[j].device_block < free_end(free[i]))
}

/// Check a free-space list against the records (see [`free_space_valid`]).
pub fn validate_free_space_layout(block_records: &[BlockRecord], free_extents: &[FreeExtentRecord]) -> (r: CoreFsResult<()>)
    ensures
        r is Ok <==> free_space_valid(block_records@, free_extents@),
        r matches Err(e) ==> e is State,
{
    let mut copy: Vec<FreeExtentRecord> = Vec::new();
    let mut i: usize = 0;
    while i < free_extents.len()
        invariant
            i <= free_extents@.len(),
            copy@ == free_extents@.subrange(0, i as int),
        decreases free_extents@.len() - i,
    {
        copy.push(free_extents[i]);
        i = i + 1;
    }
    proof {
        assert(copy@ =~= free_extents@);
    }
    let free = sort_free(copy);
    let ghost fs = free_extents@;
    proof {
        lemma_sort_by_start(fs);
    }
    let mut k: usize = 0;
    while k < free.len()
        invariant
            fs == free_extents@,
            free@ == sort_by_start(fs),
            forall|y: FreeExtentRecord| #[trigger] free@.contains(y) <==> fs.contains(y),
            free@.len() == fs.len(),
            k <= free@.len(),
            forall|q: int| 0 <= q < k ==> (#[trigger] free@[q]).allocated_blocks > 0,
        decreases free@.len() - k,
    {
        if free[k].allocated_blocks == 0 {
            proof {
                assert(free@.contains(free@[k as int]));
                let q = choose|q: int| 0 <= q < fs.len() && fs[q] == free@[k as int];
                assert(fs[q].allocated_blocks == 0);
                assert(!free_space_valid(block_records@, free_extents@));
            }
            return Err(CoreFsError::State(msg("invalid CoreFS FREE segment extent with zero length")));
        }
        k = k + 1;
    }
    proof {
        assert forall|i: int| 0 <= i < fs.len() implies (#[trigger] fs[i]).allocated_blocks > 0 by {
            assert(fs.contains(fs[i]));
            assert(free@.contains(fs[i]));
            let q = choose|q: int| 0 <= q < free@.len() && free@[q] == fs[i];
        }
    }
    let n = free.len();
    let mut k: usize = 0;
    while k < n
        invariant
            free@ == sort_by_start(fs),
            fs == free_extents@,
            n == free@.len(),
            k <= n,
            forall|q: int| 0 <= q < k && q < free@.len() - 1 ==> free_end(#[trigger] free@[q]) <= free@[q + 1].device_block,
        decreases n - k,
    {
        if k + 1 < n {
            let left = free[k];
            let right = free[k + 1];
            if sat_add_exec(left.device_block, left.allocated_blocks) > right.device_block {
                proof {
                    assert(free_end(free@[k as int]) > free@[k as int + 1].device_block);
                    assert(!free_space_valid(block_records@, free_extents@));
                }
                return Err(CoreFsError::State(msg("invalid CoreFS FREE segment overlap")));
            }
        }
        k = k + 1;
    }
    let mut a: usize = 0;
    while a < free_extents.len()
        invariant
            a <= fs.len(),
            fs == free_extents@,
            forall|i: int, j: int| 0 <= i < a && 0 <= j < block_records@.len()
                ==> !((#[trigger] fs[i]).device_block < occ_end(#[trigger] block_records@[j]) && block_records@[j].device_block < free_end(fs[i])),
        decreases fs.len() - a,
    {
        let e = free_extents[a];
        let fe = sat_add_exec(e.device_block, e.allocated_blocks);
        let mut b: usize = 0;
        while b < block_records.len()
            invariant
                fs == free_extents@,
                a < fs.len(),
                e == fs[a as int],
                fe == free_end(e),
                b <= block_records@.len(),
                forall|j: int| 0 <= j < b ==> !(e.device_block < occ_end(#[trigger] block_records@[j]) && block_records@[j].device_block < fe),
            decreases block_records@.len() - b,
        {
            let r = &block_records[b];
            let alloc = if r.allocated_blocks == 0 { 1 } else { r.allocated_blocks };
            let oe = sat_add_exec(r.device_block, alloc);
            if e.device_block < oe && r.device_block < fe {
                proof {
                    assert(fs[a as int].device_block < occ_end(block_records@[b as int])
                        && block_records@[b as int].device_block < free_end(fs[a as int]));
                    assert(!free_space_valid(block_records@, free_extents@));
                }
                return Err(CoreFsError::State(msg("CoreFS FREE segment overlaps allocated blocks")));
            }
            b = b + 1;
        }
        a = a + 1;
    }
    Ok(())
}

/// The free extents of an image whose blocks are `block_records`: the
/// stored ones, or, where none were stored, those rebuilt from the
/// records; refused when they do not fit the records' layout.
pub fn free_extents_for_records(block_records: &[BlockRecord], stored: Vec<FreeExtentRecord>)
    -> (r: CoreFsResult<Vec<FreeExtentRecord>>)
    ensures
        stored@.len() > 0 ==> (r is Ok <==> free_space_valid(block_records@, stored@))
            && (r matches Ok(v) ==> v@ == stored@),
        stored@.len() == 0 ==> (r matches Ok(v) ==> free_gaps_of(block_records@, v@) && free_space_valid(block_records@, v@)),
        stored@.len() == 0 && r is Err ==> exists|v: Seq<FreeExtentRecord>| #[trigger] free_gaps_of(block_records@, v)
            && !free_space_valid(block_records@, v),
        r matches Err(e) ==> e is State,
{
    let free = if stored.len() == 0 {
        reconstruct_free_extents_from_records(block_records)
    } else {
        stored
    };
    validate_free_space_layout(block_records, free.as_slice())?;
    Ok(free)
}

} // verus!
