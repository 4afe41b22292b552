//! Extended-attribute and ACL block.
//!
//! A 4 KiB, CRC32C-protected block holding key/value pairs and ACL
//! entries:
//!
//! ```text
//! offset  size  field
//!   0      4    magic  ('XJAT' little-endian)
//!   4      4    flags
//!   8      2    xattr_count
//!  10      2    acl_count
//!  12      4    reserved
//!  16    var    xattr entries, then acl entries
//! 4092     4    crc32c of the block with this slot zeroed
//! ```
//!
//! An xattr entry is `rec_len: u16, name_len: u16, value_len: u32`, the
//! name (UTF-8), the value and zero padding up to `rec_len` (a multiple of
//! eight).  An ACL entry is `rec_len: u16, principal: u8, permission: u8,
//! subject_len: u32`, the subject (UTF-8) and zero padding.
use vstd::prelude::*;
use vstd::bytes::*;
use vstd::utf8::{valid_utf8, encode_utf8, decode_utf8, encode_utf8_valid_utf8, encode_utf8_decode_utf8};
use crate::error::{CoreFsError, CoreFsResult, msg};
use super::checksum::{Crc32c, crc32c_spec, crc_covered, lemma_crc_slot_detects_change};
use super::codec::{zeros, push_u16, push_u32, push_zeros, push_bytes, read_u16, read_u32, copy_range};

pub mod perm;

verus! {

/// Magic value: the bytes `XJAT` read as a little-endian `u32`.
pub const XATTR_BLOCK_MAGIC: u32 = 0x5441_4A58;
/// Offset of the checksum.
pub const CRC_OFFSET: usize = 4092;
/// Bytes of the block header.
pub const HEADER_BYTES: usize = 16;

/// Principal of an ACL entry.
#[derive(Debug, Clone, Copy, PartialEq, Eq, Structural)]
pub enum AclPrincipal {
    User,
    Group,
    Everyone,
}

/// Code of a principal on disk.
pub open spec fn principal_code(p: AclPrincipal) -> u8 {
    match p {
        AclPrincipal::User => 0,
        AclPrincipal::Group => 1,
        AclPrincipal::Everyone => 2,
    }
}

impl AclPrincipal {
    /// Principal of a code read from disk.
    pub fn from_u8(v: u8) -> (r: CoreFsResult<Self>)
        ensures
            r is Ok <==> v <= 2,
            r matches Ok(p) ==> principal_code(p) == v,
            r matches Err(e) ==> e is State,
    {
        match v {
            0 => Ok(AclPrincipal::User),
            1 => Ok(AclPrincipal::Group),
            2 => Ok(AclPrincipal::Everyone),
            _ => Err(CoreFsError::State(msg("xattr: unknown principal"))),
        }
    }

    /// Code of the principal on disk.
    pub fn code(&self) -> (r: u8)
        ensures
            r == principal_code(*self),
    {
        match self {
            AclPrincipal::User => 0,
            AclPrincipal::Group => 1,
            AclPrincipal::Everyone => 2,
        }
    }
}

/// One extended attribute.
#[derive(Debug, Clone, PartialEq, Eq)]
pub struct XattrPair {
    pub name: String,
    pub value: Vec<u8>,
}

/// One ACL entry.
#[derive(Debug, Clone, PartialEq, Eq)]
pub struct AclRecord {
    pub principal: AclPrincipal,
    pub subject: String,
    pub permission: u8,
}

/// In-memory image of an xattr block.
#[derive(Debug, Clone, PartialEq, Eq, Default)]
pub struct XattrBlock {
    pub flags: u32,
    pub xattrs: Vec<XattrPair>,
    pub acls: Vec<AclRecord>,
}

/// UTF-8 bytes of a string.
pub open spec fn text_bytes(s: String) -> Seq<u8> {
    encode_utf8(s@)
}

/// `n` rounded up to a multiple of eight.
pub open spec fn roundup8(n: int) -> int {
    ((n + 7) / 8) * 8
}

/// Encoded size of an xattr entry.
pub open spec fn xattr_rec(x: XattrPair) -> int {
    roundup8(8int + text_bytes(x.name).len() + x.value@.len())
}

/// Encoded size of an ACL entry.
pub open spec fn acl_rec(a: AclRecord) -> int {
    roundup8(8int + text_bytes(a.subject).len())
}

/// Bytes of one xattr entry.
pub open spec fn xattr_entry_bytes(x: XattrPair) -> Seq<u8> {
    let n = text_bytes(x.name);
    let r = xattr_rec(x);
    spec_u16_to_le_bytes(r as u16) + spec_u16_to_le_bytes(n.len() as u16) + spec_u32_to_le_bytes(x.value@.len() as u32)
        + n + x.value@ + zeros((r - 8 - n.len() - x.value@.len()) as nat)
}

/// Bytes of one ACL entry.
pub open spec fn acl_entry_bytes(a: AclRecord) -> Seq<u8> {
    let s = text_bytes(a.subject);
    let r = acl_rec(a);
    spec_u16_to_le_bytes(r as u16) + seq![principal_code(a.principal), a.permission]
        + spec_u32_to_le_bytes(s.len() as u32) + s + zeros((r - 8 - s.len()) as nat)
}

/// The first `n` xattr entries.
pub open spec fn xattrs_bytes(xs: Seq<XattrPair>, n: int) -> Seq<u8>
    decreases n,
{
    if n <= 0 { Seq::empty() } else { xattrs_bytes(xs, n - 1) + xattr_entry_bytes(xs[n - 1]) }
}

/// The first `n` ACL entries.
pub open spec fn acls_bytes(acls: Seq<AclRecord>, n: int) -> Seq<u8>
    decreases n,
{
    if n <= 0 { Seq::empty() } else { acls_bytes(acls, n - 1) + acl_entry_bytes(acls[n - 1]) }
}

/// All entries of `b`.
pub open spec fn entries_bytes(b: XattrBlock) -> Seq<u8> {
    xattrs_bytes(b.xattrs@, b.xattrs@.len() as int) + acls_bytes(b.acls@, b.acls@.len() as int)
}

/// `encode` accepts `b`: no xattr entry above 4000 bytes, no ACL entry
/// above 512 bytes, and all entries fit before the checksum.
pub open spec fn xattr_encodable(b: XattrBlock) -> bool {
    &&& forall|i: int| 0 <= i < b.xattrs@.len() ==> xattr_rec(#[trigger] b.xattrs@[i]) <= 4000
    &&& forall|i: int| 0 <= i < b.acls@.len() ==> acl_rec(#[trigger] b.acls@[i]) <= 512
    &&& 16 + entries_bytes(b).len() <= 4092
}

/// The block in front of the checksum.
pub open spec fn xattr_body(b: XattrBlock) -> Seq<u8> {
    let e = entries_bytes(b);
    spec_u32_to_le_bytes(XATTR_BLOCK_MAGIC) + spec_u32_to_le_bytes(b.flags)
        + spec_u16_to_le_bytes(b.xattrs@.len() as u16) + spec_u16_to_le_bytes(b.acls@.len() as u16)
        + zeros(4) + e + zeros((4092 - 16 - e.len()) as nat)
}

/// The block that `encode` produces.
pub open spec fn xattr_block_bytes(b: XattrBlock) -> Seq<u8> {
    xattr_body(b) + spec_u32_to_le_bytes(crc32c_spec(xattr_body(b) + zeros(4)))
}

/// Offset of the `k`-th entry (xattr entries first, then ACL entries),
/// following the `rec_len` fields from offset 16.
pub open spec fn rec_off(b: Seq<u8>, k: int) -> int
    decreases k,
{
    if k <= 0 {
        16
    } else {
        let p = rec_off(b, k - 1);
        p + spec_u16_from_le_bytes(b.subrange(p, p + 2))
    }
}

/// Fields of the entry at `p`: record length, first length field, second
/// length field.
pub open spec fn rec_len_at(b: Seq<u8>, p: int) -> int {
    spec_u16_from_le_bytes(b.subrange(p, p + 2)) as int
}

/// The `k`-th entry of `b` is a well-formed xattr entry.
pub open spec fn xattr_rec_ok(b: Seq<u8>, k: int) -> bool {
    let p = rec_off(b, k);
    let rec = rec_len_at(b, p);
    let nl = spec_u16_from_le_bytes(b.subrange(p + 2, p + 4)) as int;
    let vl = spec_u32_from_le_bytes(b.subrange(p + 4, p + 8)) as int;
    &&& p + 8 <= 4092
    &&& rec >= 8 && rec % 8 == 0 && p + rec <= 4092
    &&& 8 + nl + vl <= rec
    &&& valid_utf8(b.subrange(p + 8, p + 8 + nl))
}

/// The `k`-th entry of `b` is a well-formed ACL entry.
pub open spec fn acl_rec_ok(b: Seq<u8>, k: int) -> bool {
    let p = rec_off(b, k);
    let rec = rec_len_at(b, p);
    let sl = spec_u32_from_le_bytes(b.subrange(p + 4, p + 8)) as int;
    &&& p + 8 <= 4092
    &&& rec >= 8 && rec % 8 == 0 && p + rec <= 4092
    &&& b[p + 2] <= 2
    &&& 8 + sl <= rec
    &&& valid_utf8(b.subrange(p + 8, p + 8 + sl))
}

/// Number of xattr entries announced by the header.
pub open spec fn xattr_count(b: Seq<u8>) -> int {
    spec_u16_from_le_bytes(b.subrange(8, 10)) as int
}

/// Number of ACL entries announced by the header.
pub open spec fn acl_count(b: Seq<u8>) -> int {
    spec_u16_from_le_bytes(b.subrange(10, 12)) as int
}

/// `decode` accepts `b`.
pub open spec fn xattr_decodable(b: Seq<u8>) -> bool {
    &&& b.len() == 4096
    &&& spec_u32_from_le_bytes(b.subrange(4092, 4096)) == crc32c_spec(b.subrange(0, 4092) + zeros(4))
    &&& spec_u32_from_le_bytes(b.subrange(0, 4)) == XATTR_BLOCK_MAGIC
    &&& forall|k: int| 0 <= k < xattr_count(b) ==> #[trigger] xattr_rec_ok(b, k)
    &&& forall|j: int| 0 <= j < acl_count(b) ==> #[trigger] acl_rec_ok(b, xattr_count(b) + j)
}

/// `x` is the block that `decode` reads from `b`.
pub open spec fn xattr_matches(x: XattrBlock, b: Seq<u8>) -> bool {
    &&& x.flags == spec_u32_from_le_bytes(b.subrange(4, 8))
    &&& x.xattrs@.len() == xattr_count(b)
    &&& x.acls@.len() == acl_count(b)
    &&& forall|k: int| 0 <= k < x.xattrs@.len() ==> {
        let p = rec_off(b, k);
        let nl = spec_u16_from_le_bytes(b.subrange(p + 2, p + 4)) as int;
        let vl = spec_u32_from_le_bytes(b.subrange(p + 4, p + 8)) as int;
        &&& text_bytes(#[trigger] x.xattrs@[k].name) == b.subrange(p + 8, p + 8 + nl)
        &&& x.xattrs@[k].value@ == b.subrange(p + 8 + nl, p + 8 + nl + vl)
    }
    &&& forall|j: int| 0 <= j < x.acls@.len() ==> {
        let p = rec_off(b, xattr_count(b) + j);
        let sl = spec_u32_from_le_bytes(b.subrange(p + 4, p + 8)) as int;
        &&& principal_code((#[trigger] x.acls@[j]).principal) == b[p + 2]
        &&& x.acls@[j].permission == b[p + 3]
        &&& text_bytes(x.acls@[j].subject) == b.subrange(p + 8, p + 8 + sl)
    }
}

/// The text of `bytes` when they are valid UTF-8 (`std::str::from_utf8`,
/// whose documentation promises success exactly on valid UTF-8, with the
/// same bytes).
#[verifier::external_body]
fn utf8_text(bytes: &[u8]) -> (r: Option<String>)
    ensures
        r is Some <==> valid_utf8(bytes@),
        r matches Some(s) ==> encode_utf8(s@) == bytes@,
{
    match std::str::from_utf8(bytes) {
        Ok(s) => Some(s.to_string()),
        Err(_) => None,
    }
}

fn text_of(s: &String) -> (r: &[u8])
    ensures
        r@ == text_bytes(*s),
{
    s.as_str().as_bytes()
}

proof fn lemma_xattr_entry_len(x: XattrPair)
    ensures
        xattr_rec(x) >= 8 + text_bytes(x.name).len() + x.value@.len(),
        xattr_rec(x) < 16 + text_bytes(x.name).len() + x.value@.len(),
        xattr_rec(x) % 8 == 0,
        xattr_entry_bytes(x).len() == xattr_rec(x),
{
    lemma_auto_spec_u16_to_from_le_bytes();
    lemma_auto_spec_u32_to_from_le_bytes();
}

proof fn lemma_acl_entry_len(a: AclRecord)
    ensures
        acl_rec(a) >= 8 + text_bytes(a.subject).len(),
        acl_rec(a) < 16 + text_bytes(a.subject).len(),
        acl_rec(a) % 8 == 0,
        acl_entry_bytes(a).len() == acl_rec(a),
{
    lemma_auto_spec_u16_to_from_le_bytes();
    lemma_auto_spec_u32_to_from_le_bytes();
}

proof fn lemma_xattrs_mono(xs: Seq<XattrPair>, k: int, n: int)
    requires
        0 <= k <= n <= xs.len(),
    ensures
        xattrs_bytes(xs, k).len() <= xattrs_bytes(xs, n).len(),
    decreases n - k,
{
    if k < n {
        lemma_xattrs_mono(xs, k, n - 1);
        lemma_xattr_entry_len(xs[n - 1]);
    }
}

proof fn lemma_acls_mono(acls: Seq<AclRecord>, k: int, n: int)
    requires
        0 <= k <= n <= acls.len(),
    ensures
        acls_bytes(acls, k).len() <= acls_bytes(acls, n).len(),
    decreases n - k,
{
    if k < n {
        lemma_acls_mono(acls, k, n - 1);
        lemma_acl_entry_len(acls[n - 1]);
    }
}

/// Size of an xattr entry, or an error above 4000 bytes.
fn xattr_len(pair: &XattrPair) -> (r: CoreFsResult<usize>)
    ensures
        r is Ok <==> xattr_rec(*pair) <= 4000,
        r matches Ok(n) ==> n == xattr_rec(*pair),
        r matches Err(e) ==> e is InvalidInput,
{
    let nl = text_of(&pair.name).len();
    let vl = pair.value.len();
    if nl > 4000 || vl > 4000 {
        return Err(CoreFsError::InvalidInput(msg("xattr entry too large")));
    }
    let rec = (8 + nl + vl + 7) / 8 * 8;
    if rec > 4000 {
        return Err(CoreFsError::InvalidInput(msg("xattr entry too large")));
    }
    Ok(rec)
}

/// Size of an ACL entry, or an error above 512 bytes.
fn acl_len(acl: &AclRecord) -> (r: CoreFsResult<usize>)
    ensures
        r is Ok <==> acl_rec(*acl) <= 512,
        r matches Ok(n) ==> n == acl_rec(*acl),
        r matches Err(e) ==> e is InvalidInput,
{
    let sl = text_of(&acl.subject).len();
    if sl > 512 {
        return Err(CoreFsError::InvalidInput(msg("acl entry too large")));
    }
    let rec = (8 + sl + 7) / 8 * 8;
    if rec > 512 {
        return Err(CoreFsError::InvalidInput(msg("acl entry too large")));
    }
    Ok(rec)
}


/// The xattr and ACL entries of a block, by value.
pub open spec fn xattr_view(x: XattrBlock) -> (u32, Seq<(Seq<char>, Seq<u8>)>, Seq<(AclPrincipal, Seq<char>, u8)>) {
    (
        x.flags,
        Seq::new(x.xattrs@.len(), |i: int| (x.xattrs@[i].name@, x.xattrs@[i].value@)),
        Seq::new(x.acls@.len(), |i: int| (x.acls@[i].principal, x.acls@[i].subject@, x.acls@[i].permission)),
    )
}

proof fn lemma_xattrs_min_len(xs: Seq<XattrPair>, n: int)
    requires
        0 <= n <= xs.len(),
    ensures
        xattrs_bytes(xs, n).len() >= 8 * n,
    decreases n,
{
    if n > 0 {
        lemma_xattrs_min_len(xs, n - 1);
        lemma_xattr_entry_len(xs[n - 1]);
    }
}

proof fn lemma_acls_min_len(acls: Seq<AclRecord>, n: int)
    requires
        0 <= n <= acls.len(),
    ensures
        acls_bytes(acls, n).len() >= 8 * n,
    decreases n,
{
    if n > 0 {
        lemma_acls_min_len(acls, n - 1);
        lemma_acl_entry_len(acls[n - 1]);
    }
}

/// Entry `k` sits in the bytes of the first `n` entries right after the
/// bytes of the first `k`.
proof fn lemma_xattrs_slot(xs: Seq<XattrPair>, k: int, n: int)
    requires
        0 <= k < n <= xs.len(),
    ensures
        xattrs_bytes(xs, k).len() + xattr_rec(xs[k]) <= xattrs_bytes(xs, n).len(),
        xattrs_bytes(xs, n).subrange(xattrs_bytes(xs, k).len() as int, xattrs_bytes(xs, k).len() + xattr_rec(xs[k]))
            == xattr_entry_bytes(xs[k]),
    decreases n,
{
    lemma_xattr_entry_len(xs[k]);
    let a = xattrs_bytes(xs, k).len() as int;
    let r = xattr_rec(xs[k]);
    if n == k + 1 {
        assert(xattrs_bytes(xs, n).subrange(a, a + r) =~= xattr_entry_bytes(xs[k]));
    } else {
        lemma_xattrs_slot(xs, k, n - 1);
        lemma_xattr_entry_len(xs[n - 1]);
        let prev = xattrs_bytes(xs, n - 1);
        assert(xattrs_bytes(xs, n).subrange(a, a + r) =~= prev.subrange(a, a + r));
    }
}

proof fn lemma_acls_slot(acls: Seq<AclRecord>, k: int, n: int)
    requires
        0 <= k < n <= acls.len(),
    ensures
        acls_bytes(acls, k).len() + acl_rec(acls[k]) <= acls_bytes(acls, n).len(),
        acls_bytes(acls, n).subrange(acls_bytes(acls, k).len() as int, acls_bytes(acls, k).len() + acl_rec(acls[k]))
            == acl_entry_bytes(acls[k]),
    decreases n,
{
    lemma_acl_entry_len(acls[k]);
    let a = acls_bytes(acls, k).len() as int;
    let r = acl_rec(acls[k]);
    if n == k + 1 {
        assert(acls_bytes(acls, n).subrange(a, a + r) =~= acl_entry_bytes(acls[k]));
    } else {
        lemma_acls_slot(acls, k, n - 1);
        lemma_acl_entry_len(acls[n - 1]);
        let prev = acls_bytes(acls, n - 1);
        assert(acls_bytes(acls, n).subrange(a, a + r) =~= prev.subrange(a, a + r));
    }
}

/// Where the header fields and the entries sit in an encoded block.
proof fn lemma_block_layout(b: XattrBlock)
    requires
        xattr_encodable(b),
    ensures ({
        let bb = xattr_block_bytes(b);
        let e = entries_bytes(b);
        &&& bb.len() == 4096
        &&& bb.subrange(0, 4092) == xattr_body(b)
        &&& bb.subrange(4092, 4096) == spec_u32_to_le_bytes(crc32c_spec(xattr_body(b) + zeros(4)))
        &&& bb.subrange(0, 4) == spec_u32_to_le_bytes(XATTR_BLOCK_MAGIC)
        &&& bb.subrange(4, 8) == spec_u32_to_le_bytes(b.flags)
        &&& bb.subrange(8, 10) == spec_u16_to_le_bytes(b.xattrs@.len() as u16)
        &&& bb.subrange(10, 12) == spec_u16_to_le_bytes(b.acls@.len() as u16)
        &&& forall|i: int, j: int| 0 <= i <= j <= e.len() ==> #[trigger] bb.subrange(16 + i, 16 + j) == e.subrange(i, j)
    }),
{
    lemma_auto_spec_u16_to_from_le_bytes();
    lemma_auto_spec_u32_to_from_le_bytes();
    let bb = xattr_block_bytes(b);
    let e = entries_bytes(b);
    let body = xattr_body(b);
    assert(body.len() == 4092);
    assert(bb.subrange(0, 4092) =~= body);
    assert(bb.subrange(4092, 4096) =~= spec_u32_to_le_bytes(crc32c_spec(body + zeros(4))));
    assert(bb.subrange(0, 4) =~= spec_u32_to_le_bytes(XATTR_BLOCK_MAGIC));
    assert(bb.subrange(4, 8) =~= spec_u32_to_le_bytes(b.flags));
    assert(bb.subrange(8, 10) =~= spec_u16_to_le_bytes(b.xattrs@.len() as u16));
    assert(bb.subrange(10, 12) =~= spec_u16_to_le_bytes(b.acls@.len() as u16));
    assert forall|i: int, j: int| 0 <= i <= j <= e.len() implies #[trigger] bb.subrange(16 + i, 16 + j) == e.subrange(i, j) by {
        assert(bb.subrange(16 + i, 16 + j) =~= e.subrange(i, j));
    }
}


proof fn lemma_xattr_entry_fields(x: XattrPair)
    requires
        xattr_rec(x) <= 4000,
    ensures ({
        let e = xattr_entry_bytes(x);
        let nl = text_bytes(x.name).len() as int;
        let vl = x.value@.len() as int;
        &&& e.subrange(0, 2) == spec_u16_to_le_bytes(xattr_rec(x) as u16)
        &&& e.subrange(2, 4) == spec_u16_to_le_bytes(nl as u16)
        &&& e.subrange(4, 8) == spec_u32_to_le_bytes(vl as u32)
        &&& e.subrange(8, 8 + nl) == text_bytes(x.name)
        &&& e.subrange(8 + nl, 8 + nl + vl) == x.value@
    }),
{
    lemma_auto_spec_u16_to_from_le_bytes();
    lemma_auto_spec_u32_to_from_le_bytes();
    lemma_xattr_entry_len(x);
    let e = xattr_entry_bytes(x);
    let nl = text_bytes(x.name).len() as int;
    let vl = x.value@.len() as int;
    assert(e.subrange(0, 2) =~= spec_u16_to_le_bytes(xattr_rec(x) as u16));
    assert(e.subrange(2, 4) =~= spec_u16_to_le_bytes(nl as u16));
    assert(e.subrange(4, 8) =~= spec_u32_to_le_bytes(vl as u32));
    assert(e.subrange(8, 8 + nl) =~= text_bytes(x.name));
    assert(e.subrange(8 + nl, 8 + nl + vl) =~= x.value@);
}

proof fn lemma_acl_entry_fields(a: AclRecord)
    requires
        acl_rec(a) <= 512,
    ensures ({
        let e = acl_entry_bytes(a);
        let sl = text_bytes(a.subject).len() as int;
        &&& e.subrange(0, 2) == spec_u16_to_le_bytes(acl_rec(a) as u16)
        &&& e[2] == principal_code(a.principal)
        &&& e[3] == a.permission
        &&& e.subrange(4, 8) == spec_u32_to_le_bytes(sl as u32)
        &&& e.subrange(8, 8 + sl) == text_bytes(a.subject)
    }),
{
    lemma_auto_spec_u16_to_from_le_bytes();
    lemma_auto_spec_u32_to_from_le_bytes();
    lemma_acl_entry_len(a);
    let e = acl_entry_bytes(a);
    let sl = text_bytes(a.subject).len() as int;
    assert(e.subrange(0, 2) =~= spec_u16_to_le_bytes(acl_rec(a) as u16));
    assert(e.subrange(4, 8) =~= spec_u32_to_le_bytes(sl as u32));
    assert(e.subrange(8, 8 + sl) =~= text_bytes(a.subject));
}

/// Bytes `a..c` of xattr entry `k` in an encoded block.
proof fn lemma_xattr_field(b: XattrBlock, k: int, a: int, c: int)
    requires
        xattr_encodable(b),
        0 <= k < b.xattrs@.len(),
        0 <= a <= c <= xattr_rec(b.xattrs@[k]),
    ensures ({
        let off = 16 + xattrs_bytes(b.xattrs@, k).len();
        &&& off + xattr_rec(b.xattrs@[k]) <= 16 + xattrs_bytes(b.xattrs@, b.xattrs@.len() as int).len()
        &&& xattr_block_bytes(b).subrange(off + a, off + c) == xattr_entry_bytes(b.xattrs@[k]).subrange(a, c)
    }),
{
    let xs = b.xattrs@;
    let xa = xattrs_bytes(xs, xs.len() as int);
    let e = entries_bytes(b);
    let xk = xattrs_bytes(xs, k).len() as int;
    let r = xattr_rec(xs[k]);
    lemma_xattrs_slot(xs, k, xs.len() as int);
    lemma_block_layout(b);
    assert(xattr_block_bytes(b).subrange(16 + xk + a, 16 + xk + c) == e.subrange(xk + a, xk + c));
    assert(e.subrange(xk + a, xk + c) =~= xa.subrange(xk, xk + r).subrange(a, c));
}

/// Bytes `a..c` of ACL entry `j` in an encoded block.
proof fn lemma_acl_field(b: XattrBlock, j: int, a: int, c: int)
    requires
        xattr_encodable(b),
        0 <= j < b.acls@.len(),
        0 <= a <= c <= acl_rec(b.acls@[j]),
    ensures ({
        let off = 16 + xattrs_bytes(b.xattrs@, b.xattrs@.len() as int).len() + acls_bytes(b.acls@, j).len();
        &&& off + acl_rec(b.acls@[j]) <= 16 + entries_bytes(b).len()
        &&& xattr_block_bytes(b).subrange(off + a, off + c) == acl_entry_bytes(b.acls@[j]).subrange(a, c)
    }),
{
    let al = b.acls@;
    let xa = xattrs_bytes(b.xattrs@, b.xattrs@.len() as int);
    let aa = acls_bytes(al, al.len() as int);
    let e = entries_bytes(b);
    let aj = acls_bytes(al, j).len() as int;
    let r = acl_rec(al[j]);
    let base = xa.len() as int;
    lemma_acls_slot(al, j, al.len() as int);
    lemma_block_layout(b);
    assert(xattr_block_bytes(b).subrange(16 + base + aj + a, 16 + base + aj + c) == e.subrange(base + aj + a, base + aj + c));
    assert(e.subrange(base + aj + a, base + aj + c) =~= aa.subrange(aj, aj + r).subrange(a, c));
}

proof fn lemma_rec_off_xattrs(b: XattrBlock, k: int)
    requires
        xattr_encodable(b),
        0 <= k <= b.xattrs@.len(),
    ensures
        rec_off(xattr_block_bytes(b), k) == 16 + xattrs_bytes(b.xattrs@, k).len(),
    decreases k,
{
    if k > 0 {
        lemma_auto_spec_u16_to_from_le_bytes();
        lemma_rec_off_xattrs(b, k - 1);
        let x = b.xattrs@[k - 1];
        let bb = xattr_block_bytes(b);
        let p: int = 16 + xattrs_bytes(b.xattrs@, k - 1).len() as int;
        lemma_xattr_entry_fields(x);
        lemma_xattr_field(b, k - 1, 0, 2);
        lemma_xattr_entry_len(x);
        assert(bb.subrange(p, p + 2) == spec_u16_to_le_bytes(xattr_rec(x) as u16));
        assert(spec_u16_from_le_bytes(bb.subrange(p, p + 2)) == xattr_rec(x));
        assert(rec_off(bb, k) == p + spec_u16_from_le_bytes(bb.subrange(p, p + 2)));
    }
}

proof fn lemma_rec_off_acls(b: XattrBlock, j: int)
    requires
        xattr_encodable(b),
        0 <= j <= b.acls@.len(),
    ensures
        rec_off(xattr_block_bytes(b), b.xattrs@.len() + j)
            == 16 + xattrs_bytes(b.xattrs@, b.xattrs@.len() as int).len() + acls_bytes(b.acls@, j).len(),
    decreases j,
{
    if j == 0 {
        lemma_rec_off_xattrs(b, b.xattrs@.len() as int);
    } else {
        lemma_auto_spec_u16_to_from_le_bytes();
        lemma_rec_off_acls(b, j - 1);
        let a = b.acls@[j - 1];
        let bb = xattr_block_bytes(b);
        let p: int = 16 + xattrs_bytes(b.xattrs@, b.xattrs@.len() as int).len() as int + acls_bytes(b.acls@, j - 1).len() as int;
        lemma_acl_entry_fields(a);
        lemma_acl_field(b, j - 1, 0, 2);
        lemma_acl_entry_len(a);
        assert(bb.subrange(p, p + 2) == spec_u16_to_le_bytes(acl_rec(a) as u16));
        assert(spec_u16_from_le_bytes(bb.subrange(p, p + 2)) == acl_rec(a));
        assert(rec_off(bb, b.xattrs@.len() + j) == p + spec_u16_from_le_bytes(bb.subrange(p, p + 2)));
    }
}


proof fn lemma_xattr_entry_ok(b: XattrBlock, k: int)
    requires
        xattr_encodable(b),
        0 <= k < b.xattrs@.len(),
    ensures ({
        let bb = xattr_block_bytes(b);
        let p = rec_off(bb, k);
        let nl = spec_u16_from_le_bytes(bb.subrange(p + 2, p + 4)) as int;
        let vl = spec_u32_from_le_bytes(bb.subrange(p + 4, p + 8)) as int;
        &&& xattr_rec_ok(bb, k)
        &&& text_bytes(b.xattrs@[k].name) == bb.subrange(p + 8, p + 8 + nl)
        &&& b.xattrs@[k].value@ == bb.subrange(p + 8 + nl, p + 8 + nl + vl)
    }),
{
    lemma_auto_spec_u16_to_from_le_bytes();
    lemma_auto_spec_u32_to_from_le_bytes();
    let x = b.xattrs@[k];
    let nl = text_bytes(x.name).len() as int;
    let vl = x.value@.len() as int;
    let r = xattr_rec(x);
    lemma_xattr_entry_len(x);
    lemma_xattr_entry_fields(x);
    lemma_rec_off_xattrs(b, k);
    lemma_xattr_field(b, k, 0, 2);
    lemma_xattr_field(b, k, 2, 4);
    lemma_xattr_field(b, k, 4, 8);
    lemma_xattr_field(b, k, 8, 8 + nl);
    lemma_xattr_field(b, k, 8 + nl, 8 + nl + vl);
    lemma_block_layout(b);
    encode_utf8_valid_utf8(x.name@);
    lemma_xattrs_mono(b.xattrs@, k, b.xattrs@.len() as int);
}

proof fn lemma_acl_entry_ok(b: XattrBlock, j: int)
    requires
        xattr_encodable(b),
        0 <= j < b.acls@.len(),
    ensures ({
        let bb = xattr_block_bytes(b);
        let p = rec_off(bb, b.xattrs@.len() + j);
        let sl = spec_u32_from_le_bytes(bb.subrange(p + 4, p + 8)) as int;
        &&& acl_rec_ok(bb, b.xattrs@.len() + j)
        &&& principal_code(b.acls@[j].principal) == bb[p + 2]
        &&& b.acls@[j].permission == bb[p + 3]
        &&& text_bytes(b.acls@[j].subject) == bb.subrange(p + 8, p + 8 + sl)
    }),
{
    lemma_auto_spec_u16_to_from_le_bytes();
    lemma_auto_spec_u32_to_from_le_bytes();
    let a = b.acls@[j];
    let bb = xattr_block_bytes(b);
    let sl = text_bytes(a.subject).len() as int;
    lemma_acl_entry_len(a);
    lemma_acl_entry_fields(a);
    lemma_rec_off_acls(b, j);
    let p = rec_off(bb, b.xattrs@.len() + j);
    lemma_acl_field(b, j, 0, 2);
    lemma_acl_field(b, j, 0, 8);
    lemma_acl_field(b, j, 4, 8);
    lemma_acl_field(b, j, 8, 8 + sl);
    assert(bb[p + 2] == bb.subrange(p, p + 8)[2]);
    assert(bb[p + 3] == bb.subrange(p, p + 8)[3]);
    lemma_block_layout(b);
    encode_utf8_valid_utf8(a.subject@);
    assert(principal_code(a.principal) <= 2);
}

/// Two blocks that `decode` could read from the same bytes hold the same
/// entries.
proof fn lemma_xattr_matches_unique(x: XattrBlock, y: XattrBlock, bb: Seq<u8>)
    requires
        xattr_matches(x, bb),
        xattr_matches(y, bb),
    ensures
        xattr_view(x) == xattr_view(y),
{
    assert forall|k: int| 0 <= k < x.xattrs@.len() implies x.xattrs@[k].name@ == y.xattrs@[k].name@ by {
        encode_utf8_decode_utf8(x.xattrs@[k].name@);
        encode_utf8_decode_utf8(y.xattrs@[k].name@);
    }
    assert forall|j: int| 0 <= j < x.acls@.len() implies x.acls@[j].subject@ == y.acls@[j].subject@
        && x.acls@[j].principal == y.acls@[j].principal by {
        encode_utf8_decode_utf8(x.acls@[j].subject@);
        encode_utf8_decode_utf8(y.acls@[j].subject@);
        assert(principal_code(x.acls@[j].principal) == principal_code(y.acls@[j].principal));
    }
    let vx = xattr_view(x);
    let vy = xattr_view(y);
    assert(vx.1 =~= vy.1);
    assert(vx.2 =~= vy.2);
}

/// Decoding an encoded block gives the block back: the bytes that
/// `encode` produces for an encodable block pass every check of `decode`,
/// and any block that `decode` reads from them holds the same flags,
/// xattr entries and ACL entries as the original.
pub proof fn lemma_xattr_roundtrip(b: XattrBlock)
    requires
        xattr_encodable(b),
    ensures
        xattr_decodable(xattr_block_bytes(b)),
        xattr_matches(b, xattr_block_bytes(b)),
        forall|y: XattrBlock| #[trigger] xattr_matches(y, xattr_block_bytes(b)) ==> xattr_view(y) == xattr_view(b),
{
    lemma_auto_spec_u16_to_from_le_bytes();
    lemma_auto_spec_u32_to_from_le_bytes();
    let bb = xattr_block_bytes(b);
    let xs = b.xattrs@;
    let al = b.acls@;
    lemma_block_layout(b);
    lemma_xattrs_min_len(xs, xs.len() as int);
    lemma_acls_min_len(al, al.len() as int);
    assert(xattr_count(bb) == xs.len());
    assert(acl_count(bb) == al.len());
    assert forall|k: int| 0 <= k < xattr_count(bb) implies #[trigger] xattr_rec_ok(bb, k) by {
        lemma_xattr_entry_ok(b, k);
    }
    assert forall|j: int| 0 <= j < acl_count(bb) implies #[trigger] acl_rec_ok(bb, xattr_count(bb) + j) by {
        lemma_acl_entry_ok(b, j);
    }
    assert forall|k: int| 0 <= k < xs.len() implies {
        let p = rec_off(bb, k);
        let nl = spec_u16_from_le_bytes(bb.subrange(p + 2, p + 4)) as int;
        let vl = spec_u32_from_le_bytes(bb.subrange(p + 4, p + 8)) as int;
        &&& text_bytes(#[trigger] xs[k].name) == bb.subrange(p + 8, p + 8 + nl)
        &&& xs[k].value@ == bb.subrange(p + 8 + nl, p + 8 + nl + vl)
    } by {
        lemma_xattr_entry_ok(b, k);
    }
    assert forall|j: int| 0 <= j < al.len() implies {
        let p = rec_off(bb, xattr_count(bb) + j);
        let sl = spec_u32_from_le_bytes(bb.subrange(p + 4, p + 8)) as int;
        &&& principal_code((#[trigger] al[j]).principal) == bb[p + 2]
        &&& al[j].permission == bb[p + 3]
        &&& text_bytes(al[j].subject) == bb.subrange(p + 8, p + 8 + sl)
    } by {
        lemma_acl_entry_ok(b, j);
    }
    assert(xattr_matches(b, bb));
    assert forall|y: XattrBlock| #[trigger] xattr_matches(y, bb) implies xattr_view(y) == xattr_view(b) by {
        lemma_xattr_matches_unique(y, b, bb);
    }
}


impl XattrBlock {
    /// Encode into a full 4 KiB block with the checksum filled in.
    pub fn encode(&self) -> (r: CoreFsResult<Vec<u8>>)
        ensures
            r is Ok <==> xattr_encodable(*self),
            r matches Ok(v) ==> v@ == xattr_block_bytes(*self),
            r matches Err(e) ==> e is InvalidInput,
    {
        let ghost xs = self.xattrs@;
        let ghost al = self.acls@;
        let mut body: Vec<u8> = Vec::new();
        push_u32(&mut body, XATTR_BLOCK_MAGIC);
        push_u32(&mut body, self.flags);
        push_u16(&mut body, self.xattrs.len() as u16);
        push_u16(&mut body, self.acls.len() as u16);
        push_zeros(&mut body, 4);
        let ghost hdr = body@;
        proof {
            lemma_auto_spec_u16_to_from_le_bytes();
            lemma_auto_spec_u32_to_from_le_bytes();
            assert(body@ =~= hdr + xattrs_bytes(xs, 0));
        }
        let mut i: usize = 0;
        while i < self.xattrs.len()
            invariant
                xs == self.xattrs@,
                hdr.len() == 16,
                i <= xs.len(),
                body@ == hdr + xattrs_bytes(xs, i as int),
                body@.len() <= 4092,
                forall|k: int| 0 <= k < i ==> xattr_rec(#[trigger] xs[k]) <= 4000,
            decreases xs.len() - i,
        {
            let pair = &self.xattrs[i];
            let rec = match xattr_len(pair) {
                Ok(n) => n,
                Err(e) => {
                    return Err(e);
                },
            };
            proof {
                lemma_xattr_entry_len(xs[i as int]);
            }
            if body.len() + rec > CRC_OFFSET {
                proof {
                    lemma_xattrs_mono(xs, i as int + 1, xs.len() as int);
                }
                return Err(CoreFsError::InvalidInput(msg("xattr block: entries overflow capacity")));
            }
            let name = text_of(&pair.name);
            let ghost before = body@;
            push_u16(&mut body, rec as u16);
            push_u16(&mut body, name.len() as u16);
            push_u32(&mut body, pair.value.len() as u32);
            push_bytes(&mut body, name);
            push_bytes(&mut body, pair.value.as_slice());
            push_zeros(&mut body, rec - 8 - name.len() - pair.value.len());
            proof {
                assert(body@ =~= before + xattr_entry_bytes(xs[i as int]));
                assert(body@ =~= hdr + xattrs_bytes(xs, i as int + 1));
            }
            i = i + 1;
        }
        let ghost xall = xattrs_bytes(xs, xs.len() as int);
        proof {
            assert(body@ =~= hdr + xall + acls_bytes(al, 0));
        }
        let mut j: usize = 0;
        while j < self.acls.len()
            invariant
                xs == self.xattrs@,
                al == self.acls@,
                hdr.len() == 16,
                xall == xattrs_bytes(xs, xs.len() as int),
                forall|k: int| 0 <= k < xs.len() ==> xattr_rec(#[trigger] xs[k]) <= 4000,
                j <= al.len(),
                body@ == hdr + xall + acls_bytes(al, j as int),
                body@.len() <= 4092,
                forall|k: int| 0 <= k < j ==> acl_rec(#[trigger] al[k]) <= 512,
            decreases al.len() - j,
        {
            let acl = &self.acls[j];
            let rec = match acl_len(acl) {
                Ok(n) => n,
                Err(e) => {
                    return Err(e);
                },
            };
            proof {
                lemma_acl_entry_len(al[j as int]);
            }
            if body.len() + rec > CRC_OFFSET {
                proof {
                    lemma_acls_mono(al, j as int + 1, al.len() as int);
                }
                return Err(CoreFsError::InvalidInput(msg("xattr block: acl entries overflow capacity")));
            }
            let subj = text_of(&acl.subject);
            let ghost before = body@;
            push_u16(&mut body, rec as u16);
            body.push(acl.principal.code());
            body.push(acl.permission);
            push_u32(&mut body, subj.len() as u32);
            push_bytes(&mut body, subj);
            push_zeros(&mut body, rec - 8 - subj.len());
            proof {
                assert(body@ =~= before + acl_entry_bytes(al[j as int]));
                assert(body@ =~= hdr + xall + acls_bytes(al, j as int + 1));
            }
            j = j + 1;
        }
        let fill = CRC_OFFSET - body.len();
        push_zeros(&mut body, fill);
        proof {
            assert(body@ =~= xattr_body(*self));
        }
        let mut for_crc = body.clone();
        push_zeros(&mut for_crc, 4);
        let crc = Crc32c::hash(for_crc.as_slice());
        push_u32(&mut body, crc);
        Ok(body)
    }

    /// Decode a block: length, checksum and magic first, then every entry.
    #[verifier::spinoff_prover]
    pub fn decode(block: &[u8]) -> (r: CoreFsResult<Self>)
        ensures
            r is Ok <==> xattr_decodable(block@),
            r matches Ok(x) ==> xattr_matches(x, block@),
            r matches Err(e) ==> (e is InvalidInput <==> block@.len() != 4096),
            r matches Err(e) ==> (e is InvalidInput || e is State),
    {
        if block.len() != 4096 {
            return Err(CoreFsError::InvalidInput(msg("xattr block: wrong length")));
        }
        let ghost b = block@;
        let stored = read_u32(block, CRC_OFFSET);
        let mut zeroed = copy_range(block, 0, CRC_OFFSET);
        push_zeros(&mut zeroed, 4);
        let expected = Crc32c::hash(zeroed.as_slice());
        if stored != expected {
            return Err(CoreFsError::State(msg("xattr block CRC mismatch")));
        }
        let magic = read_u32(block, 0);
        if magic != XATTR_BLOCK_MAGIC {
            return Err(CoreFsError::State(msg("xattr block: bad magic")));
        }
        let flags = read_u32(block, 4);
        let xc = read_u16(block, 8) as usize;
        let ac = read_u16(block, 10) as usize;
        let mut cursor: usize = 16;
        let mut xattrs: Vec<XattrPair> = Vec::new();
        let mut k: usize = 0;
        while k < xc
            invariant
                b == block@,
                b.len() == 4096,
                xc == xattr_count(b),
                k <= xc,
                cursor == rec_off(b, k as int),
                cursor <= 4092,
                xattrs@.len() == k,
                forall|q: int| 0 <= q < k ==> #[trigger] xattr_rec_ok(b, q),
                forall|q: int| 0 <= q < k ==> {
                    let p = rec_off(b, q);
                    let nl = spec_u16_from_le_bytes(b.subrange(p + 2, p + 4)) as int;
                    let vl = spec_u32_from_le_bytes(b.subrange(p + 4, p + 8)) as int;
                    &&& text_bytes(#[trigger] xattrs@[q].name) == b.subrange(p + 8, p + 8 + nl)
                    &&& xattrs@[q].value@ == b.subrange(p + 8 + nl, p + 8 + nl + vl)
                },
            decreases xc - k,
        {
            if cursor + 8 > CRC_OFFSET {
                proof {
                    assert(!xattr_rec_ok(b, k as int));
                }
                return Err(CoreFsError::State(msg("xattr: truncated entry")));
            }
            let rec = read_u16(block, cursor) as usize;
            if rec < 8 || rec % 8 != 0 || cursor + rec > CRC_OFFSET {
                proof {
                    assert(!xattr_rec_ok(b, k as int));
                }
                return Err(CoreFsError::State(msg("xattr: bad rec_len")));
            }
            let nl = read_u16(block, cursor + 2) as usize;
            let vl = read_u32(block, cursor + 4);
            if nl > rec - 8 || vl as u64 > (rec - 8 - nl) as u64 {
                proof {
                    assert(!xattr_rec_ok(b, k as int));
                }
                return Err(CoreFsError::State(msg("xattr: lengths exceed rec")));
            }
            let vl = vl as usize;
            let name_bytes = copy_range(block, cursor + 8, cursor + 8 + nl);
            let name = match utf8_text(name_bytes.as_slice()) {
                Some(s) => s,
                None => {
                    proof {
                        assert(name_bytes@ =~= b.subrange(cursor + 8, cursor + 8 + nl));
                        assert(!xattr_rec_ok(b, k as int));
                    }
                    return Err(CoreFsError::State(msg("xattr: name is not UTF-8")));
                },
            };
            let value = copy_range(block, cursor + 8 + nl, cursor + 8 + nl + vl);
            proof {
                assert(text_bytes(name) == b.subrange(cursor + 8, cursor + 8 + nl));
            }
            let ghost prev = xattrs@;
            xattrs.push(XattrPair { name, value });
            proof {
                assert(xattrs@[k as int].value@ == b.subrange(cursor + 8 + nl, cursor + 8 + nl + vl));
                assert forall|q: int| 0 <= q < k + 1 implies {
                    let p = rec_off(b, q);
                    let nl = spec_u16_from_le_bytes(b.subrange(p + 2, p + 4)) as int;
                    let vl = spec_u32_from_le_bytes(b.subrange(p + 4, p + 8)) as int;
                    &&& text_bytes(#[trigger] xattrs@[q].name) == b.subrange(p + 8, p + 8 + nl)
                    &&& xattrs@[q].value@ == b.subrange(p + 8 + nl, p + 8 + nl + vl)
                } by {
                    if q < k {
                        assert(xattrs@[q] == prev[q]);
                    }
                }
                assert(rec_off(b, k as int + 1) == cursor + rec);
            }
            cursor = cursor + rec;
            k = k + 1;
        }
        let mut acls: Vec<AclRecord> = Vec::new();
        let mut j: usize = 0;
        while j < ac
            invariant
                b == block@,
                b.len() == 4096,
                xc == xattr_count(b),
                ac == acl_count(b),
                j <= ac,
                cursor == rec_off(b, xc + j),
                cursor <= 4092,
                acls@.len() == j,
                forall|q: int| 0 <= q < j ==> #[trigger] acl_rec_ok(b, xc + q),
                forall|q: int| 0 <= q < j ==> {
                    let p = rec_off(b, xc + q);
                    let sl = spec_u32_from_le_bytes(b.subrange(p + 4, p + 8)) as int;
                    &&& principal_code((#[trigger] acls@[q]).principal) == b[p + 2]
                    &&& acls@[q].permission == b[p + 3]
                    &&& text_bytes(acls@[q].subject) == b.subrange(p + 8, p + 8 + sl)
                },
            decreases ac - j,
        {
            if cursor + 8 > CRC_OFFSET {
                proof {
                    assert(!acl_rec_ok(b, xc + j));
                }
                return Err(CoreFsError::State(msg("acl: truncated entry")));
            }
            let rec = read_u16(block, cursor) as usize;
            if rec < 8 || rec % 8 != 0 || cursor + rec > CRC_OFFSET {
                proof {
                    assert(!acl_rec_ok(b, xc + j));
                }
                return Err(CoreFsError::State(msg("acl: bad rec_len")));
            }
            let principal = match AclPrincipal::from_u8(block[cursor + 2]) {
                Ok(p) => p,
                Err(e) => {
                    proof {
                        assert(!acl_rec_ok(b, xc + j));
                    }
                    return Err(e);
                },
            };
            let permission = block[cursor + 3];
            let sl = read_u32(block, cursor + 4);
            if sl as u64 > (rec - 8) as u64 {
                proof {
                    assert(!acl_rec_ok(b, xc + j));
                }
                return Err(CoreFsError::State(msg("acl: subject exceeds rec")));
            }
            let sl = sl as usize;
            let subj_bytes = copy_range(block, cursor + 8, cursor + 8 + sl);
            let subject = match utf8_text(subj_bytes.as_slice()) {
                Some(s) => s,
                None => {
                    proof {
                        assert(subj_bytes@ =~= b.subrange(cursor + 8, cursor + 8 + sl));
                        assert(!acl_rec_ok(b, xc + j));
                    }
                    return Err(CoreFsError::State(msg("acl: subject is not UTF-8")));
                },
            };
            proof {
                assert(text_bytes(subject) == b.subrange(cursor + 8, cursor + 8 + sl));
            }
            let ghost prev = acls@;
            acls.push(AclRecord { principal, subject, permission });
            proof {
                assert forall|q: int| 0 <= q < j + 1 implies {
                    let p = rec_off(b, xc + q);
                    let sl = spec_u32_from_le_bytes(b.subrange(p + 4, p + 8)) as int;
                    &&& principal_code((#[trigger] acls@[q]).principal) == b[p + 2]
                    &&& acls@[q].permission == b[p + 3]
                    &&& text_bytes(acls@[q].subject) == b.subrange(p + 8, p + 8 + sl)
                } by {
                    if q < j {
                        assert(acls@[q] == prev[q]);
                    }
                }
                assert(rec_off(b, xc + j + 1) == cursor + rec);
            }
            cursor = cursor + rec;
            j = j + 1;
        }
        Ok(XattrBlock { flags, xattrs, acls })
    }
}

/// A block that `decode` accepts is refused once any one of its 4096
/// bytes is changed: the CRC32C no longer matches.
pub proof fn lemma_xattr_detects_corruption(b: Seq<u8>, k: int, v: u8)
    requires
        xattr_decodable(b),
        0 <= k < 4096,
        v != b[k],
    ensures
        !xattr_decodable(b.update(k, v)),
{
    let b2 = b.update(k, v);
    assert(crc_covered(b, 4092) =~= b.subrange(0, 4092) + zeros(4));
    assert(crc_covered(b2, 4092) =~= b2.subrange(0, 4092) + zeros(4));
    lemma_crc_slot_detects_change(b, 4092, k, v);
}

} // verus!
