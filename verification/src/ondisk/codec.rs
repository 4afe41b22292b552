//! Little-endian field encoding helpers shared by the on-disk structures.
use vstd::prelude::*;
use vstd::bytes::*;
use vstd::slice::slice_subrange;

verus! {

/// `n` zero bytes.
pub open spec fn zeros(n: nat) -> Seq<u8> {
    Seq::new(n, |_i: int| 0u8)
}

/// `buf` with `bytes` written over it starting at `off`.
pub open spec fn overwrite(buf: Seq<u8>, off: int, bytes: Seq<u8>) -> Seq<u8> {
    buf.subrange(0, off) + bytes + buf.subrange(off + bytes.len(), buf.len() as int)
}

/// Little-endian encoding of a signed 64-bit value (two's complement).
pub open spec fn spec_i64_to_le_bytes(x: i64) -> Seq<u8> {
    spec_u64_to_le_bytes(x as u64)
}

/// Decoding of a signed 64-bit value from little-endian bytes.
pub open spec fn spec_i64_from_le_bytes(s: Seq<u8>) -> i64 {
    spec_u64_from_le_bytes(s) as i64
}

/// Little-endian round trip of a signed value.
pub proof fn lemma_i64_roundtrip(x: i64)
    ensures
        spec_i64_from_le_bytes(spec_i64_to_le_bytes(x)) == x,
        spec_i64_to_le_bytes(x).len() == 8,
{
    lemma_auto_spec_u64_to_from_le_bytes();
    let u = x as u64;
    assert((u as i64) == x) by (bit_vector)
        requires
            u == x as u64,
    ;
}

/// Vector of `n` zero bytes.
pub fn zero_vec(n: usize) -> (v: Vec<u8>)
    ensures
        v@ == zeros(n as nat),
{
    let mut v: Vec<u8> = Vec::with_capacity(n);
    let mut i: usize = 0;
    while i < n
        invariant
            i <= n,
            v@ == zeros(i as nat),
        decreases n - i,
    {
        v.push(0u8);
        i = i + 1;
        proof {
            assert(v@ =~= zeros(i as nat));
        }
    }
    v
}

/// Append `bytes` to `buf`.
pub fn push_bytes(buf: &mut Vec<u8>, bytes: &[u8])
    ensures
        final(buf)@ == old(buf)@ + bytes@,
{
    let mut i: usize = 0;
    let ghost start = buf@;
    while i < bytes.len()
        invariant
            i <= bytes@.len(),
            buf@ == start + bytes@.take(i as int),
        decreases bytes@.len() - i,
    {
        buf.push(bytes[i]);
        i = i + 1;
        proof {
            assert(buf@ =~= start + bytes@.take(i as int));
        }
    }
    proof {
        assert(bytes@.take(bytes@.len() as int) =~= bytes@);
    }
}

/// Append the little-endian encoding of a `u16`.
pub fn push_u16(buf: &mut Vec<u8>, v: u16)
    ensures
        final(buf)@ == old(buf)@ + spec_u16_to_le_bytes(v),
{
    let b = u16_to_le_bytes(v);
    push_bytes(buf, b.as_slice());
}

/// Append the little-endian encoding of a `u32`.
pub fn push_u32(buf: &mut Vec<u8>, v: u32)
    ensures
        final(buf)@ == old(buf)@ + spec_u32_to_le_bytes(v),
{
    let b = u32_to_le_bytes(v);
    push_bytes(buf, b.as_slice());
}

/// Append the little-endian encoding of a `u64`.
pub fn push_u64(buf: &mut Vec<u8>, v: u64)
    ensures
        final(buf)@ == old(buf)@ + spec_u64_to_le_bytes(v),
{
    let b = u64_to_le_bytes(v);
    push_bytes(buf, b.as_slice());
}

/// Append the little-endian encoding of an `i64`.
pub fn push_i64(buf: &mut Vec<u8>, v: i64)
    ensures
        final(buf)@ == old(buf)@ + spec_i64_to_le_bytes(v),
{
    push_u64(buf, v as u64);
}

/// Append `n` zero bytes.
pub fn push_zeros(buf: &mut Vec<u8>, n: usize)
    ensures
        final(buf)@ == old(buf)@ + zeros(n as nat),
{
    let z = zero_vec(n);
    push_bytes(buf, z.as_slice());
}

/// Read a little-endian `u16` at `off`.
pub fn read_u16(b: &[u8], off: usize) -> (r: u16)
    requires
        off + 2 <= b@.len(),
    ensures
        r == spec_u16_from_le_bytes(b@.subrange(off as int, off + 2)),
{
    u16_from_le_bytes({
        let _len = b.len();
        slice_subrange(b, off, off + 2)
    })
}

/// Read a little-endian `u32` at `off`.
pub fn read_u32(b: &[u8], off: usize) -> (r: u32)
    requires
        off + 4 <= b@.len(),
    ensures
        r == spec_u32_from_le_bytes(b@.subrange(off as int, off + 4)),
{
    u32_from_le_bytes({
        let _len = b.len();
        slice_subrange(b, off, off + 4)
    })
}

/// Read a little-endian `u64` at `off`.
pub fn read_u64(b: &[u8], off: usize) -> (r: u64)
    requires
        off + 8 <= b@.len(),
    ensures
        r == spec_u64_from_le_bytes(b@.subrange(off as int, off + 8)),
{
    u64_from_le_bytes({
        let _len = b.len();
        slice_subrange(b, off, off + 8)
    })
}

/// Read a little-endian `i64` at `off`.
pub fn read_i64(b: &[u8], off: usize) -> (r: i64)
    requires
        off + 8 <= b@.len(),
    ensures
        r == spec_i64_from_le_bytes(b@.subrange(off as int, off + 8)),
{
    read_u64(b, off) as i64
}

/// Copy of `b[start..end]`.
pub fn copy_range(b: &[u8], start: usize, end: usize) -> (r: Vec<u8>)
    requires
        start <= end <= b@.len(),
    ensures
        r@ == b@.subrange(start as int, end as int),
{
    let mut r: Vec<u8> = Vec::with_capacity(end - start);
    let mut i = start;
    while i < end
        invariant
            start <= i <= end <= b@.len(),
            r@ == b@.subrange(start as int, i as int),
        decreases end - i,
    {
        r.push(b[i]);
        i = i + 1;
        proof {
            assert(r@ =~= b@.subrange(start as int, i as int));
        }
    }
    r
}

/// Overwrite `buf[off..off + bytes.len()]` with `bytes`.
pub fn write_bytes_at(buf: &mut Vec<u8>, off: usize, bytes: &[u8])
    requires
        off + bytes@.len() <= old(buf)@.len(),
    ensures
        final(buf)@ == overwrite(old(buf)@, off as int, bytes@),
        final(buf)@.len() == old(buf)@.len(),
{
    let ghost start = buf@;
    let _blen = buf.len();
    let mut i: usize = 0;
    while i < bytes.len()
        invariant
            i <= bytes@.len(),
            off + bytes@.len() <= start.len(),
            buf@.len() == start.len(),
            start.len() == _blen,
            forall|k: int| 0 <= k < buf@.len() ==> #[trigger] buf@[k] == if off <= k < off + i {
                bytes@[k - off]
            } else {
                start[k]
            },
        decreases bytes@.len() - i,
    {
        buf.set(off + i, bytes[i]);
        i = i + 1;
    }
    proof {
        assert(buf@ =~= overwrite(start, off as int, bytes@));
    }
}

/// `true` iff every byte of `b` is zero.
pub fn all_zero(b: &[u8]) -> (r: bool)
    ensures
        r == (forall|k: int| 0 <= k < b@.len() ==> b@[k] == 0),
{
    let mut i: usize = 0;
    while i < b.len()
        invariant
            i <= b@.len(),
            forall|k: int| 0 <= k < i ==> b@[k] == 0,
        decreases b@.len() - i,
    {
        if b[i] != 0 {
            return false;
        }
        i = i + 1;
    }
    true
}

/// `true` iff `a` and `b` hold the same bytes.
pub fn bytes_eq(a: &[u8], b: &[u8]) -> (r: bool)
    ensures
        r == (a@ == b@),
{
    if a.len() != b.len() {
        return false;
    }
    let mut i: usize = 0;
    while i < a.len()
        invariant
            i <= a@.len(),
            a@.len() == b@.len(),
            forall|k: int| 0 <= k < i ==> a@[k] == b@[k],
        decreases a@.len() - i,
    {
        if a[i] != b[i] {
            return false;
        }
        i = i + 1;
    }
    proof {
        assert(a@ =~= b@);
    }
    true
}

} // verus!
