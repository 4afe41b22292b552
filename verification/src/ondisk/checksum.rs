//! CRC32C (Castagnoli) — the checksum primitive of the on-disk format.
//!
//! Reflected polynomial `0x82F63B78`.  The executable code computes the
//! checksum bit by bit, exactly as the specification below defines it.
use vstd::prelude::*;
use vstd::bytes::*;
use super::codec::zeros;

verus! {

/// Reflected CRC32C polynomial.
pub const CRC32C_POLY: u32 = 0x82F6_3B78;

/// One shift step of the reflected CRC register.
pub open spec fn crc_shift(c: u32) -> u32 {
    if c & 1 != 0 {
        (c >> 1) ^ CRC32C_POLY
    } else {
        c >> 1
    }
}

/// Feed one byte into the CRC register (eight shift steps).
pub open spec fn crc_byte(crc: u32, b: u8) -> u32 {
    let c0 = crc ^ (b as u32);
    crc_shift(crc_shift(crc_shift(crc_shift(crc_shift(crc_shift(crc_shift(crc_shift(c0))))))))
}

/// CRC register after feeding `data` into a register holding `seed`.
pub open spec fn crc_update_spec(seed: u32, data: Seq<u8>) -> u32
    decreases data.len(),
{
    if data.len() == 0 {
        seed
    } else {
        crc_byte(crc_update_spec(seed, data.drop_last()), data.last())
    }
}

/// One-shot CRC32C of `data`.
pub open spec fn crc32c_spec(data: Seq<u8>) -> u32 {
    !crc_update_spec(!0u32, data)
}

proof fn lemma_shift_injective(a: u32, b: u32)
    requires
        crc_shift(a) == crc_shift(b),
    ensures
        a == b,
{
    assert(((if a & 1 != 0 { (a >> 1) ^ 0x82F6_3B78u32 } else { a >> 1 })
        == (if b & 1 != 0 { (b >> 1) ^ 0x82F6_3B78u32 } else { b >> 1 })) ==> a == b) by (bit_vector);
}

/// Feeding one byte is injective in the register and in the byte.
proof fn lemma_byte_injective(s1: u32, b1: u8, s2: u32, b2: u8)
    requires
        crc_byte(s1, b1) == crc_byte(s2, b2),
    ensures
        s1 ^ (b1 as u32) == s2 ^ (b2 as u32),
        s1 == s2 ==> b1 == b2,
        b1 == b2 ==> s1 == s2,
{
    let a0 = s1 ^ (b1 as u32);
    let c0 = s2 ^ (b2 as u32);
    let a1 = crc_shift(a0);
    let c1 = crc_shift(c0);
    let a2 = crc_shift(a1);
    let c2 = crc_shift(c1);
    let a3 = crc_shift(a2);
    let c3 = crc_shift(c2);
    let a4 = crc_shift(a3);
    let c4 = crc_shift(c3);
    let a5 = crc_shift(a4);
    let c5 = crc_shift(c4);
    let a6 = crc_shift(a5);
    let c6 = crc_shift(c5);
    let a7 = crc_shift(a6);
    let c7 = crc_shift(c6);
    lemma_shift_injective(a7, c7);
    lemma_shift_injective(a6, c6);
    lemma_shift_injective(a5, c5);
    lemma_shift_injective(a4, c4);
    lemma_shift_injective(a3, c3);
    lemma_shift_injective(a2, c2);
    lemma_shift_injective(a1, c1);
    lemma_shift_injective(a0, c0);
    assert(s1 == s2 ==> (s1 ^ (b1 as u32) == s2 ^ (b2 as u32) ==> b1 == b2)) by (bit_vector);
    assert(b1 == b2 ==> (s1 ^ (b1 as u32) == s2 ^ (b2 as u32) ==> s1 == s2)) by (bit_vector);
}

/// Registers after the first `n` bytes of two inputs that agree everywhere
/// but at `k < n` differ.
proof fn lemma_update_differs(seed: u32, a: Seq<u8>, b: Seq<u8>, k: int, n: int)
    requires
        a.len() == b.len(),
        0 <= k < n <= a.len(),
        a[k] != b[k],
        forall|i: int| 0 <= i < a.len() && i != k ==> a[i] == b[i],
    ensures
        crc_update_spec(seed, a.take(n)) != crc_update_spec(seed, b.take(n)),
    decreases n,
{
    let ap = a.take(n);
    let bp = b.take(n);
    assert(ap.drop_last() =~= a.take(n - 1));
    assert(bp.drop_last() =~= b.take(n - 1));
    if n == k + 1 {
        assert(a.take(k) =~= b.take(k));
        if crc_update_spec(seed, ap) == crc_update_spec(seed, bp) {
            lemma_byte_injective(crc_update_spec(seed, a.take(k)), a[k], crc_update_spec(seed, b.take(k)), b[k]);
        }
    } else {
        lemma_update_differs(seed, a, b, k, n - 1);
        if crc_update_spec(seed, ap) == crc_update_spec(seed, bp) {
            lemma_byte_injective(crc_update_spec(seed, a.take(n - 1)), a[n - 1], crc_update_spec(seed, b.take(n - 1)), b[n - 1]);
        }
    }
}

/// CRC32C detects every corruption confined to one byte (so every
/// single-bit corruption): two inputs of the same length that differ at
/// exactly one position have different checksums.
pub proof fn lemma_crc32c_detects_single_byte_change(a: Seq<u8>, b: Seq<u8>, k: int)
    requires
        a.len() == b.len(),
        0 <= k < a.len(),
        a[k] != b[k],
        forall|i: int| 0 <= i < a.len() && i != k ==> a[i] == b[i],
    ensures
        crc32c_spec(a) != crc32c_spec(b),
{
    lemma_update_differs(!0u32, a, b, k, a.len() as int);
    assert(a.take(a.len() as int) =~= a);
    assert(b.take(b.len() as int) =~= b);
    let x = crc_update_spec(!0u32, a);
    let y = crc_update_spec(!0u32, b);
    assert(x != y ==> !x != !y) by (bit_vector);
}

/// The bytes that a checksum stored at `lo..lo + 4` covers: the block with
/// that slot zeroed.
pub open spec fn crc_covered(b: Seq<u8>, lo: int) -> Seq<u8> {
    b.subrange(0, lo) + zeros(4) + b.subrange(lo + 4, b.len() as int)
}

/// A block whose CRC32C, stored little-endian at `lo..lo + 4`, matches the
/// rest of the block no longer matches after any one byte is changed,
/// the checksum bytes included.
pub proof fn lemma_crc_slot_detects_change(b: Seq<u8>, lo: int, k: int, v: u8)
    requires
        0 <= lo,
        lo + 4 <= b.len(),
        spec_u32_from_le_bytes(b.subrange(lo, lo + 4)) == crc32c_spec(crc_covered(b, lo)),
        0 <= k < b.len(),
        v != b[k],
    ensures
        spec_u32_from_le_bytes(b.update(k, v).subrange(lo, lo + 4)) != crc32c_spec(crc_covered(b.update(k, v), lo)),
{
    let b2 = b.update(k, v);
    let c1 = crc_covered(b, lo);
    let c2 = crc_covered(b2, lo);
    if lo <= k < lo + 4 {
        assert(c1 =~= c2);
        lemma_auto_spec_u32_to_from_le_bytes();
        let s1 = b.subrange(lo, lo + 4);
        let s2 = b2.subrange(lo, lo + 4);
        assert(s1[k - lo] != s2[k - lo]);
        if spec_u32_from_le_bytes(s1) == spec_u32_from_le_bytes(s2) {
            assert(spec_u32_to_le_bytes(spec_u32_from_le_bytes(s1)) == s1);
            assert(spec_u32_to_le_bytes(spec_u32_from_le_bytes(s2)) == s2);
        }
    } else {
        assert(b2.subrange(lo, lo + 4) =~= b.subrange(lo, lo + 4));
        assert(c1.len() == b.len());
        assert(c2.len() == b.len());
        assert(c1[k] == b[k]);
        assert(c2[k] == v);
        assert forall|i: int| 0 <= i < c1.len() && i != k implies c1[i] == c2[i] by {}
        lemma_crc32c_detects_single_byte_change(c1, c2, k);
    }
}

/// Namespace for the CRC32C functions.
pub struct Crc32c;

fn shift(c: u32) -> (r: u32)
    ensures
        r == crc_shift(c),
{
    if c & 1 != 0 {
        (c >> 1) ^ CRC32C_POLY
    } else {
        c >> 1
    }
}

impl Crc32c {
    /// Compute the CRC register over `data` starting from `seed` (no final
    /// inversion).
    pub fn update(seed: u32, data: &[u8]) -> (r: u32)
        ensures
            r == crc_update_spec(seed, data@),
    {
        let mut crc = seed;
        let mut i: usize = 0;
        while i < data.len()
            invariant
                i <= data@.len(),
                crc == crc_update_spec(seed, data@.take(i as int)),
            decreases data@.len() - i,
        {
            let b = data[i];
            let c0 = crc ^ (b as u32);
            let c1 = shift(c0);
            let c2 = shift(c1);
            let c3 = shift(c2);
            let c4 = shift(c3);
            let c5 = shift(c4);
            let c6 = shift(c5);
            let c7 = shift(c6);
            let c8 = shift(c7);
            proof {
                let t = data@.take(i as int + 1);
                assert(t.drop_last() =~= data@.take(i as int));
                assert(t.last() == data@[i as int]);
            }
            crc = c8;
            i = i + 1;
        }
        proof {
            assert(data@.take(data@.len() as int) =~= data@);
        }
        crc
    }

    /// One-shot checksum: initial register `!0`, final inversion.
    pub fn hash(data: &[u8]) -> (r: u32)
        ensures
            r == crc32c_spec(data@),
    {
        !Self::update(!0u32, data)
    }
}

} // verus!
