//! Block- and inode-allocation bitmaps.
//!
//! A bitmap spans one or more 4 KiB blocks; each bit represents one
//! addressable unit.  Bit 0 of byte 0 represents unit 0.
use vstd::prelude::*;
use crate::error::{CoreFsError, CoreFsResult, msg, msg_num};
use super::layout::{BITS_PER_BITMAP_BLOCK, BLOCK_SIZE, div_ceil_spec, div_ceil_u64};
use super::codec::zero_vec;

verus! {

/// Bit `k` of byte `b`.
pub open spec fn byte_bit(b: u8, k: int) -> bool {
    ((b >> (k as u8)) & 1u8) == 1u8
}

/// Unit `i` is marked in the byte buffer `bits`.
pub open spec fn bit_set(bits: Seq<u8>, i: int) -> bool {
    byte_bit(bits[i / 8], i % 8)
}

/// Number of marked units among `0..n`.
pub open spec fn count_set(bits: Seq<u8>, n: int) -> int
    decreases n,
{
    if n <= 0 {
        0
    } else {
        count_set(bits, n - 1) + if bit_set(bits, n - 1) { 1int } else { 0int }
    }
}

proof fn lemma_or_bit(b: u8, bit: u8, k: u8)
    requires
        bit < 8,
        k < 8,
    ensures
        (((b | (1u8 << bit)) >> k) & 1u8 == 1u8) == (k == bit || ((b >> k) & 1u8) == 1u8),
        ((b & (1u8 << bit)) != 0u8) == (((b >> bit) & 1u8) == 1u8),
{
    assert((((b | (1u8 << bit)) >> k) & 1u8 == 1u8) == (k == bit || ((b >> k) & 1u8) == 1u8))
        by (bit_vector)
        requires
            bit < 8,
            k < 8,
    ;
    assert(((b & (1u8 << bit)) != 0u8) == (((b >> bit) & 1u8) == 1u8)) by (bit_vector)
        requires
            bit < 8,
    ;
}

proof fn lemma_and_not_bit(b: u8, bit: u8, k: u8)
    requires
        bit < 8,
        k < 8,
    ensures
        (((b & !(1u8 << bit)) >> k) & 1u8 == 1u8) == (k != bit && ((b >> k) & 1u8) == 1u8),
{
    assert((((b & !(1u8 << bit)) >> k) & 1u8 == 1u8) == (k != bit && ((b >> k) & 1u8) == 1u8))
        by (bit_vector)
        requires
            bit < 8,
            k < 8,
    ;
}

proof fn lemma_full_byte(k: u8)
    requires
        k < 8,
    ensures
        ((0xFFu8 >> k) & 1u8) == 1u8,
{
    assert(((0xFFu8 >> k) & 1u8) == 1u8) by (bit_vector)
        requires
            k < 8,
    ;
}

proof fn lemma_bit_is_bool(b: u8, k: u8)
    ensures
        ((b >> k) & 1u8) == 1u8 || ((b >> k) & 1u8) == 0u8,
{
    assert(((b >> k) & 1u8) == 1u8 || ((b >> k) & 1u8) == 0u8) by (bit_vector);
}

/// A mutable bitmap spanning whole 4 KiB blocks.
#[derive(Debug, Clone, PartialEq, Eq)]
pub struct Bitmap {
    bits: Vec<u8>,
    capacity: u64,
}

impl Bitmap {
    /// Raw bytes of the bitmap.
    pub closed spec fn bytes(&self) -> Seq<u8> {
        self.bits@
    }

    /// Highest addressable unit index + 1.
    pub closed spec fn cap(&self) -> nat {
        self.capacity as nat
    }

    /// Unit `i` is marked.
    pub open spec fn is_set_spec(&self, i: int) -> bool {
        bit_set(self.bytes(), i)
    }

    /// Buffer length is a whole number of blocks and covers the capacity.
    pub closed spec fn wf(&self) -> bool {
        &&& self.bits@.len() % (BLOCK_SIZE as nat) == 0
        &&& self.bits@.len() * 8 >= self.capacity
        &&& self.bits@.len() <= usize::MAX
    }

    /// Facts that follow from well-formedness.
    pub proof fn lemma_wf(&self)
        requires
            self.wf(),
        ensures
            self.bytes().len() % 4096 == 0,
            self.bytes().len() * 8 >= self.cap(),
            self.bytes().len() <= usize::MAX,
    {
    }

    /// Zero-filled bitmap for `capacity` units, rounded up to whole blocks
    /// (at least one).
    pub fn new(capacity: u64) -> (r: Self)
        requires
            div_ceil_spec(capacity as int, BITS_PER_BITMAP_BLOCK as int) * BLOCK_SIZE <= usize::MAX,
        ensures
            r.wf(),
            r.cap() == capacity,
            r.bytes().len() == (if capacity == 0 { 1int } else { div_ceil_spec(capacity as int, BITS_PER_BITMAP_BLOCK as int) }) * BLOCK_SIZE,
            forall|i: int| 0 <= i < r.bytes().len() ==> r.bytes()[i] == 0u8,
    {
        let b = div_ceil_u64(capacity, BITS_PER_BITMAP_BLOCK);
        let blocks = if b == 0 { 1 } else { b };
        proof {
            if capacity > 0 {
                assert(b >= 1);
            }
            assert(blocks * BLOCK_SIZE <= usize::MAX);
            assert(blocks * BLOCK_SIZE * 8 >= capacity) by (nonlinear_arith)
                requires blocks * BITS_PER_BITMAP_BLOCK >= capacity, BITS_PER_BITMAP_BLOCK == BLOCK_SIZE * 8;
            assert((blocks * BLOCK_SIZE) % (BLOCK_SIZE as int) == 0) by (nonlinear_arith);
        }
        let bytes = (blocks * BLOCK_SIZE) as usize;
        Bitmap { bits: zero_vec(bytes), capacity }
    }

    /// Load a bitmap from a byte buffer whose length is a multiple of the
    /// block size and that holds at least `capacity` bits.
    pub fn from_bytes(bytes: Vec<u8>, capacity: u64) -> (r: CoreFsResult<Self>)
        ensures
            r is Ok <==> (bytes@.len() % (BLOCK_SIZE as nat) == 0 && bytes@.len() * 8 >= capacity),
            r matches Ok(bm) ==> bm.wf() && bm.bytes() == bytes@ && bm.cap() == capacity,
            r matches Err(e) ==> e is InvalidInput,
    {
        let len = bytes.len();
        if (len as u64) % BLOCK_SIZE != 0 {
            return Err(CoreFsError::InvalidInput(msg_num(
                "bitmap buffer length ",
                len as u64,
                " is not a multiple of block size",
            )));
        }
        if (len as u128) * 8 < capacity as u128 {
            return Err(CoreFsError::InvalidInput(msg("bitmap buffer too small")));
        }
        Ok(Bitmap { bits: bytes, capacity })
    }

    /// Underlying byte view for writing to disk.
    pub fn as_bytes(&self) -> (r: &[u8])
        ensures
            r@ == self.bytes(),
    {
        self.bits.as_slice()
    }

    /// Number of bitmap blocks occupied on disk.
    pub fn block_count(&self) -> (r: u64)
        requires
            self.wf(),
        ensures
            r == self.bytes().len() / (BLOCK_SIZE as nat),
    {
        self.bits.len() as u64 / BLOCK_SIZE
    }

    /// Highest addressable unit index + 1.
    pub fn capacity(&self) -> (r: u64)
        ensures
            r == self.cap(),
    {
        self.capacity
    }

    fn check_index(&self, index: u64) -> (r: CoreFsResult<()>)
        ensures
            r is Ok <==> index < self.cap(),
            r matches Err(e) ==> e is InvalidInput,
    {
        if index >= self.capacity {
            return Err(CoreFsError::InvalidInput(msg_num("bitmap index ", index, " out of range")));
        }
        Ok(())
    }

    /// `true` if unit `index` is marked; error when `index` is out of range.
    pub fn is_set(&self, index: u64) -> (r: CoreFsResult<bool>)
        requires
            self.wf(),
        ensures
            r is Ok <==> index < self.cap(),
            r matches Ok(b) ==> b == self.is_set_spec(index as int),
            r matches Err(e) ==> e is InvalidInput,
    {
        self.check_index(index)?;
        let (byte, bit) = split(index);
        let v = self.bits[byte];
        Ok((v >> bit) & 1 == 1)
    }

    /// Mark unit `index`.  Returns `true` if the unit was free before.
    pub fn set(&mut self, index: u64) -> (r: CoreFsResult<bool>)
        requires
            old(self).wf(),
        ensures
            final(self).wf(),
            final(self).cap() == old(self).cap(),
            final(self).bytes().len() == old(self).bytes().len(),
            r is Ok <==> index < old(self).cap(),
            r is Err ==> *final(self) == *old(self),
            r matches Err(e) ==> e is InvalidInput,
            r matches Ok(fresh) ==> fresh == !old(self).is_set_spec(index as int)
                && forall|j: int| 0 <= j < final(self).bytes().len() * 8 ==>
                    #[trigger] final(self).is_set_spec(j) == (j == index || old(self).is_set_spec(j)),
    {
        self.check_index(index)?;
        let (byte, bit) = split(index);
        let mask: u8 = 1u8 << bit;
        let b = self.bits[byte];
        let was_set = b & mask != 0;
        let ghost old_bits = self.bits@;
        self.bits.set(byte, b | mask);
        proof {
            lemma_or_bit(b, bit, 0);
            assert forall|j: int| 0 <= j < self.bits@.len() * 8 implies
                #[trigger] bit_set(self.bits@, j) == (j == index || bit_set(old_bits, j)) by {
                if j / 8 == byte as int {
                    lemma_or_bit(b, bit, (j % 8) as u8);
                }
            }
        }
        Ok(!was_set)
    }

    /// Free unit `index`.  Returns `true` if the unit was marked before.
    pub fn clear(&mut self, index: u64) -> (r: CoreFsResult<bool>)
        requires
            old(self).wf(),
        ensures
            final(self).wf(),
            final(self).cap() == old(self).cap(),
            final(self).bytes().len() == old(self).bytes().len(),
            r is Ok <==> index < old(self).cap(),
            r is Err ==> *final(self) == *old(self),
            r matches Err(e) ==> e is InvalidInput,
            r matches Ok(was) ==> was == old(self).is_set_spec(index as int)
                && forall|j: int| 0 <= j < final(self).bytes().len() * 8 ==>
                    #[trigger] final(self).is_set_spec(j) == (j != index && old(self).is_set_spec(j)),
    {
        self.check_index(index)?;
        let (byte, bit) = split(index);
        let mask: u8 = 1u8 << bit;
        let b = self.bits[byte];
        let was_set = b & mask != 0;
        let ghost old_bits = self.bits@;
        self.bits.set(byte, b & !mask);
        proof {
            lemma_or_bit(b, bit, 0);
            assert forall|j: int| 0 <= j < self.bits@.len() * 8 implies
                #[trigger] bit_set(self.bits@, j) == (j != index && bit_set(old_bits, j)) by {
                if j / 8 == byte as int {
                    lemma_and_not_bit(b, bit, (j % 8) as u8);
                }
            }
        }
        Ok(was_set)
    }

    /// Find the lowest free unit in `[start, capacity)` and mark it.
    /// Returns its index, or `None` if every unit in the range is marked.
    pub fn allocate_first(&mut self, start: u64) -> (r: Option<u64>)
        requires
            old(self).wf(),
        ensures
            final(self).wf(),
            final(self).cap() == old(self).cap(),
            final(self).bytes().len() == old(self).bytes().len(),
            r is None ==> *final(self) == *old(self)
                && forall|j: int| start <= j < old(self).cap() ==> #[trigger] old(self).is_set_spec(j),
            r matches Some(i) ==> start <= i < old(self).cap()
                && !old(self).is_set_spec(i as int)
                && (forall|j: int| start <= j < i ==> #[trigger] old(self).is_set_spec(j))
                && (forall|j: int| 0 <= j < final(self).bytes().len() * 8 ==>
                    #[trigger] final(self).is_set_spec(j) == (j == i || old(self).is_set_spec(j))),
    {
        let limit = self.capacity;
        let mut i = start;
        while i < limit
            invariant
                self.wf(),
                *self == *old(self),
                limit == self.cap(),
                start <= i,
                forall|j: int| start <= j < i && j < limit ==> #[trigger] self.is_set_spec(j),
            decreases u64::MAX - i,
        {
            let (byte, bit) = split(i);
            let b = self.bits[byte];
            if b == 0xFF && bit == 0 {
                proof {
                    assert forall|j: int| start <= j < i + 8 && j < limit implies #[trigger] self.is_set_spec(j) by {
                        if j >= i {
                            assert(j / 8 == byte as int);
                            lemma_full_byte((j % 8) as u8);
                        }
                    }
                }
                i = if i > u64::MAX - 8 { u64::MAX } else { i + 8 };
                continue;
            }
            if (b >> bit) & 1 == 0 {
                let ghost old_bits = self.bits@;
                self.bits.set(byte, b | (1u8 << bit));
                proof {
                    assert forall|j: int| 0 <= j < self.bits@.len() * 8 implies
                        #[trigger] bit_set(self.bits@, j) == (j == i || bit_set(old_bits, j)) by {
                        if j / 8 == byte as int {
                            lemma_or_bit(b, bit, (j % 8) as u8);
                        }
                    }
                }
                return Some(i);
            }
            proof {
                lemma_bit_is_bool(b, bit);
            }
            i = i + 1;
        }
        None
    }

    /// Number of marked units within the capacity.
    pub fn popcount(&self) -> (r: u64)
        requires
            self.wf(),
        ensures
            r == count_set(self.bytes(), self.cap() as int),
    {
        let mut count: u64 = 0;
        let mut i: u64 = 0;
        while i < self.capacity
            invariant
                self.wf(),
                i <= self.cap(),
                count == count_set(self.bytes(), i as int),
                count <= i,
            decreases self.cap() - i,
        {
            let (byte, bit) = split(i);
            if (self.bits[byte] >> bit) & 1 == 1 {
                count = count + 1;
            }
            i = i + 1;
        }
        count
    }
}

/// Byte index and bit index of unit `index`.
fn split(index: u64) -> (r: (usize, u8))
    requires
        index / 8 <= usize::MAX,
    ensures
        r.0 == index / 8,
        r.1 == index % 8,
        r.1 < 8,
{
    ((index / 8) as usize, (index % 8) as u8)
}

} // verus!
