//! Per-data-block reference counters for physical copy-on-write.
//!
//! Two inodes may share a data block until one of them writes; the writer
//! then allocates a fresh block, and the shared block's counter drops.
//!
//! On disk the counters fill consecutive 4 KiB blocks: up to
//! [`COUNTS_PER_BLOCK`] little-endian `u16` counters, four reserved bytes and
//! a CRC32C (over the block with the CRC slot zeroed) at offset 4092.
use vstd::prelude::*;
use vstd::bytes::*;
use crate::error::{CoreFsError, CoreFsResult, msg, msg_num};
use super::checksum::{Crc32c, crc32c_spec, crc_covered, lemma_crc_slot_detects_change};
use super::codec::{zeros, push_u16, push_u32, push_zeros, push_bytes, read_u16, read_u32, copy_range};
use super::inode::Extent;
use super::layout::BLOCK_SIZE;

verus! {

/// Feature flag of volumes that carry a refcount table.
pub const FEATURE_INCOMPAT_PHYSICAL_COW: u64 = 4;
/// Number of `u16` counters stored in one refcount block.
pub const COUNTS_PER_BLOCK: usize = 2044;
/// Offset of the CRC inside a refcount block.
pub const REFCOUNT_CRC_OFFSET: usize = 4092;
/// Largest counter value.
pub const MAX_REFCOUNT: u16 = 0xFFFF;

/// Blocks needed to store `capacity` counters.
pub open spec fn rc_blocks_needed(capacity: int) -> int {
    capacity / 2044 + if capacity % 2044 != 0 { 1int } else { 0int }
}

/// Little-endian encodings of `cs`, concatenated.
pub open spec fn counters_bytes(cs: Seq<u16>) -> Seq<u8>
    decreases cs.len(),
{
    if cs.len() == 0 {
        Seq::empty()
    } else {
        counters_bytes(cs.drop_last()) + spec_u16_to_le_bytes(cs.last())
    }
}

/// Counters stored in refcount block `b`.
pub open spec fn chunk(cs: Seq<u16>, b: int) -> Seq<u16> {
    let lo = if b * 2044 < cs.len() { b * 2044 } else { cs.len() as int };
    let hi = if (b + 1) * 2044 < cs.len() { (b + 1) * 2044 } else { cs.len() as int };
    cs.subrange(lo, hi)
}

/// One refcount block before its checksum (4092 bytes).
pub open spec fn rc_block_body(ch: Seq<u16>) -> Seq<u8> {
    counters_bytes(ch) + zeros((4092 - 2 * ch.len()) as nat)
}

/// One encoded refcount block (4096 bytes).
pub open spec fn rc_block(ch: Seq<u16>) -> Seq<u8> {
    rc_block_body(ch) + spec_u32_to_le_bytes(crc32c_spec(rc_block_body(ch) + zeros(4)))
}

/// The first `n` encoded blocks of `cs`.
pub open spec fn rc_encoding(cs: Seq<u16>, n: int) -> Seq<u8>
    decreases n,
{
    if n <= 0 {
        Seq::empty()
    } else {
        rc_encoding(cs, n - 1) + rc_block(chunk(cs, n - 1))
    }
}

/// Number of counters greater than `t` among the first `n`.
pub open spec fn count_above(cs: Seq<u16>, n: int, t: u16) -> int
    decreases n,
{
    if n <= 0 {
        0
    } else {
        count_above(cs, n - 1, t) + if cs[n - 1] > t { 1int } else { 0int }
    }
}

/// Bytes saved by sharing among the first `n` counters.
pub open spec fn saved_bytes(cs: Seq<u16>, n: int) -> int
    decreases n,
{
    if n <= 0 {
        0
    } else {
        saved_bytes(cs, n - 1) + if cs[n - 1] > 1 { (cs[n - 1] - 1) * 4096 } else { 0int }
    }
}

/// One more reference on a block saves one more block exactly when the
/// block was already referenced: taking a counter from `c >= 1` to `c + 1`
/// raises the bytes saved by 4096 (a block with two references saves one
/// block, not two), from 0 to 1 leaves them unchanged.
pub proof fn lemma_saved_bytes_one_more_ref(cs: Seq<u16>, i: int, n: int)
    requires
        0 <= i < cs.len(),
        cs[i] < 0xFFFF,
        0 <= n <= cs.len(),
    ensures
        saved_bytes(cs.update(i, (cs[i] + 1) as u16), n)
            == saved_bytes(cs, n) + if i < n && cs[i] >= 1 { 4096int } else { 0int },
    decreases n,
{
    if n > 0 {
        lemma_saved_bytes_one_more_ref(cs, i, n - 1);
    }
}

/// One more reference on a block makes it shared exactly when it had one
/// reference: the count of blocks with two or more references grows by one
/// then, and otherwise stays.
pub proof fn lemma_shared_count_one_more_ref(cs: Seq<u16>, i: int, n: int)
    requires
        0 <= i < cs.len(),
        cs[i] < 0xFFFF,
        0 <= n <= cs.len(),
    ensures
        count_above(cs.update(i, (cs[i] + 1) as u16), n, 1)
            == count_above(cs, n, 1) + if i < n && cs[i] == 1 { 1int } else { 0int },
    decreases n,
{
    if n > 0 {
        lemma_shared_count_one_more_ref(cs, i, n - 1);
    }
}

/// Nothing is saved while no block is shared.
pub proof fn lemma_saved_bytes_unshared(cs: Seq<u16>, n: int)
    requires
        0 <= n <= cs.len(),
        forall|j: int| 0 <= j < n ==> cs[j] <= 1,
    ensures
        saved_bytes(cs, n) == 0,
    decreases n,
{
    if n > 0 {
        lemma_saved_bytes_unshared(cs, n - 1);
    }
}

/// The extent lies inside a table of `len` counters (an empty one always does).
pub open spec fn extent_fits(ext: Extent, len: nat) -> bool {
    ext.length_blocks == 0 || ext.physical_block + ext.length_blocks <= len
}

/// Every block of `ext` exists in `cs` and can take one more reference.
pub open spec fn can_acquire(cs: Seq<u16>, ext: Extent) -> bool {
    &&& extent_fits(ext, cs.len())
    &&& forall|j: int| ext.physical_block <= j < ext.physical_block + ext.length_blocks
        ==> #[trigger] cs[j] < MAX_REFCOUNT
}

/// Every block of `ext` exists in `cs` and has a reference to drop.
pub open spec fn can_release(cs: Seq<u16>, ext: Extent) -> bool {
    &&& extent_fits(ext, cs.len())
    &&& forall|j: int| ext.physical_block <= j < ext.physical_block + ext.length_blocks
        ==> #[trigger] cs[j] > 0
}

/// Every block of `ext` exists in `cs` and has no reference.
pub open spec fn all_unreferenced(cs: Seq<u16>, ext: Extent) -> bool {
    &&& extent_fits(ext, cs.len())
    &&& forall|j: int| ext.physical_block <= j < ext.physical_block + ext.length_blocks
        ==> #[trigger] cs[j] == 0
}

/// Every block of `ext` exists in `cs` and has exactly one reference.
pub open spec fn extent_exclusive(cs: Seq<u16>, ext: Extent) -> bool {
    &&& extent_fits(ext, cs.len())
    &&& forall|j: int| ext.physical_block <= j < ext.physical_block + ext.length_blocks
        ==> #[trigger] cs[j] == 1
}

proof fn lemma_count_above_bound(cs: Seq<u16>, n: int, t: u16)
    requires
        0 <= n,
    ensures
        0 <= count_above(cs, n, t) <= n,
    decreases n,
{
    if n > 0 {
        lemma_count_above_bound(cs, n - 1, t);
    }
}

proof fn lemma_saved_nonneg(cs: Seq<u16>, n: int)
    ensures
        0 <= saved_bytes(cs, n),
    decreases n,
{
    if n > 0 {
        lemma_saved_nonneg(cs, n - 1);
    }
}

proof fn lemma_saved_mono(cs: Seq<u16>, m: int, n: int)
    requires
        0 <= m <= n,
    ensures
        0 <= saved_bytes(cs, m) <= saved_bytes(cs, n),
    decreases n - m,
{
    lemma_saved_nonneg(cs, m);
    if m < n {
        lemma_saved_mono(cs, m, n - 1);
    }
}

proof fn lemma_block_start(len: int, b: int)
    requires
        0 <= len,
        0 <= b < rc_blocks_needed(len),
    ensures
        b * 2044 < len,
        (b + 1) * 2044 <= rc_blocks_needed(len) * 2044,
        rc_blocks_needed(len) * 2044 >= len,
{
}

proof fn lemma_counters_bytes_len(cs: Seq<u16>)
    ensures
        counters_bytes(cs).len() == 2 * cs.len(),
    decreases cs.len(),
{
    lemma_auto_spec_u16_to_from_le_bytes();
    if cs.len() > 0 {
        lemma_counters_bytes_len(cs.drop_last());
    }
}

proof fn lemma_counters_bytes_at(cs: Seq<u16>, i: int)
    requires
        0 <= i < cs.len(),
    ensures
        counters_bytes(cs).subrange(2 * i, 2 * i + 2) == spec_u16_to_le_bytes(cs[i]),
    decreases cs.len(),
{
    lemma_auto_spec_u16_to_from_le_bytes();
    lemma_counters_bytes_len(cs.drop_last());
    if i < cs.len() - 1 {
        lemma_counters_bytes_at(cs.drop_last(), i);
        assert(counters_bytes(cs).subrange(2 * i, 2 * i + 2) =~= counters_bytes(cs.drop_last()).subrange(2 * i, 2 * i + 2));
    } else {
        assert(counters_bytes(cs).subrange(2 * i, 2 * i + 2) =~= spec_u16_to_le_bytes(cs.last()));
    }
}

proof fn lemma_rc_block_len(ch: Seq<u16>)
    requires
        ch.len() <= 2044,
    ensures
        rc_block_body(ch).len() == 4092,
        rc_block(ch).len() == 4096,
{
    lemma_counters_bytes_len(ch);
    lemma_auto_spec_u32_to_from_le_bytes();
}

proof fn lemma_rc_encoding_len(cs: Seq<u16>, n: int)
    requires
        0 <= n,
    ensures
        rc_encoding(cs, n).len() == 4096 * n,
    decreases n,
{
    if n > 0 {
        lemma_rc_encoding_len(cs, n - 1);
        lemma_rc_block_len(chunk(cs, n - 1));
    }
}

proof fn lemma_rc_encoding_block(cs: Seq<u16>, n: int, b: int)
    requires
        0 <= b < n,
    ensures
        rc_encoding(cs, n).subrange(4096 * b, 4096 * b + 4096) == rc_block(chunk(cs, b)),
    decreases n,
{
    lemma_rc_encoding_len(cs, n - 1);
    lemma_rc_block_len(chunk(cs, n - 1));
    if b < n - 1 {
        lemma_rc_encoding_block(cs, n - 1, b);
        assert(rc_encoding(cs, n).subrange(4096 * b, 4096 * b + 4096) =~= rc_encoding(cs, n - 1).subrange(4096 * b, 4096 * b + 4096));
    } else {
        assert(rc_encoding(cs, n).subrange(4096 * b, 4096 * b + 4096) =~= rc_block(chunk(cs, b)));
    }
}

/// In-memory refcount table covering `capacity` data blocks.
#[derive(Debug, Clone, PartialEq, Eq)]
pub struct RefCountTable {
    counters: Vec<u16>,
    capacity: u64,
}

impl RefCountTable {
    /// The counters.
    pub closed spec fn view_counts(&self) -> Seq<u16> {
        self.counters@
    }

    /// Logical capacity.
    pub closed spec fn cap(&self) -> nat {
        self.capacity as nat
    }

    /// One counter per block of capacity.
    pub closed spec fn wf(&self) -> bool {
        &&& self.counters@.len() == self.capacity
        &&& self.capacity <= usize::MAX
    }

    /// Facts of well-formedness.
    pub proof fn lemma_wf(&self)
        requires
            self.wf(),
        ensures
            self.view_counts().len() == self.cap(),
            self.cap() <= usize::MAX,
    {
    }

    /// Zero-filled table for `capacity` data blocks.
    pub fn new(capacity: u64) -> (r: Self)
        requires
            capacity <= usize::MAX,
        ensures
            r.wf(),
            r.cap() == capacity,
            r.view_counts() == Seq::new(capacity as nat, |_i: int| 0u16),
    {
        let mut counters: Vec<u16> = Vec::with_capacity(capacity as usize);
        let mut i: u64 = 0;
        while i < capacity
            invariant
                i <= capacity,
                counters@ == Seq::new(i as nat, |_i: int| 0u16),
            decreases capacity - i,
        {
            counters.push(0u16);
            i = i + 1;
            proof {
                assert(counters@ =~= Seq::new(i as nat, |_i: int| 0u16));
            }
        }
        RefCountTable { counters, capacity }
    }

    /// Number of 4 KiB blocks needed to persist `capacity` counters.
    pub fn blocks_needed(capacity: u64) -> (r: u64)
        ensures
            r == rc_blocks_needed(capacity as int),
    {
        let q = capacity / 2044;
        if capacity % 2044 != 0 { q + 1 } else { q }
    }

    /// Logical capacity.
    pub fn capacity(&self) -> (r: u64)
        ensures
            r == self.cap(),
    {
        self.capacity
    }

    /// Counter of `block`; 0 for out-of-range blocks.
    pub fn get(&self, block: u64) -> (r: u16)
        requires
            self.wf(),
        ensures
            r == if block < self.cap() { self.view_counts()[block as int] } else { 0u16 },
    {
        if block >= self.capacity {
            return 0;
        }
        self.counters[block as usize]
    }

    fn check_index(&self, block: u64) -> (r: CoreFsResult<()>)
        ensures
            r is Ok <==> block < self.cap(),
            r matches Err(e) ==> e is InvalidInput,
    {
        if block >= self.capacity {
            return Err(CoreFsError::InvalidInput(msg_num("refcount: block ", block, " out of range")));
        }
        Ok(())
    }

    /// Counter of `block`; error for out-of-range blocks.
    pub fn get_checked(&self, block: u64) -> (r: CoreFsResult<u16>)
        requires
            self.wf(),
        ensures
            r is Ok <==> block < self.cap(),
            r matches Ok(v) ==> v == self.view_counts()[block as int],
            r matches Err(e) ==> e is InvalidInput,
    {
        self.check_index(block)?;
        Ok(self.counters[block as usize])
    }

    /// Add one reference to `block`; returns the new value.
    pub fn acquire(&mut self, block: u64) -> (r: CoreFsResult<u16>)
        requires
            old(self).wf(),
        ensures
            final(self).wf(),
            final(self).cap() == old(self).cap(),
            r is Ok <==> (block < old(self).cap() && old(self).view_counts()[block as int] < MAX_REFCOUNT),
            r matches Ok(v) ==> v == old(self).view_counts()[block as int] + 1
                && final(self).view_counts() == old(self).view_counts().update(block as int, v),
            r matches Err(e) ==> *final(self) == *old(self)
                && (e is InvalidInput <==> block >= old(self).cap())
                && (e is InvalidInput || e is PolicyViolation),
    {
        self.check_index(block)?;
        let cur = self.counters[block as usize];
        if cur == MAX_REFCOUNT {
            return Err(CoreFsError::PolicyViolation(msg_num("refcount: block ", block, " would overflow u16")));
        }
        self.counters.set(block as usize, cur + 1);
        Ok(cur + 1)
    }

    /// Drop one reference on `block`; returns the new value.  A zero
    /// counter is a double free and is reported.
    pub fn release(&mut self, block: u64) -> (r: CoreFsResult<u16>)
        requires
            old(self).wf(),
        ensures
            final(self).wf(),
            final(self).cap() == old(self).cap(),
            r is Ok <==> (block < old(self).cap() && old(self).view_counts()[block as int] > 0),
            r matches Ok(v) ==> v == old(self).view_counts()[block as int] - 1
                && final(self).view_counts() == old(self).view_counts().update(block as int, v),
            r matches Err(e) ==> *final(self) == *old(self)
                && (e is InvalidInput <==> block >= old(self).cap())
                && (e is InvalidInput || e is State),
    {
        self.check_index(block)?;
        let cur = self.counters[block as usize];
        if cur == 0 {
            return Err(CoreFsError::State(msg_num("refcount: block ", block, " released while refcount was zero")));
        }
        self.counters.set(block as usize, cur - 1);
        Ok(cur - 1)
    }

    /// Add one reference to every block of `ext`; on failure every counter
    /// is left as it was.
    pub fn acquire_extent(&mut self, ext: Extent) -> (r: CoreFsResult<()>)
        requires
            old(self).wf(),
            ext.physical_block + ext.length_blocks <= u64::MAX,
        ensures
            final(self).wf(),
            final(self).cap() == old(self).cap(),
            r is Ok <==> can_acquire(old(self).view_counts(), ext),
            r is Err ==> final(self).view_counts() == old(self).view_counts(),
            r matches Err(e) ==> (e is InvalidInput || e is PolicyViolation),
            r is Ok ==> forall|j: int| 0 <= j < final(self).cap() ==> #[trigger] final(self).view_counts()[j]
                == if ext.physical_block <= j < ext.physical_block + ext.length_blocks {
                    (old(self).view_counts()[j] + 1) as u16
                } else {
                    old(self).view_counts()[j]
                },
    {
        let ghost start = self.counters@;
        let n = ext.length_blocks as u64;
        let p = ext.physical_block;
        let mut i: u64 = 0;
        while i < n
            invariant
                self.wf(),
                self.cap() == old(self).cap(),
                start == old(self).view_counts(),
                start.len() == self.cap(),
                i <= n == ext.length_blocks,
                p == ext.physical_block,
                p + n <= u64::MAX,
                i > 0 ==> p + i <= start.len(),
                forall|j: int| p <= j < p + i ==> #[trigger] start[j] < MAX_REFCOUNT,
                forall|j: int| 0 <= j < self.cap() ==> #[trigger] self.view_counts()[j]
                    == if p <= j < p + i { (start[j] + 1) as u16 } else { start[j] },
            decreases n - i,
        {
            let b = p + i;
            proof {
                if b < self.cap() {
                    assert(self.view_counts()[b as int] == start[b as int]);
                }
            }
            let ghost pre = self.view_counts();
            match self.acquire(b) {
                Ok(_) => {
                    proof {
                        assert forall|j: int| 0 <= j < self.cap() implies #[trigger] self.view_counts()[j]
                            == if p <= j < p + i + 1 { (start[j] + 1) as u16 } else { start[j] } by {
                            if j != b {
                                assert(self.view_counts()[j] == pre[j]);
                            }
                        }
                    }
                },
                Err(e) => {
                    proof {
                        assert(!(b < start.len() && start[b as int] < MAX_REFCOUNT));
                    }
                    let mut j: u64 = 0;
                    while j < i
                        invariant
                            self.wf(),
                            self.cap() == old(self).cap(),
                            start.len() == self.cap(),
                            j <= i < n == ext.length_blocks,
                            p == ext.physical_block,
                            p + n <= u64::MAX,
                            i > 0 ==> p + i <= start.len(),
                            forall|k: int| p <= k < p + i ==> #[trigger] start[k] < MAX_REFCOUNT,
                            forall|k: int| 0 <= k < self.cap() ==> #[trigger] self.view_counts()[k]
                                == if p + j <= k < p + i { (start[k] + 1) as u16 } else { start[k] },
                        decreases i - j,
                    {
                        let c = p + j;
                        proof {
                            assert(start[c as int] < MAX_REFCOUNT);
                            assert(self.view_counts()[c as int] == (start[c as int] + 1) as u16);
                        }
                        let ghost pre2 = self.view_counts();
                        let _ = self.release(c);
                        proof {
                            assert forall|k: int| 0 <= k < self.cap() implies #[trigger] self.view_counts()[k]
                                == if p + j + 1 <= k < p + i { (start[k] + 1) as u16 } else { start[k] } by {
                                if k != c {
                                    assert(self.view_counts()[k] == pre2[k]);
                                }
                            }
                        }
                        j = j + 1;
                    }
                    proof {
                        assert(self.view_counts() =~= start);
                    }
                    return Err(e);
                },
            }
            i = i + 1;
        }
        proof {
            assert(can_acquire(start, ext));
        }
        Ok(())
    }

    /// Drop one reference on every block of `ext`.  Returns the blocks that
    /// reached zero, in order.  On failure the blocks before the failing one
    /// stay released.
    pub fn release_extent(&mut self, ext: Extent) -> (r: CoreFsResult<Vec<u64>>)
        requires
            old(self).wf(),
            ext.physical_block + ext.length_blocks <= u64::MAX,
        ensures
            final(self).wf(),
            final(self).cap() == old(self).cap(),
            r is Ok <==> can_release(old(self).view_counts(), ext),
            r matches Ok(freed) ==> (forall|j: int| 0 <= j < final(self).cap() ==> #[trigger] final(self).view_counts()[j]
                == if ext.physical_block <= j < ext.physical_block + ext.length_blocks {
                    (old(self).view_counts()[j] - 1) as u16
                } else {
                    old(self).view_counts()[j]
                })
                && freed@ == Seq::new(ext.length_blocks as nat, |k: int| (ext.physical_block + k) as u64).filter(
                    |b: u64| old(self).view_counts()[b as int] == 1),
    {
        let ghost start = self.counters@;
        let ghost blocks = Seq::new(ext.length_blocks as nat, |k: int| (ext.physical_block + k) as u64);
        let ghost pred = |b: u64| start[b as int] == 1;
        let mut freed: Vec<u64> = Vec::new();
        let n = ext.length_blocks as u64;
        let p = ext.physical_block;
        let mut i: u64 = 0;
        while i < n
            invariant
                self.wf(),
                self.cap() == old(self).cap(),
                start == old(self).view_counts(),
                start.len() == self.cap(),
                i <= n == ext.length_blocks,
                p == ext.physical_block,
                p + n <= u64::MAX,
                blocks == Seq::new(ext.length_blocks as nat, |k: int| (ext.physical_block + k) as u64),
                pred == (|b: u64| start[b as int] == 1),
                i > 0 ==> p + i <= start.len(),
                forall|j: int| p <= j < p + i ==> #[trigger] start[j] > 0,
                forall|j: int| 0 <= j < self.cap() ==> #[trigger] self.view_counts()[j]
                    == if p <= j < p + i { (start[j] - 1) as u16 } else { start[j] },
                freed@ == blocks.take(i as int).filter(pred),
            decreases n - i,
        {
            let b = p + i;
            proof {
                if b < self.cap() {
                    assert(self.view_counts()[b as int] == start[b as int]);
                }
            }
            let ghost pre = self.view_counts();
            let v = match self.release(b) {
                Ok(v) => v,
                Err(e) => {
                    proof {
                        assert(!(b < start.len() && start[b as int] > 0));
                    }
                    return Err(e);
                },
            };
            proof {
                assert forall|j: int| 0 <= j < self.cap() implies #[trigger] self.view_counts()[j]
                    == if p <= j < p + i + 1 { (start[j] - 1) as u16 } else { start[j] } by {
                    if j != b {
                        assert(self.view_counts()[j] == pre[j]);
                    }
                }
            }
            if v == 0 {
                freed.push(b);
            }
            proof {
                let t = blocks.take(i as int + 1);
                assert(blocks[i as int] == b);
                assert(t =~= blocks.take(i as int).push(b));
                blocks.take(i as int).lemma_filter_push(b, pred);
            }
            i = i + 1;
        }
        proof {
            assert(blocks.take(n as int) =~= blocks);
            assert(can_release(start, ext));
        }
        Ok(freed)
    }

    /// Number of blocks with a non-zero counter.
    pub fn allocated(&self) -> (r: u64)
        requires
            self.wf(),
        ensures
            r == count_above(self.view_counts(), self.cap() as int, 0),
    {
        self.count_over(0)
    }

    /// Number of blocks shared by two or more references.
    pub fn shared(&self) -> (r: u64)
        requires
            self.wf(),
        ensures
            r == count_above(self.view_counts(), self.cap() as int, 1),
    {
        self.count_over(1)
    }

    fn count_over(&self, t: u16) -> (r: u64)
        requires
            self.wf(),
        ensures
            r == count_above(self.view_counts(), self.cap() as int, t),
    {
        let mut c: u64 = 0;
        let mut i: usize = 0;
        while i < self.counters.len()
            invariant
                self.wf(),
                i <= self.counters@.len(),
                c == count_above(self.counters@, i as int, t),
            decreases self.counters@.len() - i,
        {
            proof {
                lemma_count_above_bound(self.counters@, i as int, t);
            }
            if self.counters[i] > t {
                c = c + 1;
            }
            i = i + 1;
        }
        c
    }

    /// Borrow the raw counters.
    pub fn counters(&self) -> (r: &[u16])
        ensures
            r@ == self.view_counts(),
    {
        self.counters.as_slice()
    }

    /// Encode into `blocks_needed(capacity)` 4 KiB blocks.
    pub fn encode(&self) -> (r: Vec<u8>)
        requires
            self.wf(),
            rc_blocks_needed(self.cap() as int) * 4096 <= usize::MAX,
        ensures
            r@ == rc_encoding(self.view_counts(), rc_blocks_needed(self.cap() as int)),
    {
        let nb = Self::blocks_needed(self.capacity) as usize;
        let cs = self.counters.as_slice();
        let mut out: Vec<u8> = Vec::new();
        let mut b: usize = 0;
        while b < nb
            invariant
                b <= nb == rc_blocks_needed(self.cap() as int),
                nb * 4096 <= usize::MAX,
                cs@ == self.view_counts(),
                cs@.len() == self.cap(),
                out@ == rc_encoding(cs@, b as int),
            decreases nb - b,
        {
            proof {
                lemma_block_start(cs@.len() as int, b as int);
            }
            let lo = b * 2044;
            let hi = if (b + 1) * 2044 < cs.len() { (b + 1) * 2044 } else { cs.len() };
            let mut blk: Vec<u8> = Vec::with_capacity(4096);
            let mut i = lo;
            while i < hi
                invariant
                    lo <= i <= hi <= cs@.len(),
                    blk@ == counters_bytes(cs@.subrange(lo as int, i as int)),
                decreases hi - i,
            {
                push_u16(&mut blk, cs[i]);
                proof {
                    let s = cs@.subrange(lo as int, i as int + 1);
                    assert(s.drop_last() =~= cs@.subrange(lo as int, i as int));
                }
                i = i + 1;
            }
            proof {
                lemma_counters_bytes_len(cs@.subrange(lo as int, hi as int));
                assert(cs@.subrange(lo as int, hi as int) =~= chunk(cs@, b as int));
            }
            push_zeros(&mut blk, 4092 - 2 * (hi - lo));
            let mut for_crc = blk.clone();
            push_zeros(&mut for_crc, 4);
            let crc = Crc32c::hash(for_crc.as_slice());
            push_u32(&mut blk, crc);
            proof {
                assert(blk@ =~= rc_block(chunk(cs@, b as int)));
            }
            push_bytes(&mut out, blk.as_slice());
            b = b + 1;
        }
        out
    }

    /// Decode and verify a refcount region for `capacity` counters.
    pub fn decode(bytes: &[u8], capacity: u64) -> (r: CoreFsResult<Self>)
        requires
            capacity <= usize::MAX,
            rc_blocks_needed(capacity as int) * 4096 <= usize::MAX,
        ensures
            r is Ok <==> (bytes@.len() == rc_blocks_needed(capacity as int) * 4096
                && forall|b: int| 0 <= b < rc_blocks_needed(capacity as int) ==> #[trigger] rc_crc_ok(bytes@, b)),
            r matches Ok(t) ==> t.wf() && t.cap() == capacity
                && forall|i: int| 0 <= i < capacity ==> #[trigger] t.view_counts()[i] == stored_counter(bytes@, i),
            r matches Err(e) ==> (e is InvalidInput <==> bytes@.len() != rc_blocks_needed(capacity as int) * 4096),
            r matches Err(e) ==> (e is InvalidInput || e is State),
    {
        let nb = Self::blocks_needed(capacity) as usize;
        if bytes.len() != nb * 4096 {
            return Err(CoreFsError::InvalidInput(msg_num(
                "refcount decode: wrong length ",
                bytes.len() as u64,
                "",
            )));
        }
        let mut counters: Vec<u16> = Vec::with_capacity(capacity as usize);
        let cap = capacity as usize;
        let mut b: usize = 0;
        while b < nb
            invariant
                b <= nb == rc_blocks_needed(capacity as int),
                nb * 4096 <= usize::MAX,
                cap == capacity,
                bytes@.len() == nb * 4096,
                counters@.len() == if b * 2044 < cap { b * 2044 } else { cap as int },
                forall|i: int| 0 <= i < counters@.len() ==> #[trigger] counters@[i] == stored_counter(bytes@, i),
                forall|bb: int| 0 <= bb < b ==> #[trigger] rc_crc_ok(bytes@, bb),
            decreases nb - b,
        {
            let start = b * 4096;
            let stored = read_u32(bytes, start + 4092);
            let mut zeroed = copy_range(bytes, start, start + 4092);
            push_zeros(&mut zeroed, 4);
            let expected = Crc32c::hash(zeroed.as_slice());
            proof {
                assert(zeroed@ =~= bytes@.subrange(4096 * b as int, 4096 * b as int + 4092) + zeros(4));
            }
            if expected != stored {
                proof {
                    assert(!rc_crc_ok(bytes@, b as int));
                }
                return Err(CoreFsError::State(msg_num("refcount block ", b as u64, " CRC mismatch")));
            }
            let lo = counters.len();
            proof {
                assert(lo == b * 2044) by {
                    if b * 2044 >= cap {
                        assert(rc_blocks_needed(cap as int) * 2044 >= cap) by (nonlinear_arith)
                            requires cap >= 0;
                        assert(b < rc_blocks_needed(cap as int));
                        assert(b * 2044 < cap) by (nonlinear_arith)
                            requires b < rc_blocks_needed(cap as int), b >= 0, cap >= 0;
                    }
                }
            }
            let hi = if (b + 1) * 2044 < cap { (b + 1) * 2044 } else { cap };
            let mut i: usize = lo;
            while i < hi
                invariant
                    lo == b * 2044,
                    lo <= i <= hi <= cap,
                    hi <= (b + 1) * 2044,
                    b < nb,
                    start == b * 4096,
                    bytes@.len() == nb * 4096,
                    counters@.len() == i,
                    forall|k: int| 0 <= k < counters@.len() ==> #[trigger] counters@[k] == stored_counter(bytes@, k),
                decreases hi - i,
            {
                proof {
                    assert(start + 2 * (i - lo) + 2 <= bytes@.len()) by (nonlinear_arith)
                        requires start == b * 4096, i - lo < 2044, b < nb, bytes@.len() == nb * 4096, i >= lo;
                    assert(i as int / 2044 == b && i as int % 2044 == i - lo) by (nonlinear_arith)
                        requires lo == b * 2044, lo <= i < lo + 2044;
                }
                let v = read_u16(bytes, start + 2 * (i - lo));
                counters.push(v);
                i = i + 1;
            }
            b = b + 1;
        }
        proof {
            assert(counters@.len() == cap) by {
                assert(nb * 2044 >= cap) by (nonlinear_arith)
                    requires nb == rc_blocks_needed(cap as int), cap >= 0;
            }
        }
        Ok(RefCountTable { counters, capacity })
    }
}

/// Result of [`BlockSharing::cow_write`].
#[derive(Debug, Clone, PartialEq, Eq)]
pub enum CowOutcome {
    /// Every block of the extent had exactly one reference: write in place.
    InPlace,
    /// The extent was shared: its counters were dropped by one, and
    /// `freed` lists the blocks that reached zero.
    MustCopy { freed: Vec<u64> },
}

/// Copy-on-write sharing built on a [`RefCountTable`].
#[derive(Debug)]
pub struct BlockSharing {
    table: RefCountTable,
}

impl BlockSharing {
    /// The table underneath.
    pub closed spec fn spec_table(&self) -> RefCountTable {
        self.table
    }

    /// Wrap `table`.
    pub fn new(table: RefCountTable) -> (r: Self)
        ensures
            r.spec_table() == table,
    {
        BlockSharing { table }
    }

    /// Borrow the table.
    pub fn table(&self) -> (r: &RefCountTable)
        ensures
            *r == self.spec_table(),
    {
        &self.table
    }

    /// Give back the table.
    pub fn into_table(self) -> (r: RefCountTable)
        ensures
            r == self.spec_table(),
    {
        self.table
    }

    /// Mark a freshly allocated extent with one reference per block.
    /// Fails, changing nothing, when a block of it already has references.
    pub fn register_fresh(&mut self, ext: Extent) -> (r: CoreFsResult<()>)
        requires
            old(self).spec_table().wf(),
            ext.physical_block + ext.length_blocks <= u64::MAX,
        ensures
            final(self).spec_table().wf(),
            final(self).spec_table().cap() == old(self).spec_table().cap(),
            r is Ok <==> all_unreferenced(old(self).spec_table().view_counts(), ext),
            r is Err ==> final(self).spec_table().view_counts() == old(self).spec_table().view_counts(),
            r is Ok ==> forall|j: int| 0 <= j < final(self).spec_table().cap()
                ==> #[trigger] final(self).spec_table().view_counts()[j]
                == if ext.physical_block <= j < ext.physical_block + ext.length_blocks {
                    1u16
                } else {
                    old(self).spec_table().view_counts()[j]
                },
    {
        let ghost start = self.table.view_counts();
        let n = ext.length_blocks as u64;
        let p = ext.physical_block;
        let mut i: u64 = 0;
        while i < n
            invariant
                self.table.wf(),
                self.table.view_counts() == start,
                start == old(self).spec_table().view_counts(),
                i <= n == ext.length_blocks,
                p == ext.physical_block,
                p + n <= u64::MAX,
                forall|j: int| p <= j < p + i && j < start.len() ==> #[trigger] start[j] == 0,
            decreases n - i,
        {
            let b = p + i;
            let c = self.table.get(b);
            if c != 0 {
                proof {
                    assert(b < start.len() && start[b as int] != 0);
                }
                return Err(CoreFsError::State(msg_num(
                    "refcount: register_fresh on block ",
                    b,
                    " which already has a reference",
                )));
            }
            i = i + 1;
        }
        proof {
            self.table.lemma_wf();
        }
        let r = self.table.acquire_extent(ext);
        proof {
            if r is Ok {
                assert(all_unreferenced(start, ext));
            } else if extent_fits(ext, start.len()) {
                let w = choose|j: int| ext.physical_block <= j < ext.physical_block + ext.length_blocks
                    && !(#[trigger] start[j] < MAX_REFCOUNT);
                assert(start[w] != 0);
            }
        }
        r
    }

    /// Share `ext` with one more owner: every block gains a reference.
    pub fn clone_extent(&mut self, ext: Extent) -> (r: CoreFsResult<()>)
        requires
            old(self).spec_table().wf(),
            ext.physical_block + ext.length_blocks <= u64::MAX,
        ensures
            final(self).spec_table().wf(),
            final(self).spec_table().cap() == old(self).spec_table().cap(),
            r is Ok <==> can_acquire(old(self).spec_table().view_counts(), ext),
            r is Err ==> final(self).spec_table().view_counts() == old(self).spec_table().view_counts(),
            r is Ok ==> forall|j: int| 0 <= j < final(self).spec_table().cap()
                ==> #[trigger] final(self).spec_table().view_counts()[j]
                == if ext.physical_block <= j < ext.physical_block + ext.length_blocks {
                    (old(self).spec_table().view_counts()[j] + 1) as u16
                } else {
                    old(self).spec_table().view_counts()[j]
                },
    {
        self.table.acquire_extent(ext)
    }

    /// Classify a pending write to `ext`.  When every block of it has
    /// exactly one reference the write may go in place and nothing
    /// changes; otherwise the writer detaches: the extent is released and
    /// the blocks that reached zero are reported.
    pub fn cow_write(&mut self, ext: Extent) -> (r: CoreFsResult<CowOutcome>)
        requires
            old(self).spec_table().wf(),
            ext.physical_block + ext.length_blocks <= u64::MAX,
        ensures
            final(self).spec_table().wf(),
            final(self).spec_table().cap() == old(self).spec_table().cap(),
            extent_exclusive(old(self).spec_table().view_counts(), ext) ==> r == Ok::<CowOutcome, CoreFsError>(
                CowOutcome::InPlace) && final(self).spec_table() == old(self).spec_table(),
            !extent_exclusive(old(self).spec_table().view_counts(), ext) ==> {
                &&& (r is Ok <==> can_release(old(self).spec_table().view_counts(), ext))
                &&& (r matches Ok(o) ==> o matches CowOutcome::MustCopy { freed }
                    && freed@ == Seq::new(ext.length_blocks as nat, |k: int| (ext.physical_block + k) as u64).filter(
                        |b: u64| old(self).spec_table().view_counts()[b as int] == 1)
                    && forall|j: int| 0 <= j < final(self).spec_table().cap()
                        ==> #[trigger] final(self).spec_table().view_counts()[j]
                        == if ext.physical_block <= j < ext.physical_block + ext.length_blocks {
                            (old(self).spec_table().view_counts()[j] - 1) as u16
                        } else {
                            old(self).spec_table().view_counts()[j]
                        })
            },
    {
        let ghost start = self.table.view_counts();
        let n = ext.length_blocks as u64;
        let p = ext.physical_block;
        let mut exclusive = true;
        let mut i: u64 = 0;
        while i < n
            invariant
                self.table.wf(),
                self.table.view_counts() == start,
                i <= n == ext.length_blocks,
                p == ext.physical_block,
                p + n <= u64::MAX,
                exclusive ==> (i > 0 ==> p + i <= start.len()),
                exclusive ==> forall|j: int| p <= j < p + i ==> #[trigger] start[j] == 1,
                !exclusive ==> !extent_exclusive(start, ext),
            decreases n - i,
        {
            let b = p + i;
            if self.table.get(b) != 1 {
                proof {
                    if extent_fits(ext, start.len()) {
                        assert(start[b as int] != 1);
                    }
                }
                exclusive = false;
            }
            i = i + 1;
        }
        proof {
            if exclusive {
                assert(extent_exclusive(start, ext));
            }
        }
        if exclusive {
            return Ok(CowOutcome::InPlace);
        }
        let freed = self.table.release_extent(ext)?;
        Ok(CowOutcome::MustCopy { freed })
    }

    /// Drop one reference on every block of `ext`; returns the blocks
    /// that reached zero.
    pub fn release(&mut self, ext: Extent) -> (r: CoreFsResult<Vec<u64>>)
        requires
            old(self).spec_table().wf(),
            ext.physical_block + ext.length_blocks <= u64::MAX,
        ensures
            final(self).spec_table().wf(),
            final(self).spec_table().cap() == old(self).spec_table().cap(),
            r is Ok <==> can_release(old(self).spec_table().view_counts(), ext),
            r matches Ok(freed) ==> (forall|j: int| 0 <= j < final(self).spec_table().cap()
                ==> #[trigger] final(self).spec_table().view_counts()[j]
                == if ext.physical_block <= j < ext.physical_block + ext.length_blocks {
                    (old(self).spec_table().view_counts()[j] - 1) as u16
                } else {
                    old(self).spec_table().view_counts()[j]
                })
                && freed@ == Seq::new(ext.length_blocks as nat, |k: int| (ext.physical_block + k) as u64).filter(
                    |b: u64| old(self).spec_table().view_counts()[b as int] == 1),
    {
        self.table.release_extent(ext)
    }

    /// Number of blocks with two or more references.
    pub fn shared_blocks(&self) -> (r: u64)
        requires
            self.spec_table().wf(),
        ensures
            r == count_above(self.spec_table().view_counts(), self.spec_table().cap() as int, 1),
    {
        self.table.shared()
    }

    /// Bytes that sharing saves: `(refs - 1) * 4096` summed over shared
    /// blocks.
    pub fn bytes_saved(&self) -> (r: u64)
        requires
            self.spec_table().wf(),
            saved_bytes(self.spec_table().view_counts(), self.spec_table().cap() as int) <= u64::MAX,
        ensures
            r == saved_bytes(self.spec_table().view_counts(), self.spec_table().cap() as int),
    {
        let cs = self.table.counters();
        let ghost total = saved_bytes(cs@, cs@.len() as int);
        let mut sum: u64 = 0;
        let mut i: usize = 0;
        while i < cs.len()
            invariant
                i <= cs@.len(),
                cs@ == self.spec_table().view_counts(),
                total == saved_bytes(cs@, cs@.len() as int),
                total <= u64::MAX,
                sum == saved_bytes(cs@, i as int),
            decreases cs@.len() - i,
        {
            proof {
                lemma_saved_mono(cs@, i as int + 1, cs@.len() as int);
            }
            let c = cs[i];
            if c > 1 {
                sum = sum + (c - 1) as u64 * 4096;
            }
            i = i + 1;
        }
        sum
    }
}

/// The counter `i` as stored in an encoded region.
pub open spec fn stored_counter(bytes: Seq<u8>, i: int) -> u16 {
    let off = 4096 * (i / 2044) + 2 * (i % 2044);
    spec_u16_from_le_bytes(bytes.subrange(off, off + 2))
}

/// Block `b` of an encoded region carries a matching checksum.
pub open spec fn rc_crc_ok(bytes: Seq<u8>, b: int) -> bool {
    spec_u32_from_le_bytes(bytes.subrange(4096 * b + 4092, 4096 * b + 4096))
        == crc32c_spec(bytes.subrange(4096 * b, 4096 * b + 4092) + zeros(4))
}

proof fn lemma_rc_block_crc(cs: Seq<u16>, n: int, b: int)
    requires
        0 <= b < n,
    ensures
        rc_crc_ok(rc_encoding(cs, n), b),
{
    let e = rc_encoding(cs, n);
    let ch = chunk(cs, b);
    let body = rc_block_body(ch);
    let crc = crc32c_spec(body + zeros(4));
    lemma_rc_encoding_len(cs, n);
    lemma_rc_encoding_block(cs, n, b);
    lemma_rc_block_len(ch);
    let blk = rc_block(ch);
    assert(blk == body + spec_u32_to_le_bytes(crc));
    lemma_auto_spec_u32_to_from_le_bytes();
    assert(blk.subrange(4092, 4096) =~= spec_u32_to_le_bytes(crc));
    assert(blk.subrange(0, 4092) =~= body);
    assert(e.subrange(4096 * b + 4092, 4096 * b + 4096) =~= blk.subrange(4092, 4096));
    assert(e.subrange(4096 * b, 4096 * b + 4092) =~= blk.subrange(0, 4092));
}

/// Changing any one byte of a block of an encoded refcount region, its
/// checksum included, makes that block's checksum fail, so decoding
/// refuses the region.
pub proof fn lemma_refcount_detects_corruption(bytes: Seq<u8>, b: int, k: int, v: u8)
    requires
        0 <= b,
        4096 * b + 4096 <= bytes.len(),
        rc_crc_ok(bytes, b),
        4096 * b <= k < 4096 * b + 4096,
        v != bytes[k],
    ensures
        !rc_crc_ok(bytes.update(k, v), b),
{
    let lo = 4096 * b;
    let blk = bytes.subrange(lo, lo + 4096);
    let blk2 = bytes.update(k, v).subrange(lo, lo + 4096);
    assert(blk2 =~= blk.update(k - lo, v));
    assert(crc_covered(blk, 4092) =~= bytes.subrange(lo, lo + 4092) + zeros(4));
    assert(blk.subrange(4092, 4096) =~= bytes.subrange(lo + 4092, lo + 4096));
    lemma_crc_slot_detects_change(blk, 4092, k - lo, v);
    assert(crc_covered(blk2, 4092) =~= bytes.update(k, v).subrange(lo, lo + 4092) + zeros(4));
    assert(blk2.subrange(4092, 4096) =~= bytes.update(k, v).subrange(lo + 4092, lo + 4096));
}

/// Decoding an encoded table gives back the same counters: every block of
/// the encoding passes its checksum and every stored counter reads back as
/// the table holds it.
pub proof fn lemma_refcount_roundtrip(cs: Seq<u16>)
    ensures
        rc_encoding(cs, rc_blocks_needed(cs.len() as int)).len() == rc_blocks_needed(cs.len() as int) * 4096,
        forall|b: int| 0 <= b < rc_blocks_needed(cs.len() as int) ==>
            #[trigger] rc_crc_ok(rc_encoding(cs, rc_blocks_needed(cs.len() as int)), b),
        forall|i: int| 0 <= i < cs.len() ==>
            #[trigger] stored_counter(rc_encoding(cs, rc_blocks_needed(cs.len() as int)), i) == cs[i],
{
    let n = rc_blocks_needed(cs.len() as int);
    let e = rc_encoding(cs, n);
    lemma_rc_encoding_len(cs, n);
    lemma_auto_spec_u16_to_from_le_bytes();
    lemma_auto_spec_u32_to_from_le_bytes();
    assert forall|b: int| 0 <= b < n implies #[trigger] rc_crc_ok(e, b) by {
        lemma_rc_block_crc(cs, n, b);
    }
    assert forall|i: int| 0 <= i < cs.len() implies #[trigger] stored_counter(e, i) == cs[i] by {
        let b = i / 2044;
        let k = i % 2044;
        assert(0 <= b < n) by (nonlinear_arith)
            requires n == rc_blocks_needed(cs.len() as int), 0 <= i < cs.len(), b == i / 2044;
        assert(i == 2044 * b + k);
        lemma_rc_encoding_block(cs, n, b);
        let ch = chunk(cs, b);
        assert(ch.len() <= 2044);
        assert(k < ch.len());
        assert(ch[k] == cs[i]);
        lemma_counters_bytes_at(ch, k);
        lemma_counters_bytes_len(ch);
        let blk = rc_block(ch);
        assert(e.subrange(4096 * b + 2 * k, 4096 * b + 2 * k + 2) =~= blk.subrange(2 * k, 2 * k + 2));
        assert(blk.subrange(2 * k, 2 * k + 2) =~= counters_bytes(ch).subrange(2 * k, 2 * k + 2));
    }
}

} // verus!
