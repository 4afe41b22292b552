//! Content-addressed block store: every inode maps to a blob of bytes
//! (shared between inodes with identical content, counted by reference)
//! and to an extent of device blocks handed out by a free-extent
//! allocator.
use vstd::prelude::*;
use crate::domain::InodeId;
use crate::device_volume::{checksum, fold_checksum};
use crate::ondisk::codec::push_bytes;

verus! {

/// One stored inode as exported: its bytes, their checksum and its extent.
#[derive(Debug, Clone, PartialEq, Eq)]
pub struct BlockRecord {
    pub inode: InodeId,
    pub bytes: Vec<u8>,
    pub checksum: u64,
    pub device_block: u64,
    pub allocated_blocks: u64,
}

/// A free run of device blocks.
#[derive(Debug, Clone, Copy, PartialEq, Eq)]
pub struct FreeExtentRecord {
    pub device_block: u64,
    pub allocated_blocks: u64,
}

/// How a free extent is chosen for an allocation.
#[derive(Debug, Clone, Copy, PartialEq, Eq, Structural)]
pub enum AllocationStrategy {
    /// The smallest free extent that is large enough (the first of equals).
    BestFit,
    /// The first free extent that is large enough.
    FirstFit,
}

/// Tuning of the free-extent allocator.
#[derive(Debug, Clone, PartialEq, Eq)]
pub struct AllocatorPolicy {
    pub strategy: AllocationStrategy,
    pub split_threshold_blocks: u64,
    pub coalesce_on_release: bool,
    pub tail_trim_enabled: bool,
    pub background_compaction_enabled: bool,
    pub fragmentation_threshold_percent: u8,
}

/// The default policy: best fit, split when one block is left over,
/// coalesce and trim on release, no background compaction, threshold 25 %.
pub open spec fn default_policy() -> AllocatorPolicy {
    AllocatorPolicy {
        strategy: AllocationStrategy::BestFit,
        split_threshold_blocks: 1,
        coalesce_on_release: true,
        tail_trim_enabled: true,
        background_compaction_enabled: false,
        fragmentation_threshold_percent: 25,
    }
}

impl Default for AllocatorPolicy {
    fn default() -> (r: Self)
        ensures
            r == default_policy(),
    {
        AllocatorPolicy {
            strategy: AllocationStrategy::BestFit,
            split_threshold_blocks: 1,
            coalesce_on_release: true,
            tail_trim_enabled: true,
            background_compaction_enabled: false,
            fragmentation_threshold_percent: 25,
        }
    }
}

/// Counts of logical blocks and distinct blobs.
#[derive(Debug, Clone, PartialEq, Eq)]
pub struct DedupeStats {
    pub logical_blocks: usize,
    pub unique_blobs: usize,
    pub deduplicated_blocks: usize,
}

/// Outcome of [`BlockStore::defragment`].
#[derive(Debug, Clone, PartialEq, Eq)]
pub struct DefragmentationReport {
    pub moved_entries: usize,
    pub reclaimed_gaps: usize,
    pub final_device_blocks: u64,
}

/// Free-space statistics.
#[derive(Debug, Clone, PartialEq, Eq)]
pub struct FragmentationReport {
    pub free_extents: usize,
    pub total_free_blocks: u64,
    pub largest_free_extent: u64,
    pub fragmented_free_blocks: u64,
    pub fragmentation_percent: u8,
    pub needs_compaction: bool,
}

/// Outcome of [`BlockStore::optimize_with_priorities`].
#[derive(Debug, Clone, PartialEq, Eq)]
pub struct OptimizationReport {
    pub before: FragmentationReport,
    pub after: FragmentationReport,
    pub heat_reallocation: Option<HeatReallocationReport>,
    pub defragmentation: Option<DefragmentationReport>,
}

/// Outcome of [`BlockStore::reallocate_prioritized_extents`].
#[derive(Debug, Clone, PartialEq, Eq)]
pub struct HeatReallocationReport {
    pub prioritized_inodes: usize,
    pub promoted_hot_inodes: usize,
    pub moved_entries: usize,
    pub final_device_blocks: u64,
}

/// Outcome of [`BlockStore::dedup_pass`].
#[derive(Debug, Clone, PartialEq, Eq)]
pub struct DedupePassReport {
    /// Blobs inspected.
    pub blobs_scanned: usize,
    /// Bytes inspected across all blobs.
    pub bytes_scanned: usize,
    /// Byte-identical blobs merged into one.
    pub duplicates_consolidated: usize,
    /// Bytes freed by merging.
    pub bytes_reclaimed: usize,
    /// Blobs whose bytes do not hash to their checksum.
    pub hash_collisions: usize,
    /// Blobs whose reference count disagreed with the entries.
    pub ref_count_mismatches: usize,
}

/// Copy-on-write sharing statistics.
#[derive(Debug, Clone, PartialEq, Eq)]
pub struct CowStats {
    pub shared_blobs: usize,
    pub shared_logical_bytes: usize,
    pub bytes_saved_by_sharing: usize,
    pub exclusive_blobs: usize,
    pub max_ref_count: usize,
}

/// A freed range of device blocks, to be discarded on the device.
#[derive(Debug, Clone, Copy, PartialEq, Eq)]
pub struct FreedExtent {
    pub device_block: u64,
    pub block_count: u64,
}

#[derive(Debug, Clone, PartialEq, Eq)]
struct BlobRecord {
    bytes: Vec<u8>,
    checksum: u64,
    ref_count: usize,
}

#[derive(Debug, Clone, Copy, PartialEq, Eq)]
struct BlockEntry {
    inode: InodeId,
    blob_checksum: u64,
    size: usize,
    device_block: u64,
    allocated_blocks: u64,
}

/// Abstract value of a stored inode's entry.
pub struct EntryView {
    pub blob: u64,
    pub size: usize,
    pub device_block: u64,
    pub allocated_blocks: u64,
}

/// Abstract value of a blob.
pub struct BlobView {
    pub bytes: Seq<u8>,
    pub ref_count: usize,
}

spec fn entry_view(e: BlockEntry) -> EntryView {
    EntryView { blob: e.blob_checksum, size: e.size, device_block: e.device_block, allocated_blocks: e.allocated_blocks }
}

spec fn blob_view(b: BlobRecord) -> BlobView {
    BlobView { bytes: b.bytes@, ref_count: b.ref_count }
}

spec fn entries_sorted(s: Seq<BlockEntry>) -> bool {
    forall|i: int, j: int| 0 <= i < j < s.len() ==> (#[trigger] s[i]).inode.0 < (#[trigger] s[j]).inode.0
}

spec fn blobs_sorted(s: Seq<BlobRecord>) -> bool {
    forall|i: int, j: int| 0 <= i < j < s.len() ==> (#[trigger] s[i]).checksum < (#[trigger] s[j]).checksum
}

spec fn entry_map(s: Seq<BlockEntry>) -> Map<u64, EntryView> {
    Map::new(
        |k: u64| exists|i: int| 0 <= i < s.len() && s[i].inode.0 == k,
        |k: u64| entry_view(s[choose|i: int| 0 <= i < s.len() && s[i].inode.0 == k]),
    )
}

spec fn blob_map(s: Seq<BlobRecord>) -> Map<u64, BlobView> {
    Map::new(
        |k: u64| exists|i: int| 0 <= i < s.len() && s[i].checksum == k,
        |k: u64| blob_view(s[choose|i: int| 0 <= i < s.len() && s[i].checksum == k]),
    )
}

proof fn lemma_entry_at(s: Seq<BlockEntry>, i: int)
    requires
        entries_sorted(s),
        0 <= i < s.len(),
    ensures
        entry_map(s).contains_key(s[i].inode.0),
        entry_map(s)[s[i].inode.0] == entry_view(s[i]),
{
    let k = s[i].inode.0;
    let j = choose|j: int| 0 <= j < s.len() && s[j].inode.0 == k;
    if j != i {
        if j < i {
            assert(s[j].inode.0 < s[i].inode.0);
        } else {
            assert(s[i].inode.0 < s[j].inode.0);
        }
    }
}

proof fn lemma_blob_at(s: Seq<BlobRecord>, i: int)
    requires
        blobs_sorted(s),
        0 <= i < s.len(),
    ensures
        blob_map(s).contains_key(s[i].checksum),
        blob_map(s)[s[i].checksum] == blob_view(s[i]),
{
    let k = s[i].checksum;
    let j = choose|j: int| 0 <= j < s.len() && s[j].checksum == k;
    if j != i {
        if j < i {
            assert(s[j].checksum < s[i].checksum);
        } else {
            assert(s[i].checksum < s[j].checksum);
        }
    }
}

/// Device blocks needed for `size` bytes: at least one.
pub open spec fn required_blocks_spec(size: int, block_size: int) -> int {
    if size == 0 {
        1
    } else {
        (size + block_size - 1) / block_size
    }
}

fn required_blocks(size: usize, block_size: usize) -> (r: u64)
    requires
        block_size >= 1,
    ensures
        r == required_blocks_spec(size as int, block_size as int),
        r >= 1,
{
    if size == 0 {
        1
    } else {
        let q = size / block_size;
        proof {
            assert(size % block_size != 0 ==> q < size) by (nonlinear_arith)
                requires q == size / block_size, block_size >= 1, size >= 1;
            assert(size % block_size == 0 ==> q >= 1) by (nonlinear_arith)
                requires q == size / block_size, block_size >= 1, size >= 1;
        }
        let r = if size % block_size == 0 { q } else { q + 1 };
        proof {
            let si = size as int;
            let bi = block_size as int;
            assert(r as int == (si + bi - 1) / bi) by (nonlinear_arith)
                requires
                    bi >= 1,
                    si >= 1,
                    q as int == si / bi,
                    r as int == if si % bi == 0 { q as int } else { q + 1 };
        }
        r as u64
    }
}

/// `a + b`, or `u64::MAX` when that overflows.
pub open spec fn sat_add(a: u64, b: u64) -> u64 {
    if a + b > u64::MAX { u64::MAX } else { (a + b) as u64 }
}

/// In-memory block store.
#[derive(Debug)]
pub struct BlockStore {
    block_size: usize,
    next_device_block: u64,
    policy: AllocatorPolicy,
    free_extents: Vec<FreeExtentRecord>,
    blocks: Vec<BlockEntry>,
    blobs: Vec<BlobRecord>,
    pending_trims: Vec<FreedExtent>,
}

impl BlockStore {
    /// Stored inodes: inode number to entry.
    pub closed spec fn spec_blocks(&self) -> Map<u64, EntryView> {
        entry_map(self.blocks@)
    }

    /// Stored inode numbers in increasing order.
    pub closed spec fn spec_inodes(&self) -> Seq<u64> {
        self.blocks@.map_values(|e: BlockEntry| e.inode.0)
    }

    /// Blobs: checksum to bytes and reference count.
    pub closed spec fn spec_blobs(&self) -> Map<u64, BlobView> {
        blob_map(self.blobs@)
    }

    /// Blob checksums in increasing order.
    pub closed spec fn spec_blob_keys(&self) -> Seq<u64> {
        self.blobs@.map_values(|b: BlobRecord| b.checksum)
    }

    /// Allocation granularity in bytes.
    pub closed spec fn spec_block_size(&self) -> usize {
        self.block_size
    }

    /// First device block never handed out.
    pub closed spec fn spec_next_block(&self) -> u64 {
        self.next_device_block
    }

    /// Allocator policy.
    pub closed spec fn spec_policy(&self) -> AllocatorPolicy {
        self.policy
    }

    /// Free extents, in the allocator's order.
    pub closed spec fn spec_free(&self) -> Seq<FreeExtentRecord> {
        self.free_extents@
    }

    /// Extents freed and not yet drained.
    pub closed spec fn spec_trims(&self) -> Seq<FreedExtent> {
        self.pending_trims@
    }

    /// Structural invariant: keys sorted and unique, each blob stored
    /// under its own checksum, blocks of at least one byte.
    pub closed spec fn wf(&self) -> bool {
        &&& self.block_size >= 1
        &&& entries_sorted(self.blocks@)
        &&& blobs_sorted(self.blobs@)
    }

    /// Every entry refers to a stored blob, and every blob's reference
    /// count is the number of entries that refer to it (and at least one).
    pub open spec fn consistent(&self) -> bool {
        refs_consistent(self@)
    }

    /// Facts of the invariant.
    pub proof fn lemma_wf(&self)
        requires
            self.wf(),
        ensures
            self.spec_block_size() >= 1,
            self.spec_inodes().no_duplicates(),
            self.spec_blocks().dom() == self.spec_inodes().to_set(),
            self.spec_blocks().dom().finite(),
            self.spec_blocks().dom().len() == self.spec_inodes().len(),
            forall|i: int, j: int| 0 <= i < j < self.spec_inodes().len() ==> self.spec_inodes()[i] < self.spec_inodes()[j],
            self.spec_blobs().dom().finite(),
            self.spec_blobs().dom().len() == self.spec_blob_keys().len(),
            self.spec_blobs().dom() == self.spec_blob_keys().to_set(),
    {
        let ks = self.spec_inodes();
        assert forall|i: int, j: int| 0 <= i < j < ks.len() implies ks[i] < ks[j] by {
            assert(self.blocks@[i].inode.0 < self.blocks@[j].inode.0);
        }
        assert(ks.no_duplicates());
        assert(self.spec_blocks().dom() =~= ks.to_set()) by {
            assert forall|k: u64| self.spec_blocks().dom().contains(k) implies ks.to_set().contains(k) by {
                let i = choose|i: int| 0 <= i < self.blocks@.len() && self.blocks@[i].inode.0 == k;
                assert(ks[i] == k);
            }
            assert forall|k: u64| ks.to_set().contains(k) implies self.spec_blocks().dom().contains(k) by {
                let i = choose|i: int| 0 <= i < ks.len() && ks[i] == k;
                assert(self.blocks@[i].inode.0 == k);
            }
        }
        ks.unique_seq_to_set();
        let bs = self.spec_blob_keys();
        assert forall|i: int, j: int| 0 <= i < j < bs.len() implies bs[i] < bs[j] by {
            assert(self.blobs@[i].checksum < self.blobs@[j].checksum);
        }
        assert(bs.no_duplicates());
        assert(self.spec_blobs().dom() =~= bs.to_set()) by {
            assert forall|k: u64| self.spec_blobs().dom().contains(k) implies bs.to_set().contains(k) by {
                let i = choose|i: int| 0 <= i < self.blobs@.len() && self.blobs@[i].checksum == k;
                assert(bs[i] == k);
            }
            assert forall|k: u64| bs.to_set().contains(k) implies self.spec_blobs().dom().contains(k) by {
                let i = choose|i: int| 0 <= i < bs.len() && bs[i] == k;
                assert(self.blobs@[i].checksum == k);
            }
        }
        bs.unique_seq_to_set();
    }
}

/// Number of entries of `blocks` that refer to blob `c`.
pub open spec fn ref_count_of(blocks: Map<u64, EntryView>, c: u64) -> nat {
    blocks.dom().filter(|k: u64| blocks[k].blob == c).len()
}

/// `a - b`, or 0 when that is negative.
pub open spec fn sat_sub(a: u64, b: u64) -> u64 {
    if a < b { 0 } else { (a - b) as u64 }
}

/// `s` sorted by start block with `x` inserted after every extent that
/// starts at or before it (so equal starts keep their order).
pub open spec fn insert_sorted(s: Seq<FreeExtentRecord>, x: FreeExtentRecord) -> Seq<FreeExtentRecord>
    decreases s.len(),
{
    if s.len() == 0 {
        seq![x]
    } else if s.last().device_block <= x.device_block {
        s.push(x)
    } else {
        insert_sorted(s.drop_last(), x).push(s.last())
    }
}

/// Stable sort of `s` by start block.
pub open spec fn sort_by_start(s: Seq<FreeExtentRecord>) -> Seq<FreeExtentRecord>
    decreases s.len(),
{
    if s.len() == 0 {
        s
    } else {
        insert_sorted(sort_by_start(s.drop_last()), s.last())
    }
}

/// Coalescing pass over extents sorted by start: an extent that starts at
/// or before the end of the previous result is merged into it, the merged
/// extent ending where the later one ends.
pub open spec fn merge_touching(s: Seq<FreeExtentRecord>) -> Seq<FreeExtentRecord>
    decreases s.len(),
{
    if s.len() == 0 {
        s
    } else {
        let m = merge_touching(s.drop_last());
        let x = s.last();
        if m.len() > 0 && sat_add(m.last().device_block, m.last().allocated_blocks) >= x.device_block {
            m.update(m.len() - 1, FreeExtentRecord {
                device_block: m.last().device_block,
                allocated_blocks: sat_sub(sat_add(x.device_block, x.allocated_blocks), m.last().device_block),
            })
        } else {
            m.push(x)
        }
    }
}

/// Drop trailing extents that end exactly at the allocation frontier,
/// moving the frontier back to their start.
pub open spec fn trim_tail(s: Seq<FreeExtentRecord>, next: u64) -> (Seq<FreeExtentRecord>, u64)
    decreases s.len(),
{
    if s.len() == 0 {
        (s, next)
    } else if sat_add(s.last().device_block, s.last().allocated_blocks) != next {
        (s, next)
    } else {
        trim_tail(s.drop_last(), s.last().device_block)
    }
}

/// Free list and frontier after tidying `s` under `policy`: coalesce (with
/// optional tail trim) or sort (with optional tail trim).
pub open spec fn tidy_free(s: Seq<FreeExtentRecord>, next: u64, policy: AllocatorPolicy) -> (Seq<FreeExtentRecord>, u64) {
    let sorted = sort_by_start(s);
    let base = if policy.coalesce_on_release { merge_touching(sorted) } else { sorted };
    if policy.tail_trim_enabled { trim_tail(base, next) } else { (base, next) }
}

/// Free list and frontier after returning `x` to the free list.
pub open spec fn after_insert_free(s: Seq<FreeExtentRecord>, next: u64, policy: AllocatorPolicy, x: FreeExtentRecord)
    -> (Seq<FreeExtentRecord>, u64) {
    if x.allocated_blocks == 0 { (s, next) } else { tidy_free(s.push(x), next, policy) }
}

/// Insert `x` into `v`, kept sorted by start, after equal starts.
fn insert_free_sorted(v: &mut Vec<FreeExtentRecord>, x: FreeExtentRecord)
    ensures
        final(v)@ == insert_sorted(old(v)@, x),
    decreases old(v)@.len(),
{
    if v.len() == 0 {
        v.push(x);
        proof {
            assert(v@ =~= seq![x]);
        }
        return;
    }
    let last = v[v.len() - 1];
    if last.device_block <= x.device_block {
        v.push(x);
        return;
    }
    let ghost s = v@;
    let l = v.pop().unwrap();
    proof {
        assert(v@ == s.drop_last());
    }
    insert_free_sorted(v, x);
    v.push(l);
}

/// Stable sort by start block.
pub(crate) fn sort_free(v: Vec<FreeExtentRecord>) -> (r: Vec<FreeExtentRecord>)
    ensures
        r@ == sort_by_start(v@),
{
    let mut out: Vec<FreeExtentRecord> = Vec::new();
    let mut i: usize = 0;
    while i < v.len()
        invariant
            i <= v@.len(),
            out@ == sort_by_start(v@.subrange(0, i as int)),
        decreases v@.len() - i,
    {
        proof {
            assert(v@.subrange(0, i as int + 1).drop_last() =~= v@.subrange(0, i as int));
        }
        insert_free_sorted(&mut out, v[i]);
        i = i + 1;
    }
    proof {
        assert(v@.subrange(0, i as int) =~= v@);
    }
    out
}

/// Coalescing pass over a sorted free list.
fn merge_free(v: &Vec<FreeExtentRecord>) -> (r: Vec<FreeExtentRecord>)
    ensures
        r@ == merge_touching(v@),
{
    let mut merged: Vec<FreeExtentRecord> = Vec::new();
    let mut i: usize = 0;
    while i < v.len()
        invariant
            i <= v@.len(),
            merged@ == merge_touching(v@.subrange(0, i as int)),
        decreases v@.len() - i,
    {
        proof {
            assert(v@.subrange(0, i as int + 1).drop_last() =~= v@.subrange(0, i as int));
        }
        let x = v[i];
        let n = merged.len();
        if n > 0 && merged[n - 1].device_block.saturating_add(merged[n - 1].allocated_blocks) >= x.device_block {
            let last = merged[n - 1];
            let end = x.device_block.saturating_add(x.allocated_blocks);
            merged.set(n - 1, FreeExtentRecord {
                device_block: last.device_block,
                allocated_blocks: end.saturating_sub(last.device_block),
            });
        } else {
            merged.push(x);
        }
        i = i + 1;
    }
    proof {
        assert(v@.subrange(0, i as int) =~= v@);
    }
    merged
}

/// Drop trailing extents that end at the frontier `next`.
fn trim_tail_exec(v: &mut Vec<FreeExtentRecord>, next: &mut u64)
    ensures
        (final(v)@, *final(next)) == trim_tail(old(v)@, *old(next)),
{
    while v.len() > 0
        invariant_except_break
            trim_tail(v@, *next) == trim_tail(old(v)@, *old(next)),
        ensures
            (v@, *next) == trim_tail(old(v)@, *old(next)),
        decreases v@.len(),
    {
        let last = v[v.len() - 1];
        if last.device_block.saturating_add(last.allocated_blocks) != *next {
            break;
        }
        *next = last.device_block;
        let ghost s = v@;
        v.pop();
        proof {
            assert(v@ == s.drop_last());
        }
    }
}

/// Tidy the free list under `policy` (see [`tidy_free`]).
fn tidy_free_exec(v: &mut Vec<FreeExtentRecord>, next: &mut u64, policy: &AllocatorPolicy)
    ensures
        (final(v)@, *final(next)) == tidy_free(old(v)@, *old(next), *policy),
{
    let sorted = sort_free(v.clone());
    proof {
        assert(v@ == old(v)@);
    }
    let mut base = if policy.coalesce_on_release { merge_free(&sorted) } else { sorted };
    if policy.tail_trim_enabled {
        trim_tail_exec(&mut base, next);
    }
    *v = base;
}

/// Return `x` to the free list (ignored when empty) and tidy it.
fn insert_free_exec(v: &mut Vec<FreeExtentRecord>, next: &mut u64, policy: &AllocatorPolicy, x: FreeExtentRecord)
    ensures
        (final(v)@, *final(next)) == after_insert_free(old(v)@, *old(next), *policy, x),
{
    if x.allocated_blocks == 0 {
        return;
    }
    v.push(x);
    tidy_free_exec(v, next, policy);
}

/// Extent `i` of `s` can hold `req` blocks.
pub open spec fn fits(s: Seq<FreeExtentRecord>, i: int, req: u64) -> bool {
    s[i].allocated_blocks >= req
}

/// The free extent that `strategy` picks for `req` blocks, if any.
pub open spec fn pick_index(s: Seq<FreeExtentRecord>, req: u64, strategy: AllocationStrategy) -> Option<int> {
    match strategy {
        AllocationStrategy::FirstFit => if exists|i: int| 0 <= i < s.len() && fits(s, i, req) {
            Some(choose|i: int| 0 <= i < s.len() && fits(s, i, req) && forall|j: int| 0 <= j < i ==> !fits(s, j, req))
        } else {
            None
        },
        AllocationStrategy::BestFit => if exists|i: int| 0 <= i < s.len() && fits(s, i, req) {
            Some(choose|i: int| 0 <= i < s.len() && fits(s, i, req)
                && (forall|j: int| 0 <= j < s.len() && fits(s, j, req) ==> s[i].allocated_blocks <= s[j].allocated_blocks)
                && (forall|j: int| 0 <= j < i && fits(s, j, req) ==> s[i].allocated_blocks < s[j].allocated_blocks))
        } else {
            None
        },
    }
}

/// Result of allocating `req` blocks: the extent handed out, the free
/// list and the frontier afterwards.
pub open spec fn allocation(s: Seq<FreeExtentRecord>, next: u64, policy: AllocatorPolicy, req: u64)
    -> ((u64, u64), Seq<FreeExtentRecord>, u64) {
    match pick_index(s, req, policy.strategy) {
        Some(i) => {
            let e = s[i];
            let rest = s.remove(i);
            let remainder = sat_sub(e.allocated_blocks, req);
            let threshold = if policy.split_threshold_blocks > 1 { policy.split_threshold_blocks } else { 1 };
            if remainder >= threshold {
                let t = after_insert_free(rest, next, policy, FreeExtentRecord {
                    device_block: sat_add(e.device_block, req),
                    allocated_blocks: remainder,
                });
                ((e.device_block, req), t.0, t.1)
            } else {
                ((e.device_block, e.allocated_blocks), rest, next)
            }
        },
        None => ((next, req), s, sat_add(next, req)),
    }
}

/// Best fit takes the smallest free extent that holds the request (the
/// first of equal size): with the best-fit strategy, where some free
/// extent holds `req` blocks, the extent handed out starts at a free
/// extent that holds them, is no larger than any other that does, and is
/// smaller than every one before it that does.
pub proof fn lemma_best_fit_takes_smallest(s: Seq<FreeExtentRecord>, next: u64, policy: AllocatorPolicy, req: u64)
    requires
        policy.strategy == AllocationStrategy::BestFit,
        exists|i: int| 0 <= i < s.len() && s[i].allocated_blocks >= req,
    ensures
        exists|i: int| 0 <= i < s.len() && s[i].allocated_blocks >= req
            && allocation(s, next, policy, req).0.0 == s[i].device_block
            && (forall|j: int| 0 <= j < s.len() && s[j].allocated_blocks >= req ==> s[i].allocated_blocks <= s[j].allocated_blocks)
            && (forall|j: int| 0 <= j < i && s[j].allocated_blocks >= req ==> s[i].allocated_blocks < s[j].allocated_blocks),
{
    let w = choose|i: int| 0 <= i < s.len() && s[i].allocated_blocks >= req;
    assert(fits(s, w, req));
    lemma_best_fit_exists(s, req, w);
    let i = pick_index(s, req, policy.strategy)->Some_0;
    assert(0 <= i < s.len() && fits(s, i, req)
        && (forall|j: int| 0 <= j < s.len() && fits(s, j, req) ==> s[i].allocated_blocks <= s[j].allocated_blocks)
        && (forall|j: int| 0 <= j < i && fits(s, j, req) ==> s[i].allocated_blocks < s[j].allocated_blocks));
    assert(allocation(s, next, policy, req).0.0 == s[i].device_block);
    assert forall|j: int| 0 <= j < s.len() && s[j].allocated_blocks >= req implies s[i].allocated_blocks <= s[j].allocated_blocks by {
        assert(fits(s, j, req));
    }
    assert forall|j: int| 0 <= j < i && s[j].allocated_blocks >= req implies s[i].allocated_blocks < s[j].allocated_blocks by {
        assert(fits(s, j, req));
    }
}

/// First fit takes the first free extent that holds the request.
pub proof fn lemma_first_fit_takes_first(s: Seq<FreeExtentRecord>, next: u64, policy: AllocatorPolicy, req: u64)
    requires
        policy.strategy == AllocationStrategy::FirstFit,
        exists|i: int| 0 <= i < s.len() && s[i].allocated_blocks >= req,
    ensures
        exists|i: int| 0 <= i < s.len() && s[i].allocated_blocks >= req
            && allocation(s, next, policy, req).0.0 == s[i].device_block
            && (forall|j: int| 0 <= j < i ==> s[j].allocated_blocks < req),
{
    let w = choose|i: int| 0 <= i < s.len() && s[i].allocated_blocks >= req;
    assert(fits(s, w, req));
    let m = lemma_first_fit_index(s, req, w, 0);
    assert(exists|k: int| 0 <= k < s.len() && fits(s, k, req) && forall|j: int| 0 <= j < k ==> !fits(s, j, req)) by {
        assert(0 <= m < s.len() && fits(s, m, req) && forall|j: int| 0 <= j < m ==> !fits(s, j, req));
    }
    let i = pick_index(s, req, policy.strategy)->Some_0;
    assert(0 <= i < s.len() && fits(s, i, req) && forall|j: int| 0 <= j < i ==> !fits(s, j, req));
    assert(allocation(s, next, policy, req).0.0 == s[i].device_block);
    assert forall|j: int| 0 <= j < i implies s[j].allocated_blocks < req by {
        assert(!fits(s, j, req));
    }
}

/// The first fitting extent at or after `from`, given that none before
/// `from` fits and `w` does.
proof fn lemma_first_fit_index(s: Seq<FreeExtentRecord>, req: u64, w: int, from: int) -> (m: int)
    requires
        0 <= from <= w < s.len(),
        fits(s, w, req),
        forall|j: int| 0 <= j < from ==> !fits(s, j, req),
    ensures
        0 <= m < s.len(),
        fits(s, m, req),
        forall|j: int| 0 <= j < m ==> !fits(s, j, req),
    decreases w - from,
{
    if fits(s, from, req) {
        from
    } else {
        lemma_first_fit_index(s, req, w, from + 1)
    }
}

proof fn lemma_best_fit_exists(s: Seq<FreeExtentRecord>, req: u64, w: int)
    requires
        0 <= w < s.len(),
        fits(s, w, req),
    ensures
        exists|i: int| 0 <= i < s.len() && fits(s, i, req)
            && (forall|j: int| 0 <= j < s.len() && fits(s, j, req) ==> s[i].allocated_blocks <= s[j].allocated_blocks)
            && (forall|j: int| 0 <= j < i && fits(s, j, req) ==> s[i].allocated_blocks < s[j].allocated_blocks),
    decreases s.len(),
{
    let m = lemma_min_fit_prefix(s, req, w, s.len() as int);
    assert(0 <= m < s.len() && fits(s, m, req));
}

/// The first fitting extent of least size among the first `n` (which
/// include `w`).
proof fn lemma_min_fit_prefix(s: Seq<FreeExtentRecord>, req: u64, w: int, n: int) -> (m: int)
    requires
        0 <= w < n <= s.len(),
        fits(s, w, req),
    ensures
        0 <= m < n,
        fits(s, m, req),
        forall|j: int| 0 <= j < n && fits(s, j, req) ==> s[m].allocated_blocks <= s[j].allocated_blocks,
        forall|j: int| 0 <= j < m && fits(s, j, req) ==> s[m].allocated_blocks < s[j].allocated_blocks,
    decreases n,
{
    if n == w + 1 {
        if exists|k: int| 0 <= k < w && fits(s, k, req) {
            let k = choose|k: int| 0 <= k < w && fits(s, k, req);
            let m0 = lemma_min_fit_prefix(s, req, k, w);
            if s[w].allocated_blocks < s[m0].allocated_blocks { w } else { m0 }
        } else {
            w
        }
    } else {
        let m0 = lemma_min_fit_prefix(s, req, w, n - 1);
        if fits(s, n - 1, req) && s[n - 1].allocated_blocks < s[m0].allocated_blocks { n - 1 } else { m0 }
    }
}

/// A write of data to an inode that holds none takes, under best fit, the
/// smallest free extent that holds its blocks (the first of equal size),
/// where one does.
pub proof fn lemma_write_best_fit(v: StoreView, id: u64, bytes: Seq<u8>)
    requires
        v.policy.strategy == AllocationStrategy::BestFit,
        !v.blocks.contains_key(id),
        exists|i: int| 0 <= i < v.free.len()
            && v.free[i].allocated_blocks >= required_blocks_spec(bytes.len() as int, v.block_size as int) as u64,
    ensures
        write_spec(v, id, bytes).blocks.contains_key(id),
        exists|i: int| 0 <= i < v.free.len()
            && v.free[i].allocated_blocks >= required_blocks_spec(bytes.len() as int, v.block_size as int) as u64
            && write_spec(v, id, bytes).blocks[id].device_block == v.free[i].device_block
            && (forall|j: int| 0 <= j < v.free.len()
                && v.free[j].allocated_blocks >= required_blocks_spec(bytes.len() as int, v.block_size as int) as u64
                ==> v.free[i].allocated_blocks <= v.free[j].allocated_blocks),
{
    let req = required_blocks_spec(bytes.len() as int, v.block_size as int) as u64;
    assert(release_inode_spec(v, id) == v);
    lemma_best_fit_takes_smallest(v.free, v.next, v.policy, req);
    lemma_write_shape(v, id, bytes);
}

fn first_fit(v: &Vec<FreeExtentRecord>, req: u64) -> (r: Option<usize>)
    ensures
        r is None <==> pick_index(v@, req, AllocationStrategy::FirstFit) is None,
        r matches Some(i) ==> i < v@.len() && pick_index(v@, req, AllocationStrategy::FirstFit) == Some(i as int),
{
    let mut i: usize = 0;
    while i < v.len()
        invariant
            i <= v@.len(),
            forall|j: int| 0 <= j < i ==> !fits(v@, j, req),
        decreases v@.len() - i,
    {
        if v[i].allocated_blocks >= req {
            proof {
                let c = choose|k: int| 0 <= k < v@.len() && fits(v@, k, req) && forall|j: int| 0 <= j < k ==> !fits(v@, j, req);
                assert(fits(v@, i as int, req));
                assert(c == i) by {
                    if c < i {
                        assert(!fits(v@, c, req));
                    } else if c > i {
                        assert(!fits(v@, i as int, req));
                    }
                }
            }
            return Some(i);
        }
        i = i + 1;
    }
    None
}

fn best_fit(v: &Vec<FreeExtentRecord>, req: u64) -> (r: Option<usize>)
    ensures
        r is None <==> pick_index(v@, req, AllocationStrategy::BestFit) is None,
        r matches Some(i) ==> i < v@.len() && pick_index(v@, req, AllocationStrategy::BestFit) == Some(i as int),
{
    let mut best: Option<usize> = None;
    let mut i: usize = 0;
    while i < v.len()
        invariant
            i <= v@.len(),
            best is None ==> forall|j: int| 0 <= j < i ==> !fits(v@, j, req),
            best matches Some(b) ==> b < i && fits(v@, b as int, req)
                && (forall|j: int| 0 <= j < i && fits(v@, j, req) ==> v@[b as int].allocated_blocks <= v@[j].allocated_blocks)
                && (forall|j: int| 0 <= j < b && fits(v@, j, req) ==> v@[b as int].allocated_blocks < v@[j].allocated_blocks),
        decreases v@.len() - i,
    {
        if v[i].allocated_blocks >= req {
            match best {
                None => {
                    best = Some(i);
                },
                Some(b) => {
                    if v[i].allocated_blocks < v[b].allocated_blocks {
                        best = Some(i);
                    }
                },
            }
        }
        i = i + 1;
    }
    proof {
        match best {
            None => {},
            Some(b) => {
                let bi = b as int;
                let c = choose|k: int| 0 <= k < v@.len() && fits(v@, k, req)
                    && (forall|j: int| 0 <= j < v@.len() && fits(v@, j, req) ==> v@[k].allocated_blocks <= v@[j].allocated_blocks)
                    && (forall|j: int| 0 <= j < k && fits(v@, j, req) ==> v@[k].allocated_blocks < v@[j].allocated_blocks);
                assert(exists|k: int| 0 <= k < v@.len() && fits(v@, k, req)
                    && (forall|j: int| 0 <= j < v@.len() && fits(v@, j, req) ==> v@[k].allocated_blocks <= v@[j].allocated_blocks)
                    && (forall|j: int| 0 <= j < k && fits(v@, j, req) ==> v@[k].allocated_blocks < v@[j].allocated_blocks));
                assert(c == bi) by {
                    if c < bi {
                        assert(v@[bi].allocated_blocks < v@[c].allocated_blocks);
                        assert(v@[c].allocated_blocks <= v@[bi].allocated_blocks);
                    } else if c > bi {
                        assert(v@[c].allocated_blocks < v@[bi].allocated_blocks);
                        assert(v@[bi].allocated_blocks <= v@[c].allocated_blocks);
                    }
                }
            },
        }
    }
    best
}

/// Index of the free extent that `strategy` picks for `req` blocks.
fn pick_free(v: &Vec<FreeExtentRecord>, req: u64, strategy: AllocationStrategy) -> (r: Option<usize>)
    ensures
        r is None <==> pick_index(v@, req, strategy) is None,
        r matches Some(i) ==> i < v@.len() && pick_index(v@, req, strategy) == Some(i as int),
{
    match strategy {
        AllocationStrategy::FirstFit => first_fit(v, req),
        AllocationStrategy::BestFit => best_fit(v, req),
    }
}

/// Allocate `req` blocks from the free list or the frontier.
fn allocate_exec(v: &mut Vec<FreeExtentRecord>, next: &mut u64, policy: &AllocatorPolicy, req: u64) -> (r: (u64, u64))
    ensures
        (r, final(v)@, *final(next)) == allocation(old(v)@, *old(next), *policy, req),
{
    match pick_free(v, req, policy.strategy) {
        Some(i) => {
            let ghost s = v@;
            let e = v.remove(i);
            let remainder = e.allocated_blocks.saturating_sub(req);
            let threshold = if policy.split_threshold_blocks > 1 { policy.split_threshold_blocks } else { 1 };
            if remainder >= threshold {
                insert_free_exec(v, next, policy, FreeExtentRecord {
                    device_block: e.device_block.saturating_add(req),
                    allocated_blocks: remainder,
                });
                (e.device_block, req)
            } else {
                (e.device_block, e.allocated_blocks)
            }
        },
        None => {
            let b = *next;
            *next = next.saturating_add(req);
            (b, req)
        },
    }
}

impl BlockStore {
    fn find_entry(&self, id: u64) -> (r: Option<usize>)
        requires
            self.wf(),
        ensures
            r is None <==> !self.spec_blocks().contains_key(id),
            r matches Some(i) ==> i < self.blocks@.len() && self.blocks@[i as int].inode.0 == id
                && self.spec_blocks()[id] == entry_view(self.blocks@[i as int]),
    {
        let mut i: usize = 0;
        while i < self.blocks.len()
            invariant
                self.wf(),
                i <= self.blocks@.len(),
                forall|j: int| 0 <= j < i ==> (#[trigger] self.blocks@[j]).inode.0 != id,
            decreases self.blocks@.len() - i,
        {
            if self.blocks[i].inode.0 == id {
                proof {
                    lemma_entry_at(self.blocks@, i as int);
                }
                return Some(i);
            }
            i = i + 1;
        }
        None
    }

    fn find_blob(&self, cs: u64) -> (r: Option<usize>)
        requires
            self.wf(),
        ensures
            r is None <==> !self.spec_blobs().contains_key(cs),
            r matches Some(i) ==> i < self.blobs@.len() && self.blobs@[i as int].checksum == cs
                && self.spec_blobs()[cs] == blob_view(self.blobs@[i as int]),
    {
        let mut i: usize = 0;
        while i < self.blobs.len()
            invariant
                self.wf(),
                i <= self.blobs@.len(),
                forall|j: int| 0 <= j < i ==> (#[trigger] self.blobs@[j]).checksum != cs,
            decreases self.blobs@.len() - i,
        {
            if self.blobs[i].checksum == cs {
                proof {
                    lemma_blob_at(self.blobs@, i as int);
                }
                return Some(i);
            }
            i = i + 1;
        }
        None
    }

    /// Store `e` under its inode, replacing an earlier entry.
    fn put_entry(&mut self, e: BlockEntry)
        requires
            old(self).wf(),
        ensures
            final(self).wf(),
            final(self).spec_blocks() == old(self).spec_blocks().insert(e.inode.0, entry_view(e)),
            final(self).blobs == old(self).blobs,
            final(self).free_extents == old(self).free_extents,
            final(self).next_device_block == old(self).next_device_block,
            final(self).policy == old(self).policy,
            final(self).pending_trims == old(self).pending_trims,
            final(self).block_size == old(self).block_size,
    {
        let id = e.inode.0;
        let ghost s = self.blocks@;
        let mut p: usize = 0;
        while p < self.blocks.len() && self.blocks[p].inode.0 < id
            invariant
                self.blocks@ == s,
                p <= s.len(),
                forall|j: int| 0 <= j < p ==> (#[trigger] s[j]).inode.0 < id,
            decreases s.len() - p,
        {
            p = p + 1;
        }
        if p < self.blocks.len() && self.blocks[p].inode.0 == id {
            self.blocks.set(p, e);
            proof {
                let t = self.blocks@;
                assert(entries_sorted(t)) by {
                    assert forall|i: int, j: int| 0 <= i < j < t.len() implies (#[trigger] t[i]).inode.0 < (#[trigger] t[j]).inode.0 by {
                        assert(s[i].inode.0 < s[j].inode.0);
                    }
                }
                let m = old(self).spec_blocks().insert(id, entry_view(e));
                assert forall|k: u64| #[trigger] entry_map(t).contains_key(k) <==> m.contains_key(k) by {
                    if m.contains_key(k) && k != id {
                        let i = choose|i: int| 0 <= i < s.len() && s[i].inode.0 == k;
                        assert(t[i].inode.0 == k);
                    }
                    if k == id {
                        assert(t[p as int].inode.0 == k);
                    }
                    if entry_map(t).contains_key(k) && k != id {
                        let i = choose|i: int| 0 <= i < t.len() && t[i].inode.0 == k;
                        assert(s[i].inode.0 == k);
                    }
                }
                assert forall|k: u64| entry_map(t).contains_key(k) implies entry_map(t)[k] == m[k] by {
                    let i = choose|i: int| 0 <= i < t.len() && t[i].inode.0 == k;
                    lemma_entry_at(t, i);
                    if k != id {
                        assert(i != p);
                        lemma_entry_at(s, i);
                    } else {
                        lemma_entry_at(t, p as int);
                    }
                }
                assert(entry_map(t) =~= m);
            }
        } else {
            self.blocks.insert(p, e);
            proof {
                let t = self.blocks@;
                assert(forall|j: int| p <= j < s.len() ==> (#[trigger] s[j]).inode.0 > id) by {
                    assert forall|j: int| p <= j < s.len() implies (#[trigger] s[j]).inode.0 > id by {
                        if p < s.len() {
                            assert(s[p as int].inode.0 >= id);
                            assert(s[p as int].inode.0 != id);
                            if j > p {
                                assert(s[p as int].inode.0 < s[j].inode.0);
                            }
                        }
                    }
                }
                assert(forall|j: int| 0 <= j < t.len() ==> #[trigger] t[j] == if j < p { s[j] } else if j == p { e } else { s[j - 1] });
                assert(entries_sorted(t)) by {
                    assert forall|i: int, j: int| 0 <= i < j < t.len() implies (#[trigger] t[i]).inode.0 < (#[trigger] t[j]).inode.0 by {
                        if j < p {
                            assert(s[i].inode.0 < s[j].inode.0);
                        } else if i > p {
                            assert(s[i - 1].inode.0 < s[j - 1].inode.0);
                        }
                    }
                }
                let m = old(self).spec_blocks().insert(id, entry_view(e));
                assert forall|k: u64| #[trigger] entry_map(t).contains_key(k) <==> m.contains_key(k) by {
                    if m.contains_key(k) && k != id {
                        let i = choose|i: int| 0 <= i < s.len() && s[i].inode.0 == k;
                        if i < p {
                            assert(t[i].inode.0 == k);
                        } else {
                            assert(t[i + 1].inode.0 == k);
                        }
                    }
                    if k == id {
                        assert(t[p as int].inode.0 == k);
                    }
                    if entry_map(t).contains_key(k) && k != id {
                        let i = choose|i: int| 0 <= i < t.len() && t[i].inode.0 == k;
                        if i < p {
                            assert(s[i].inode.0 == k);
                        } else {
                            assert(s[i - 1].inode.0 == k);
                        }
                    }
                }
                assert forall|k: u64| entry_map(t).contains_key(k) implies entry_map(t)[k] == m[k] by {
                    let i = choose|i: int| 0 <= i < t.len() && t[i].inode.0 == k;
                    lemma_entry_at(t, i);
                    if k != id {
                        if i < p {
                            lemma_entry_at(s, i);
                        } else {
                            lemma_entry_at(s, i - 1);
                        }
                    } else {
                        lemma_entry_at(t, p as int);
                    }
                }
                assert(entry_map(t) =~= m);
            }
        }
    }

    /// Remove and return the entry of `id`.
    fn take_entry(&mut self, id: u64) -> (r: Option<BlockEntry>)
        requires
            old(self).wf(),
        ensures
            final(self).wf(),
            final(self).spec_blocks() == old(self).spec_blocks().remove(id),
            r is None <==> !old(self).spec_blocks().contains_key(id),
            r matches Some(e) ==> e.inode.0 == id && entry_view(e) == old(self).spec_blocks()[id],
            final(self).blobs == old(self).blobs,
            final(self).free_extents == old(self).free_extents,
            final(self).next_device_block == old(self).next_device_block,
            final(self).policy == old(self).policy,
            final(self).pending_trims == old(self).pending_trims,
            final(self).block_size == old(self).block_size,
    {
        match self.find_entry(id) {
            None => {
                proof {
                    assert(self.spec_blocks() =~= old(self).spec_blocks().remove(id));
                }
                None
            },
            Some(p) => {
                let ghost s = self.blocks@;
                let e = self.blocks.remove(p);
                proof {
                    let t = self.blocks@;
                    assert(forall|j: int| 0 <= j < t.len() ==> #[trigger] t[j] == if j < p { s[j] } else { s[j + 1] });
                    assert(entries_sorted(t)) by {
                        assert forall|i: int, j: int| 0 <= i < j < t.len() implies (#[trigger] t[i]).inode.0 < (#[trigger] t[j]).inode.0 by {
                            let oi = if i < p { i } else { i + 1 };
                            let oj = if j < p { j } else { j + 1 };
                            assert(s[oi].inode.0 < s[oj].inode.0);
                        }
                    }
                    let m = old(self).spec_blocks().remove(id);
                    assert forall|k: u64| #[trigger] entry_map(t).contains_key(k) <==> m.contains_key(k) by {
                        if m.contains_key(k) {
                            let i = choose|i: int| 0 <= i < s.len() && s[i].inode.0 == k;
                            assert(i != p);
                            if i < p {
                                assert(t[i].inode.0 == k);
                            } else {
                                assert(t[i - 1].inode.0 == k);
                            }
                        }
                        if entry_map(t).contains_key(k) {
                            let i = choose|i: int| 0 <= i < t.len() && t[i].inode.0 == k;
                            let oi = if i < p { i } else { i + 1 };
                            assert(s[oi].inode.0 == k);
                            assert(oi != p as int);
                            if k == id {
                                if oi < p {
                                    assert(s[oi].inode.0 < s[p as int].inode.0);
                                } else {
                                    assert(s[p as int].inode.0 < s[oi].inode.0);
                                }
                            }
                        }
                    }
                    assert forall|k: u64| entry_map(t).contains_key(k) implies entry_map(t)[k] == m[k] by {
                        let i = choose|i: int| 0 <= i < t.len() && t[i].inode.0 == k;
                        lemma_entry_at(t, i);
                        let oi = if i < p { i } else { i + 1 };
                        lemma_entry_at(s, oi);
                    }
                    assert(entry_map(t) =~= m);
                }
                Some(e)
            },
        }
    }
}

impl BlockStore {
    /// Store blob `e` under its checksum, replacing an earlier one.
    fn put_blob(&mut self, e: BlobRecord)
        requires
            old(self).wf(),
        ensures
            final(self).wf(),
            final(self).spec_blobs() == old(self).spec_blobs().insert(e.checksum, blob_view(e)),
            final(self).blocks == old(self).blocks,
            final(self).free_extents == old(self).free_extents,
            final(self).next_device_block == old(self).next_device_block,
            final(self).policy == old(self).policy,
            final(self).pending_trims == old(self).pending_trims,
            final(self).block_size == old(self).block_size,
    {
        let id = e.checksum;
        let ghost s = self.blobs@;
        let mut p: usize = 0;
        while p < self.blobs.len() && self.blobs[p].checksum < id
            invariant
                self.blobs@ == s,
                p <= s.len(),
                forall|j: int| 0 <= j < p ==> (#[trigger] s[j]).checksum < id,
            decreases s.len() - p,
        {
            p = p + 1;
        }
        if p < self.blobs.len() && self.blobs[p].checksum == id {
            self.blobs.set(p, e);
            proof {
                let t = self.blobs@;
                assert(blobs_sorted(t)) by {
                    assert forall|i: int, j: int| 0 <= i < j < t.len() implies (#[trigger] t[i]).checksum < (#[trigger] t[j]).checksum by {
                        assert(s[i].checksum < s[j].checksum);
                    }
                }
                let m = old(self).spec_blobs().insert(id, blob_view(e));
                assert forall|k: u64| #[trigger] blob_map(t).contains_key(k) <==> m.contains_key(k) by {
                    if m.contains_key(k) && k != id {
                        let i = choose|i: int| 0 <= i < s.len() && s[i].checksum == k;
                        assert(t[i].checksum == k);
                    }
                    if k == id {
                        assert(t[p as int].checksum == k);
                    }
                    if blob_map(t).contains_key(k) && k != id {
                        let i = choose|i: int| 0 <= i < t.len() && t[i].checksum == k;
                        assert(s[i].checksum == k);
                    }
                }
                assert forall|k: u64| blob_map(t).contains_key(k) implies blob_map(t)[k] == m[k] by {
                    let i = choose|i: int| 0 <= i < t.len() && t[i].checksum == k;
                    lemma_blob_at(t, i);
                    if k != id {
                        assert(i != p);
                        lemma_blob_at(s, i);
                    } else {
                        lemma_blob_at(t, p as int);
                    }
                }
                assert(blob_map(t) =~= m);
            }
        } else {
            self.blobs.insert(p, e);
            proof {
                let t = self.blobs@;
                assert(forall|j: int| p <= j < s.len() ==> (#[trigger] s[j]).checksum > id) by {
                    assert forall|j: int| p <= j < s.len() implies (#[trigger] s[j]).checksum > id by {
                        if p < s.len() {
                            assert(s[p as int].checksum >= id);
                            assert(s[p as int].checksum != id);
                            if j > p {
                                assert(s[p as int].checksum < s[j].checksum);
                            }
                        }
                    }
                }
                assert(forall|j: int| 0 <= j < t.len() ==> #[trigger] t[j] == if j < p { s[j] } else if j == p { e } else { s[j - 1] });
                assert(blobs_sorted(t)) by {
                    assert forall|i: int, j: int| 0 <= i < j < t.len() implies (#[trigger] t[i]).checksum < (#[trigger] t[j]).checksum by {
                        if j < p {
                            assert(s[i].checksum < s[j].checksum);
                        } else if i > p {
                            assert(s[i - 1].checksum < s[j - 1].checksum);
                        }
                    }
                }
                let m = old(self).spec_blobs().insert(id, blob_view(e));
                assert forall|k: u64| #[trigger] blob_map(t).contains_key(k) <==> m.contains_key(k) by {
                    if m.contains_key(k) && k != id {
                        let i = choose|i: int| 0 <= i < s.len() && s[i].checksum == k;
                        if i < p {
                            assert(t[i].checksum == k);
                        } else {
                            assert(t[i + 1].checksum == k);
                        }
                    }
                    if k == id {
                        assert(t[p as int].checksum == k);
                    }
                    if blob_map(t).contains_key(k) && k != id {
                        let i = choose|i: int| 0 <= i < t.len() && t[i].checksum == k;
                        if i < p {
                            assert(s[i].checksum == k);
                        } else {
                            assert(s[i - 1].checksum == k);
                        }
                    }
                }
                assert forall|k: u64| blob_map(t).contains_key(k) implies blob_map(t)[k] == m[k] by {
                    let i = choose|i: int| 0 <= i < t.len() && t[i].checksum == k;
                    lemma_blob_at(t, i);
                    if k != id {
                        if i < p {
                            lemma_blob_at(s, i);
                        } else {
                            lemma_blob_at(s, i - 1);
                        }
                    } else {
                        lemma_blob_at(t, p as int);
                    }
                }
                assert(blob_map(t) =~= m);
            }
        }
    }

    /// Remove and return the blob stored under `id`.
    fn take_blob(&mut self, id: u64) -> (r: Option<BlobRecord>)
        requires
            old(self).wf(),
        ensures
            final(self).wf(),
            final(self).spec_blobs() == old(self).spec_blobs().remove(id),
            r is None <==> !old(self).spec_blobs().contains_key(id),
            r matches Some(e) ==> e.checksum == id && blob_view(e) == old(self).spec_blobs()[id],
            final(self).blocks == old(self).blocks,
            final(self).free_extents == old(self).free_extents,
            final(self).next_device_block == old(self).next_device_block,
            final(self).policy == old(self).policy,
            final(self).pending_trims == old(self).pending_trims,
            final(self).block_size == old(self).block_size,
    {
        match self.find_blob(id) {
            None => {
                proof {
                    assert(self.spec_blobs() =~= old(self).spec_blobs().remove(id));
                }
                None
            },
            Some(p) => {
                let ghost s = self.blobs@;
                let e = self.blobs.remove(p);
                proof {
                    let t = self.blobs@;
                    assert(forall|j: int| 0 <= j < t.len() ==> #[trigger] t[j] == if j < p { s[j] } else { s[j + 1] });
                    assert(blobs_sorted(t)) by {
                        assert forall|i: int, j: int| 0 <= i < j < t.len() implies (#[trigger] t[i]).checksum < (#[trigger] t[j]).checksum by {
                            let oi = if i < p { i } else { i + 1 };
                            let oj = if j < p { j } else { j + 1 };
                            assert(s[oi].checksum < s[oj].checksum);
                        }
                    }
                    let m = old(self).spec_blobs().remove(id);
                    assert forall|k: u64| #[trigger] blob_map(t).contains_key(k) <==> m.contains_key(k) by {
                        if m.contains_key(k) {
                            let i = choose|i: int| 0 <= i < s.len() && s[i].checksum == k;
                            assert(i != p);
                            if i < p {
                                assert(t[i].checksum == k);
                            } else {
                                assert(t[i - 1].checksum == k);
                            }
                        }
                        if blob_map(t).contains_key(k) {
                            let i = choose|i: int| 0 <= i < t.len() && t[i].checksum == k;
                            let oi = if i < p { i } else { i + 1 };
                            assert(s[oi].checksum == k);
                            assert(oi != p as int);
                            if k == id {
                                if oi < p {
                                    assert(s[oi].checksum < s[p as int].checksum);
                                } else {
                                    assert(s[p as int].checksum < s[oi].checksum);
                                }
                            }
                        }
                    }
                    assert forall|k: u64| blob_map(t).contains_key(k) implies blob_map(t)[k] == m[k] by {
                        let i = choose|i: int| 0 <= i < t.len() && t[i].checksum == k;
                        lemma_blob_at(t, i);
                        let oi = if i < p { i } else { i + 1 };
                        lemma_blob_at(s, oi);
                    }
                    assert(blob_map(t) =~= m);
                }
                Some(e)
            },
        }
    }

    /// One more reference to blob `cs`; a new blob holds `bytes`.
    fn blob_add_ref(&mut self, cs: u64, bytes: Vec<u8>)
        requires
            old(self).wf(),
        ensures
            final(self).wf(),
            final(self).spec_blobs() == old(self).spec_blobs().insert(cs, if old(self).spec_blobs().contains_key(cs) {
                BlobView {
                    bytes: old(self).spec_blobs()[cs].bytes,
                    ref_count: inc_count(old(self).spec_blobs()[cs].ref_count),
                }
            } else {
                BlobView { bytes: bytes@, ref_count: 1 }
            }),
            final(self).blocks == old(self).blocks,
            final(self).free_extents == old(self).free_extents,
            final(self).next_device_block == old(self).next_device_block,
            final(self).policy == old(self).policy,
            final(self).pending_trims == old(self).pending_trims,
            final(self).block_size == old(self).block_size,
    {
        match self.take_blob(cs) {
            Some(mut b) => {
                b.ref_count = if b.ref_count < usize::MAX { b.ref_count + 1 } else { b.ref_count };
                self.put_blob(b);
                proof {
                    assert(self.spec_blobs() =~= old(self).spec_blobs().insert(cs, BlobView {
                        bytes: old(self).spec_blobs()[cs].bytes,
                        ref_count: inc_count(old(self).spec_blobs()[cs].ref_count),
                    }));
                }
            },
            None => {
                self.put_blob(BlobRecord { bytes, checksum: cs, ref_count: 1 });
                proof {
                    assert(self.spec_blobs() =~= old(self).spec_blobs().insert(cs, BlobView { bytes: bytes@, ref_count: 1 }));
                }
            },
        }
    }

    /// One reference less on blob `cs`; the blob goes when none is left.
    fn blob_release(&mut self, cs: u64)
        requires
            old(self).wf(),
        ensures
            final(self).wf(),
            final(self).spec_blobs() == released(old(self).spec_blobs(), cs),
            final(self).blocks == old(self).blocks,
            final(self).free_extents == old(self).free_extents,
            final(self).next_device_block == old(self).next_device_block,
            final(self).policy == old(self).policy,
            final(self).pending_trims == old(self).pending_trims,
            final(self).block_size == old(self).block_size,
    {
        match self.take_blob(cs) {
            Some(mut b) => {
                b.ref_count = b.ref_count.saturating_sub(1);
                if b.ref_count != 0 {
                    self.put_blob(b);
                    proof {
                        assert(self.spec_blobs() =~= released(old(self).spec_blobs(), cs));
                    }
                } else {
                    proof {
                        assert(self.spec_blobs() =~= released(old(self).spec_blobs(), cs));
                    }
                }
            },
            None => {
                proof {
                    assert(self.spec_blobs() =~= released(old(self).spec_blobs(), cs));
                }
            },
        }
    }
}

/// `n + 1`, held at `usize::MAX`.
pub open spec fn inc_count(n: usize) -> usize {
    if n < usize::MAX { (n + 1) as usize } else { n }
}

/// Blobs after dropping one reference on `cs`.
pub open spec fn released(blobs: Map<u64, BlobView>, cs: u64) -> Map<u64, BlobView> {
    if !blobs.contains_key(cs) {
        blobs
    } else if blobs[cs].ref_count <= 1 {
        blobs.remove(cs)
    } else {
        blobs.insert(cs, BlobView { bytes: blobs[cs].bytes, ref_count: (blobs[cs].ref_count - 1) as usize })
    }
}

/// Abstract state of a block store.
pub struct StoreView {
    pub block_size: usize,
    pub next: u64,
    pub policy: AllocatorPolicy,
    pub free: Seq<FreeExtentRecord>,
    pub blocks: Map<u64, EntryView>,
    pub blobs: Map<u64, BlobView>,
    pub trims: Seq<FreedExtent>,
}

impl View for BlockStore {
    type V = StoreView;

    closed spec fn view(&self) -> StoreView {
        StoreView {
            block_size: self.block_size,
            next: self.next_device_block,
            policy: self.policy,
            free: self.free_extents@,
            blocks: entry_map(self.blocks@),
            blobs: blob_map(self.blobs@),
            trims: self.pending_trims@,
        }
    }
}

/// Every entry refers to a stored blob, and every blob's reference count
/// is the number of entries that refer to it (and at least one).
pub open spec fn maps_consistent(blocks: Map<u64, EntryView>, blobs: Map<u64, BlobView>) -> bool {
    &&& forall|k: u64| #[trigger] blocks.contains_key(k) ==> blobs.contains_key(blocks[k].blob)
    &&& forall|c: u64| #[trigger] blobs.contains_key(c)
        ==> blobs[c].ref_count == ref_count_of(blocks, c) && blobs[c].ref_count >= 1
}

/// [`maps_consistent`] of a store's entries and blobs.
pub open spec fn refs_consistent(v: StoreView) -> bool {
    maps_consistent(v.blocks, v.blobs)
}

/// Blobs after taking one more reference on `cs` (new blobs hold `bytes`).
pub open spec fn add_ref(blobs: Map<u64, BlobView>, cs: u64, bytes: Seq<u8>) -> Map<u64, BlobView> {
    blobs.insert(cs, if blobs.contains_key(cs) {
        BlobView { bytes: blobs[cs].bytes, ref_count: inc_count(blobs[cs].ref_count) }
    } else {
        BlobView { bytes, ref_count: 1 }
    })
}

/// State after dropping the entry of inode `id`: its blob loses a
/// reference, its extent is queued for discard and returned to the free list.
pub open spec fn release_inode_spec(v: StoreView, id: u64) -> StoreView {
    if !v.blocks.contains_key(id) {
        v
    } else {
        let e = v.blocks[id];
        let t = after_insert_free(v.free, v.next, v.policy,
            FreeExtentRecord { device_block: e.device_block, allocated_blocks: e.allocated_blocks });
        StoreView {
            blocks: v.blocks.remove(id),
            blobs: released(v.blobs, e.blob),
            trims: v.trims.push(FreedExtent { device_block: e.device_block, block_count: e.allocated_blocks }),
            free: t.0,
            next: t.1,
            ..v
        }
    }
}

/// State after storing `bytes` for inode `id`.  An existing extent that
/// is large enough is kept (its surplus tail is freed); otherwise the old
/// extent is released and a fresh one allocated.  The bytes go to the blob
/// of their checksum, which is created when absent.
#[verifier::opaque]
pub open spec fn write_spec(v: StoreView, id: u64, bytes: Seq<u8>) -> StoreView {
    let cs = fold_checksum(bytes);
    let placed = write_placement(v, id, bytes.len() as int);
    let v1 = placed.0;
    StoreView {
        blocks: v1.blocks.insert(id, EntryView {
            blob: cs,
            size: bytes.len() as usize,
            device_block: placed.1,
            allocated_blocks: placed.2,
        }),
        blobs: add_ref(v1.blobs, cs, bytes),
        ..v1
    }
}

/// Where the data of `id` goes when `size` bytes are stored for it: the
/// state with its old entry dropped (and the extent bookkeeping done), and
/// the extent it gets.
pub open spec fn write_placement(v: StoreView, id: u64, size: int) -> (StoreView, u64, u64) {
    let req = required_blocks_spec(size, v.block_size as int) as u64;
    if v.blocks.contains_key(id) && v.blocks[id].allocated_blocks >= req {
        let e = v.blocks[id];
        let base = StoreView { blocks: v.blocks.remove(id), blobs: released(v.blobs, e.blob), ..v };
        if e.allocated_blocks > req {
            let tail = FreeExtentRecord {
                device_block: sat_add(e.device_block, req),
                allocated_blocks: (e.allocated_blocks - req) as u64,
            };
            let t = after_insert_free(v.free, v.next, v.policy, tail);
            (StoreView {
                trims: v.trims.push(FreedExtent { device_block: tail.device_block, block_count: tail.allocated_blocks }),
                free: t.0,
                next: t.1,
                ..base
            }, e.device_block, req)
        } else {
            (base, e.device_block, req)
        }
    } else {
        let v0 = release_inode_spec(v, id);
        let a = allocation(v0.free, v0.next, v0.policy, req);
        (StoreView { free: a.1, next: a.2, ..v0 }, a.0.0, a.0.1)
    }
}

proof fn lemma_placement_maps(v: StoreView, id: u64, size: int)
    ensures
        write_placement(v, id, size).0.blocks == v.blocks.remove(id),
        write_placement(v, id, size).0.blobs == if v.blocks.contains_key(id) {
            released(v.blobs, v.blocks[id].blob)
        } else {
            v.blobs
        },
        write_placement(v, id, size).0.block_size == v.block_size,
{
    reveal(write_placement);
    if !v.blocks.contains_key(id) {
        assert(v.blocks.remove(id) =~= v.blocks);
    }
}

/// A store with no data and no free extents.
pub open spec fn empty_store(block_size: usize, policy: AllocatorPolicy) -> StoreView {
    StoreView {
        block_size: if block_size >= 1 { block_size } else { 1 },
        next: 0,
        policy,
        free: Seq::empty(),
        blocks: Map::empty(),
        blobs: Map::empty(),
        trims: Seq::empty(),
    }
}

impl BlockStore {
    /// Empty store with the default policy.
    pub fn with_block_size(block_size: usize) -> (r: Self)
        ensures
            r.wf(),
            r@ == empty_store(block_size, default_policy()),
    {
        Self::with_block_size_and_policy(block_size, AllocatorPolicy::default())
    }

    /// Empty store with `policy`.
    pub fn with_block_size_and_policy(block_size: usize, policy: AllocatorPolicy) -> (r: Self)
        ensures
            r.wf(),
            r@ == empty_store(block_size, policy),
    {
        let r = BlockStore {
            block_size: if block_size >= 1 { block_size } else { 1 },
            next_device_block: 0,
            policy,
            free_extents: Vec::new(),
            blocks: Vec::new(),
            blobs: Vec::new(),
            pending_trims: Vec::new(),
        };
        proof {
            assert(entry_map(r.blocks@) =~= Map::<u64, EntryView>::empty());
            assert(blob_map(r.blobs@) =~= Map::<u64, BlobView>::empty());
        }
        r
    }

    /// The stored data of `inode`.
    pub fn read(&self, inode: InodeId) -> (r: Option<BlockRecord>)
        requires
            self.wf(),
        ensures
            r is Some <==> self@.blocks.contains_key(inode.0) && self@.blobs.contains_key(self@.blocks[inode.0].blob),
            r matches Some(rec) ==> {
                let e = self@.blocks[inode.0];
                &&& rec.inode == inode
                &&& rec.bytes@ == self@.blobs[e.blob].bytes
                &&& rec.checksum == e.blob
                &&& rec.device_block == e.device_block
                &&& rec.allocated_blocks == e.allocated_blocks
            },
    {
        let i = match self.find_entry(inode.0) {
            Some(i) => i,
            None => {
                return None;
            },
        };
        let e = self.blocks[i];
        let j = match self.find_blob(e.blob_checksum) {
            Some(j) => j,
            None => {
                return None;
            },
        };
        let mut bytes: Vec<u8> = Vec::new();
        push_bytes(&mut bytes, self.blobs[j].bytes.as_slice());
        Some(BlockRecord {
            inode: e.inode,
            bytes,
            checksum: self.blobs[j].checksum,
            device_block: e.device_block,
            allocated_blocks: e.allocated_blocks,
        })
    }

    /// Whether `inode` has data.
    pub fn contains(&self, inode: InodeId) -> (r: bool)
        requires
            self.wf(),
        ensures
            r == self@.blocks.contains_key(inode.0),
    {
        self.find_entry(inode.0).is_some()
    }

    /// Checksum of the blob holding the data of `inode`.
    pub fn blob_checksum(&self, inode: InodeId) -> (r: Option<u64>)
        requires
            self.wf(),
        ensures
            r is Some <==> self@.blocks.contains_key(inode.0),
            r matches Some(c) ==> c == self@.blocks[inode.0].blob,
    {
        match self.find_entry(inode.0) {
            Some(i) => Some(self.blocks[i].blob_checksum),
            None => None,
        }
    }

    /// Whether the blob of `inode` is referenced more than once.
    pub fn is_shared(&self, inode: InodeId) -> (r: bool)
        requires
            self.wf(),
        ensures
            r == (self@.blocks.contains_key(inode.0) && self@.blobs.contains_key(self@.blocks[inode.0].blob)
                && self@.blobs[self@.blocks[inode.0].blob].ref_count > 1),
    {
        match self.find_entry(inode.0) {
            Some(i) => match self.find_blob(self.blocks[i].blob_checksum) {
                Some(j) => self.blobs[j].ref_count > 1,
                None => false,
            },
            None => false,
        }
    }

    /// Whether the data of `inode` still hashes to its checksum.
    pub fn verify(&self, inode: InodeId) -> (r: bool)
        requires
            self.wf(),
        ensures
            r == (self@.blocks.contains_key(inode.0) && self@.blobs.contains_key(self@.blocks[inode.0].blob)
                && fold_checksum(self@.blobs[self@.blocks[inode.0].blob].bytes) == self@.blocks[inode.0].blob),
    {
        match self.read(inode) {
            Some(rec) => rec.checksum == checksum(rec.bytes.as_slice()),
            None => false,
        }
    }

    /// The allocator policy.
    pub fn allocator_policy(&self) -> (r: &AllocatorPolicy)
        ensures
            *r == self@.policy,
    {
        &self.policy
    }

    /// The free extents.
    pub fn free_extents(&self) -> (r: Vec<FreeExtentRecord>)
        ensures
            r@ == self@.free,
    {
        self.free_extents.clone()
    }

    /// Take the extents freed since the last drain.
    pub fn drain_freed_extents(&mut self) -> (r: Vec<FreedExtent>)
        ensures
            old(self).consistent() ==> final(self).consistent(),
            r@ == old(self)@.trims,
            final(self)@ == (StoreView { trims: Seq::empty(), ..old(self)@ }),
            final(self).wf() == old(self).wf(),
    {
        let mut out: Vec<FreedExtent> = Vec::new();
        std::mem::swap(&mut out, &mut self.pending_trims);
        proof {
            assert(self@ =~= (StoreView { trims: Seq::empty(), ..old(self)@ }));
        }
        out
    }

    /// The extents freed since the last drain.
    pub fn pending_trims(&self) -> (r: &[FreedExtent])
        ensures
            r@ == self@.trims,
    {
        self.pending_trims.as_slice()
    }

    /// Switch to `policy` and tidy the free list under it.
    pub fn set_allocator_policy(&mut self, policy: AllocatorPolicy)
        requires
            old(self).wf(),
        ensures
            old(self).consistent() ==> final(self).consistent(),
            final(self).wf(),
            final(self)@ == (StoreView {
                policy,
                free: tidy_free(old(self)@.free, old(self)@.next, policy).0,
                next: tidy_free(old(self)@.free, old(self)@.next, policy).1,
                ..old(self)@
            }),
    {
        self.policy = policy;
        tidy_free_exec(&mut self.free_extents, &mut self.next_device_block, &self.policy);
    }

    /// Drop the entry of `inode`, releasing its blob and extent.
    fn release_inode(&mut self, inode: InodeId)
        requires
            old(self).wf(),
        ensures
            final(self).wf(),
            final(self)@ == release_inode_spec(old(self)@, inode.0),
    {
        let e = match self.take_entry(inode.0) {
            Some(e) => e,
            None => {
                proof {
                    assert(old(self).spec_blocks().remove(inode.0) =~= old(self).spec_blocks());
                    assert(self@ =~= old(self)@);
                }
                return;
            },
        };
        self.blob_release(e.blob_checksum);
        self.pending_trims.push(FreedExtent { device_block: e.device_block, block_count: e.allocated_blocks });
        insert_free_exec(&mut self.free_extents, &mut self.next_device_block, &self.policy,
            FreeExtentRecord { device_block: e.device_block, allocated_blocks: e.allocated_blocks });
        proof {
            assert(self@ =~= release_inode_spec(old(self)@, inode.0));
        }
    }

    /// Remove the data of `inode`, returning what it held.
    pub fn remove(&mut self, inode: InodeId) -> (r: Option<BlockRecord>)
        requires
            old(self).wf(),
        ensures
            old(self).consistent() ==> final(self).consistent(),
            final(self).wf(),
            r is Some <==> old(self)@.blocks.contains_key(inode.0) && old(self)@.blobs.contains_key(old(self)@.blocks[inode.0].blob),
            r is Some ==> final(self)@ == release_inode_spec(old(self)@, inode.0),
            r is None ==> final(self)@ == old(self)@,
            r matches Some(rec) ==> {
                let e = old(self)@.blocks[inode.0];
                &&& rec.inode == inode
                &&& rec.bytes@ == old(self)@.blobs[e.blob].bytes
                &&& rec.checksum == e.blob
                &&& rec.device_block == e.device_block
                &&& rec.allocated_blocks == e.allocated_blocks
            },
    {
        proof {
            self.lemma_wf();
            if self.consistent() && self@.blocks.contains_key(inode.0) {
                lemma_release_keeps_refs(self@.blocks, self@.blobs, inode.0);
            }
        }
        let record = match self.read(inode) {
            Some(rec) => rec,
            None => {
                return None;
            },
        };
        self.release_inode(inode);
        Some(record)
    }

    /// Store `bytes` as the data of `inode`; returns their length.
    pub fn write(&mut self, inode: InodeId, bytes: Vec<u8>) -> (r: usize)
        requires
            old(self).wf(),
        ensures
            old(self).consistent() && old(self)@.blocks.dom().len() < usize::MAX ==> final(self).consistent(),
            final(self).wf(),
            r == bytes@.len(),
            final(self)@ == write_spec(old(self)@, inode.0, bytes@),
            final(self)@.blocks.contains_key(inode.0),
            final(self)@.blocks[inode.0].blob == fold_checksum(bytes@),
            final(self)@.blocks[inode.0].size == bytes@.len(),
            final(self)@.blobs.contains_key(fold_checksum(bytes@)),
            (old(self)@.blobs.contains_key(fold_checksum(bytes@)) ==> old(self)@.blobs[fold_checksum(bytes@)].bytes == bytes@)
                ==> final(self)@.blobs[fold_checksum(bytes@)].bytes == bytes@,
            forall|k: u64| k != inode.0 && #[trigger] old(self)@.blocks.contains_key(k)
                ==> final(self)@.blocks.contains_key(k) && final(self)@.blocks[k] == old(self)@.blocks[k],
    {
        proof {
            self.lemma_wf();
            if self.consistent() && self@.blocks.dom().len() < usize::MAX {
                lemma_write_keeps_refs(self@, inode.0, bytes@);
            }
        }
        let ghost v = self@;
        let cs = checksum(bytes.as_slice());
        let size = bytes.len();
        let required = required_blocks(size, self.block_size);
        let existing = match self.find_entry(inode.0) {
            Some(i) => Some(self.blocks[i]),
            None => None,
        };
        let (device_block, allocated_blocks) = match existing {
            Some(e) if e.allocated_blocks >= required => {
                let _ = self.take_entry(inode.0);
                self.blob_release(e.blob_checksum);
                if e.allocated_blocks > required {
                    let tail_block = e.device_block.saturating_add(required);
                    let tail_count = e.allocated_blocks - required;
                    self.pending_trims.push(FreedExtent { device_block: tail_block, block_count: tail_count });
                    insert_free_exec(&mut self.free_extents, &mut self.next_device_block, &self.policy,
                        FreeExtentRecord { device_block: tail_block, allocated_blocks: tail_count });
                }
                (e.device_block, required)
            },
            _ => {
                self.release_inode(inode);
                allocate_exec(&mut self.free_extents, &mut self.next_device_block, &self.policy, required)
            },
        };
        let ghost v1 = self@;
        self.blob_add_ref(cs, bytes);
        self.put_entry(BlockEntry { inode, blob_checksum: cs, size, device_block, allocated_blocks });
        proof {
            reveal(write_placement);
            reveal(write_spec);
            assert(self@ =~= write_spec(v, inode.0, bytes@));
            if v.blobs.contains_key(cs) ==> v.blobs[cs].bytes == bytes@ {
                assert(v1.blobs.contains_key(cs) ==> v1.blobs[cs].bytes == bytes@);
            }
        }
        size
    }
}

proof fn lemma_refs_remove(m: Map<u64, EntryView>, k: u64, c: u64)
    requires
        m.dom().finite(),
    ensures
        ref_count_of(m, c) == ref_count_of(m.remove(k), c) + (if m.contains_key(k) && m[k].blob == c { 1nat } else { 0nat }),
        ref_count_of(m, c) <= m.dom().len(),
{
    let p = |x: u64| m[x].blob == c;
    let mr = m.remove(k);
    let pr = |x: u64| mr[x].blob == c;
    let a = m.dom().filter(p);
    let b = mr.dom().filter(pr);
    m.dom().lemma_len_filter(p);
    mr.dom().lemma_len_filter(pr);
    assert(b =~= a.remove(k));
    if a.contains(k) {
        assert(a.remove(k).len() == a.len() - 1);
    } else {
        assert(a.remove(k) =~= a);
    }
}

proof fn lemma_refs_insert(m: Map<u64, EntryView>, k: u64, v: EntryView, c: u64)
    requires
        m.dom().finite(),
        !m.contains_key(k),
    ensures
        ref_count_of(m.insert(k, v), c) == ref_count_of(m, c) + (if v.blob == c { 1nat } else { 0nat }),
{
    let p = |x: u64| m[x].blob == c;
    let mi = m.insert(k, v);
    let pi = |x: u64| mi[x].blob == c;
    let a = m.dom().filter(p);
    let b = mi.dom().filter(pi);
    m.dom().lemma_len_filter(p);
    mi.dom().lemma_len_filter(pi);
    if v.blob == c {
        assert(b =~= a.insert(k));
        assert(!a.contains(k));
    } else {
        assert(b =~= a);
    }
}

/// Dropping the entry of `id` together with one reference on its blob
/// keeps the reference counts right.
pub proof fn lemma_release_keeps_refs(blocks: Map<u64, EntryView>, blobs: Map<u64, BlobView>, id: u64)
    requires
        blocks.dom().finite(),
        maps_consistent(blocks, blobs),
        blocks.contains_key(id),
    ensures
        maps_consistent(blocks.remove(id), released(blobs, blocks[id].blob)),
{
    let e = blocks[id];
    let b2 = blocks.remove(id);
    let s2 = released(blobs, e.blob);
    assert forall|k: u64| #[trigger] b2.contains_key(k) implies s2.contains_key(b2[k].blob) by {
        let c = b2[k].blob;
        assert(blobs.contains_key(c));
        if c == e.blob {
            lemma_refs_remove(blocks, id, c);
            assert(blocks.dom().filter(|x: u64| blocks[x].blob == c).contains(k));
            assert(blocks.dom().filter(|x: u64| blocks[x].blob == c).contains(id));
            blocks.dom().filter(|x: u64| blocks[x].blob == c).lemma_len_filter(|x: u64| x != k);
            assert(ref_count_of(blocks, c) >= 2) by {
                let f = blocks.dom().filter(|x: u64| blocks[x].blob == c);
                blocks.dom().lemma_len_filter(|x: u64| blocks[x].blob == c);
                assert(f.remove(id).contains(k));
                assert(f.remove(id).len() == f.len() - 1);
                assert(f.remove(id).len() >= 1) by {
                    assert(f.remove(id).remove(k).len() == f.remove(id).len() - 1);
                }
            }
        }
    }
    assert forall|c: u64| #[trigger] s2.contains_key(c)
        implies s2[c].ref_count == ref_count_of(b2, c) && s2[c].ref_count >= 1 by {
        lemma_refs_remove(blocks, id, c);
    }
}

/// Adding a new entry for `id` that refers to blob `cs`, together with one
/// more reference on that blob, keeps the reference counts right.
pub proof fn lemma_add_keeps_refs(blocks: Map<u64, EntryView>, blobs: Map<u64, BlobView>, id: u64, ev: EntryView, bytes: Seq<u8>)
    requires
        blocks.dom().finite(),
        blocks.dom().len() < usize::MAX,
        maps_consistent(blocks, blobs),
        !blocks.contains_key(id),
    ensures
        maps_consistent(blocks.insert(id, ev), add_ref(blobs, ev.blob, bytes)),
{
    let cs = ev.blob;
    let b2 = blocks.insert(id, ev);
    let s2 = add_ref(blobs, cs, bytes);
    assert forall|c: u64| #[trigger] s2.contains_key(c)
        implies s2[c].ref_count == ref_count_of(b2, c) && s2[c].ref_count >= 1 by {
        lemma_refs_insert(blocks, id, ev, c);
        lemma_refs_remove(blocks, id, c);
        if c == cs && blobs.contains_key(cs) {
            assert(blobs[cs].ref_count < usize::MAX);
        }
        if c == cs && !blobs.contains_key(cs) {
            assert(ref_count_of(blocks, c) == 0) by {
                let f = blocks.dom().filter(|x: u64| blocks[x].blob == c);
                if f.len() > 0 {
                    let w = f.choose();
                    assert(f.contains(w));
                    assert(blobs.contains_key(blocks[w].blob));
                }
            }
        }
    }
}

/// Storing bytes keeps the reference counts right.
pub proof fn lemma_write_keeps_refs(v: StoreView, id: u64, bytes: Seq<u8>)
    requires
        v.blocks.dom().finite(),
        v.blocks.dom().len() < usize::MAX,
        refs_consistent(v),
    ensures
        refs_consistent(write_spec(v, id, bytes)),
{
    let cs = fold_checksum(bytes);
    let req = required_blocks_spec(bytes.len() as int, v.block_size as int) as u64;
    let (b1, s1) = if v.blocks.contains_key(id) {
        lemma_release_keeps_refs(v.blocks, v.blobs, id);
        (v.blocks.remove(id), released(v.blobs, v.blocks[id].blob))
    } else {
        assert(v.blocks.remove(id) =~= v.blocks);
        (v.blocks, v.blobs)
    };
    let w = write_spec(v, id, bytes);
    let ev = w.blocks[id];
    lemma_placement_maps(v, id, bytes.len() as int);
    lemma_write_shape(v, id, bytes);
    assert(b1.dom().finite());
    assert(b1.dom().len() <= v.blocks.dom().len()) by {
        if v.blocks.contains_key(id) {
            assert(b1.dom() =~= v.blocks.dom().remove(id));
        }
    }
    lemma_add_keeps_refs(b1, s1, id, ev, bytes);
    assert(w.blocks =~= b1.insert(id, ev));
    assert(w.blobs =~= add_ref(s1, cs, bytes));
}

proof fn lemma_write_shape(v: StoreView, id: u64, bytes: Seq<u8>)
    ensures
        write_spec(v, id, bytes).blocks == write_placement(v, id, bytes.len() as int).0.blocks.insert(id, EntryView {
            blob: fold_checksum(bytes),
            size: bytes.len() as usize,
            device_block: write_placement(v, id, bytes.len() as int).1,
            allocated_blocks: write_placement(v, id, bytes.len() as int).2,
        }),
        write_spec(v, id, bytes).blobs == add_ref(write_placement(v, id, bytes.len() as int).0.blobs, fold_checksum(bytes), bytes),
{
    reveal(write_spec);
}

proof fn lemma_released_bytes(v: StoreView, id: u64, cs: u64, bytes: Seq<u8>)
    requires
        v.blobs.contains_key(cs) ==> v.blobs[cs].bytes == bytes,
    ensures
        ({
            let b = if v.blocks.contains_key(id) { released(v.blobs, v.blocks[id].blob) } else { v.blobs };
            b.contains_key(cs) ==> b[cs].bytes == bytes
        }),
{
}

/// The checksum fold of `s` started from `seed` instead of 0.
pub open spec fn fold_from(seed: u64, s: Seq<u8>) -> u64
    decreases s.len(),
{
    if s.len() == 0 {
        seed
    } else {
        vstd::wrapping::u64_specs::wrapping_add(
            vstd::wrapping::u64_specs::wrapping_mul(fold_from(seed, s.drop_last()), 16777619),
            s.last() as u64,
        )
    }
}

/// Folding `a` then `b` is folding `a + b`: the checksum extends
/// incrementally.
pub proof fn lemma_fold_concat(seed: u64, a: Seq<u8>, b: Seq<u8>)
    ensures
        fold_from(fold_from(seed, a), b) == fold_from(seed, a + b),
    decreases b.len(),
{
    if b.len() > 0 {
        lemma_fold_concat(seed, a, b.drop_last());
        assert((a + b).drop_last() =~= a + b.drop_last());
    } else {
        assert(a + b =~= a);
    }
}

/// The image checksum is the fold from 0.
pub proof fn lemma_fold_zero(s: Seq<u8>)
    ensures
        fold_checksum(s) == fold_from(0, s),
    decreases s.len(),
{
    if s.len() > 0 {
        lemma_fold_zero(s.drop_last());
    }
}

fn checksum_from(seed: u64, bytes: &[u8]) -> (r: u64)
    ensures
        r == fold_from(seed, bytes@),
{
    let mut acc: u64 = seed;
    let mut i: usize = 0;
    while i < bytes.len()
        invariant
            i <= bytes@.len(),
            acc == fold_from(seed, bytes@.subrange(0, i as int)),
        decreases bytes@.len() - i,
    {
        proof {
            assert(bytes@.subrange(0, i as int + 1).drop_last() =~= bytes@.subrange(0, i as int));
        }
        acc = acc.wrapping_mul(16777619).wrapping_add(bytes[i] as u64);
        i = i + 1;
    }
    proof {
        assert(bytes@.subrange(0, i as int) =~= bytes@);
    }
    acc
}

/// State after appending `extra` to the data of `id`: an exclusively owned
/// blob grows in place and is re-keyed by its extended checksum (the
/// extent stays, grown to the new size if needed); where a blob with that
/// checksum is already stored, the entry takes one more reference on it
/// instead, so the data stays shared; a shared blob is copied and the copy
/// stored as a fresh write; without data this is a write.
pub open spec fn append_spec(v: StoreView, id: u64, extra: Seq<u8>) -> StoreView {
    if !v.blocks.contains_key(id) || !v.blobs.contains_key(v.blocks[id].blob) {
        write_spec(v, id, extra)
    } else {
        let e = v.blocks[id];
        let b = v.blobs[e.blob];
        if b.ref_count == 1 {
            let cs = fold_from(e.blob, extra);
            let bytes = b.bytes + extra;
            let req = required_blocks_spec(bytes.len() as int, v.block_size as int) as u64;
            StoreView {
                blobs: add_ref(v.blobs.remove(e.blob), cs, bytes),
                blocks: v.blocks.insert(id, EntryView {
                    blob: cs,
                    size: bytes.len() as usize,
                    device_block: e.device_block,
                    allocated_blocks: if req > e.allocated_blocks { req } else { e.allocated_blocks },
                }),
                ..v
            }
        } else {
            write_spec(v, id, b.bytes + extra)
        }
    }
}

/// Appending keeps every blob's reference count equal to the number of
/// entries that refer to it: an exclusively owned blob gives up its one
/// reference and the extended data takes one on its own checksum (shared
/// with any inode already holding those bytes).
pub proof fn lemma_append_keeps_refs(v: StoreView, id: u64, extra: Seq<u8>)
    requires
        v.blocks.dom().finite(),
        v.blocks.dom().len() < usize::MAX,
        refs_consistent(v),
    ensures
        refs_consistent(append_spec(v, id, extra)),
{
    if !v.blocks.contains_key(id) || !v.blobs.contains_key(v.blocks[id].blob) {
        lemma_write_keeps_refs(v, id, extra);
    } else {
        let e = v.blocks[id];
        let b = v.blobs[e.blob];
        if b.ref_count == 1 {
            lemma_release_keeps_refs(v.blocks, v.blobs, id);
            assert(released(v.blobs, e.blob) == v.blobs.remove(e.blob));
            let a = append_spec(v, id, extra);
            let ev = a.blocks[id];
            let b1 = v.blocks.remove(id);
            assert(b1.dom() =~= v.blocks.dom().remove(id));
            lemma_add_keeps_refs(b1, v.blobs.remove(e.blob), id, ev, b.bytes + extra);
            assert(a.blocks =~= b1.insert(id, ev));
        } else {
            lemma_write_keeps_refs(v, id, b.bytes + extra);
        }
    }
}

/// Cloning onto an inode that holds no data keeps the reference counts
/// right.
pub proof fn lemma_clone_keeps_refs(v: StoreView, source: u64, target: u64)
    requires
        v.blocks.dom().finite(),
        v.blocks.dom().len() < usize::MAX,
        refs_consistent(v),
        !v.blocks.contains_key(target),
    ensures
        refs_consistent(clone_spec(v, source, target)),
{
    if v.blocks.contains_key(source) && v.blobs.contains_key(v.blocks[source].blob) {
        let e = v.blocks[source];
        let c = clone_spec(v, source, target);
        lemma_add_keeps_refs(v.blocks, v.blobs, target, c.blocks[target], v.blobs[e.blob].bytes);
        assert(c.blocks =~= v.blocks.insert(target, c.blocks[target]));
        assert(c.blobs =~= add_ref(v.blobs, e.blob, v.blobs[e.blob].bytes));
    }
}

/// Entries that keep their inodes and blobs keep the reference counts.
pub proof fn lemma_same_refs(b1: Map<u64, EntryView>, b2: Map<u64, EntryView>, blobs: Map<u64, BlobView>)
    requires
        b1.dom() == b2.dom(),
        forall|k: u64| #[trigger] b1.contains_key(k) ==> b1[k].blob == b2[k].blob,
        maps_consistent(b1, blobs),
    ensures
        maps_consistent(b2, blobs),
{
    assert forall|c: u64| #[trigger] blobs.contains_key(c) implies blobs[c].ref_count == ref_count_of(b2, c) by {
        assert(b1.dom().filter(|k: u64| b1[k].blob == c) =~= b2.dom().filter(|k: u64| b2[k].blob == c));
    }
    assert forall|k: u64| #[trigger] b2.contains_key(k) implies blobs.contains_key(b2[k].blob) by {
        assert(b1.contains_key(k));
    }
}

proof fn lemma_with_blocks_keys(s: Seq<BlockEntry>, d: Seq<u64>)
    requires
        entries_sorted(s),
    ensures
        entry_map(with_blocks(s, d)).dom() == entry_map(s).dom(),
        forall|k: u64| #[trigger] entry_map(s).contains_key(k) ==> entry_map(with_blocks(s, d))[k].blob == entry_map(s)[k].blob,
{
    let w = with_blocks(s, d);
    assert(entries_sorted(w)) by {
        assert forall|i: int, j: int| 0 <= i < j < w.len() implies (#[trigger] w[i]).inode.0 < (#[trigger] w[j]).inode.0 by {
            assert(s[i].inode.0 < s[j].inode.0);
        }
    }
    assert forall|k: u64| #[trigger] entry_map(s).contains_key(k) implies entry_map(w).contains_key(k)
        && entry_map(w)[k].blob == entry_map(s)[k].blob by {
        let i = choose|i: int| 0 <= i < s.len() && s[i].inode.0 == k;
        lemma_entry_at(s, i);
        lemma_entry_at(w, i);
    }
    assert forall|k: u64| #[trigger] entry_map(w).contains_key(k) implies entry_map(s).contains_key(k) by {
        let i = choose|i: int| 0 <= i < w.len() && w[i].inode.0 == k;
        assert(s[i].inode.0 == k);
    }
    assert(entry_map(w).dom() =~= entry_map(s).dom());
}

/// Result length of [`append_spec`].
pub open spec fn append_len(v: StoreView, id: u64, extra: Seq<u8>) -> int {
    if !v.blocks.contains_key(id) || !v.blobs.contains_key(v.blocks[id].blob) {
        extra.len() as int
    } else {
        (v.blobs[v.blocks[id].blob].bytes.len() + extra.len()) as int
    }
}

/// State after giving `target` the blob of `source` (one more reference)
/// and a fresh extent of its own; unchanged when `source` has no data.
pub open spec fn clone_spec(v: StoreView, source: u64, target: u64) -> StoreView {
    if !v.blocks.contains_key(source) || !v.blobs.contains_key(v.blocks[source].blob) {
        v
    } else {
        let e = v.blocks[source];
        let req = required_blocks_spec(e.size as int, v.block_size as int) as u64;
        let a = allocation(v.free, v.next, v.policy, req);
        StoreView {
            blobs: v.blobs.insert(e.blob, BlobView {
                bytes: v.blobs[e.blob].bytes,
                ref_count: inc_count(v.blobs[e.blob].ref_count),
            }),
            blocks: v.blocks.insert(target, EntryView {
                blob: e.blob,
                size: e.size,
                device_block: a.0.0,
                allocated_blocks: a.0.1,
            }),
            free: a.1,
            next: a.2,
            ..v
        }
    }
}

/// `rec` is the exported form of the data of `id` in `v`.
pub open spec fn record_of(rec: BlockRecord, v: StoreView, id: u64) -> bool {
    &&& v.blocks.contains_key(id)
    &&& v.blobs.contains_key(v.blocks[id].blob)
    &&& rec.inode.0 == id
    &&& rec.bytes@ == v.blobs[v.blocks[id].blob].bytes
    &&& rec.checksum == v.blocks[id].blob
    &&& rec.device_block == v.blocks[id].device_block
    &&& rec.allocated_blocks == v.blocks[id].allocated_blocks
}

impl BlockStore {
    /// Append `extra` to the data of `inode`; returns the new length.
    #[verifier::spinoff_prover]
    #[verifier::rlimit(40)]
    pub fn append_to_inode(&mut self, inode: InodeId, extra: &[u8]) -> (r: usize)
        requires
            old(self).wf(),
        ensures
            old(self).consistent() && old(self)@.blocks.dom().len() < usize::MAX ==> final(self).consistent(),
            final(self).wf(),
            r == append_len(old(self)@, inode.0, extra@),
            final(self)@ == append_spec(old(self)@, inode.0, extra@),
    {
        proof {
            self.lemma_wf();
            if self.consistent() && self@.blocks.dom().len() < usize::MAX {
                lemma_append_keeps_refs(self@, inode.0, extra@);
            }
        }
        let ghost v = self@;
        let i = match self.find_entry(inode.0) {
            Some(i) => i,
            None => {
                let mut bytes: Vec<u8> = Vec::new();
                push_bytes(&mut bytes, extra);
                return self.write(inode, bytes);
            },
        };
        let e = self.blocks[i];
        let j = match self.find_blob(e.blob_checksum) {
            Some(j) => j,
            None => {
                let mut bytes: Vec<u8> = Vec::new();
                push_bytes(&mut bytes, extra);
                return self.write(inode, bytes);
            },
        };
        if self.blobs[j].ref_count == 1 {
            let new_cs = checksum_from(self.blobs[j].checksum, extra);
            let mut b = self.take_blob(e.blob_checksum).unwrap();
            push_bytes(&mut b.bytes, extra);
            b.checksum = new_cs;
            let new_size = b.bytes.len();
            let ghost removed = self.spec_blobs();
            let ghost grown = b.bytes@;
            proof {
                assert(removed == v.blobs.remove(e.blob_checksum));
            }
            match self.take_blob(new_cs) {
                Some(mut existing) => {
                    existing.ref_count = if existing.ref_count < usize::MAX {
                        existing.ref_count + 1
                    } else {
                        existing.ref_count
                    };
                    self.put_blob(existing);
                    proof {
                        assert(self.spec_blobs() =~= add_ref(removed, new_cs, grown));
                    }
                },
                None => {
                    self.put_blob(b);
                    proof {
                        assert(self.spec_blobs() =~= add_ref(removed, new_cs, grown));
                    }
                },
            }
            let required = required_blocks(new_size, self.block_size);
            self.put_entry(BlockEntry {
                inode,
                blob_checksum: new_cs,
                size: new_size,
                device_block: e.device_block,
                allocated_blocks: if required > e.allocated_blocks { required } else { e.allocated_blocks },
            });
            proof {
                assert(self@ =~= append_spec(v, inode.0, extra@));
            }
            new_size
        } else {
            let mut bytes: Vec<u8> = Vec::new();
            push_bytes(&mut bytes, self.blobs[j].bytes.as_slice());
            push_bytes(&mut bytes, extra);
            self.write(inode, bytes)
        }
    }

    /// Give `target` the data of `source`, sharing its blob; `false` when
    /// `source` has no data.
    pub fn clone_for_inode(&mut self, source: InodeId, target: InodeId) -> (r: bool)
        requires
            old(self).wf(),
        ensures
            old(self).consistent() && old(self)@.blocks.dom().len() < usize::MAX && !old(self)@.blocks.contains_key(target.0)
                ==> final(self).consistent(),
            final(self).wf(),
            r == (old(self)@.blocks.contains_key(source.0) && old(self)@.blobs.contains_key(old(self)@.blocks[source.0].blob)),
            final(self)@ == clone_spec(old(self)@, source.0, target.0),
    {
        proof {
            self.lemma_wf();
            if self.consistent() && self@.blocks.dom().len() < usize::MAX && !self@.blocks.contains_key(target.0) {
                lemma_clone_keeps_refs(self@, source.0, target.0);
            }
        }
        let ghost v = self@;
        let i = match self.find_entry(source.0) {
            Some(i) => i,
            None => {
                return false;
            },
        };
        let e = self.blocks[i];
        let j = match self.find_blob(e.blob_checksum) {
            Some(j) => j,
            None => {
                return false;
            },
        };
        let mut b = self.take_blob(e.blob_checksum).unwrap();
        b.ref_count = if b.ref_count < usize::MAX { b.ref_count + 1 } else { b.ref_count };
        self.put_blob(b);
        proof {
            assert(self.spec_blobs() =~= v.blobs.insert(e.blob_checksum, BlobView {
                bytes: v.blobs[e.blob_checksum].bytes,
                ref_count: inc_count(v.blobs[e.blob_checksum].ref_count),
            }));
        }
        let required = required_blocks(e.size, self.block_size);
        let (device_block, allocated_blocks) = allocate_exec(&mut self.free_extents, &mut self.next_device_block,
            &self.policy, required);
        self.put_entry(BlockEntry {
            inode: target,
            blob_checksum: e.blob_checksum,
            size: e.size,
            device_block,
            allocated_blocks,
        });
        proof {
            assert(self@ =~= clone_spec(v, source.0, target.0));
        }
        true
    }

    /// The data of every inode, in increasing inode order (inodes whose
    /// blob is missing are skipped).
    pub fn records(&self) -> (r: Vec<BlockRecord>)
        requires
            self.wf(),
        ensures
            forall|i: int| 0 <= i < r@.len() ==> record_of(#[trigger] r@[i], self@, r@[i].inode.0),
            forall|i: int, j: int| 0 <= i < j < r@.len() ==> (#[trigger] r@[i]).inode.0 < (#[trigger] r@[j]).inode.0,
            refs_consistent(self@) ==> r@.len() == self@.blocks.dom().len(),
    {
        proof {
            self.lemma_wf();
        }
        let mut out: Vec<BlockRecord> = Vec::new();
        let mut i: usize = 0;
        while i < self.blocks.len()
            invariant
                self.wf(),
                i <= self.blocks@.len(),
                self@.blocks.dom().len() == self.blocks@.len(),
                forall|q: int| 0 <= q < out@.len() ==> record_of(#[trigger] out@[q], self@, out@[q].inode.0),
                forall|q1: int, q2: int| 0 <= q1 < q2 < out@.len() ==> (#[trigger] out@[q1]).inode.0 < (#[trigger] out@[q2]).inode.0,
                out@.len() > 0 ==> out@.last().inode.0 < (if i < self.blocks@.len() { self.blocks@[i as int].inode.0 as int } else { u64::MAX + 1 }),
                out@.len() <= i,
                refs_consistent(self@) ==> out@.len() == i,
            decreases self.blocks@.len() - i,
        {
            let id = self.blocks[i].inode;
            proof {
                lemma_entry_at(self.blocks@, i as int);
            }
            match self.read(id) {
                Some(rec) => {
                    out.push(rec);
                },
                None => {},
            }
            proof {
                if i + 1 < self.blocks@.len() {
                    assert(self.blocks@[i as int].inode.0 < self.blocks@[i + 1].inode.0);
                }
            }
            i = i + 1;
        }
        out
    }

    /// Number of entries, of blobs, and of entries beyond the blobs.
    pub fn dedupe_stats(&self) -> (r: DedupeStats)
        requires
            self.wf(),
        ensures
            r.logical_blocks == self@.blocks.dom().len(),
            r.unique_blobs == self@.blobs.dom().len(),
            r.deduplicated_blocks == sat_sub(self@.blocks.dom().len() as u64, self@.blobs.dom().len() as u64),
    {
        proof {
            self.lemma_wf();
        }
        let l = self.blocks.len();
        let u = self.blobs.len();
        DedupeStats { logical_blocks: l, unique_blobs: u, deduplicated_blocks: l.saturating_sub(u) }
    }
}

impl Default for BlockStore {
    fn default() -> (r: Self)
        ensures
            r.wf(),
            r@ == empty_store(4096, default_policy()),
    {
        Self::with_block_size(4096)
    }
}

/// `a + b` held at `usize::MAX`.
pub open spec fn sat_add_usize(a: usize, b: usize) -> usize {
    if a + b > usize::MAX { usize::MAX } else { (a + b) as usize }
}

/// `a * b` held at `usize::MAX`.
pub open spec fn sat_mul_usize(a: usize, b: usize) -> usize {
    if a * b > usize::MAX { usize::MAX } else { (a * b) as usize }
}

/// `a * b` held at `u64::MAX`.
pub open spec fn sat_mul(a: u64, b: u64) -> u64 {
    if a * b > u64::MAX { u64::MAX } else { (a * b) as u64 }
}

/// Sharing statistics over the first `n` blobs of `keys`.
pub open spec fn cow_fold(keys: Seq<u64>, blobs: Map<u64, BlobView>, n: int) -> CowStats
    decreases n,
{
    if n <= 0 {
        CowStats { shared_blobs: 0, shared_logical_bytes: 0, bytes_saved_by_sharing: 0, exclusive_blobs: 0, max_ref_count: 0 }
    } else {
        let a = cow_fold(keys, blobs, n - 1);
        let b = blobs[keys[n - 1]];
        let len = b.bytes.len() as usize;
        let m = if b.ref_count > a.max_ref_count { b.ref_count } else { a.max_ref_count };
        if b.ref_count > 1 {
            CowStats {
                shared_blobs: (a.shared_blobs + 1) as usize,
                shared_logical_bytes: sat_add_usize(a.shared_logical_bytes, sat_mul_usize(len, b.ref_count)),
                bytes_saved_by_sharing: sat_add_usize(a.bytes_saved_by_sharing, sat_mul_usize(len, (b.ref_count - 1) as usize)),
                max_ref_count: m,
                ..a
            }
        } else {
            CowStats { exclusive_blobs: (a.exclusive_blobs + 1) as usize, max_ref_count: m, ..a }
        }
    }
}

/// Sum of the free extents' sizes.
pub open spec fn free_total(s: Seq<FreeExtentRecord>) -> int
    decreases s.len(),
{
    if s.len() == 0 { 0 } else { free_total(s.drop_last()) + s.last().allocated_blocks }
}

/// Size of the largest free extent (0 when none).
pub open spec fn free_largest(s: Seq<FreeExtentRecord>) -> u64
    decreases s.len(),
{
    if s.len() == 0 {
        0
    } else {
        let m = free_largest(s.drop_last());
        if s.last().allocated_blocks > m { s.last().allocated_blocks } else { m }
    }
}

proof fn lemma_free_bounds(s: Seq<FreeExtentRecord>)
    ensures
        0 <= free_largest(s) <= free_total(s),
        free_total(s) >= 0,
    decreases s.len(),
{
    if s.len() > 0 {
        lemma_free_bounds(s.drop_last());
    }
}

/// The free-space report for free list `free` under `policy`.
pub open spec fn fragmentation_spec(free: Seq<FreeExtentRecord>, policy: AllocatorPolicy) -> FragmentationReport {
    let total = free_total(free) as u64;
    let largest = free_largest(free);
    let fragmented = sat_sub(total, largest);
    let percent: u8 = if total == 0 {
        0
    } else {
        let p = sat_mul(fragmented, 100) / total;
        (if p < 100 { p } else { 100 }) as u8
    };
    let threshold = if policy.fragmentation_threshold_percent < 100 { policy.fragmentation_threshold_percent } else { 100 };
    FragmentationReport {
        free_extents: free.len() as usize,
        total_free_blocks: total,
        largest_free_extent: largest,
        fragmented_free_blocks: fragmented,
        fragmentation_percent: percent,
        needs_compaction: policy.background_compaction_enabled && percent >= threshold && free.len() > 1,
    }
}

impl BlockStore {
    /// Sharing statistics over all blobs.
    pub fn cow_stats(&self) -> (r: CowStats)
        requires
            self.wf(),
        ensures
            r == cow_fold(self.spec_blob_keys(), self@.blobs, self.spec_blob_keys().len() as int),
    {
        let mut st = CowStats { shared_blobs: 0, shared_logical_bytes: 0, bytes_saved_by_sharing: 0, exclusive_blobs: 0, max_ref_count: 0 };
        let mut i: usize = 0;
        while i < self.blobs.len()
            invariant
                self.wf(),
                i <= self.blobs@.len(),
                st == cow_fold(self.spec_blob_keys(), self@.blobs, i as int),
                st.shared_blobs + st.exclusive_blobs == i,
            decreases self.blobs@.len() - i,
        {
            proof {
                lemma_blob_at(self.blobs@, i as int);
                assert(self.spec_blob_keys()[i as int] == self.blobs@[i as int].checksum);
            }
            let b = &self.blobs[i];
            let rc = b.ref_count;
            let len = b.bytes.len();
            let m = if rc > st.max_ref_count { rc } else { st.max_ref_count };
            if rc > 1 {
                st = CowStats {
                    shared_blobs: st.shared_blobs + 1,
                    shared_logical_bytes: st.shared_logical_bytes.saturating_add(sat_mul_usz(len, rc)),
                    bytes_saved_by_sharing: st.bytes_saved_by_sharing.saturating_add(sat_mul_usz(len, rc - 1)),
                    exclusive_blobs: st.exclusive_blobs,
                    max_ref_count: m,
                };
            } else {
                st = CowStats {
                    shared_blobs: st.shared_blobs,
                    shared_logical_bytes: st.shared_logical_bytes,
                    bytes_saved_by_sharing: st.bytes_saved_by_sharing,
                    exclusive_blobs: st.exclusive_blobs + 1,
                    max_ref_count: m,
                };
            }
            i = i + 1;
        }
        st
    }

    /// Free-space statistics.
    pub fn fragmentation_report(&self) -> (r: FragmentationReport)
        requires
            free_total(self@.free) <= u64::MAX,
        ensures
            r == fragmentation_spec(self@.free, self@.policy),
    {
        let mut total: u64 = 0;
        let mut largest: u64 = 0;
        let mut i: usize = 0;
        while i < self.free_extents.len()
            invariant
                i <= self.free_extents@.len(),
                free_total(self.free_extents@) <= u64::MAX,
                total == free_total(self.free_extents@.subrange(0, i as int)),
                largest == free_largest(self.free_extents@.subrange(0, i as int)),
            decreases self.free_extents@.len() - i,
        {
            proof {
                assert(self.free_extents@.subrange(0, i as int + 1).drop_last() =~= self.free_extents@.subrange(0, i as int));
                lemma_free_prefix(self.free_extents@, i as int + 1);
            }
            let a = self.free_extents[i].allocated_blocks;
            total = total + a;
            if a > largest {
                largest = a;
            }
            i = i + 1;
        }
        proof {
            assert(self.free_extents@.subrange(0, i as int) =~= self.free_extents@);
            lemma_free_bounds(self.free_extents@);
        }
        let fragmented = total.saturating_sub(largest);
        let percent: u8 = if total == 0 {
            0
        } else {
            let p = sat_mul_u64(fragmented, 100) / total;
            (if p < 100 { p } else { 100 }) as u8
        };
        let threshold = if self.policy.fragmentation_threshold_percent < 100 { self.policy.fragmentation_threshold_percent } else { 100 };
        FragmentationReport {
            free_extents: self.free_extents.len(),
            total_free_blocks: total,
            largest_free_extent: largest,
            fragmented_free_blocks: fragmented,
            fragmentation_percent: percent,
            needs_compaction: self.policy.background_compaction_enabled && percent >= threshold && self.free_extents.len() > 1,
        }
    }
}

proof fn lemma_free_prefix(s: Seq<FreeExtentRecord>, n: int)
    requires
        0 <= n <= s.len(),
    ensures
        free_total(s.subrange(0, n)) <= free_total(s),
    decreases s.len() - n,
{
    lemma_free_bounds(s.subrange(0, n));
    if n < s.len() {
        lemma_free_prefix(s, n + 1);
        assert(s.subrange(0, n + 1).drop_last() =~= s.subrange(0, n));
    } else {
        assert(s.subrange(0, n) =~= s);
    }
}

fn sat_mul_u64(a: u64, b: u64) -> (r: u64)
    ensures
        r == sat_mul(a, b),
{
    match a.checked_mul(b) {
        Some(v) => v,
        None => u64::MAX,
    }
}

fn sat_mul_usz(a: usize, b: usize) -> (r: usize)
    ensures
        r == sat_mul_usize(a, b),
{
    match a.checked_mul(b) {
        Some(v) => v,
        None => usize::MAX,
    }
}

/// `s` sorted by key with `x` inserted after every element whose key is at
/// most its own.
pub open spec fn insert_keyed(s: Seq<(u128, usize)>, x: (u128, usize)) -> Seq<(u128, usize)>
    decreases s.len(),
{
    if s.len() == 0 {
        seq![x]
    } else if s.last().0 <= x.0 {
        s.push(x)
    } else {
        insert_keyed(s.drop_last(), x).push(s.last())
    }
}

/// Stable sort by key.
pub open spec fn sort_keyed(s: Seq<(u128, usize)>) -> Seq<(u128, usize)>
    decreases s.len(),
{
    if s.len() == 0 {
        s
    } else {
        insert_keyed(sort_keyed(s.drop_last()), s.last())
    }
}

/// Position of each entry paired with its placement key: the device block,
/// after the priority rank when ranks are given.
spec fn keyed_entries(s: Seq<BlockEntry>, prioritized: Option<Seq<InodeId>>) -> Seq<(u128, usize)> {
    Seq::new(s.len(), |i: int| (placement_key(s[i], prioritized), i as usize))
}

spec fn placement_key(e: BlockEntry, prioritized: Option<Seq<InodeId>>) -> u128 {
    match prioritized {
        None => e.device_block as u128,
        Some(p) => (rank_of(p, e.inode.0) * 18446744073709551616 + e.device_block) as u128,
    }
}

/// Priority rank of inode `id`: the last position at which it is listed,
/// or `usize::MAX` when it is not.
pub open spec fn rank_of(p: Seq<InodeId>, id: u64) -> int
    decreases p.len(),
{
    if p.len() == 0 {
        usize::MAX as int
    } else if p.last().0 == id {
        p.len() - 1
    } else {
        rank_of(p.drop_last(), id)
    }
}

/// Entries laid out back to back from block 0 in the order `ord`: the new
/// device blocks, the end, the number of entries that moved, and how many
/// of those were prioritized entries moved towards the start.
spec fn lay_out(s: Seq<BlockEntry>, ord: Seq<(u128, usize)>, n: int, prioritized: Option<Seq<InodeId>>)
    -> (Seq<u64>, u64, int, int)
    decreases n,
{
    if n <= 0 {
        (s.map_values(|e: BlockEntry| e.device_block), 0, 0, 0)
    } else {
        let a = lay_out(s, ord, n - 1, prioritized);
        let idx = ord[n - 1].1 as int;
        let e = s[idx];
        let c = a.1;
        let moved = e.device_block != c;
        let hot = match prioritized {
            None => false,
            Some(p) => rank_of(p, e.inode.0) < usize::MAX,
        };
        (a.0.update(idx, c), sat_add(c, e.allocated_blocks),
            a.2 + if moved { 1int } else { 0int },
            a.3 + if moved && hot && c < e.device_block { 1int } else { 0int })
    }
}

spec fn with_blocks(s: Seq<BlockEntry>, d: Seq<u64>) -> Seq<BlockEntry> {
    Seq::new(s.len(), |i: int| BlockEntry { device_block: d[i], ..s[i] })
}

spec fn count_ranked(s: Seq<BlockEntry>, p: Seq<InodeId>, n: int) -> int
    decreases n,
{
    if n <= 0 { 0 } else { count_ranked(s, p, n - 1) + if rank_of(p, s[n - 1].inode.0) < usize::MAX { 1int } else { 0int } }
}

fn insert_keyed_exec(v: &mut Vec<(u128, usize)>, x: (u128, usize))
    ensures
        final(v)@ == insert_keyed(old(v)@, x),
    decreases old(v)@.len(),
{
    if v.len() == 0 {
        v.push(x);
        proof {
            assert(v@ =~= seq![x]);
        }
        return;
    }
    let last = v[v.len() - 1];
    if last.0 <= x.0 {
        v.push(x);
        return;
    }
    let ghost s = v@;
    let l = v.pop().unwrap();
    proof {
        assert(v@ == s.drop_last());
    }
    insert_keyed_exec(v, x);
    v.push(l);
}

proof fn lemma_insert_keyed_len_idx(s: Seq<(u128, usize)>, x: (u128, usize))
    ensures
        insert_keyed(s, x).len() == s.len() + 1,
    decreases s.len(),
{
    if s.len() > 0 && s.last().0 > x.0 {
        lemma_insert_keyed_len_idx(s.drop_last(), x);
    }
}

proof fn lemma_insert_keyed_members(s: Seq<(u128, usize)>, x: (u128, usize), k: int)
    requires
        0 <= k < insert_keyed(s, x).len(),
    ensures
        insert_keyed(s, x)[k] == x || exists|q: int| 0 <= q < s.len() && s[q] == insert_keyed(s, x)[k],
    decreases s.len(),
{
    lemma_insert_keyed_len_idx(s, x);
    if s.len() == 0 {
    } else if s.last().0 <= x.0 {
        if k < s.len() {
            assert(s[k] == insert_keyed(s, x)[k]);
        }
    } else {
        let t = insert_keyed(s.drop_last(), x);
        lemma_insert_keyed_len_idx(s.drop_last(), x);
        if k < t.len() {
            lemma_insert_keyed_members(s.drop_last(), x, k);
            if t[k] != x {
                let q = choose|q: int| 0 <= q < s.drop_last().len() && s.drop_last()[q] == t[k];
                assert(s[q] == t[k]);
            }
        } else {
            assert(insert_keyed(s, x)[k] == s.last());
            assert(s[s.len() - 1] == s.last());
        }
    }
}

impl BlockStore {
    /// Entry positions in placement order: by device block, after the
    /// priority rank when `prioritized` is given; ties keep inode order.
    fn placement_order(&self, prioritized: Option<&[InodeId]>) -> (r: Vec<(u128, usize)>)
        requires
            self.wf(),
        ensures
            r@ == sort_keyed(keyed_entries(self.blocks@, match prioritized { None => None, Some(p) => Some(p@) })),
            forall|k: int| 0 <= k < r@.len() ==> (#[trigger] r@[k]).1 < self.blocks@.len(),
            r@.len() == self.blocks@.len(),
    {
        let ghost pr = match prioritized { None => None::<Seq<InodeId>>, Some(p) => Some(p@) };
        let ghost ke = keyed_entries(self.blocks@, pr);
        let mut out: Vec<(u128, usize)> = Vec::new();
        let mut i: usize = 0;
        while i < self.blocks.len()
            invariant
                i <= self.blocks@.len(),
                ke == keyed_entries(self.blocks@, pr),
                pr == match prioritized { None => None::<Seq<InodeId>>, Some(p) => Some(p@) },
                out@ == sort_keyed(ke.subrange(0, i as int)),
                out@.len() == i,
                forall|k: int| 0 <= k < out@.len() ==> (#[trigger] out@[k]).1 < i,
            decreases self.blocks@.len() - i,
        {
            let e = self.blocks[i];
            let key: u128 = match prioritized {
                None => e.device_block as u128,
                Some(p) => {
                    let mut rank: usize = usize::MAX;
                    let mut j: usize = 0;
                    while j < p.len()
                        invariant
                            j <= p@.len(),
                            rank as int == rank_of(p@.subrange(0, j as int), e.inode.0),
                        decreases p@.len() - j,
                    {
                        proof {
                            assert(p@.subrange(0, j as int + 1).drop_last() =~= p@.subrange(0, j as int));
                        }
                        if p[j].0 == e.inode.0 {
                            rank = j;
                        }
                        j = j + 1;
                    }
                    proof {
                        assert(p@.subrange(0, j as int) =~= p@);
                    }
                    (rank as u128) * 18446744073709551616u128 + (e.device_block as u128)
                },
            };
            proof {
                assert(ke[i as int] == (key, i));
                assert(ke.subrange(0, i as int + 1).drop_last() =~= ke.subrange(0, i as int));
                assert(ke.subrange(0, i as int + 1).last() == ke[i as int]);
                lemma_insert_keyed_len_idx(out@, (key, i));
            }
            let ghost before = out@;
            insert_keyed_exec(&mut out, (key, i));
            proof {
                assert forall|k: int| 0 <= k < out@.len() implies (#[trigger] out@[k]).1 < i + 1 by {
                    lemma_insert_keyed_members(before, (key, i), k);
                    if out@[k] != (key, i) {
                        let q = choose|q: int| 0 <= q < before.len() && before[q] == out@[k];
                        assert(before[q].1 < i);
                    }
                }
            }
            i = i + 1;
        }
        proof {
            assert(ke.subrange(0, i as int) =~= ke);
        }
        out
    }
}

proof fn lemma_sort_keyed_members(s: Seq<(u128, usize)>, k: int)
    requires
        0 <= k < sort_keyed(s).len(),
    ensures
        exists|q: int| 0 <= q < s.len() && s[q] == sort_keyed(s)[k],
    decreases s.len(),
{
    if s.len() > 0 {
        let t = sort_keyed(s.drop_last());
        lemma_sort_keyed_len(s.drop_last());
        lemma_insert_keyed_members(t, s.last(), k);
        if sort_keyed(s)[k] != s.last() {
            let q = choose|q: int| 0 <= q < t.len() && t[q] == sort_keyed(s)[k];
            lemma_sort_keyed_members(s.drop_last(), q);
            let w = choose|w: int| 0 <= w < s.drop_last().len() && s.drop_last()[w] == t[q];
            assert(s[w] == sort_keyed(s)[k]);
        } else {
            assert(s[s.len() - 1] == sort_keyed(s)[k]);
        }
    }
}

proof fn lemma_sort_keyed_len(s: Seq<(u128, usize)>)
    ensures
        sort_keyed(s).len() == s.len(),
    decreases s.len(),
{
    if s.len() > 0 {
        lemma_sort_keyed_len(s.drop_last());
        lemma_insert_keyed_len_idx(sort_keyed(s.drop_last()), s.last());
    }
}

fn rank_exec(p: &[InodeId], id: u64) -> (r: usize)
    ensures
        r as int == rank_of(p@, id),
{
    let mut rank: usize = usize::MAX;
    let mut j: usize = 0;
    while j < p.len()
        invariant
            j <= p@.len(),
            rank as int == rank_of(p@.subrange(0, j as int), id),
        decreases p@.len() - j,
    {
        proof {
            assert(p@.subrange(0, j as int + 1).drop_last() =~= p@.subrange(0, j as int));
        }
        if p[j].0 == id {
            rank = j;
        }
        j = j + 1;
    }
    proof {
        assert(p@.subrange(0, j as int) =~= p@);
    }
    rank
}

/// Inode numbers of `s` in placement order `ord`.
spec fn ordered_ids(s: Seq<BlockEntry>, ord: Seq<(u128, usize)>) -> Seq<u64> {
    ord.map_values(|x: (u128, usize)| s[x.1 as int].inode.0)
}

/// Listed inodes that have data, in list order.
pub open spec fn present_priorities(p: Seq<InodeId>, blocks: Map<u64, EntryView>) -> Seq<u64> {
    p.filter(|x: InodeId| blocks.contains_key(x.0)).map_values(|x: InodeId| x.0)
}

impl BlockStore {
    /// State after laying the entries out back to back in placement order
    /// (free list emptied), with the end block, the number of moved
    /// entries and the number of prioritized entries moved forward.
    pub closed spec fn relaid(&self, prioritized: Option<Seq<InodeId>>) -> (StoreView, u64, int, int) {
        let ord = sort_keyed(keyed_entries(self.blocks@, prioritized));
        let r = lay_out(self.blocks@, ord, ord.len() as int, prioritized);
        (StoreView { blocks: entry_map(with_blocks(self.blocks@, r.0)), free: Seq::empty(), next: r.1, ..self@ }, r.1, r.2, r.3)
    }

    /// Laying the extents out again keeps the reference counts right.
    pub proof fn lemma_relaid_keeps_refs(&self, prioritized: Option<Seq<InodeId>>)
        requires
            self.wf(),
            self.consistent(),
        ensures
            refs_consistent(self.relaid(prioritized).0),
    {
        let ord = sort_keyed(keyed_entries(self.blocks@, prioritized));
        let r = lay_out(self.blocks@, ord, ord.len() as int, prioritized);
        lemma_with_blocks_keys(self.blocks@, r.0);
        lemma_same_refs(self@.blocks, self.relaid(prioritized).0.blocks, self@.blobs);
    }

    /// Whether the listed inodes that have data are not the first ones in
    /// device-block order.
    pub closed spec fn misplaced(&self, p: Seq<InodeId>) -> bool {
        let f = present_priorities(p, self@.blocks);
        let ids = ordered_ids(self.blocks@, sort_keyed(keyed_entries(self.blocks@, None)));
        let k = if f.len() < ids.len() { f.len() } else { ids.len() };
        f.len() > 0 && ids.subrange(0, k as int) != f
    }

    /// Number of listed inodes that have data.
    pub closed spec fn ranked_count(&self, p: Seq<InodeId>) -> int {
        count_ranked(self.blocks@, p, self.blocks@.len() as int)
    }

    fn relay(&mut self, prioritized: Option<&[InodeId]>) -> (r: (u64, usize, usize))
        requires
            old(self).wf(),
        ensures
            final(self).wf(),
            ({
                let pr = match prioritized { None => None, Some(p) => Some(p@) };
                let t = old(self).relaid(pr);
                &&& final(self)@ == t.0
                &&& r.0 == t.1
                &&& r.1 as int == t.2
                &&& r.2 as int == t.3
            }),
    {
        let ghost pr = match prioritized { None => None::<Seq<InodeId>>, Some(p) => Some(p@) };
        let ghost s = self.blocks@;
        let ord = self.placement_order(prioritized);
        let n = self.blocks.len();
        let mut d: Vec<u64> = Vec::new();
        let mut i: usize = 0;
        while i < n
            invariant
                n == self.blocks@.len(),
                self.blocks@ == s,
                i <= n,
                d@ == s.map_values(|e: BlockEntry| e.device_block).subrange(0, i as int),
            decreases n - i,
        {
            d.push(self.blocks[i].device_block);
            proof {
                assert(d@ =~= s.map_values(|e: BlockEntry| e.device_block).subrange(0, i as int + 1));
            }
            i = i + 1;
        }
        proof {
            assert(d@ =~= s.map_values(|e: BlockEntry| e.device_block));
        }
        let mut cursor: u64 = 0;
        let mut moved: usize = 0;
        let mut promoted: usize = 0;
        let mut k: usize = 0;
        while k < ord.len()
            invariant
                self.wf(),
                n == self.blocks@.len(),
                self.blocks@ == s,
                ord@ == sort_keyed(keyed_entries(s, pr)),
                ord@.len() == n,
                pr == match prioritized { None => None::<Seq<InodeId>>, Some(p) => Some(p@) },
                forall|q: int| 0 <= q < ord@.len() ==> (#[trigger] ord@[q]).1 < n,
                k <= ord@.len(),
                (d@, cursor, moved as int, promoted as int) == lay_out(s, ord@, k as int, pr),
                d@.len() == n,
                moved <= k,
                promoted <= k,
            decreases ord@.len() - k,
        {
            let idx = ord[k].1;
            let e = self.blocks[idx];
            let hot = match prioritized {
                None => false,
                Some(p) => rank_exec(p, e.inode.0) < usize::MAX,
            };
            if e.device_block != cursor {
                moved = moved + 1;
                if hot && cursor < e.device_block {
                    promoted = promoted + 1;
                }
            }
            proof {
                assert(ord@[k as int].1 == idx);
                assert(s[idx as int] == e);
            }
            d.set(idx, cursor);
            cursor = cursor.saturating_add(e.allocated_blocks);
            k = k + 1;
        }
        proof {
            assert(ord@.len() == k);
        }
        let mut i: usize = 0;
        while i < n
            invariant
                n == s.len(),
                d@.len() == n,
                i <= n,
                self.blocks@.len() == n,
                self.block_size == old(self).block_size,
                self.blobs == old(self).blobs,
                self.policy == old(self).policy,
                self.pending_trims == old(self).pending_trims,
                self.free_extents == old(self).free_extents,
                self.next_device_block == old(self).next_device_block,
                old(self).wf(),
                forall|j: int| 0 <= j < i ==> #[trigger] self.blocks@[j] == (BlockEntry { device_block: d@[j], ..s[j] }),
                forall|j: int| i <= j < n ==> #[trigger] self.blocks@[j] == s[j],
            decreases n - i,
        {
            let mut e = self.blocks[i];
            e.device_block = d[i];
            self.blocks.set(i, e);
            i = i + 1;
        }
        proof {
            assert(self.blocks@ =~= with_blocks(s, d@));
            assert(entries_sorted(self.blocks@)) by {
                assert forall|a: int, b: int| 0 <= a < b < self.blocks@.len() implies
                    (#[trigger] self.blocks@[a]).inode.0 < (#[trigger] self.blocks@[b]).inode.0 by {
                    assert(s[a].inode.0 < s[b].inode.0);
                }
            }
        }
        self.free_extents.clear();
        self.next_device_block = cursor;
        proof {
            assert(self@ =~= old(self).relaid(pr).0);
        }
        (cursor, moved, promoted)
    }

    /// Lay every entry out back to back from block 0 in device-block order
    /// (ties in inode order), dropping the free list.
    pub fn defragment(&mut self) -> (r: DefragmentationReport)
        requires
            old(self).wf(),
        ensures
            old(self).consistent() ==> final(self).consistent(),
            final(self).wf(),
            final(self)@ == old(self).relaid(None).0,
            r == (DefragmentationReport {
                moved_entries: old(self).relaid(None).2 as usize,
                reclaimed_gaps: old(self)@.free.len() as usize,
                final_device_blocks: old(self).relaid(None).1,
            }),
    {
        proof {
            if self.consistent() {
                self.lemma_relaid_keeps_refs(None);
            }
        }
        let original_free = self.free_extents.len();
        let (cursor, moved, _) = self.relay(None);
        DefragmentationReport { moved_entries: moved, reclaimed_gaps: original_free, final_device_blocks: cursor }
    }

    /// Lay every entry out back to back from block 0, the listed inodes
    /// first (by their last position in the list), then the rest; each
    /// group in device-block order.
    pub fn reallocate_prioritized_extents(&mut self, prioritized: &[InodeId]) -> (r: HeatReallocationReport)
        requires
            old(self).wf(),
        ensures
            old(self).consistent() ==> final(self).consistent(),
            final(self).wf(),
            final(self)@ == old(self).relaid(Some(prioritized@)).0,
            r == (HeatReallocationReport {
                prioritized_inodes: old(self).ranked_count(prioritized@) as usize,
                promoted_hot_inodes: old(self).relaid(Some(prioritized@)).3 as usize,
                moved_entries: old(self).relaid(Some(prioritized@)).2 as usize,
                final_device_blocks: old(self).relaid(Some(prioritized@)).1,
            }),
    {
        proof {
            if self.consistent() {
                self.lemma_relaid_keeps_refs(Some(prioritized@));
            }
        }
        let mut count: usize = 0;
        let mut i: usize = 0;
        while i < self.blocks.len()
            invariant
                i <= self.blocks@.len(),
                count as int == count_ranked(self.blocks@, prioritized@, i as int),
                count <= i,
            decreases self.blocks@.len() - i,
        {
            if rank_exec(prioritized, self.blocks[i].inode.0) < usize::MAX {
                count = count + 1;
            }
            i = i + 1;
        }
        let (cursor, moved, promoted) = self.relay(Some(prioritized));
        HeatReallocationReport {
            prioritized_inodes: count,
            promoted_hot_inodes: promoted,
            moved_entries: moved,
            final_device_blocks: cursor,
        }
    }

    fn has_misplaced_priorities(&self, prioritized: &[InodeId]) -> (r: bool)
        requires
            self.wf(),
        ensures
            r == self.misplaced(prioritized@),
    {
        let ord = self.placement_order(None);
        let ghost f = present_priorities(prioritized@, self@.blocks);
        let mut present: Vec<u64> = Vec::new();
        let mut j: usize = 0;
        while j < prioritized.len()
            invariant
                self.wf(),
                j <= prioritized@.len(),
                present@ == present_priorities(prioritized@.subrange(0, j as int), self@.blocks),
            decreases prioritized@.len() - j,
        {
            let id = prioritized[j].0;
            let has = self.contains(prioritized[j]);
            proof {
                let sub = prioritized@.subrange(0, j as int + 1);
                assert(sub.drop_last() =~= prioritized@.subrange(0, j as int));
                sub.drop_last().lemma_filter_push(prioritized@[j as int], |x: InodeId| self@.blocks.contains_key(x.0));
                assert(sub =~= sub.drop_last().push(prioritized@[j as int]));
            }
            if has {
                present.push(id);
                proof {
                    let a = prioritized@.subrange(0, j as int).filter(|x: InodeId| self@.blocks.contains_key(x.0));
                    assert(a.push(prioritized@[j as int]).map_values(|x: InodeId| x.0) =~= a.map_values(|x: InodeId| x.0).push(id));
                }
            }
            j = j + 1;
        }
        proof {
            assert(prioritized@.subrange(0, j as int) =~= prioritized@);
        }
        if present.len() == 0 {
            return false;
        }
        let n = ord.len();
        let k = if present.len() < n { present.len() } else { n };
        let ghost ids = ordered_ids(self.blocks@, ord@);
        proof {
            assert(present@ == f);
            assert(ids.len() == n);
            assert(ord@ == sort_keyed(keyed_entries(self.blocks@, None)));
            assert(ids == ordered_ids(self.blocks@, sort_keyed(keyed_entries(self.blocks@, None))));
        }
        if k != present.len() {
            proof {
                assert(ids.subrange(0, k as int).len() != f.len());
            }
            return true;
        }
        let mut i: usize = 0;
        while i < k
            invariant
                self.wf(),
                k <= ord@.len(),
                k == present@.len(),
                present@ == f,
                f == present_priorities(prioritized@, self@.blocks),
                f.len() > 0,
                ids.len() == ord@.len(),
                ord@ == sort_keyed(keyed_entries(self.blocks@, None)),
                ids == ordered_ids(self.blocks@, ord@),
                k == (if f.len() < ids.len() { f.len() } else { ids.len() }),
                forall|q: int| 0 <= q < ord@.len() ==> (#[trigger] ord@[q]).1 < self.blocks@.len(),
                i <= k,
                forall|q: int| 0 <= q < i ==> ids[q] == f[q],
            decreases k - i,
        {
            let idx = ord[i].1;
            if self.blocks[idx].inode.0 != present[i] {
                proof {
                    assert(ids.subrange(0, k as int)[i as int] != f[i as int]);
                }
                return true;
            }
            i = i + 1;
        }
        proof {
            assert(ids.subrange(0, k as int) =~= f);
        }
        false
    }

    /// Optimise with no prioritized inodes.
    pub fn optimize(&mut self) -> (r: OptimizationReport)
        requires
            old(self).wf(),
            free_total(old(self)@.free) <= u64::MAX,
        ensures
            old(self).consistent() ==> final(self).consistent(),
            final(self).wf(),
            ({
                let o = optimized(*old(self), Seq::empty());
                &&& final(self)@ == o.0
                &&& r == o.1
            }),
    {
        proof {
            if self.consistent() {
                self.lemma_relaid_keeps_refs(None);
                self.lemma_relaid_keeps_refs(Some(Seq::empty()));
            }
        }
        self.optimize_with_priorities(&[])
    }

    /// Report fragmentation; when the prioritized inodes are out of place
    /// (or fragmentation reaches the threshold with several free extents)
    /// relay them first; otherwise defragment when fragmentation reaches
    /// the threshold with several free extents; report again.
    pub fn optimize_with_priorities(&mut self, prioritized: &[InodeId]) -> (r: OptimizationReport)
        requires
            old(self).wf(),
            free_total(old(self)@.free) <= u64::MAX,
        ensures
            old(self).consistent() ==> final(self).consistent(),
            final(self).wf(),
            ({
                let o = optimized(*old(self), prioritized@);
                &&& final(self)@ == o.0
                &&& r == o.1
            }),
    {
        proof {
            if self.consistent() {
                self.lemma_relaid_keeps_refs(None);
                self.lemma_relaid_keeps_refs(Some(prioritized@));
            }
        }
        let before = self.fragmentation_report();
        let threshold = if self.policy.fragmentation_threshold_percent < 100 { self.policy.fragmentation_threshold_percent } else { 100 };
        let should_compact = before.fragmentation_percent >= threshold && before.free_extents > 1;
        let heat = if prioritized.len() > 0 && (should_compact || self.has_misplaced_priorities(prioritized)) {
            Some(self.reallocate_prioritized_extents(prioritized))
        } else {
            None
        };
        proof {
            if heat is Some {
                assert(free_total(self@.free) == 0);
            }
        }
        let after_heat = self.fragmentation_report();
        let defrag = if heat.is_none() && after_heat.fragmentation_percent >= threshold && after_heat.free_extents > 1 {
            Some(self.defragment())
        } else {
            None
        };
        proof {
            if defrag is Some {
                assert(free_total(self@.free) == 0);
            }
        }
        let after = self.fragmentation_report();
        OptimizationReport { before, after, heat_reallocation: heat, defragmentation: defrag }
    }
}

/// State and report of an optimisation pass with priorities `p`.
pub open spec fn optimized(s: BlockStore, p: Seq<InodeId>) -> (StoreView, OptimizationReport) {
    let v = s@;
    let before = fragmentation_spec(v.free, v.policy);
    let threshold = if v.policy.fragmentation_threshold_percent < 100 { v.policy.fragmentation_threshold_percent } else { 100 };
    let should_compact = before.fragmentation_percent >= threshold && before.free_extents > 1;
    if p.len() > 0 && (should_compact || s.misplaced(p)) {
        let t = s.relaid(Some(p));
        let heat = HeatReallocationReport {
            prioritized_inodes: s.ranked_count(p) as usize,
            promoted_hot_inodes: t.3 as usize,
            moved_entries: t.2 as usize,
            final_device_blocks: t.1,
        };
        let after = fragmentation_spec(t.0.free, t.0.policy);
        (t.0, OptimizationReport { before, after, heat_reallocation: Some(heat), defragmentation: None })
    } else {
        let after_heat = before;
        if after_heat.fragmentation_percent >= threshold && after_heat.free_extents > 1 {
            let t = s.relaid(None);
            let defrag = DefragmentationReport {
                moved_entries: t.2 as usize,
                reclaimed_gaps: v.free.len() as usize,
                final_device_blocks: t.1,
            };
            let after = fragmentation_spec(t.0.free, t.0.policy);
            (t.0, OptimizationReport { before, after, heat_reallocation: None, defragmentation: Some(defrag) })
        } else {
            (v, OptimizationReport { before, after: before, heat_reallocation: None, defragmentation: None })
        }
    }
}

/// End block of an extent, held at `u64::MAX`.
pub open spec fn extent_end(start: u64, len: u64) -> u64 {
    sat_add(start, len)
}

/// State after taking in the first `n` of `recs`: each record's blob gains
/// a reference (created from its bytes when absent), its entry is stored
/// (at least one block), and the frontier moves past its extent.
pub open spec fn ingest_fold(v: StoreView, recs: Seq<BlockRecord>, n: int) -> StoreView
    decreases n,
{
    if n <= 0 {
        v
    } else {
        let w = ingest_fold(v, recs, n - 1);
        let r = recs[n - 1];
        let ab = if r.allocated_blocks > 1 { r.allocated_blocks } else { 1 };
        let end = sat_add(r.device_block, ab);
        StoreView {
            next: if end > w.next { end } else { w.next },
            blobs: add_ref(w.blobs, r.checksum, r.bytes@),
            blocks: w.blocks.insert(r.inode.0, EntryView {
                blob: r.checksum,
                size: r.bytes@.len() as usize,
                device_block: r.device_block,
                allocated_blocks: ab,
            }),
            ..w
        }
    }
}

/// Free gaps before the occupied extents taken in order `ord` (by start),
/// starting from block 0, and the end of the last one.
spec fn gaps(s: Seq<BlockEntry>, ord: Seq<(u128, usize)>, n: int) -> (Seq<FreeExtentRecord>, u64)
    decreases n,
{
    if n <= 0 {
        (Seq::empty(), 0)
    } else {
        let g = gaps(s, ord, n - 1);
        let e = s[ord[n - 1].1 as int];
        let end = extent_end(e.device_block, e.allocated_blocks);
        let free = if e.device_block > g.1 {
            g.0.push(FreeExtentRecord { device_block: g.1, allocated_blocks: (e.device_block - g.1) as u64 })
        } else {
            g.0
        };
        (free, if end > g.1 { end } else { g.1 })
    }
}

/// Largest extent end of the free list (0 when empty).
pub open spec fn max_free_end(s: Seq<FreeExtentRecord>) -> u64
    decreases s.len(),
{
    if s.len() == 0 {
        0
    } else {
        let m = max_free_end(s.drop_last());
        let e = extent_end(s.last().device_block, s.last().allocated_blocks);
        if e > m { e } else { m }
    }
}

/// The free list sorted by start has no extent running into the next,
/// and no free extent overlaps a stored one.
pub open spec fn free_layout_ok(free: Seq<FreeExtentRecord>, blocks: Map<u64, EntryView>) -> bool {
    let f = sort_by_start(free);
    &&& forall|i: int| 0 <= i < f.len() - 1 ==> extent_end(f[i].device_block, f[i].allocated_blocks) <= #[trigger] f[i + 1].device_block
    &&& forall|i: int, k: u64| 0 <= i < f.len() && #[trigger] blocks.contains_key(k) ==> !(
        f[i].device_block < extent_end(blocks[k].device_block, blocks[k].allocated_blocks)
        && blocks[k].device_block < extent_end(#[trigger] f[i].device_block, f[i].allocated_blocks))
}

impl BlockStore {
    /// Largest extent end among the entries (0 when none).
    pub closed spec fn max_entry_end(&self) -> u64 {
        max_entry_end_of(self.blocks@)
    }

    /// The free list rebuilt from the gaps between the stored extents and
    /// the frontier moved from `next0` past the last one, tail-trimmed when
    /// enabled.
    pub closed spec fn rebuilt_with(&self, next0: u64) -> (Seq<FreeExtentRecord>, u64) {
        let ord = sort_keyed(keyed_entries(self.blocks@, None));
        let g = gaps(self.blocks@, ord, ord.len() as int);
        let next = if g.1 > next0 { g.1 } else { next0 };
        if self.policy.tail_trim_enabled { trim_tail(g.0, next) } else { (g.0, next) }
    }
}

spec fn max_entry_end_of(s: Seq<BlockEntry>) -> u64
    decreases s.len(),
{
    if s.len() == 0 {
        0
    } else {
        let m = max_entry_end_of(s.drop_last());
        let e = extent_end(s.last().device_block, s.last().allocated_blocks);
        if e > m { e } else { m }
    }
}

impl BlockStore {
    fn rebuild_free_extents(&mut self)
        requires
            old(self).wf(),
        ensures
            final(self).wf(),
            final(self).blocks == old(self).blocks,
            final(self)@ == (StoreView {
                free: old(self).rebuilt_with(old(self)@.next).0,
                next: old(self).rebuilt_with(old(self)@.next).1,
                ..old(self)@
            }),
    {
        let ghost s = self.blocks@;
        let ord = self.placement_order(None);
        let mut free: Vec<FreeExtentRecord> = Vec::new();
        let mut cursor: u64 = 0;
        let mut k: usize = 0;
        while k < ord.len()
            invariant
                self.wf(),
                self.blocks@ == s,
                ord@ == sort_keyed(keyed_entries(s, None)),
                forall|q: int| 0 <= q < ord@.len() ==> (#[trigger] ord@[q]).1 < s.len(),
                k <= ord@.len(),
                (free@, cursor) == gaps(s, ord@, k as int),
            decreases ord@.len() - k,
        {
            let e = self.blocks[ord[k].1];
            let end = e.device_block.saturating_add(e.allocated_blocks);
            if e.device_block > cursor {
                free.push(FreeExtentRecord { device_block: cursor, allocated_blocks: e.device_block - cursor });
            }
            if end > cursor {
                cursor = end;
            }
            k = k + 1;
        }
        if cursor > self.next_device_block {
            self.next_device_block = cursor;
        }
        if self.policy.tail_trim_enabled {
            trim_tail_exec(&mut free, &mut self.next_device_block);
        }
        self.free_extents = free;
        proof {
            assert(self@ =~= (StoreView {
                free: old(self).rebuilt_with(old(self)@.next).0,
                next: old(self).rebuilt_with(old(self)@.next).1,
                ..old(self)@
            }));
        }
    }

    fn validate_allocator_state(&mut self) -> (r: Result<(), ()>)
        requires
            old(self).wf(),
        ensures
            final(self).wf(),
            final(self).blocks == old(self).blocks,
            r is Ok <==> free_layout_ok(old(self)@.free, old(self)@.blocks),
            r is Err ==> final(self)@ == old(self)@,
            r is Ok ==> final(self)@ == (StoreView {
                next: max3(old(self)@.next, max_free_end(sort_by_start(old(self)@.free)), old(self).max_entry_end()),
                ..old(self)@
            }),
    {
        let free = sort_free(self.free_extents.clone());
        proof {
            assert(free@ == sort_by_start(self@.free));
        }
        let n = free.len();
        let mut i: usize = 0;
        while n > 0 && i < n - 1
            invariant
                old(self).wf(),
                self == old(self),
                i <= n,
                n == free@.len(),
                free@ == sort_by_start(old(self)@.free),
                forall|j: int| 0 <= j < i && j < n - 1 ==> extent_end(free@[j].device_block, free@[j].allocated_blocks)
                    <= #[trigger] free@[j + 1].device_block,
            decreases n - i,
        {
            let left = free[i];
            let right = free[i + 1];
            if left.device_block.saturating_add(left.allocated_blocks) > right.device_block {
                return Err(());
            }
            i = i + 1;
        }
        let mut i: usize = 0;
        while i < n
            invariant
                old(self).wf(),
                self == old(self),
                n == free@.len(),
                free@ == sort_by_start(old(self)@.free),
                forall|j: int| 0 <= j < n - 1 ==> extent_end(free@[j].device_block, free@[j].allocated_blocks)
                    <= #[trigger] free@[j + 1].device_block,
                forall|j: int, k: u64| 0 <= j < i && #[trigger] old(self)@.blocks.contains_key(k) ==> !(
                    free@[j].device_block < extent_end(old(self)@.blocks[k].device_block, old(self)@.blocks[k].allocated_blocks)
                    && old(self)@.blocks[k].device_block < extent_end(#[trigger] free@[j].device_block, free@[j].allocated_blocks)),
            decreases n - i,
        {
            let fs = free[i].device_block;
            let fe = fs.saturating_add(free[i].allocated_blocks);
            let mut t: usize = 0;
            while t < self.blocks.len()
                invariant
                    old(self).wf(),
                    self == old(self),
                    i < n == free@.len(),
                    free@ == sort_by_start(old(self)@.free),
                    fs == free@[i as int].device_block,
                    fe == extent_end(fs, free@[i as int].allocated_blocks),
                    t <= self.blocks@.len(),
                    forall|q: int| 0 <= q < t ==> !(fs < extent_end((#[trigger] self.blocks@[q]).device_block, self.blocks@[q].allocated_blocks)
                        && self.blocks@[q].device_block < fe),
                decreases self.blocks@.len() - t,
            {
                let e = self.blocks[t];
                let oe = e.device_block.saturating_add(e.allocated_blocks);
                if fs < oe && e.device_block < fe {
                    proof {
                        lemma_entry_at(self.blocks@, t as int);
                        let k = e.inode.0;
                        assert(old(self)@.blocks.contains_key(k));
                        assert(old(self)@.blocks[k] == entry_view(e));
                        assert(free@[i as int].device_block < extent_end(old(self)@.blocks[k].device_block, old(self)@.blocks[k].allocated_blocks)
                            && old(self)@.blocks[k].device_block < extent_end(free@[i as int].device_block, free@[i as int].allocated_blocks));
                    }
                    return Err(());
                }
                t = t + 1;
            }
            proof {
                assert forall|k: u64| #[trigger] old(self)@.blocks.contains_key(k) implies !(
                    free@[i as int].device_block < extent_end(old(self)@.blocks[k].device_block, old(self)@.blocks[k].allocated_blocks)
                    && old(self)@.blocks[k].device_block < extent_end(free@[i as int].device_block, free@[i as int].allocated_blocks)) by {
                    let q = choose|q: int| 0 <= q < self.blocks@.len() && self.blocks@[q].inode.0 == k;
                    lemma_entry_at(self.blocks@, q);
                }
            }
            i = i + 1;
        }
        let mut max_free: u64 = 0;
        let mut i: usize = 0;
        while i < n
            invariant
                n == free@.len(),
                i <= n,
                max_free == max_free_end(free@.subrange(0, i as int)),
            decreases n - i,
        {
            proof {
                assert(free@.subrange(0, i as int + 1).drop_last() =~= free@.subrange(0, i as int));
            }
            let e = free[i].device_block.saturating_add(free[i].allocated_blocks);
            if e > max_free {
                max_free = e;
            }
            i = i + 1;
        }
        proof {
            assert(free@.subrange(0, i as int) =~= free@);
        }
        let mut max_occ: u64 = 0;
        let mut i: usize = 0;
        while i < self.blocks.len()
            invariant
                self == old(self),
                i <= self.blocks@.len(),
                max_occ == max_entry_end_of(self.blocks@.subrange(0, i as int)),
            decreases self.blocks@.len() - i,
        {
            proof {
                assert(self.blocks@.subrange(0, i as int + 1).drop_last() =~= self.blocks@.subrange(0, i as int));
            }
            let e = self.blocks[i].device_block.saturating_add(self.blocks[i].allocated_blocks);
            if e > max_occ {
                max_occ = e;
            }
            i = i + 1;
        }
        proof {
            assert(self.blocks@.subrange(0, i as int) =~= self.blocks@);
        }
        let m = if max_free > max_occ { max_free } else { max_occ };
        if m > self.next_device_block {
            self.next_device_block = m;
        }
        proof {
            assert(self@ =~= (StoreView {
                next: max3(old(self)@.next, max_free_end(sort_by_start(old(self)@.free)), old(self).max_entry_end()),
                ..old(self)@
            }));
        }
        Ok(())
    }

    fn adopt_free_extents(&mut self, free_extents: Vec<FreeExtentRecord>) -> (r: Result<(), ()>)
        requires
            old(self).wf(),
        ensures
            final(self).wf(),
            final(self).blocks == old(self).blocks,
            final(self).policy == old(self).policy,
            ({
                let t = tidy_free(nonempty_free(free_extents@), old(self)@.next, old(self)@.policy);
                let mid = StoreView { free: t.0, next: t.1, ..old(self)@ };
                &&& (r is Ok <==> free_layout_ok(t.0, old(self)@.blocks))
                &&& (r is Err ==> final(self)@ == mid)
                &&& (r is Ok ==> final(self)@ == (StoreView {
                    next: max3(t.1, max_free_end(sort_by_start(t.0)), old(self).max_entry_end()),
                    ..mid
                }))
            }),
    {
        let mut kept: Vec<FreeExtentRecord> = Vec::new();
        let mut i: usize = 0;
        while i < free_extents.len()
            invariant
                i <= free_extents@.len(),
                kept@ == nonempty_free(free_extents@.subrange(0, i as int)),
            decreases free_extents@.len() - i,
        {
            proof {
                let sub = free_extents@.subrange(0, i as int + 1);
                assert(sub.drop_last() =~= free_extents@.subrange(0, i as int));
                sub.drop_last().lemma_filter_push(free_extents@[i as int], |e: FreeExtentRecord| e.allocated_blocks > 0);
                assert(sub =~= sub.drop_last().push(free_extents@[i as int]));
            }
            if free_extents[i].allocated_blocks > 0 {
                kept.push(free_extents[i]);
            }
            i = i + 1;
        }
        proof {
            assert(free_extents@.subrange(0, i as int) =~= free_extents@);
        }
        self.free_extents = kept;
        tidy_free_exec(&mut self.free_extents, &mut self.next_device_block, &self.policy);
        proof {
            assert(self.blocks == old(self).blocks);
        }
        self.validate_allocator_state()
    }

    fn ingest_records(&mut self, records: Vec<BlockRecord>)
        requires
            old(self).wf(),
        ensures
            final(self).wf(),
            ingested(old(self)@, records@, *final(self)),
    {
        let ghost v0 = self@;
        let mut i: usize = 0;
        while i < records.len()
            invariant
                self.wf(),
                i <= records@.len(),
                self@ == ingest_fold(v0, records@, i as int),
            decreases records@.len() - i,
        {
            let r = &records[i];
            let ab = if r.allocated_blocks > 1 { r.allocated_blocks } else { 1 };
            let end = r.device_block.saturating_add(ab);
            if end > self.next_device_block {
                self.next_device_block = end;
            }
            let mut bytes: Vec<u8> = Vec::new();
            push_bytes(&mut bytes, r.bytes.as_slice());
            self.blob_add_ref(r.checksum, bytes);
            self.put_entry(BlockEntry {
                inode: r.inode,
                blob_checksum: r.checksum,
                size: r.bytes.len(),
                device_block: r.device_block,
                allocated_blocks: ab,
            });
            proof {
                assert(self@ =~= ingest_fold(v0, records@, i as int + 1));
            }
            i = i + 1;
        }
        self.rebuild_free_extents();
    }

    /// A store of 4096-byte blocks holding `records`.
    pub fn from_records(records: Vec<BlockRecord>) -> (r: Self)
        ensures
            r.wf(),
            ingested(empty_store(4096, default_policy()), records@, r),
    {
        let mut store = Self::default();
        store.ingest_records(records);
        store
    }

    /// A store of `block_size`-byte blocks holding `records`.
    pub fn from_records_with_block_size(records: Vec<BlockRecord>, block_size: usize) -> (r: Self)
        ensures
            r.wf(),
            ingested(empty_store(block_size, default_policy()), records@, r),
    {
        let mut store = Self::with_block_size(block_size);
        store.ingest_records(records);
        store
    }

    /// A store holding `records` with `policy`, adopting `free_extents`
    /// when they fit the records and rebuilding the free list otherwise.
    pub fn from_records_with_allocator(
        records: Vec<BlockRecord>,
        block_size: usize,
        policy: AllocatorPolicy,
        free_extents: Vec<FreeExtentRecord>,
    ) -> (r: Self)
        ensures
            r.wf(),
            ({
                let g = ingest_fold(empty_store(block_size, policy), records@, records@.len() as int);
                let n1 = r.rebuilt_with(g.next).1;
                let t = tidy_free(nonempty_free(free_extents@), n1, policy);
                &&& r@.blocks == g.blocks
                &&& r@.blobs == g.blobs
                &&& r@.policy == policy
                &&& r@.block_size == g.block_size
                &&& free_layout_ok(t.0, g.blocks) ==> r@.free == t.0
                    && r@.next == max3(t.1, max_free_end(sort_by_start(t.0)), r.max_entry_end())
                &&& !free_layout_ok(t.0, g.blocks) ==> (r@.free, r@.next) == r.rebuilt_with(t.1)
            }),
    {
        let mut store = Self::with_block_size_and_policy(block_size, policy);
        store.ingest_records(records);
        let ghost mid = store;
        let adopted = store.adopt_free_extents(free_extents);
        let ghost mid2 = store;
        if adopted.is_err() {
            store.rebuild_free_extents();
        }
        proof {
            lemma_ingest_fold_fields(empty_store(block_size, policy), records@, records@.len() as int);
            assert(store.blocks == mid.blocks);
            assert(store.policy == mid.policy);
            assert(store.rebuilt_with(ingest_fold(empty_store(block_size, policy), records@, records@.len() as int).next)
                == mid.rebuilt_with(ingest_fold(empty_store(block_size, policy), records@, records@.len() as int).next));
            assert(store.max_entry_end() == mid.max_entry_end());
        }
        store
    }
}

/// Largest of three.
pub open spec fn max3(a: u64, b: u64, c: u64) -> u64 {
    let m = if b > c { b } else { c };
    if a > m { a } else { m }
}

/// `r` holds what taking `recs` into `v` gives, its free list rebuilt.
pub open spec fn ingested(v: StoreView, recs: Seq<BlockRecord>, r: BlockStore) -> bool {
    let g = ingest_fold(v, recs, recs.len() as int);
    &&& r@.blocks == g.blocks
    &&& r@.blobs == g.blobs
    &&& r@.policy == g.policy
    &&& r@.block_size == g.block_size
    &&& r@.trims == g.trims
    &&& (r@.free, r@.next) == r.rebuilt_with(g.next)
}

/// The extents of `s` that cover at least one block.
pub open spec fn nonempty_free(s: Seq<FreeExtentRecord>) -> Seq<FreeExtentRecord> {
    s.filter(|e: FreeExtentRecord| e.allocated_blocks > 0)
}

proof fn lemma_ingest_fold_fields(v: StoreView, recs: Seq<BlockRecord>, n: int)
    ensures
        ingest_fold(v, recs, n).policy == v.policy,
        ingest_fold(v, recs, n).block_size == v.block_size,
        ingest_fold(v, recs, n).trims == v.trims,
    decreases n,
{
    if n > 0 {
        lemma_ingest_fold_fields(v, recs, n - 1);
    }
}

/// Number of entries of `es` that refer to blob `c`.
spec fn seq_refs(es: Seq<BlockEntry>, c: u64) -> nat
    decreases es.len(),
{
    if es.len() == 0 {
        0
    } else {
        seq_refs(es.drop_last(), c) + if es.last().blob_checksum == c { 1nat } else { 0nat }
    }
}

proof fn lemma_seq_refs_bound(es: Seq<BlockEntry>, c: u64)
    ensures
        seq_refs(es, c) <= es.len(),
    decreases es.len(),
{
    if es.len() > 0 {
        lemma_seq_refs_bound(es.drop_last(), c);
    }
}

proof fn lemma_entry_map_push(es: Seq<BlockEntry>)
    requires
        es.len() > 0,
        entries_sorted(es),
    ensures
        entry_map(es) == entry_map(es.drop_last()).insert(es.last().inode.0, entry_view(es.last())),
        !entry_map(es.drop_last()).contains_key(es.last().inode.0),
        entries_sorted(es.drop_last()),
{
    let t = es.drop_last();
    let x = es.last();
    let m = entry_map(t).insert(x.inode.0, entry_view(x));
    assert(entries_sorted(t)) by {
        assert forall|i: int, j: int| 0 <= i < j < t.len() implies (#[trigger] t[i]).inode.0 < (#[trigger] t[j]).inode.0 by {
            assert(es[i].inode.0 < es[j].inode.0);
        }
    }
    assert(!entry_map(t).contains_key(x.inode.0)) by {
        if entry_map(t).contains_key(x.inode.0) {
            let i = choose|i: int| 0 <= i < t.len() && t[i].inode.0 == x.inode.0;
            assert(es[i].inode.0 < es[es.len() - 1].inode.0);
        }
    }
    assert forall|k: u64| #[trigger] entry_map(es).contains_key(k) <==> m.contains_key(k) by {
        if entry_map(es).contains_key(k) && k != x.inode.0 {
            let i = choose|i: int| 0 <= i < es.len() && es[i].inode.0 == k;
            assert(i < t.len());
            assert(t[i].inode.0 == k);
        }
        if m.contains_key(k) && k != x.inode.0 {
            let i = choose|i: int| 0 <= i < t.len() && t[i].inode.0 == k;
            assert(es[i].inode.0 == k);
        }
        if k == x.inode.0 {
            assert(es[es.len() - 1].inode.0 == k);
        }
    }
    assert forall|k: u64| entry_map(es).contains_key(k) implies entry_map(es)[k] == m[k] by {
        let i = choose|i: int| 0 <= i < es.len() && es[i].inode.0 == k;
        lemma_entry_at(es, i);
        if i < t.len() {
            lemma_entry_at(t, i);
            assert(t[i] == es[i]);
        }
    }
    assert(entry_map(es) =~= m);
}

/// Counting references along the sorted entries agrees with counting the
/// entries of the map.
proof fn lemma_seq_refs_map(es: Seq<BlockEntry>, c: u64)
    requires
        entries_sorted(es),
    ensures
        seq_refs(es, c) == ref_count_of(entry_map(es), c),
        entry_map(es).dom().finite(),
    decreases es.len(),
{
    if es.len() == 0 {
        assert(entry_map(es).dom() =~= Set::<u64>::empty());
        assert(entry_map(es).dom().filter(|k: u64| entry_map(es)[k].blob == c) =~= Set::<u64>::empty());
    } else {
        lemma_entry_map_push(es);
        lemma_seq_refs_map(es.drop_last(), c);
        lemma_refs_insert(entry_map(es.drop_last()), es.last().inode.0, entry_view(es.last()), c);
    }
}

/// Blobs as (checksum, bytes, reference count).
spec fn blob_triples(bs: Seq<BlobRecord>) -> Seq<(u64, Seq<u8>, usize)> {
    bs.map_values(|b: BlobRecord| (b.checksum, b.bytes@, b.ref_count))
}

/// Blobs still referenced by `es`, with their counts corrected.
spec fn recounted(bs: Seq<(u64, Seq<u8>, usize)>, es: Seq<BlockEntry>) -> Seq<(u64, Seq<u8>, usize)>
    decreases bs.len(),
{
    if bs.len() == 0 {
        bs
    } else {
        let r = recounted(bs.drop_last(), es);
        let b = bs.last();
        let ex = seq_refs(es, b.0);
        if ex > 0 { r.push((b.0, b.1, ex as usize)) } else { r }
    }
}

spec fn count_mismatched(bs: Seq<(u64, Seq<u8>, usize)>, es: Seq<BlockEntry>) -> int
    decreases bs.len(),
{
    if bs.len() == 0 {
        0
    } else {
        count_mismatched(bs.drop_last(), es) + if bs.last().2 != seq_refs(es, bs.last().0) { 1int } else { 0int }
    }
}

spec fn count_collisions(bs: Seq<(u64, Seq<u8>, usize)>) -> int
    decreases bs.len(),
{
    if bs.len() == 0 {
        0
    } else {
        count_collisions(bs.drop_last()) + if fold_checksum(bs.last().1) != bs.last().0 { 1int } else { 0int }
    }
}

spec fn bytes_total(bs: Seq<(u64, Seq<u8>, usize)>) -> int
    decreases bs.len(),
{
    if bs.len() == 0 { 0 } else { bytes_total(bs.drop_last()) + bs.last().1.len() }
}

/// Index of the first blob in `bs` with the same bytes as blob `i`.
#[verifier::opaque]
spec fn canon_index(bs: Seq<(u64, Seq<u8>, usize)>, i: int) -> int {
    choose|j: int| 0 <= j <= i && bs[j].1 == bs[i].1 && forall|q: int| 0 <= q < j ==> bs[q].1 != bs[i].1
}

/// Checksum of the first blob with the same bytes as blob `c`.
#[verifier::opaque]
spec fn canon(bs: Seq<(u64, Seq<u8>, usize)>, c: u64) -> u64 {
    if exists|i: int| 0 <= i < bs.len() && bs[i].0 == c {
        bs[canon_index(bs, choose|i: int| 0 <= i < bs.len() && bs[i].0 == c)].0
    } else {
        c
    }
}

spec fn dup_count(bs: Seq<(u64, Seq<u8>, usize)>, n: int) -> int
    decreases n,
{
    if n <= 0 { 0 } else { dup_count(bs, n - 1) + if canon_index(bs, n - 1) != n - 1 { 1int } else { 0int } }
}

spec fn dup_bytes(bs: Seq<(u64, Seq<u8>, usize)>, n: int) -> int
    decreases n,
{
    if n <= 0 { 0 } else { dup_bytes(bs, n - 1) + if canon_index(bs, n - 1) != n - 1 { bs[n - 1].1.len() as int } else { 0int } }
}

/// Entries with their blob replaced by the canonical one.
spec fn remapped(es: Seq<BlockEntry>, bs: Seq<(u64, Seq<u8>, usize)>) -> Seq<BlockEntry> {
    es.map_values(|e: BlockEntry| BlockEntry { blob_checksum: canon(bs, e.blob_checksum), ..e })
}

/// Canonical blobs (first of their bytes), counted again over `es`.
spec fn canonical_blobs(bs: Seq<(u64, Seq<u8>, usize)>, n: int, es: Seq<BlockEntry>) -> Seq<(u64, Seq<u8>, usize)>
    decreases n,
{
    if n <= 0 {
        Seq::empty()
    } else {
        let r = canonical_blobs(bs, n - 1, es);
        if canon_index(bs, n - 1) == n - 1 {
            r.push((bs[n - 1].0, bs[n - 1].1, seq_refs(es, bs[n - 1].0) as usize))
        } else {
            r
        }
    }
}

spec fn triples_map(bs: Seq<(u64, Seq<u8>, usize)>) -> Map<u64, BlobView> {
    Map::new(
        |k: u64| exists|i: int| 0 <= i < bs.len() && bs[i].0 == k,
        |k: u64| {
            let i = choose|i: int| 0 <= i < bs.len() && bs[i].0 == k;
            BlobView { bytes: bs[i].1, ref_count: bs[i].2 }
        },
    )
}

impl BlockStore {
    /// State and report of a deduplication pass: counts corrected (blobs
    /// nobody refers to dropped), blobs whose bytes do not hash to their
    /// checksum counted, and byte-identical blobs merged into the one with
    /// the smallest checksum, the entries moved over to it.
    pub closed spec fn deduped(&self) -> (StoreView, DedupePassReport) {
        let b0 = blob_triples(self.blobs@);
        let b1 = recounted(b0, self.blocks@);
        let es = remapped(self.blocks@, b1);
        let b2 = canonical_blobs(b1, b1.len() as int, es);
        (StoreView { blocks: entry_map(es), blobs: triples_map(b2), ..self@ }, DedupePassReport {
            blobs_scanned: b0.len() as usize,
            bytes_scanned: bytes_total(b0) as usize,
            duplicates_consolidated: dup_count(b1, b1.len() as int) as usize,
            bytes_reclaimed: dup_bytes(b1, b1.len() as int) as usize,
            hash_collisions: count_collisions(b1) as usize,
            ref_count_mismatches: count_mismatched(b0, self.blocks@) as usize,
        })
    }

    /// Total bytes held in blobs.
    pub closed spec fn blob_bytes_total(&self) -> int {
        bytes_total(blob_triples(self.blobs@))
    }
}


proof fn lemma_seq_refs_step(es: Seq<BlockEntry>, j: int, c: u64)
    requires
        0 <= j < es.len(),
    ensures
        seq_refs(es.take(j + 1), c) == seq_refs(es.take(j), c) + if es[j].blob_checksum == c { 1nat } else { 0nat },
{
    assert(es.take(j + 1).drop_last() =~= es.take(j));
}

/// Number of entries that refer to blob `c`.
fn count_refs(es: &Vec<BlockEntry>, c: u64) -> (r: usize)
    ensures
        r == seq_refs(es@, c),
{
    let mut n: usize = 0;
    let mut j: usize = 0;
    while j < es.len()
        invariant
            j <= es@.len(),
            n == seq_refs(es@.take(j as int), c),
            n <= j,
        decreases es@.len() - j,
    {
        proof {
            lemma_seq_refs_step(es@, j as int, c);
        }
        if es[j].blob_checksum == c {
            n = n + 1;
        }
        j = j + 1;
    }
    assert(es@.take(es@.len() as int) =~= es@);
    n
}

proof fn lemma_triples_take(bs: Seq<BlobRecord>, i: int)
    requires
        0 <= i < bs.len(),
    ensures
        blob_triples(bs.take(i + 1)).drop_last() == blob_triples(bs.take(i)),
        blob_triples(bs.take(i + 1)).last() == (bs[i].checksum, bs[i].bytes@, bs[i].ref_count),
        blob_triples(bs.take(i + 1)).len() == i + 1,
{
    assert(blob_triples(bs.take(i + 1)).drop_last() =~= blob_triples(bs.take(i)));
}

/// Phase one of a deduplication pass: blobs counted again over the entries,
/// those nobody refers to dropped; also the number of counts that were wrong.
fn recount_blobs(bs: &Vec<BlobRecord>, es: &Vec<BlockEntry>) -> (r: (Vec<BlobRecord>, usize))
    requires
        blobs_sorted(bs@),
    ensures
        blob_triples(r.0@) == recounted(blob_triples(bs@), es@),
        r.1 == count_mismatched(blob_triples(bs@), es@),
        blobs_sorted(r.0@),
{
    let mut out: Vec<BlobRecord> = Vec::new();
    let mut mism: usize = 0;
    let mut i: usize = 0;
    while i < bs.len()
        invariant
            blobs_sorted(bs@),
            i <= bs@.len(),
            blob_triples(out@) == recounted(blob_triples(bs@.take(i as int)), es@),
            mism == count_mismatched(blob_triples(bs@.take(i as int)), es@),
            mism <= i,
            blobs_sorted(out@),
            i == 0 ==> out@.len() == 0,
            i > 0 ==> forall|k: int| 0 <= k < out@.len() ==> (#[trigger] out@[k]).checksum <= bs@[i - 1].checksum,
        decreases bs@.len() - i,
    {
        let c = bs[i].checksum;
        let ex = count_refs(es, c);
        proof {
            lemma_triples_take(bs@, i as int);
            lemma_seq_refs_bound(es@, c);
        }
        if bs[i].ref_count != ex {
            mism = mism + 1;
        }
        if ex > 0 {
            let mut bytes: Vec<u8> = Vec::new();
            push_bytes(&mut bytes, bs[i].bytes.as_slice());
            let ghost before = out@;
            out.push(BlobRecord { bytes, checksum: c, ref_count: ex });
            proof {
                assert(bytes@ =~= bs@[i as int].bytes@);
                assert(blob_triples(out@) =~= blob_triples(before).push((c, bs@[i as int].bytes@, ex)));
                assert forall|a: int, b: int| 0 <= a < b < out@.len() implies (#[trigger] out@[a]).checksum < (#[trigger] out@[b]).checksum by {
                    if b == out@.len() - 1 && i > 0 {
                        assert(before[a].checksum <= bs@[i - 1].checksum);
                        assert(bs@[i - 1].checksum < bs@[i as int].checksum);
                    }
                }
            }
        }
        proof {
            assert forall|k: int| 0 <= k < out@.len() implies (#[trigger] out@[k]).checksum <= bs@[i as int].checksum by {
                if k < out@.len() - 1 || ex == 0 {
                    if i > 0 {
                        assert(bs@[i - 1].checksum < bs@[i as int].checksum);
                    }
                }
            }
        }
        i = i + 1;
    }
    assert(bs@.take(bs@.len() as int) =~= bs@);
    (out, mism)
}


/// Sum of the blob lengths.
fn total_bytes(bs: &Vec<BlobRecord>) -> (r: usize)
    requires
        bytes_total(blob_triples(bs@)) <= usize::MAX,
    ensures
        r == bytes_total(blob_triples(bs@)),
{
    let mut n: usize = 0;
    let mut i: usize = 0;
    proof {
        lemma_bytes_total_prefix(blob_triples(bs@), 0);
    }
    while i < bs.len()
        invariant
            i <= bs@.len(),
            n == bytes_total(blob_triples(bs@.take(i as int))),
            bytes_total(blob_triples(bs@)) <= usize::MAX,
        decreases bs@.len() - i,
    {
        proof {
            lemma_triples_take(bs@, i as int);
            assert(blob_triples(bs@.take(i as int + 1)) =~= blob_triples(bs@).take(i as int + 1));
            lemma_bytes_total_prefix(blob_triples(bs@), i as int + 1);
        }
        n = n + bs[i].bytes.len();
        i = i + 1;
    }
    assert(bs@.take(bs@.len() as int) =~= bs@);
    n
}

proof fn lemma_bytes_total_prefix(bs: Seq<(u64, Seq<u8>, usize)>, n: int)
    requires
        0 <= n <= bs.len(),
    ensures
        bytes_total(bs.take(n)) <= bytes_total(bs),
        bytes_total(bs.take(n)) >= 0,
    decreases bs.len() - n,
{
    lemma_bytes_total_nonneg(bs.take(n));
    if n < bs.len() {
        lemma_bytes_total_prefix(bs, n + 1);
        assert(bs.take(n + 1).drop_last() =~= bs.take(n));
    } else {
        assert(bs.take(n) =~= bs);
        lemma_bytes_total_nonneg(bs);
    }
}

proof fn lemma_bytes_total_nonneg(bs: Seq<(u64, Seq<u8>, usize)>)
    ensures
        bytes_total(bs) >= 0,
    decreases bs.len(),
{
    if bs.len() > 0 {
        lemma_bytes_total_nonneg(bs.drop_last());
    }
}

/// Number of blobs whose bytes do not hash to their checksum.
fn count_hash_collisions(bs: &Vec<BlobRecord>) -> (r: usize)
    ensures
        r == count_collisions(blob_triples(bs@)),
{
    let mut n: usize = 0;
    let mut i: usize = 0;
    while i < bs.len()
        invariant
            i <= bs@.len(),
            n == count_collisions(blob_triples(bs@.take(i as int))),
            n <= i,
        decreases bs@.len() - i,
    {
        proof {
            lemma_triples_take(bs@, i as int);
        }
        if checksum(bs[i].bytes.as_slice()) != bs[i].checksum {
            n = n + 1;
        }
        i = i + 1;
    }
    assert(bs@.take(bs@.len() as int) =~= bs@);
    n
}

fn bytes_equal(a: &Vec<u8>, b: &Vec<u8>) -> (r: bool)
    ensures
        r == (a@ == b@),
{
    if a.len() != b.len() {
        return false;
    }
    let mut i: usize = 0;
    while i < a.len()
        invariant
            a@.len() == b@.len(),
            i <= a@.len(),
            forall|k: int| 0 <= k < i ==> a@[k] == b@[k],
        decreases a@.len() - i,
    {
        if a[i] != b[i] {
            return false;
        }
        i = i + 1;
    }
    assert(a@ =~= b@);
    true
}

proof fn lemma_canon_index(bs: Seq<(u64, Seq<u8>, usize)>, i: int, j: int)
    requires
        0 <= j <= i < bs.len(),
        bs[j].1 == bs[i].1,
        forall|q: int| 0 <= q < j ==> bs[q].1 != bs[i].1,
    ensures
        canon_index(bs, i) == j,
{
    reveal(canon_index);
    let c = canon_index(bs, i);
    assert(0 <= c <= i && bs[c].1 == bs[i].1 && forall|q: int| 0 <= q < c ==> bs[q].1 != bs[i].1);
    if c < j {
        assert(bs[c].1 != bs[i].1);
    }
    if j < c {
        assert(bs[j].1 != bs[i].1);
    }
}

/// For each blob, the index of the first blob with the same bytes.
fn canonical_indices(bs: &Vec<BlobRecord>) -> (r: Vec<usize>)
    ensures
        r@.len() == bs@.len(),
        forall|i: int| 0 <= i < bs@.len() ==> (#[trigger] r@[i]) as int == canon_index(blob_triples(bs@), i),
        forall|i: int| 0 <= i < bs@.len() ==> r@[i] <= i && bs@[r@[i] as int].bytes@ == bs@[i].bytes@,
{
    let ghost t = blob_triples(bs@);
    let mut out: Vec<usize> = Vec::new();
    let mut i: usize = 0;
    while i < bs.len()
        invariant
            t == blob_triples(bs@),
            i <= bs@.len(),
            out@.len() == i,
            forall|k: int| 0 <= k < i ==> (#[trigger] out@[k]) as int == canon_index(t, k),
            forall|k: int| 0 <= k < i ==> out@[k] <= k && bs@[out@[k] as int].bytes@ == bs@[k].bytes@,
        decreases bs@.len() - i,
    {
        let mut j: usize = 0;
        while j < i
            invariant
                t == blob_triples(bs@),
                j <= i < bs@.len(),
                forall|q: int| 0 <= q < j ==> bs@[q].bytes@ != bs@[i as int].bytes@,
            ensures
                j <= i,
                j < i ==> bs@[j as int].bytes@ == bs@[i as int].bytes@,
                forall|q: int| 0 <= q < j ==> bs@[q].bytes@ != bs@[i as int].bytes@,
            decreases i - j,
        {
            if bytes_equal(&bs[j].bytes, &bs[i].bytes) {
                break;
            }
            j = j + 1;
        }
        proof {
            if j == i {
                assert(bs@[j as int].bytes@ == bs@[i as int].bytes@);
            }
            assert forall|q: int| 0 <= q < j implies t[q].1 != t[i as int].1 by {
                assert(bs@[q].bytes@ != bs@[i as int].bytes@);
            }
            lemma_canon_index(t, i as int, j as int);
        }
        out.push(j);
        i = i + 1;
    }
    out
}


proof fn lemma_recounted_bytes(bs: Seq<(u64, Seq<u8>, usize)>, es: Seq<BlockEntry>)
    ensures
        bytes_total(recounted(bs, es)) <= bytes_total(bs),
    decreases bs.len(),
{
    if bs.len() > 0 {
        lemma_recounted_bytes(bs.drop_last(), es);
        let r = recounted(bs.drop_last(), es);
        let b = bs.last();
        assert(r.push((b.0, b.1, seq_refs(es, b.0) as usize)).drop_last() =~= r);
    }
}

proof fn lemma_dup_bytes_bound(bs: Seq<(u64, Seq<u8>, usize)>, n: int)
    requires
        0 <= n <= bs.len(),
    ensures
        0 <= dup_bytes(bs, n) <= bytes_total(bs.take(n)),
        0 <= dup_count(bs, n) <= n,
    decreases n,
{
    if n > 0 {
        lemma_dup_bytes_bound(bs, n - 1);
        assert(bs.take(n).drop_last() =~= bs.take(n - 1));
    } else {
        assert(bs.take(0).len() == 0);
    }
}

/// Number and total size of the blobs that are not the first of their bytes.
fn duplicate_totals(bs: &Vec<BlobRecord>, cidx: &Vec<usize>) -> (r: (usize, usize))
    requires
        cidx@.len() == bs@.len(),
        forall|i: int| 0 <= i < bs@.len() ==> (#[trigger] cidx@[i]) as int == canon_index(blob_triples(bs@), i),
        bytes_total(blob_triples(bs@)) <= usize::MAX,
    ensures
        r.0 == dup_count(blob_triples(bs@), bs@.len() as int),
        r.1 == dup_bytes(blob_triples(bs@), bs@.len() as int),
{
    let ghost t = blob_triples(bs@);
    let mut n: usize = 0;
    let mut b: usize = 0;
    let mut i: usize = 0;
    while i < bs.len()
        invariant
            t == blob_triples(bs@),
            cidx@.len() == bs@.len(),
            forall|i: int| 0 <= i < bs@.len() ==> (#[trigger] cidx@[i]) as int == canon_index(t, i),
            bytes_total(t) <= usize::MAX,
            i <= bs@.len(),
            n == dup_count(t, i as int),
            b == dup_bytes(t, i as int),
        decreases bs@.len() - i,
    {
        proof {
            lemma_dup_bytes_bound(t, i as int + 1);
            lemma_bytes_total_prefix(t, i as int + 1);
            assert(cidx@[i as int] as int == canon_index(t, i as int));
        }
        if cidx[i] != i {
            n = n + 1;
            b = b + bs[i].bytes.len();
        }
        i = i + 1;
    }
    (n, b)
}

proof fn lemma_canon_at(b: Seq<BlobRecord>, i: int)
    requires
        blobs_sorted(b),
        0 <= i < b.len(),
    ensures
        canon(blob_triples(b), b[i].checksum) == b[canon_index(blob_triples(b), i)].checksum,
{
    reveal(canon);
    let t = blob_triples(b);
    lemma_canon_index_facts(t, i);
    let c = b[i].checksum;
    assert(t[i].0 == c);
    let k = choose|k: int| 0 <= k < t.len() && t[k].0 == c;
    if k != i {
        if k < i {
            assert(b[k].checksum < b[i].checksum);
        } else {
            assert(b[i].checksum < b[k].checksum);
        }
    }
}

/// The first blob with the bytes of blob `i` exists.
proof fn lemma_first_match(t: Seq<(u64, Seq<u8>, usize)>, i: int)
    requires
        0 <= i < t.len(),
    ensures
        exists|j: int| 0 <= j <= i && t[j].1 == t[i].1 && forall|q: int| 0 <= q < j ==> t[q].1 != t[i].1,
{
    lemma_first_match_from(t, i, 0);
}

proof fn lemma_first_match_from(t: Seq<(u64, Seq<u8>, usize)>, i: int, j: int)
    requires
        0 <= j <= i < t.len(),
        forall|q: int| 0 <= q < j ==> t[q].1 != t[i].1,
    ensures
        exists|w: int| 0 <= w <= i && t[w].1 == t[i].1 && forall|q: int| 0 <= q < w ==> t[q].1 != t[i].1,
    decreases i - j,
{
    if t[j].1 == t[i].1 {
        assert(0 <= j <= i && t[j].1 == t[i].1 && forall|q: int| 0 <= q < j ==> t[q].1 != t[i].1);
    } else {
        lemma_first_match_from(t, i, j + 1);
    }
}

proof fn lemma_canon_index_facts(t: Seq<(u64, Seq<u8>, usize)>, i: int)
    requires
        0 <= i < t.len(),
    ensures
        0 <= canon_index(t, i) <= i,
        t[canon_index(t, i)].1 == t[i].1,
        canon_index(t, canon_index(t, i)) == canon_index(t, i),
{
    reveal(canon_index);
    lemma_first_match(t, i);
    let j = canon_index(t, i);
    lemma_canon_index(t, j, j);
}

proof fn lemma_canon_absent(b: Seq<BlobRecord>, c: u64)
    requires
        forall|i: int| 0 <= i < b.len() ==> (#[trigger] b[i]).checksum != c,
    ensures
        canon(blob_triples(b), c) == c,
{
    reveal(canon);
    let t = blob_triples(b);
    if exists|i: int| 0 <= i < t.len() && t[i].0 == c {
        let i = choose|i: int| 0 <= i < t.len() && t[i].0 == c;
        assert(b[i].checksum == c);
    }
}

/// Entries moved over to the canonical blob of their bytes.
fn remap_entries(es: &Vec<BlockEntry>, bs: &Vec<BlobRecord>, cidx: &Vec<usize>) -> (r: Vec<BlockEntry>)
    requires
        blobs_sorted(bs@),
        cidx@.len() == bs@.len(),
        forall|i: int| 0 <= i < bs@.len() ==> (#[trigger] cidx@[i]) as int == canon_index(blob_triples(bs@), i),
    ensures
        r@ == remapped(es@, blob_triples(bs@)),
{
    let ghost t = blob_triples(bs@);
    let mut out: Vec<BlockEntry> = Vec::new();
    let mut k: usize = 0;
    while k < es.len()
        invariant
            t == blob_triples(bs@),
            blobs_sorted(bs@),
            cidx@.len() == bs@.len(),
            forall|i: int| 0 <= i < bs@.len() ==> (#[trigger] cidx@[i]) as int == canon_index(t, i),
            k <= es@.len(),
            out@ == remapped(es@.take(k as int), t),
        decreases es@.len() - k,
    {
        let e = es[k];
        let mut i: usize = 0;
        while i < bs.len()
            invariant
                i <= bs@.len(),
                forall|q: int| 0 <= q < i ==> (#[trigger] bs@[q]).checksum != e.blob_checksum,
            ensures
                i <= bs@.len(),
                i < bs@.len() ==> bs@[i as int].checksum == e.blob_checksum,
                forall|q: int| 0 <= q < i ==> (#[trigger] bs@[q]).checksum != e.blob_checksum,
            decreases bs@.len() - i,
        {
            if bs[i].checksum == e.blob_checksum {
                break;
            }
            i = i + 1;
        }
        let target = if i < bs.len() {
            proof {
                lemma_canon_at(bs@, i as int);
                lemma_canon_index_facts(t, i as int);
                assert(cidx@[i as int] as int == canon_index(t, i as int));
            }
            bs[cidx[i]].checksum
        } else {
            proof {
                lemma_canon_absent(bs@, e.blob_checksum);
            }
            e.blob_checksum
        };
        let ghost before = out@;
        out.push(BlockEntry { blob_checksum: target, ..e });
        proof {
            assert(es@.take(k as int + 1) =~= es@.take(k as int).push(e));
            assert(out@ =~= remapped(es@.take(k as int + 1), t));
        }
        k = k + 1;
    }
    assert(es@.take(es@.len() as int) =~= es@);
    out
}

/// The canonical blobs, each counted over `es`.
fn build_canonical(bs: &Vec<BlobRecord>, cidx: &Vec<usize>, es: &Vec<BlockEntry>) -> (r: Vec<BlobRecord>)
    requires
        blobs_sorted(bs@),
        cidx@.len() == bs@.len(),
        forall|i: int| 0 <= i < bs@.len() ==> (#[trigger] cidx@[i]) as int == canon_index(blob_triples(bs@), i),
    ensures
        blob_triples(r@) == canonical_blobs(blob_triples(bs@), bs@.len() as int, es@),
        blobs_sorted(r@),
{
    let ghost t = blob_triples(bs@);
    let mut out: Vec<BlobRecord> = Vec::new();
    let mut i: usize = 0;
    while i < bs.len()
        invariant
            t == blob_triples(bs@),
            blobs_sorted(bs@),
            cidx@.len() == bs@.len(),
            forall|i: int| 0 <= i < bs@.len() ==> (#[trigger] cidx@[i]) as int == canon_index(t, i),
            i <= bs@.len(),
            blob_triples(out@) == canonical_blobs(t, i as int, es@),
            blobs_sorted(out@),
            i == 0 ==> out@.len() == 0,
            i > 0 ==> forall|k: int| 0 <= k < out@.len() ==> (#[trigger] out@[k]).checksum <= bs@[i - 1].checksum,
        decreases bs@.len() - i,
    {
        proof {
            assert(cidx@[i as int] as int == canon_index(t, i as int));
        }
        if cidx[i] == i {
            let c = bs[i].checksum;
            let n = count_refs(es, c);
            proof {
                lemma_seq_refs_bound(es@, c);
            }
            let mut bytes: Vec<u8> = Vec::new();
            push_bytes(&mut bytes, bs[i].bytes.as_slice());
            let ghost before = out@;
            out.push(BlobRecord { bytes, checksum: c, ref_count: n });
            proof {
                assert(bytes@ =~= bs@[i as int].bytes@);
                assert(blob_triples(out@) =~= blob_triples(before).push((c, bs@[i as int].bytes@, n)));
                assert forall|a: int, b: int| 0 <= a < b < out@.len() implies (#[trigger] out@[a]).checksum < (#[trigger] out@[b]).checksum by {
                    if b == out@.len() - 1 && i > 0 {
                        assert(before[a].checksum <= bs@[i - 1].checksum);
                        assert(bs@[i - 1].checksum < bs@[i as int].checksum);
                    }
                }
            }
        }
        proof {
            assert forall|k: int| 0 <= k < out@.len() implies (#[trigger] out@[k]).checksum <= bs@[i as int].checksum by {
                if i > 0 && k < out@.len() {
                    if cidx@[i as int] != i || k < out@.len() - 1 {
                        assert(bs@[i - 1].checksum < bs@[i as int].checksum);
                    }
                }
            }
        }
        i = i + 1;
    }
    out
}

proof fn lemma_blob_map_triples(b: Seq<BlobRecord>)
    requires
        blobs_sorted(b),
    ensures
        blob_map(b) == triples_map(blob_triples(b)),
{
    let t = blob_triples(b);
    assert forall|k: u64| #[trigger] blob_map(b).contains_key(k) <==> triples_map(t).contains_key(k) by {
        if blob_map(b).contains_key(k) {
            let i = choose|i: int| 0 <= i < b.len() && b[i].checksum == k;
            assert(t[i].0 == k);
        }
        if triples_map(t).contains_key(k) {
            let i = choose|i: int| 0 <= i < t.len() && t[i].0 == k;
            assert(b[i].checksum == k);
        }
    }
    assert forall|k: u64| blob_map(b).contains_key(k) implies blob_map(b)[k] == triples_map(t)[k] by {
        let i = choose|i: int| 0 <= i < b.len() && b[i].checksum == k;
        lemma_blob_at(b, i);
        let j = choose|j: int| 0 <= j < t.len() && t[j].0 == k;
        if j != i {
            if j < i {
                assert(b[j].checksum < b[i].checksum);
            } else {
                assert(b[i].checksum < b[j].checksum);
            }
        }
    }
    assert(blob_map(b) =~= triples_map(t));
}

impl BlockStore {
    /// One deduplication pass: reference counts are recomputed from the
    /// entries (blobs nobody refers to are dropped), blobs whose bytes do
    /// not hash to their checksum are counted, and byte-identical blobs are
    /// merged into the one with the smallest checksum.
    #[verifier::spinoff_prover]
    #[verifier::rlimit(60)]
    pub fn dedup_pass(&mut self) -> (r: DedupePassReport)
        requires
            old(self).wf(),
            old(self).blob_bytes_total() <= usize::MAX,
        ensures
            final(self).wf(),
            final(self)@ == old(self).deduped().0,
            r == old(self).deduped().1,
            forall|c: u64| #[trigger] final(self)@.blobs.contains_key(c)
                ==> final(self)@.blobs[c].ref_count == ref_count_of(final(self)@.blocks, c),
            old(self).consistent() ==> final(self).consistent(),
            old(self).consistent() ==> forall|k: u64| #[trigger] old(self)@.blocks.contains_key(k)
                ==> final(self)@.blocks.contains_key(k)
                && final(self)@.blobs[final(self)@.blocks[k].blob].bytes == old(self)@.blobs[old(self)@.blocks[k].blob].bytes,
            forall|c1: u64, c2: u64| #[trigger] final(self)@.blobs.contains_key(c1) && #[trigger] final(self)@.blobs.contains_key(c2)
                && c1 != c2 ==> final(self)@.blobs[c1].bytes != final(self)@.blobs[c2].bytes,
            old(self).consistent() ==> final(self).deduped().1.duplicates_consolidated == 0
                && final(self).deduped().1.ref_count_mismatches == 0
                && final(self).deduped().1.bytes_reclaimed == 0,
    {
        let ghost b0 = blob_triples(self.blobs@);
        let blobs_scanned = self.blobs.len();
        let bytes_scanned = total_bytes(&self.blobs);
        let (b1, mism) = recount_blobs(&self.blobs, &self.blocks);
        let ghost t1 = blob_triples(b1@);
        let collisions = count_hash_collisions(&b1);
        let cidx = canonical_indices(&b1);
        proof {
            lemma_recounted_bytes(b0, self.blocks@);
        }
        let (dups, dup_b) = duplicate_totals(&b1, &cidx);
        let es = remap_entries(&self.blocks, &b1, &cidx);
        let b2 = build_canonical(&b1, &cidx, &es);
        let ghost old_blocks = self.blocks@;
        proof {
            assert(entries_sorted(es@)) by {
                assert forall|i: int, j: int| 0 <= i < j < es@.len() implies (#[trigger] es@[i]).inode.0 < (#[trigger] es@[j]).inode.0 by {
                    assert(old_blocks[i].inode.0 < old_blocks[j].inode.0);
                }
            }
            lemma_blob_map_triples(b2@);
            assert(b0.len() == self.blobs@.len());
        }
        proof {
            assert(es@.len() == es.len());
            lemma_canonical_counts_exact(t1, es@, b2@);
            lemma_dedup_distinct(b1@, es@, b2@);
            if self.consistent() {
                lemma_dedup_reads(old_blocks, self.blobs@, b1@, es@, b2@);
                lemma_dedup_refs(old_blocks, self.blobs@, b1@, es@, b2@);
                lemma_dedup_settled(b1@, es@, b2@);
                assert forall|c: u64| #[trigger] blob_map(b2@).contains_key(c)
                    implies blob_map(b2@)[c].ref_count >= 1 by {
                    lemma_seq_refs_map(es@, c);
                }
            }
        }
        self.blocks = es;
        self.blobs = b2;
        DedupePassReport {
            blobs_scanned,
            bytes_scanned,
            duplicates_consolidated: dups,
            bytes_reclaimed: dup_b,
            hash_collisions: collisions,
            ref_count_mismatches: mism,
        }
    }
}

proof fn lemma_seq_refs_pos(es: Seq<BlockEntry>, c: u64)
    ensures
        seq_refs(es, c) > 0 <==> exists|i: int| 0 <= i < es.len() && (#[trigger] es[i]).blob_checksum == c,
    decreases es.len(),
{
    if es.len() > 0 {
        lemma_seq_refs_pos(es.drop_last(), c);
        if exists|i: int| 0 <= i < es.len() && (#[trigger] es[i]).blob_checksum == c {
            let i = choose|i: int| 0 <= i < es.len() && (#[trigger] es[i]).blob_checksum == c;
            if i < es.len() - 1 {
                assert(es.drop_last()[i].blob_checksum == c);
            }
        }
        if exists|i: int| 0 <= i < es.drop_last().len() && (#[trigger] es.drop_last()[i]).blob_checksum == c {
            let i = choose|i: int| 0 <= i < es.drop_last().len() && (#[trigger] es.drop_last()[i]).blob_checksum == c;
            assert(es[i].blob_checksum == c);
        }
    }
}

/// A blob that some entry refers to is kept by the recount; every kept
/// blob is one of the originals and is referred to.
proof fn lemma_recounted_members(bs: Seq<(u64, Seq<u8>, usize)>, es: Seq<BlockEntry>)
    ensures
        forall|i: int| 0 <= i < bs.len() && seq_refs(es, (#[trigger] bs[i]).0) > 0
            ==> exists|m: int| 0 <= m < recounted(bs, es).len() && (#[trigger] recounted(bs, es)[m]).0 == bs[i].0
                && recounted(bs, es)[m].1 == bs[i].1,
        forall|m: int| 0 <= m < recounted(bs, es).len() ==> seq_refs(es, (#[trigger] recounted(bs, es)[m]).0) > 0,
    decreases bs.len(),
{
    if bs.len() > 0 {
        let r = recounted(bs.drop_last(), es);
        lemma_recounted_members(bs.drop_last(), es);
        let full = recounted(bs, es);
        assert forall|i: int| 0 <= i < bs.len() && seq_refs(es, (#[trigger] bs[i]).0) > 0
            implies exists|m: int| 0 <= m < full.len() && (#[trigger] full[m]).0 == bs[i].0 && full[m].1 == bs[i].1 by {
            if i < bs.len() - 1 {
                assert(bs.drop_last()[i] == bs[i]);
                let m = choose|m: int| 0 <= m < r.len() && (#[trigger] r[m]).0 == bs.drop_last()[i].0
                    && r[m].1 == bs.drop_last()[i].1;
                assert(full[m] == r[m]);
            } else {
                assert(full[r.len() as int].0 == bs[i].0);
            }
        }
        assert forall|m: int| 0 <= m < full.len() implies seq_refs(es, (#[trigger] full[m]).0) > 0 by {
            if m < r.len() {
                assert(full[m] == r[m]);
            }
        }
    }
}

/// The canonical blobs are the blobs that are first of their bytes.
proof fn lemma_canonical_members(t: Seq<(u64, Seq<u8>, usize)>, n: int, es: Seq<BlockEntry>)
    requires
        0 <= n <= t.len(),
    ensures
        forall|j: int| 0 <= j < n && canon_index(t, j) == j
            ==> exists|p: int| 0 <= p < canonical_blobs(t, n, es).len() && (#[trigger] canonical_blobs(t, n, es)[p]).0 == t[j].0,
    decreases n,
{
    if n > 0 {
        lemma_canonical_members(t, n - 1, es);
        let r = canonical_blobs(t, n - 1, es);
        let full = canonical_blobs(t, n, es);
        assert forall|j: int| 0 <= j < n && canon_index(t, j) == j
            implies exists|p: int| 0 <= p < full.len() && (#[trigger] full[p]).0 == t[j].0 by {
            if j < n - 1 {
                let p = choose|p: int| 0 <= p < r.len() && (#[trigger] r[p]).0 == t[j].0;
                assert(full[p] == r[p]);
            } else {
                assert(full[r.len() as int].0 == t[j].0);
            }
        }
    }
}

/// Each canonical blob is the first blob of its bytes.
proof fn lemma_canonical_origin(t: Seq<(u64, Seq<u8>, usize)>, n: int, es: Seq<BlockEntry>, p: int) -> (j: int)
    requires
        0 <= n <= t.len(),
        0 <= p < canonical_blobs(t, n, es).len(),
    ensures
        0 <= j < n,
        canon_index(t, j) == j,
        canonical_blobs(t, n, es)[p].0 == t[j].0,
        canonical_blobs(t, n, es)[p].1 == t[j].1,
    decreases n,
{
    let r = canonical_blobs(t, n - 1, es);
    if p < r.len() {
        lemma_canonical_origin(t, n - 1, es, p)
    } else {
        n - 1
    }
}

/// After a deduplication pass every entry refers to a kept blob and every
/// kept blob is referred to, given that this held before.
proof fn lemma_dedup_refs(old_es: Seq<BlockEntry>, b0: Seq<BlobRecord>, b1: Seq<BlobRecord>, es: Seq<BlockEntry>, b2: Seq<BlobRecord>)
    requires
        entries_sorted(old_es),
        blobs_sorted(b0),
        blobs_sorted(b1),
        blobs_sorted(b2),
        forall|k: u64| #[trigger] entry_map(old_es).contains_key(k) ==> blob_map(b0).contains_key(entry_map(old_es)[k].blob),
        blob_triples(b1) == recounted(blob_triples(b0), old_es),
        es == remapped(old_es, blob_triples(b1)),
        blob_triples(b2) == canonical_blobs(blob_triples(b1), b1.len() as int, es),
    ensures
        forall|k: u64| #[trigger] entry_map(es).contains_key(k) ==> blob_map(b2).contains_key(entry_map(es)[k].blob),
        forall|c: u64| #[trigger] blob_map(b2).contains_key(c) ==> seq_refs(es, c) > 0,
{
    let t0 = blob_triples(b0);
    let t1 = blob_triples(b1);
    let t2 = blob_triples(b2);
    lemma_recounted_members(t0, old_es);
    lemma_canonical_members(t1, t1.len() as int, es);
    assert(entries_sorted(es)) by {
        assert forall|i: int, j: int| 0 <= i < j < es.len() implies (#[trigger] es[i]).inode.0 < (#[trigger] es[j]).inode.0 by {
            assert(old_es[i].inode.0 < old_es[j].inode.0);
        }
    }
    assert forall|k: u64| #[trigger] entry_map(es).contains_key(k) implies blob_map(b2).contains_key(entry_map(es)[k].blob) by {
        let i = choose|i: int| 0 <= i < es.len() && es[i].inode.0 == k;
        lemma_entry_at(es, i);
        lemma_entry_at(old_es, i);
        let c = old_es[i].blob_checksum;
        assert(old_es[i].inode.0 == k);
        assert(blob_map(b0).contains_key(c));
        let p0 = choose|p: int| 0 <= p < b0.len() && b0[p].checksum == c;
        assert(t0[p0].0 == c);
        lemma_seq_refs_pos(old_es, c);
        assert(old_es[i].blob_checksum == c);
        let m = choose|m: int| 0 <= m < recounted(t0, old_es).len() && (#[trigger] recounted(t0, old_es)[m]).0 == t0[p0].0;
        assert(b1[m].checksum == c);
        lemma_canon_at(b1, m);
        lemma_canon_index_facts(t1, m);
        let j = canon_index(t1, m);
        assert(es[i].blob_checksum == canon(t1, c));
        let p = choose|p: int| 0 <= p < canonical_blobs(t1, t1.len() as int, es).len()
            && (#[trigger] canonical_blobs(t1, t1.len() as int, es)[p]).0 == t1[j].0;
        assert(t2[p].0 == b2[p].checksum);
        assert(b2[p].checksum == b1[j].checksum);
    }
    assert forall|c: u64| #[trigger] blob_map(b2).contains_key(c) implies seq_refs(es, c) > 0 by {
        let q = choose|q: int| 0 <= q < b2.len() && b2[q].checksum == c;
        assert(t2[q].0 == c);
        let j = lemma_canonical_origin(t1, t1.len() as int, es, q);
        assert(t1[j].0 == c);
        assert(recounted(t0, old_es)[j].0 == c);
        lemma_seq_refs_pos(old_es, c);
        let i = choose|i: int| 0 <= i < old_es.len() && (#[trigger] old_es[i]).blob_checksum == c;
        lemma_canon_at(b1, j);
        assert(b1[j].checksum == c);
        assert(es[i].blob_checksum == canon(t1, c));
        assert(es[i].blob_checksum == c);
        lemma_seq_refs_pos(es, c);
    }
}

/// A deduplication pass keeps what every inode reads, and leaves no two
/// blobs with the same bytes.
proof fn lemma_dedup_reads(old_es: Seq<BlockEntry>, b0: Seq<BlobRecord>, b1: Seq<BlobRecord>, es: Seq<BlockEntry>, b2: Seq<BlobRecord>)
    requires
        entries_sorted(old_es),
        blobs_sorted(b0),
        blobs_sorted(b1),
        blobs_sorted(b2),
        forall|k: u64| #[trigger] entry_map(old_es).contains_key(k) ==> blob_map(b0).contains_key(entry_map(old_es)[k].blob),
        blob_triples(b1) == recounted(blob_triples(b0), old_es),
        es == remapped(old_es, blob_triples(b1)),
        blob_triples(b2) == canonical_blobs(blob_triples(b1), b1.len() as int, es),
    ensures
        forall|k: u64| #[trigger] entry_map(old_es).contains_key(k) ==> entry_map(es).contains_key(k)
            && blob_map(b2).contains_key(entry_map(es)[k].blob)
            && blob_map(b2)[entry_map(es)[k].blob].bytes == blob_map(b0)[entry_map(old_es)[k].blob].bytes,
{
    let t0 = blob_triples(b0);
    let t1 = blob_triples(b1);
    let t2 = blob_triples(b2);
    lemma_recounted_members(t0, old_es);
    lemma_canonical_members(t1, t1.len() as int, es);
    assert(entries_sorted(es)) by {
        assert forall|i: int, j: int| 0 <= i < j < es.len() implies (#[trigger] es[i]).inode.0 < (#[trigger] es[j]).inode.0 by {
            assert(old_es[i].inode.0 < old_es[j].inode.0);
        }
    }
    assert forall|k: u64| #[trigger] entry_map(old_es).contains_key(k) implies entry_map(es).contains_key(k)
        && blob_map(b2).contains_key(entry_map(es)[k].blob)
        && blob_map(b2)[entry_map(es)[k].blob].bytes == blob_map(b0)[entry_map(old_es)[k].blob].bytes by {
        let i = choose|i: int| 0 <= i < old_es.len() && old_es[i].inode.0 == k;
        lemma_entry_at(es, i);
        lemma_entry_at(old_es, i);
        let c = old_es[i].blob_checksum;
        let p0 = choose|p: int| 0 <= p < b0.len() && b0[p].checksum == c;
        lemma_blob_at(b0, p0);
        assert(t0[p0].0 == c);
        lemma_seq_refs_pos(old_es, c);
        assert(old_es[i].blob_checksum == c);
        let m = choose|m: int| 0 <= m < recounted(t0, old_es).len() && (#[trigger] recounted(t0, old_es)[m]).0 == t0[p0].0
            && recounted(t0, old_es)[m].1 == t0[p0].1;
        assert(b1[m].checksum == c);
        lemma_canon_at(b1, m);
        lemma_canon_index_facts(t1, m);
        let j = canon_index(t1, m);
        assert(es[i].blob_checksum == canon(t1, c));
        let p = choose|p: int| 0 <= p < canonical_blobs(t1, t1.len() as int, es).len()
            && (#[trigger] canonical_blobs(t1, t1.len() as int, es)[p]).0 == t1[j].0;
        let j2 = lemma_canonical_origin(t1, t1.len() as int, es, p);
        if j2 != j {
            if j2 < j {
                assert(b1[j2].checksum < b1[j].checksum);
            } else {
                assert(b1[j].checksum < b1[j2].checksum);
            }
        }
        assert(t2[p].0 == b2[p].checksum);
        lemma_blob_at(b2, p);
        assert(b2[p].bytes@ == t2[p].1);
    }

}

/// After a deduplication pass no two blobs hold the same bytes.
proof fn lemma_dedup_distinct(b1: Seq<BlobRecord>, es: Seq<BlockEntry>, b2: Seq<BlobRecord>)
    requires
        blobs_sorted(b1),
        blobs_sorted(b2),
        blob_triples(b2) == canonical_blobs(blob_triples(b1), b1.len() as int, es),
    ensures
        forall|c1: u64, c2: u64| #[trigger] blob_map(b2).contains_key(c1) && #[trigger] blob_map(b2).contains_key(c2) && c1 != c2
            ==> blob_map(b2)[c1].bytes != blob_map(b2)[c2].bytes,
{
    let t1 = blob_triples(b1);
    let t2 = blob_triples(b2);
    assert forall|c1: u64, c2: u64| #[trigger] blob_map(b2).contains_key(c1) && #[trigger] blob_map(b2).contains_key(c2) && c1 != c2
        implies blob_map(b2)[c1].bytes != blob_map(b2)[c2].bytes by {
        let q1 = choose|q: int| 0 <= q < b2.len() && b2[q].checksum == c1;
        let q2 = choose|q: int| 0 <= q < b2.len() && b2[q].checksum == c2;
        lemma_blob_at(b2, q1);
        lemma_blob_at(b2, q2);
        assert(t2[q1].0 == c1 && t2[q2].0 == c2);
        let j1 = lemma_canonical_origin(t1, t1.len() as int, es, q1);
        let j2 = lemma_canonical_origin(t1, t1.len() as int, es, q2);
        if blob_map(b2)[c1].bytes == blob_map(b2)[c2].bytes {
            assert(t1[j1].1 == t1[j2].1);
            assert(j1 != j2);
            let (lo, hi) = if j1 < j2 { (j1, j2) } else { (j2, j1) };
            lemma_first_match(t1, hi);
            let f = choose|f: int| 0 <= f <= hi && t1[f].1 == t1[hi].1 && forall|q: int| 0 <= q < f ==> t1[q].1 != t1[hi].1;
            assert(f <= lo) by {
                if f > lo {
                    assert(t1[lo].1 == t1[hi].1);
                }
            }
            lemma_canon_index(t1, hi, f);
        }
    }
}

proof fn lemma_no_mismatch(bs: Seq<(u64, Seq<u8>, usize)>, es: Seq<BlockEntry>)
    requires
        forall|i: int| 0 <= i < bs.len() ==> (#[trigger] bs[i]).2 == seq_refs(es, bs[i].0),
    ensures
        count_mismatched(bs, es) == 0,
    decreases bs.len(),
{
    if bs.len() > 0 {
        assert forall|i: int| 0 <= i < bs.drop_last().len() implies (#[trigger] bs.drop_last()[i]).2
            == seq_refs(es, bs.drop_last()[i].0) by {
            assert(bs.drop_last()[i] == bs[i]);
        }
        lemma_no_mismatch(bs.drop_last(), es);
        assert(bs.last() == bs[bs.len() - 1]);
    }
}

proof fn lemma_recounted_keeps(bs: Seq<(u64, Seq<u8>, usize)>, es: Seq<BlockEntry>)
    requires
        forall|i: int| 0 <= i < bs.len() ==> seq_refs(es, (#[trigger] bs[i]).0) > 0
            && bs[i].2 == seq_refs(es, bs[i].0) as usize,
    ensures
        recounted(bs, es) == bs,
    decreases bs.len(),
{
    if bs.len() > 0 {
        assert forall|i: int| 0 <= i < bs.drop_last().len() implies seq_refs(es, (#[trigger] bs.drop_last()[i]).0) > 0
            && bs.drop_last()[i].2 == seq_refs(es, bs.drop_last()[i].0) as usize by {
            assert(bs.drop_last()[i] == bs[i]);
        }
        lemma_recounted_keeps(bs.drop_last(), es);
        let b = bs.last();
        assert(b == bs[bs.len() - 1]);
        assert(bs.drop_last().push((b.0, b.1, seq_refs(es, b.0) as usize)) =~= bs);
    }
}

proof fn lemma_no_dups(bs: Seq<(u64, Seq<u8>, usize)>, n: int)
    requires
        0 <= n <= bs.len(),
        forall|i: int, j: int| 0 <= i < j < bs.len() ==> (#[trigger] bs[i]).1 != (#[trigger] bs[j]).1,
    ensures
        dup_count(bs, n) == 0,
        dup_bytes(bs, n) == 0,
    decreases n,
{
    if n > 0 {
        lemma_no_dups(bs, n - 1);
        lemma_canon_index(bs, n - 1, n - 1);
    }
}

/// A second deduplication pass finds nothing to do: no count to correct,
/// no duplicate to merge, no bytes to reclaim.
proof fn lemma_dedup_settled(b1: Seq<BlobRecord>, es: Seq<BlockEntry>, b2: Seq<BlobRecord>)
    requires
        blobs_sorted(b1),
        blobs_sorted(b2),
        entries_sorted(es),
        es.len() <= usize::MAX,
        blob_triples(b2) == canonical_blobs(blob_triples(b1), b1.len() as int, es),
        forall|c: u64| #[trigger] blob_map(b2).contains_key(c) ==> seq_refs(es, c) > 0,
    ensures
        count_mismatched(blob_triples(b2), es) == 0,
        recounted(blob_triples(b2), es) == blob_triples(b2),
        dup_count(blob_triples(b2), b2.len() as int) == 0,
        dup_bytes(blob_triples(b2), b2.len() as int) == 0,
{
    let t1 = blob_triples(b1);
    let t2 = blob_triples(b2);
    assert forall|i: int| 0 <= i < t2.len() implies (#[trigger] t2[i]).2 == seq_refs(es, t2[i].0)
        && seq_refs(es, t2[i].0) > 0 && t2[i].2 == seq_refs(es, t2[i].0) as usize by {
        lemma_canonical_counts(t1, t1.len() as int, es, i);
        lemma_seq_refs_bound(es, t2[i].0);
        lemma_blob_at(b2, i);
        assert(b2[i].checksum == t2[i].0);
    }
    lemma_no_mismatch(t2, es);
    lemma_recounted_keeps(t2, es);
    lemma_dedup_distinct(b1, es, b2);
    assert forall|i: int, j: int| 0 <= i < j < t2.len() implies (#[trigger] t2[i]).1 != (#[trigger] t2[j]).1 by {
        lemma_blob_at(b2, i);
        lemma_blob_at(b2, j);
        assert(b2[i].checksum < b2[j].checksum);
        assert(blob_map(b2).contains_key(b2[i].checksum) && blob_map(b2).contains_key(b2[j].checksum));
    }
    lemma_no_dups(t2, t2.len() as int);
}

proof fn lemma_canonical_counts_exact(t1: Seq<(u64, Seq<u8>, usize)>, es: Seq<BlockEntry>, b2: Seq<BlobRecord>)
    requires
        blob_triples(b2) == canonical_blobs(t1, t1.len() as int, es),
        blobs_sorted(b2),
        entries_sorted(es),
        es.len() <= usize::MAX,
    ensures
        forall|c: u64| #[trigger] blob_map(b2).contains_key(c)
            ==> blob_map(b2)[c].ref_count == ref_count_of(entry_map(es), c),
{
    assert forall|c: u64| #[trigger] blob_map(b2).contains_key(c)
        implies blob_map(b2)[c].ref_count == ref_count_of(entry_map(es), c) by {
        let i = choose|i: int| 0 <= i < b2.len() && b2[i].checksum == c;
        lemma_blob_at(b2, i);
        lemma_canonical_counts(t1, t1.len() as int, es, i);
        lemma_seq_refs_map(es, c);
        lemma_seq_refs_bound(es, c);
        assert(blob_triples(b2)[i].0 == c);
    }
}

proof fn lemma_canonical_counts(t: Seq<(u64, Seq<u8>, usize)>, n: int, es: Seq<BlockEntry>, i: int)
    requires
        0 <= i < canonical_blobs(t, n, es).len(),
    ensures
        canonical_blobs(t, n, es)[i].2 == seq_refs(es, canonical_blobs(t, n, es)[i].0) as usize,
    decreases n,
{
    if n > 0 {
        let r = canonical_blobs(t, n - 1, es);
        if i < r.len() {
            lemma_canonical_counts(t, n - 1, es, i);
        }
    }
}

} // verus!
