//! Fault-injecting [`BlockDevice`] wrapper for resilience tests.
//!
//! `FaultyDevice<D>` wraps a device and, according to a [`FaultPlan`],
//! fails writes after a count or byte budget, fails writes touching a bad
//! range, silently drops writes after a count (power loss), flips a byte of
//! writes in a range (bit rot) or fails the next sync barrier.
use vstd::prelude::*;
use crate::error::{CoreFsError, CoreFsResult, msg, msg_num};
use crate::block_device::{BlockDevice, DeviceGeometry};
use crate::ondisk::codec::{overwrite, copy_range};

verus! {

/// Behaviour configuration for a [`FaultyDevice`].
#[derive(Debug, Clone)]
pub struct FaultPlan {
    /// If `Some(n)`, every write after the n-th returns an error.
    pub fail_after_writes: Option<usize>,
    /// If `Some(b)`, writes that would take the byte count past `b` fail.
    pub fail_after_bytes_written: Option<u64>,
    /// `(start, length, byte_index_within_write)`: flip one byte of every
    /// write that overlaps `[start, start + length)`.
    pub silent_corrupt_writes: Option<(u64, u64, usize)>,
    /// All writes touching `[start, end)` fail.
    pub fail_writes_in_range: Option<(u64, u64)>,
    /// The next sync call fails.
    pub fail_sync: bool,
    /// After `N` persisted writes, further writes are silently dropped.
    pub stop_after_n_writes: Option<usize>,
}

impl Default for FaultPlan {
    fn default() -> (r: Self)
        ensures
            r == FaultPlan::empty_spec(),
    {
        FaultPlan::new()
    }
}

impl FaultPlan {
    /// The plan that injects no fault.
    pub open spec fn empty_spec() -> FaultPlan {
        FaultPlan {
            fail_after_writes: None,
            fail_after_bytes_written: None,
            silent_corrupt_writes: None,
            fail_writes_in_range: None,
            fail_sync: false,
            stop_after_n_writes: None,
        }
    }

    /// A plan that injects no fault.
    pub fn new() -> (r: Self)
        ensures
            r == FaultPlan::empty_spec(),
    {
        FaultPlan {
            fail_after_writes: None,
            fail_after_bytes_written: None,
            silent_corrupt_writes: None,
            fail_writes_in_range: None,
            fail_sync: false,
            stop_after_n_writes: None,
        }
    }

    /// Fail every write after the `n`-th.
    pub fn fail_after_writes(self, n: usize) -> (r: Self)
        ensures
            r == (FaultPlan { fail_after_writes: Some(n), ..self }),
    {
        let mut p = self;
        p.fail_after_writes = Some(n);
        p
    }

    /// Fail writes once `n` bytes would be exceeded.
    pub fn fail_after_bytes_written(self, n: u64) -> (r: Self)
        ensures
            r == (FaultPlan { fail_after_bytes_written: Some(n), ..self }),
    {
        let mut p = self;
        p.fail_after_bytes_written = Some(n);
        p
    }

    /// Flip byte `byte` of writes overlapping `[start, start + length)`.
    pub fn silent_corrupt_writes(self, start: u64, length: u64, byte: usize) -> (r: Self)
        ensures
            r == (FaultPlan { silent_corrupt_writes: Some((start, length, byte)), ..self }),
    {
        let mut p = self;
        p.silent_corrupt_writes = Some((start, length, byte));
        p
    }

    /// Fail writes touching `[start, end)`.
    pub fn fail_writes_in_range(self, start: u64, end: u64) -> (r: Self)
        ensures
            r == (FaultPlan { fail_writes_in_range: Some((start, end)), ..self }),
    {
        let mut p = self;
        p.fail_writes_in_range = Some((start, end));
        p
    }

    /// Fail the next sync.
    pub fn fail_sync(self) -> (r: Self)
        ensures
            r == (FaultPlan { fail_sync: true, ..self }),
    {
        let mut p = self;
        p.fail_sync = true;
        p
    }

    /// Drop writes after `n` persisted ones.
    pub fn stop_after_n_writes(self, n: usize) -> (r: Self)
        ensures
            r == (FaultPlan { stop_after_n_writes: Some(n), ..self }),
    {
        let mut p = self;
        p.stop_after_n_writes = Some(n);
        p
    }
}

/// Counters maintained by a [`FaultyDevice`].
#[derive(Debug, Clone, Copy, PartialEq, Eq, Default)]
pub struct FaultStats {
    pub writes_attempted: usize,
    pub writes_persisted: usize,
    pub writes_failed: usize,
    pub writes_silently_dropped: usize,
    pub writes_corrupted: usize,
    pub reads_attempted: usize,
    pub syncs_attempted: usize,
    pub syncs_failed: usize,
    pub bytes_written: u64,
}

/// Saturating increment.
pub open spec fn inc(x: usize) -> usize {
    if x == usize::MAX { x } else { (x + 1) as usize }
}

fn bump(x: usize) -> (r: usize)
    ensures
        r == inc(x),
{
    if x == usize::MAX { x } else { x + 1 }
}

/// How the plan treats a write of `len` bytes at `offset` given the counters
/// before it.
pub enum WriteFate {
    /// Rejected by the write-count threshold.
    FailCount,
    /// Rejected by the byte budget.
    FailBytes,
    /// Rejected because it touches the bad range.
    FailRange,
    /// Accepted without being stored.
    Drop,
    /// Handed to the inner device, with one byte flipped when `corrupt`.
    Pass { corrupt: bool },
}

/// The fate the plan assigns to a write.
pub open spec fn write_fate(plan: FaultPlan, stats: FaultStats, offset: u64, len: nat) -> WriteFate {
    let attempted = inc(stats.writes_attempted);
    let req_end = if offset + len > u64::MAX { u64::MAX as int } else { offset + len };
    if plan.fail_after_writes matches Some(n) && attempted > n {
        WriteFate::FailCount
    } else if plan.fail_after_bytes_written matches Some(b) && stats.bytes_written + len > b {
        WriteFate::FailBytes
    } else if plan.fail_writes_in_range matches Some((s, e)) && offset < e && req_end > s {
        WriteFate::FailRange
    } else if plan.stop_after_n_writes matches Some(n) && stats.writes_persisted >= n {
        WriteFate::Drop
    } else {
        WriteFate::Pass {
            corrupt: plan.silent_corrupt_writes matches Some((s, l, byte))
                && offset < s + l && req_end > s && byte < len,
        }
    }
}

/// The bytes handed to the inner device for a passing write.
pub open spec fn passed_payload(plan: FaultPlan, data: Seq<u8>, corrupt: bool) -> Seq<u8> {
    if corrupt {
        let byte = match plan.silent_corrupt_writes {
            Some((_s, _l, b)) => b as int,
            None => 0int,
        };
        data.update(byte, data[byte] ^ 0xFFu8)
    } else {
        data
    }
}

/// Device wrapper that injects faults according to a [`FaultPlan`].
#[derive(Debug)]
pub struct FaultyDevice<D: BlockDevice> {
    inner: D,
    plan: FaultPlan,
    stats: FaultStats,
}

impl<D: BlockDevice> FaultyDevice<D> {
    /// The active plan.
    pub closed spec fn plan_spec(&self) -> FaultPlan {
        self.plan
    }

    /// The counters.
    pub closed spec fn stats_spec(&self) -> FaultStats {
        self.stats
    }

    /// The wrapped device.
    pub closed spec fn inner_spec(&self) -> D {
        self.inner
    }

    /// Wrap `inner` with `plan`; all counters start at zero.
    pub fn new(inner: D, plan: FaultPlan) -> (r: Self)
        ensures
            r.inner_spec() == inner,
            r.plan_spec() == plan,
            r.stats_spec() == (FaultStats {
                writes_attempted: 0,
                writes_persisted: 0,
                writes_failed: 0,
                writes_silently_dropped: 0,
                writes_corrupted: 0,
                reads_attempted: 0,
                syncs_attempted: 0,
                syncs_failed: 0,
                bytes_written: 0,
            }),
    {
        FaultyDevice {
            inner,
            plan,
            stats: FaultStats {
                writes_attempted: 0,
                writes_persisted: 0,
                writes_failed: 0,
                writes_silently_dropped: 0,
                writes_corrupted: 0,
                reads_attempted: 0,
                syncs_attempted: 0,
                syncs_failed: 0,
                bytes_written: 0,
            },
        }
    }

    /// Replace the active plan.
    pub fn set_plan(&mut self, plan: FaultPlan)
        ensures
            final(self).plan_spec() == plan,
            final(self).stats_spec() == old(self).stats_spec(),
            final(self).inner_spec() == old(self).inner_spec(),
    {
        self.plan = plan;
    }

    /// Snapshot of the counters.
    pub fn stats(&self) -> (r: FaultStats)
        ensures
            r == self.stats_spec(),
    {
        self.stats
    }

    /// Borrow the wrapped device.
    pub fn inner(&self) -> (r: &D)
        ensures
            *r == self.inner_spec(),
    {
        &self.inner
    }

    /// Unwrap the device.
    pub fn into_inner(self) -> (r: D)
        ensures
            r == self.inner_spec(),
    {
        self.inner
    }
}

impl<D: BlockDevice> BlockDevice for FaultyDevice<D> {
    closed spec fn spec_geometry(&self) -> DeviceGeometry {
        self.inner.spec_geometry()
    }

    closed spec fn content(&self) -> Seq<u8> {
        self.inner.content()
    }

    closed spec fn stores_writes(&self) -> bool {
        self.inner.stores_writes() && self.plan.silent_corrupt_writes is None
            && self.plan.stop_after_n_writes is None
    }

    closed spec fn inv(&self) -> bool {
        self.inner.inv()
    }

    open spec fn trim_capable(&self) -> bool {
        self.inner_spec().trim_capable()
    }

    proof fn lemma_inv(&self) {
        self.inner.lemma_inv();
    }

    fn geometry(&self) -> (r: &DeviceGeometry) {
        self.inner.geometry()
    }

    fn read_at(&self, offset: u64, length: u64) -> (r: CoreFsResult<Vec<u8>>) {
        self.inner.read_at(offset, length)
    }

    fn write_at(&mut self, offset: u64, data: &[u8]) -> (r: CoreFsResult<()>)
        ensures
            final(self).plan_spec() == old(self).plan_spec(),
            final(self).stats_spec().writes_attempted == inc(old(self).stats_spec().writes_attempted),
            ({
                let fate = write_fate(old(self).plan_spec(), old(self).stats_spec(), offset, data@.len());
                let s0 = old(self).stats_spec();
                let s1 = final(self).stats_spec();
                match fate {
                    WriteFate::FailCount | WriteFate::FailBytes | WriteFate::FailRange => {
                        &&& r matches Err(e) && e is State
                        &&& s1.writes_failed == inc(s0.writes_failed)
                        &&& s1.bytes_written == s0.bytes_written
                        &&& final(self).inner_spec() == old(self).inner_spec()
                    },
                    WriteFate::Drop => {
                        &&& r is Ok
                        &&& s1.writes_silently_dropped == inc(s0.writes_silently_dropped)
                        &&& s1.bytes_written == s0.bytes_written
                        &&& final(self).inner_spec() == old(self).inner_spec()
                    },
                    WriteFate::Pass { corrupt } => {
                        &&& s1.writes_corrupted == (if corrupt { inc(s0.writes_corrupted) } else { s0.writes_corrupted })
                        &&& (r is Ok ==> s1.writes_persisted == inc(s0.writes_persisted))
                        &&& (r is Ok ==> s1.bytes_written == (if s0.bytes_written + data@.len() > u64::MAX { u64::MAX }
                            else { (s0.bytes_written + data@.len()) as u64 }))
                        &&& (r is Err ==> s1.bytes_written == s0.bytes_written)
                        &&& (r is Ok && old(self).inner_spec().stores_writes() ==> final(self).content()
                            == overwrite(old(self).content(), offset as int,
                                passed_payload(old(self).plan_spec(), data@, corrupt)))
                    },
                }
            }),
    {
        let ghost fate = write_fate(self.plan, self.stats, offset, data@.len());
        self.stats.writes_attempted = bump(self.stats.writes_attempted);
        let len = data.len() as u64;
        let req_end = if offset > u64::MAX - len { u64::MAX } else { offset + len };
        if let Some(n) = self.plan.fail_after_writes {
            if self.stats.writes_attempted > n {
                self.stats.writes_failed = bump(self.stats.writes_failed);
                return Err(CoreFsError::State(msg_num(
                    "ODF-FAULT: write #",
                    self.stats.writes_attempted as u64,
                    " exceeded fail_after_writes",
                )));
            }
        }
        if let Some(b) = self.plan.fail_after_bytes_written {
            if self.stats.bytes_written as u128 + len as u128 > b as u128 {
                self.stats.writes_failed = bump(self.stats.writes_failed);
                return Err(CoreFsError::State(msg("ODF-FAULT: write would exceed byte budget")));
            }
        }
        if let Some((start, end)) = self.plan.fail_writes_in_range {
            if offset < end && req_end > start {
                self.stats.writes_failed = bump(self.stats.writes_failed);
                return Err(CoreFsError::State(msg_num("ODF-FAULT: write at offset ", offset, " hits bad sector")));
            }
        }
        if let Some(n) = self.plan.stop_after_n_writes {
            if self.stats.writes_persisted >= n {
                self.stats.writes_silently_dropped = bump(self.stats.writes_silently_dropped);
                return Ok(());
            }
        }
        let mut payload = copy_range(data, 0, data.len());
        proof {
            assert(payload@ =~= data@);
        }
        if let Some((start, length, byte)) = self.plan.silent_corrupt_writes {
            if (offset as u128) < start as u128 + length as u128 && req_end > start && byte < payload.len() {
                let flipped = payload[byte] ^ 0xFF;
                payload.set(byte, flipped);
                self.stats.writes_corrupted = bump(self.stats.writes_corrupted);
            }
        }
        self.inner.write_at(offset, payload.as_slice())?;
        self.stats.writes_persisted = bump(self.stats.writes_persisted);
        self.stats.bytes_written = self.stats.bytes_written.saturating_add(len);
        Ok(())
    }

    fn sync(&mut self) -> (r: CoreFsResult<()>)
        ensures
            old(self).plan_spec().fail_sync ==> r is Err
                && final(self).plan_spec() == (FaultPlan { fail_sync: false, ..old(self).plan_spec() })
                && final(self).stats_spec().syncs_failed == inc(old(self).stats_spec().syncs_failed),
            !old(self).plan_spec().fail_sync ==> final(self).plan_spec() == old(self).plan_spec(),
            final(self).stats_spec().syncs_attempted == inc(old(self).stats_spec().syncs_attempted),
    {
        self.stats.syncs_attempted = bump(self.stats.syncs_attempted);
        if self.plan.fail_sync {
            self.plan.fail_sync = false;
            self.stats.syncs_failed = bump(self.stats.syncs_failed);
            return Err(CoreFsError::State(msg("ODF-FAULT: sync barrier interrupted")));
        }
        self.inner.sync()
    }

    fn trim(&mut self, offset: u64, length: u64) -> (r: CoreFsResult<()>) {
        self.inner.trim(offset, length)
    }

    fn supports_trim(&self) -> (r: bool) {
        self.inner.supports_trim()
    }
}

} // verus!
