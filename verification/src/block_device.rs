//! Block devices: the sector-addressed storage abstraction, the in-memory
//! device used by tests and tools, and the fake-capacity helpers.
use vstd::prelude::*;
use vstd::string::StringExecFns;
use crate::error::{CoreFsError, CoreFsResult, msg, msg_num};
use crate::ondisk::codec::{overwrite, zeros, zero_vec, copy_range, write_bytes_at};

verus! {

/// Classic 512-byte sector.
pub const SECTOR_SIZE_512: u32 = 512;
/// Advanced-format 4 KiB sector.
pub const SECTOR_SIZE_4K: u32 = 4096;

/// Physical shape of a block device.
#[derive(Debug, Clone, Copy, PartialEq, Eq)]
pub struct DeviceGeometry {
    pub sector_size: u32,
    pub sector_count: u64,
    pub capacity_bytes: u64,
    pub read_only: bool,
}

/// `v` is a power of two.
pub open spec fn is_pow2(v: u32) -> bool {
    v != 0 && v & ((v - 1) as u32) == 0
}

/// Accepts `offset` and `length` when both are multiples of `sector_size`.
pub fn check_alignment(offset: u64, length: u64, sector_size: u32) -> (r: CoreFsResult<()>)
    requires
        sector_size > 0,
    ensures
        r is Ok <==> (offset % (sector_size as u64) == 0 && length % (sector_size as u64) == 0),
        r matches Err(e) ==> e is InvalidInput,
{
    let ss = sector_size as u64;
    if offset % ss != 0 {
        return Err(CoreFsError::InvalidInput(msg_num("offset ", offset, " is not aligned to the sector size")));
    }
    if length % ss != 0 {
        return Err(CoreFsError::InvalidInput(msg_num("length ", length, " is not a multiple of the sector size")));
    }
    Ok(())
}

/// Accepts the byte range `[offset, offset + length)` when it lies inside
/// `capacity` bytes.
pub fn check_bounds(offset: u64, length: u64, capacity: u64) -> (r: CoreFsResult<()>)
    ensures
        r is Ok <==> offset + length <= capacity,
        r matches Err(e) ==> e is InvalidInput,
{
    if offset > u64::MAX - length {
        return Err(CoreFsError::InvalidInput(msg_num("range at offset ", offset, " overflows u64")));
    }
    if offset + length > capacity {
        return Err(CoreFsError::InvalidInput(msg_num("range at offset ", offset, " runs past end of device")));
    }
    Ok(())
}

/// Refuses writes to a read-only device.
pub fn check_write_permission(read_only: bool) -> (r: CoreFsResult<()>)
    ensures
        r is Ok <==> !read_only,
        r matches Err(e) ==> e is PolicyViolation,
{
    if read_only {
        return Err(CoreFsError::PolicyViolation(msg("device is read-only")));
    }
    Ok(())
}

/// A sector-addressed storage device.
///
/// The contract of `write_at` depends on `stores_writes`: a device that
/// stores writes holds exactly the written bytes after a successful write.
/// Fault-injecting wrappers may accept a write without storing it as given.
pub trait BlockDevice {
    /// Current geometry.
    spec fn spec_geometry(&self) -> DeviceGeometry;

    /// Current byte contents.
    spec fn content(&self) -> Seq<u8>;

    /// A successful write stores exactly the bytes handed to it.
    spec fn stores_writes(&self) -> bool;

    /// Internal consistency of the device.
    spec fn inv(&self) -> bool;

    /// Facts that the invariant guarantees.
    proof fn lemma_inv(&self)
        requires
            self.inv(),
        ensures
            self.content().len() == self.spec_geometry().capacity_bytes,
            self.spec_geometry().sector_size > 0,
    ;

    /// Device geometry.
    fn geometry(&self) -> (r: &DeviceGeometry)
        ensures
            *r == self.spec_geometry(),
    ;

    /// Read `length` bytes at `offset`.
    fn read_at(&self, offset: u64, length: u64) -> (r: CoreFsResult<Vec<u8>>)
        requires
            self.inv(),
        ensures
            r matches Ok(v) ==> offset + length <= self.content().len()
                && v@ == self.content().subrange(offset as int, offset + length),
    ;

    /// Write `data` at `offset`.
    fn write_at(&mut self, offset: u64, data: &[u8]) -> (r: CoreFsResult<()>)
        requires
            old(self).inv(),
        ensures
            final(self).inv(),
            final(self).spec_geometry() == old(self).spec_geometry(),
            final(self).stores_writes() == old(self).stores_writes(),
            r is Err ==> final(self).content() == old(self).content(),
            r is Ok && old(self).stores_writes() ==> offset + data@.len() <= old(self).content().len()
                && final(self).content() == overwrite(old(self).content(), offset as int, data@),
    ;

    /// Durability barrier.
    fn sync(&mut self) -> (r: CoreFsResult<()>)
        requires
            old(self).inv(),
        ensures
            final(self).inv(),
            final(self).spec_geometry() == old(self).spec_geometry(),
            final(self).stores_writes() == old(self).stores_writes(),
            final(self).content() == old(self).content(),
    ;

    /// Discard the byte range (where supported).
    fn trim(&mut self, offset: u64, length: u64) -> (r: CoreFsResult<()>)
        requires
            old(self).inv(),
        ensures
            final(self).inv(),
            final(self).spec_geometry() == old(self).spec_geometry(),
            final(self).stores_writes() == old(self).stores_writes(),
    ;

    /// Whether the device discards data on `trim`.
    spec fn trim_capable(&self) -> bool;

    /// Whether `trim` discards data.
    fn supports_trim(&self) -> (r: bool)
        ensures
            r == self.trim_capable(),
    ;

    /// Capacity in bytes.
    fn capacity(&self) -> (r: u64)
        ensures
            r == self.spec_geometry().capacity_bytes,
    {
        self.geometry().capacity_bytes
    }

    /// Sector size in bytes.
    fn sector_size(&self) -> (r: u32)
        ensures
            r == self.spec_geometry().sector_size,
    {
        self.geometry().sector_size
    }

    /// Whether the device refuses writes.
    fn is_read_only(&self) -> (r: bool)
        ensures
            r == self.spec_geometry().read_only,
    {
        self.geometry().read_only
    }
}

/// A block device held entirely in memory.
#[derive(Debug, Clone)]
pub struct MemoryDevice {
    data: Vec<u8>,
    geometry: DeviceGeometry,
    trim_supported: bool,
    trimmed: Vec<(u64, u64)>,
}

impl MemoryDevice {
    /// Trimmed ranges recorded so far.
    pub closed spec fn trimmed_spec(&self) -> Seq<(u64, u64)> {
        self.trimmed@
    }

    /// Whether trim is enabled.
    pub closed spec fn trim_enabled(&self) -> bool {
        self.trim_supported
    }

    /// Zero-filled device of `capacity` bytes with `sector_size`-byte sectors.
    pub fn new(capacity: u64, sector_size: u32) -> (r: CoreFsResult<Self>)
        requires
            capacity <= usize::MAX,
        ensures
            r is Ok <==> (capacity > 0 && is_pow2(sector_size) && capacity % (sector_size as u64) == 0),
            r matches Err(e) ==> e is InvalidInput,
            r matches Ok(d) ==> d.inv() && d.content() == zeros(capacity as nat)
                && d.spec_geometry() == (DeviceGeometry {
                    sector_size,
                    sector_count: capacity / (sector_size as u64),
                    capacity_bytes: capacity,
                    read_only: false,
                })
                && d.stores_writes() && d.trim_enabled() && d.trimmed_spec().len() == 0,
    {
        if capacity == 0 {
            return Err(CoreFsError::InvalidInput(msg("capacity must be greater than zero")));
        }
        validate_sector_size(sector_size)?;
        if capacity % (sector_size as u64) != 0 {
            return Err(CoreFsError::InvalidInput(msg_num(
                "capacity ",
                capacity,
                " must be a multiple of sector size",
            )));
        }
        let data = zero_vec(capacity as usize);
        Ok(MemoryDevice {
            data,
            geometry: DeviceGeometry {
                sector_size,
                sector_count: capacity / (sector_size as u64),
                capacity_bytes: capacity,
                read_only: false,
            },
            trim_supported: true,
            trimmed: Vec::new(),
        })
    }

    /// Device whose contents are `data`.
    pub fn from_bytes(data: Vec<u8>, sector_size: u32) -> (r: CoreFsResult<Self>)
        ensures
            r is Ok <==> (data@.len() > 0 && is_pow2(sector_size) && data@.len() % (sector_size as nat) == 0),
            r matches Err(e) ==> e is InvalidInput,
            r matches Ok(d) ==> d.inv() && d.content() == data@ && d.stores_writes()
                && d.spec_geometry().capacity_bytes == data@.len()
                && d.spec_geometry().sector_size == sector_size
                && !d.spec_geometry().read_only,
    {
        let len = data.len() as u64;
        if len == 0 {
            return Err(CoreFsError::InvalidInput(msg("capacity must be greater than zero")));
        }
        validate_sector_size(sector_size)?;
        if len % (sector_size as u64) != 0 {
            return Err(CoreFsError::InvalidInput(msg_num("capacity ", len, " must be a multiple of sector size")));
        }
        Ok(MemoryDevice {
            data,
            geometry: DeviceGeometry {
                sector_size,
                sector_count: len / (sector_size as u64),
                capacity_bytes: len,
                read_only: false,
            },
            trim_supported: true,
            trimmed: Vec::new(),
        })
    }

    /// Raw contents.
    pub fn data(&self) -> (r: &[u8])
        ensures
            r@ == self.content(),
    {
        self.data.as_slice()
    }

    /// Make the device refuse (or accept) writes.
    pub fn set_read_only(&mut self, read_only: bool)
        requires
            old(self).inv(),
        ensures
            final(self).inv(),
            final(self).content() == old(self).content(),
            final(self).spec_geometry() == (DeviceGeometry { read_only, ..old(self).spec_geometry() }),
            final(self).trim_enabled() == old(self).trim_enabled(),
            final(self).trimmed_spec() == old(self).trimmed_spec(),
    {
        self.geometry.read_only = read_only;
    }

    /// Enable or disable trim.
    pub fn set_trim_supported(&mut self, supported: bool)
        requires
            old(self).inv(),
        ensures
            final(self).inv(),
            final(self).content() == old(self).content(),
            final(self).spec_geometry() == old(self).spec_geometry(),
            final(self).trim_enabled() == supported,
            final(self).trimmed_spec() == old(self).trimmed_spec(),
    {
        self.trim_supported = supported;
    }

    /// Ranges discarded by `trim` so far, as `(offset, length)`.
    pub fn trimmed_ranges(&self) -> (r: &[(u64, u64)])
        ensures
            r@ == self.trimmed_spec(),
    {
        self.trimmed.as_slice()
    }

    /// Forget the recorded trim ranges.
    pub fn clear_trimmed_ranges(&mut self)
        requires
            old(self).inv(),
        ensures
            final(self).inv(),
            final(self).content() == old(self).content(),
            final(self).spec_geometry() == old(self).spec_geometry(),
            final(self).trim_enabled() == old(self).trim_enabled(),
            final(self).trimmed_spec().len() == 0,
    {
        self.trimmed = Vec::new();
    }
}

fn validate_sector_size(sector_size: u32) -> (r: CoreFsResult<()>)
    ensures
        r is Ok <==> is_pow2(sector_size),
        r matches Err(e) ==> e is InvalidInput,
{
    if sector_size == 0 || sector_size & (sector_size - 1) != 0 {
        return Err(CoreFsError::InvalidInput(msg_num("sector size ", sector_size as u64, " must be a power of two")));
    }
    Ok(())
}

impl BlockDevice for MemoryDevice {
    closed spec fn spec_geometry(&self) -> DeviceGeometry {
        self.geometry
    }

    closed spec fn content(&self) -> Seq<u8> {
        self.data@
    }

    closed spec fn stores_writes(&self) -> bool {
        true
    }

    closed spec fn trim_capable(&self) -> bool {
        self.trim_supported
    }

    closed spec fn inv(&self) -> bool {
        &&& self.data@.len() == self.geometry.capacity_bytes
        &&& self.geometry.sector_size > 0
        &&& self.data@.len() <= usize::MAX
    }

    proof fn lemma_inv(&self) {
    }

    fn geometry(&self) -> (r: &DeviceGeometry) {
        &self.geometry
    }

    fn read_at(&self, offset: u64, length: u64) -> (r: CoreFsResult<Vec<u8>>)
        ensures
            r is Ok <==> (offset % (self.spec_geometry().sector_size as u64) == 0
                && length % (self.spec_geometry().sector_size as u64) == 0
                && offset + length <= self.spec_geometry().capacity_bytes),
            r matches Err(e) ==> e is InvalidInput,
    {
        check_alignment(offset, length, self.geometry.sector_size)?;
        check_bounds(offset, length, self.geometry.capacity_bytes)?;
        if length == 0 {
            proof {
                assert(self.data@.subrange(offset as int, offset as int) =~= Seq::<u8>::empty());
            }
            return Ok(Vec::new());
        }
        Ok(copy_range(self.data.as_slice(), offset as usize, (offset + length) as usize))
    }

    fn write_at(&mut self, offset: u64, data: &[u8]) -> (r: CoreFsResult<()>)
        ensures
            r is Ok <==> (!old(self).spec_geometry().read_only
                && offset % (old(self).spec_geometry().sector_size as u64) == 0
                && data@.len() % (old(self).spec_geometry().sector_size as nat) == 0
                && offset + data@.len() <= old(self).spec_geometry().capacity_bytes),
            r matches Err(e) ==> (e is PolicyViolation <==> old(self).spec_geometry().read_only),
            r matches Err(e) ==> (e is PolicyViolation || e is InvalidInput),
            final(self).trim_enabled() == old(self).trim_enabled(),
            final(self).trimmed_spec() == old(self).trimmed_spec(),
    {
        check_write_permission(self.geometry.read_only)?;
        let length = data.len() as u64;
        check_alignment(offset, length, self.geometry.sector_size)?;
        check_bounds(offset, length, self.geometry.capacity_bytes)?;
        if data.len() == 0 {
            proof {
                assert(overwrite(self.data@, offset as int, data@) =~= self.data@);
            }
            return Ok(());
        }
        write_bytes_at(&mut self.data, offset as usize, data);
        Ok(())
    }

    fn sync(&mut self) -> (r: CoreFsResult<()>)
        ensures
            r is Ok,
            final(self).trim_enabled() == old(self).trim_enabled(),
            final(self).trimmed_spec() == old(self).trimmed_spec(),
    {
        Ok(())
    }

    fn trim(&mut self, offset: u64, length: u64) -> (r: CoreFsResult<()>)
        ensures
            !old(self).trim_enabled() ==> r is Ok && *final(self) == *old(self),
            old(self).trim_enabled() ==> (r is Ok <==> (
                offset % (old(self).spec_geometry().sector_size as u64) == 0
                && length % (old(self).spec_geometry().sector_size as u64) == 0
                && offset + length <= old(self).spec_geometry().capacity_bytes)),
            r matches Err(e) ==> e is InvalidInput,
            r is Err ==> *final(self) == *old(self),
            old(self).trim_enabled() && r is Ok && length > 0 ==>
                final(self).content() == overwrite(old(self).content(), offset as int, zeros(length as nat))
                && final(self).trimmed_spec() == old(self).trimmed_spec().push((offset, length)),
            old(self).trim_enabled() && r is Ok && length == 0 ==> *final(self) == *old(self),
            final(self).trim_enabled() == old(self).trim_enabled(),
    {
        if !self.trim_supported {
            return Ok(());
        }
        check_alignment(offset, length, self.geometry.sector_size)?;
        check_bounds(offset, length, self.geometry.capacity_bytes)?;
        if length == 0 {
            return Ok(());
        }
        let z = zero_vec(length as usize);
        write_bytes_at(&mut self.data, offset as usize, z.as_slice());
        self.trimmed.push((offset, length));
        Ok(())
    }

    fn supports_trim(&self) -> (r: bool)
        ensures
            r == self.trim_enabled(),
    {
        self.trim_supported
    }
}

/// Result of a writability verification run.
#[derive(Debug, Clone, PartialEq, Eq)]
pub struct DeviceVerificationReport {
    /// Total device capacity as reported by the device.
    pub advertised_bytes: u64,
    /// Byte offsets that were probed.
    pub probed_offsets: Vec<u64>,
    /// Byte offsets where the write-and-read-back check failed.
    pub failed_offsets: Vec<u64>,
    /// Highest byte offset that was successfully written and verified.
    pub highest_verified_offset: u64,
    /// Estimated usable capacity based on the last verified offset.
    pub estimated_usable_bytes: u64,
}

impl DeviceVerificationReport {
    /// No probe failed.
    pub fn is_honest(&self) -> (r: bool)
        ensures
            r == (self.failed_offsets@.len() == 0),
    {
        self.failed_offsets.len() == 0
    }

    /// Share of the advertised capacity that proved unusable, in percent
    /// rounded to the nearest integer (halves up); 100 when nothing is
    /// advertised.
    pub fn fake_ratio_percent(&self) -> (r: u8)
        ensures
            r == fake_ratio_spec(self.advertised_bytes, self.estimated_usable_bytes),
    {
        if self.advertised_bytes == 0 {
            return 100;
        }
        let adv = self.advertised_bytes as u128;
        let u64_usable: u64 = if self.estimated_usable_bytes < self.advertised_bytes {
            self.estimated_usable_bytes
        } else {
            self.advertised_bytes
        };
        let usable = u64_usable as u128;
        let num = 100 * (adv - usable);
        let q = (2 * num + adv) / (2 * adv);
        proof {
            assert(q <= 100) by (nonlinear_arith)
                requires q == (2 * num + adv) / (2 * adv), num <= 100 * adv, adv > 0;
            assert(adv as int == self.advertised_bytes as int);
            assert(usable as int == u64_usable as int);
            assert(num as int == 100 * (adv - usable));
            let a = self.advertised_bytes as int;
            let u = u64_usable as int;
            assert(2 * num + adv == 2 * 100 * (a - u) + a) by (nonlinear_arith)
                requires
                    num as int == 100 * (adv - usable),
                    adv as int == a,
                    usable as int == u;
            assert(q as int == (2 * 100 * (a - u) + a) / (2 * a));
        }
        q as u8
    }
}

/// Unusable share of `adv` advertised bytes when `usable` bytes were
/// verified, in percent rounded to the nearest integer.
pub open spec fn fake_ratio_spec(adv: u64, usable: u64) -> int {
    if adv == 0 {
        100
    } else {
        let u = if usable < adv { usable as int } else { adv as int };
        (2 * 100 * (adv - u) + adv) / (2 * adv as int)
    }
}

/// Byte `i` of the test pattern for `offset`.
pub open spec fn pattern_byte(offset: u64, i: int) -> u8 {
    let seed = offset.wrapping_mul(0x9E37_79B9_7F4A_7C15u64);
    (seed.wrapping_add(i as u64).wrapping_mul(0x0100_0000_01B3u64)).wrapping_shr(((i % 8) * 8) as u32) as u8
}

/// A unique test pattern for a given device offset.  Different offsets
/// produce different patterns.
pub fn generate_test_pattern(offset: u64, length: usize) -> (r: Vec<u8>)
    ensures
        r@.len() == length,
        forall|i: int| 0 <= i < length ==> #[trigger] r@[i] == pattern_byte(offset, i),
{
    let mut buf: Vec<u8> = Vec::with_capacity(length);
    let seed = offset.wrapping_mul(0x9E37_79B9_7F4A_7C15u64);
    let mut i: usize = 0;
    while i < length
        invariant
            i <= length,
            seed == offset.wrapping_mul(0x9E37_79B9_7F4A_7C15u64),
            buf@.len() == i,
            forall|k: int| 0 <= k < i ==> #[trigger] buf@[k] == pattern_byte(offset, k),
        decreases length - i,
    {
        let shift = ((i % 8) * 8) as u32;
        let byte = (seed.wrapping_add(i as u64).wrapping_mul(0x0100_0000_01B3u64)).wrapping_shr(shift) as u8;
        buf.push(byte);
        i = i + 1;
    }
    buf
}

/// Geometry of a new image file: `capacity_bytes` must be positive and a
/// multiple of `sector_size`, which must be a power of two.
pub fn image_geometry(capacity_bytes: u64, sector_size: u32) -> (r: CoreFsResult<DeviceGeometry>)
    ensures
        r is Ok <==> (capacity_bytes > 0 && is_pow2(sector_size) && capacity_bytes % (sector_size as u64) == 0),
        r matches Err(e) ==> e is InvalidInput,
        r matches Ok(g) ==> g == (DeviceGeometry {
            sector_size,
            sector_count: capacity_bytes / (sector_size as u64),
            capacity_bytes,
            read_only: false,
        }),
{
    if capacity_bytes == 0 {
        return Err(CoreFsError::InvalidInput(msg("capacity must be greater than zero")));
    }
    validate_sector_size(sector_size)?;
    if capacity_bytes % (sector_size as u64) != 0 {
        return Err(CoreFsError::InvalidInput(msg_num(
            "capacity ",
            capacity_bytes,
            " must be a multiple of sector size",
        )));
    }
    Ok(DeviceGeometry {
        sector_size,
        sector_count: capacity_bytes / (sector_size as u64),
        capacity_bytes,
        read_only: false,
    })
}

/// Geometry of an image after resizing it to `new_capacity` bytes: refused
/// on a read-only image and for a size that is not a whole number of
/// sectors.
pub fn resized_geometry(g: &DeviceGeometry, new_capacity: u64) -> (r: CoreFsResult<DeviceGeometry>)
    requires
        g.sector_size > 0,
    ensures
        g.read_only ==> (r matches Err(e) && e is PolicyViolation),
        !g.read_only ==> (r is Ok <==> new_capacity % (g.sector_size as u64) == 0),
        r matches Err(e) ==> (e is PolicyViolation || e is InvalidInput),
        r matches Ok(n) ==> n == (DeviceGeometry {
            sector_count: new_capacity / (g.sector_size as u64),
            capacity_bytes: new_capacity,
            ..*g
        }),
{
    check_write_permission(g.read_only)?;
    let ss = g.sector_size as u64;
    if new_capacity % ss != 0 {
        return Err(CoreFsError::InvalidInput(msg_num(
            "new capacity ",
            new_capacity,
            " must be a multiple of sector size",
        )));
    }
    Ok(DeviceGeometry { sector_count: new_capacity / ss, capacity_bytes: new_capacity, ..*g })
}

/// `b` is an ASCII digit.
pub open spec fn is_digit_byte(b: u8) -> bool {
    48 <= b <= 57
}

/// A device name (the last path component) names a whole disk rather than
/// a partition: an NVMe name (`nvme...`) is a whole disk unless it carries a
/// `p` partition suffix (`nvme0n1` is a disk, `nvme0n1p1` a partition); any
/// other name is a whole disk unless it ends in a digit.
pub open spec fn whole_disk_name(name: Seq<u8>) -> bool {
    if name.len() >= 4 && name.subrange(0, 4) == seq![110u8, 118, 109, 101] {
        !name.contains(112u8)
    } else {
        name.len() == 0 || !is_digit_byte(name.last())
    }
}

/// Whether device name `name` denotes a whole disk (see [`whole_disk_name`]).
pub fn is_whole_disk_name(name: &[u8]) -> (r: bool)
    ensures
        r == whole_disk_name(name@),
{
    let n = name.len();
    if n >= 4 && name[0] == 110 && name[1] == 118 && name[2] == 109 && name[3] == 101 {
        proof {
            assert(name@.subrange(0, 4) =~= seq![110u8, 118, 109, 101]);
        }
        let mut i: usize = 0;
        while i < n
            invariant
                n == name@.len(),
                n >= 4,
                name@.subrange(0, 4) == seq![110u8, 118, 109, 101],
                i <= n,
                forall|j: int| 0 <= j < i ==> name@[j] != 112u8,
            decreases n - i,
        {
            if name[i] == 112 {
                proof {
                    assert(name@[i as int] == 112u8);
                    assert(name@.contains(112u8));
                }
                return false;
            }
            i = i + 1;
        }
        proof {
            assert(!name@.contains(112u8));
        }
        return true;
    }
    proof {
        if n >= 4 {
            assert(name@.subrange(0, 4)[0] == name@[0]);
            assert(name@.subrange(0, 4)[1] == name@[1]);
            assert(name@.subrange(0, 4)[2] == name@[2]);
            assert(name@.subrange(0, 4)[3] == name@[3]);
        }
    }
    n == 0 || !(48 <= name[n - 1] && name[n - 1] <= 57)
}

/// The disk a device name belongs to: the name without its trailing ASCII
/// digits (`sdb1` gives `sdb`).
pub fn disk_name(name: &[u8]) -> (r: Vec<u8>)
    ensures
        r@.len() <= name@.len(),
        r@ == name@.subrange(0, r@.len() as int),
        r@.len() == 0 || !is_digit_byte(r@.last()),
        forall|i: int| r@.len() <= i < name@.len() ==> is_digit_byte(#[trigger] name@[i]),
{
    let mut end = name.len();
    while end > 0 && 48 <= name[end - 1] && name[end - 1] <= 57
        invariant
            end <= name@.len(),
            forall|i: int| end <= i < name@.len() ==> is_digit_byte(#[trigger] name@[i]),
        decreases end,
    {
        end = end - 1;
    }
    let mut out: Vec<u8> = Vec::new();
    let mut i: usize = 0;
    while i < end
        invariant
            end <= name@.len(),
            i <= end,
            out@ == name@.subrange(0, i as int),
        decreases end - i,
    {
        out.push(name[i]);
        i = i + 1;
    }
    out
}

/// Facts about a block device that decide whether it may be formatted.
#[derive(Debug, Clone, PartialEq, Eq)]
pub struct DeviceInfo {
    pub path: String,
    pub logical_sector_size: u32,
    pub physical_sector_size: u32,
    pub capacity_bytes: u64,
    pub read_only: bool,
    pub is_whole_disk: bool,
    pub is_mounted: bool,
}

impl DeviceInfo {
    /// Formatting is allowed: not mounted, not a whole disk, writable.
    pub fn is_safe_to_format(&self) -> (r: bool)
        ensures
            r == (!self.is_mounted && !self.is_whole_disk && !self.read_only),
    {
        !self.is_mounted && !self.is_whole_disk && !self.read_only
    }

    /// One message per reason that forbids formatting, in the order
    /// mounted, whole disk, read-only.
    pub fn format_blockers(&self) -> (r: Vec<String>)
        ensures
            r@.len() == (if self.is_mounted { 1int } else { 0 }) + (if self.is_whole_disk { 1int } else { 0 })
                + (if self.read_only { 1int } else { 0 }),
            r@.len() == 0 <==> (!self.is_mounted && !self.is_whole_disk && !self.read_only),
    {
        let mut blockers: Vec<String> = Vec::new();
        if self.is_mounted {
            let m = self.path.clone().concat(" is currently mounted");
            blockers.push(m);
        }
        if self.is_whole_disk {
            let m = self.path.clone().concat(
                " appears to be a whole-disk device without a partition table entry — formatting would destroy the entire disk",
            );
            blockers.push(m);
        }
        if self.read_only {
            let m = self.path.clone().concat(" is read-only (write-protected?)");
            blockers.push(m);
        }
        blockers
    }
}


/// Largest `offsets[j] + len` over the first `n` offsets that did not fail,
/// or 0.
pub open spec fn max_verified(offsets: Seq<u64>, failed: Seq<u64>, len: int, n: int) -> int
    decreases n,
{
    if n <= 0 {
        0
    } else {
        let m = max_verified(offsets, failed, len, n - 1);
        if failed.contains(offsets[n - 1]) {
            m
        } else if offsets[n - 1] + len > m {
            offsets[n - 1] + len
        } else {
            m
        }
    }
}

/// `s` is strictly increasing.
pub open spec fn increasing(s: Seq<u64>) -> bool {
    forall|i: int, j: int| 0 <= i < j < s.len() ==> s[i] < s[j]
}

/// Report of a probe run over `offsets` on a device of `cap` bytes.
pub open spec fn probe_report_ok(r: DeviceVerificationReport, cap: u64, offsets: Seq<u64>, len: int) -> bool {
    &&& r.advertised_bytes == cap
    &&& r.probed_offsets@ == offsets
    &&& increasing(r.failed_offsets@)
    &&& forall|i: int| 0 <= i < r.failed_offsets@.len() ==> offsets.contains(#[trigger] r.failed_offsets@[i])
    &&& r.highest_verified_offset == max_verified(offsets, r.failed_offsets@, len, offsets.len() as int)
    &&& r.estimated_usable_bytes == if r.failed_offsets@.len() == 0 { cap } else { r.highest_verified_offset }
}

fn bytes_match(a: &Vec<u8>, b: &Vec<u8>) -> (r: bool)
    ensures
        r == (a@ == b@),
{
    if a.len() != b.len() {
        return false;
    }
    let mut i: usize = 0;
    while i < a.len()
        invariant
            a@.len() == b@.len(),
            i <= a@.len(),
            forall|k: int| 0 <= k < i ==> a@[k] == b@[k],
        decreases a@.len() - i,
    {
        if a[i] != b[i] {
            return false;
        }
        i = i + 1;
    }
    proof {
        assert(a@ =~= b@);
    }
    true
}

/// Whether a probe failed, from what its three steps gave: the write
/// succeeded (`written`), the sync succeeded (`synced`), and the bytes read
/// back (`None` when the read failed), held against the `pattern` written.
pub fn probe_failed(written: bool, synced: bool, read_back: &Option<Vec<u8>>, pattern: &Vec<u8>) -> (r: bool)
    ensures
        r == !(written && synced && (read_back matches Some(v) && v@ == pattern@)),
{
    if !written || !synced {
        return true;
    }
    match read_back {
        Some(v) => !bytes_match(v, pattern),
        None => true,
    }
}

/// Byte `i` lies in one of the `len`-byte regions probed at `offsets`.
pub open spec fn in_probed(offsets: Seq<u64>, len: int, i: int) -> bool {
    exists|k: int| 0 <= k < offsets.len() && #[trigger] offsets[k] <= i < offsets[k] + len
}

/// Write a test pattern at every offset, sync, read it back and compare;
/// an offset fails when any of the three steps fails or the bytes differ
/// (see [`probe_failed`]).  With `zero_fill`, a verified region is
/// overwritten with zeros after.  On a device that stores writes, nothing
/// outside the probed regions changes.
fn run_probes<D: BlockDevice>(device: &mut D, offsets: &Vec<u64>, len: u64, zero_fill: bool) -> (r: (Vec<u64>, u64))
    requires
        old(device).inv(),
        increasing(offsets@),
        forall|j: int| 0 <= j < offsets@.len() ==> #[trigger] offsets@[j] + len <= u64::MAX,
        len <= usize::MAX,
    ensures
        final(device).inv(),
        final(device).spec_geometry() == old(device).spec_geometry(),
        final(device).stores_writes() == old(device).stores_writes(),
        increasing(r.0@),
        forall|i: int| 0 <= i < r.0@.len() ==> offsets@.contains(#[trigger] r.0@[i]),
        r.1 == max_verified(offsets@, r.0@, len as int, offsets@.len() as int),
        old(device).stores_writes() ==> final(device).content().len() == old(device).content().len()
            && forall|i: int| 0 <= i < old(device).content().len() && !in_probed(offsets@, len as int, i)
                ==> #[trigger] final(device).content()[i] == old(device).content()[i],
{
    let ghost c0 = device.content();
    let mut failed: Vec<u64> = Vec::new();
    let mut highest: u64 = 0;
    let mut k: usize = 0;
    while k < offsets.len()
        invariant
            device.inv(),
            device.spec_geometry() == old(device).spec_geometry(),
            device.stores_writes() == old(device).stores_writes(),
            increasing(offsets@),
            forall|j: int| 0 <= j < offsets@.len() ==> #[trigger] offsets@[j] + len <= u64::MAX,
            len <= usize::MAX,
            k <= offsets@.len(),
            increasing(failed@),
            forall|i: int| 0 <= i < failed@.len() ==> offsets@.take(k as int).contains(#[trigger] failed@[i]),
            highest == max_verified(offsets@, failed@, len as int, k as int),
            c0 == old(device).content(),
            device.stores_writes() ==> device.content().len() == c0.len()
                && forall|i: int| 0 <= i < c0.len() && !in_probed(offsets@, len as int, i)
                    ==> #[trigger] device.content()[i] == c0[i],
        decreases offsets@.len() - k,
    {
        let offset = offsets[k];
        let pattern = generate_test_pattern(offset, len as usize);
        let ghost ck = device.content();
        let written = device.write_at(offset, pattern.as_slice()).is_ok();
        proof {
            lemma_probe_write_frame(offsets@, len as int, k as int, c0, ck, device.content(), pattern@, written,
                device.stores_writes());
        }
        let synced = if written { device.sync().is_ok() } else { false };
        let read_back = if written && synced {
            match device.read_at(offset, len) {
                Ok(v) => Some(v),
                Err(_) => None,
            }
        } else {
            None
        };
        let ok = !probe_failed(written, synced, &read_back, &pattern);
        let ghost before = failed@;
        proof {
            assert forall|i: int| 0 <= i < before.len() implies offsets@.take(k as int + 1).contains(#[trigger] before[i]) by {
                let j = choose|j: int| 0 <= j < k && offsets@.take(k as int)[j] == before[i];
                assert(offsets@.take(k as int + 1)[j] == before[i]);
            }
            lemma_max_verified_frame(offsets@, before, offset, len as int, k as int);
        }
        if !ok {
            failed.push(offset);
            proof {
                assert(offsets@.take(k as int + 1)[k as int] == offset);
                assert forall|i: int, j: int| 0 <= i < j < failed@.len() implies failed@[i] < failed@[j] by {
                    if j == failed@.len() - 1 {
                        let q = choose|q: int| 0 <= q < k && offsets@.take(k as int)[q] == before[i];
                        assert(offsets@[q] < offsets@[k as int]);
                    }
                }
                assert(failed@[failed@.len() - 1] == offset);
                assert(failed@.contains(offset));
            }
        } else {
            if offset + len > highest {
                highest = offset + len;
            }
            if zero_fill {
                let zeros_buf = zero_vec(len as usize);
                let ghost cz = device.content();
                let zr = device.write_at(offset, zeros_buf.as_slice()).is_ok();
                proof {
                    lemma_probe_write_frame(offsets@, len as int, k as int, c0, cz, device.content(), zeros_buf@, zr,
                        device.stores_writes());
                }
            }
        }
        k = k + 1;
    }
    proof {
        assert(offsets@.take(offsets@.len() as int) =~= offsets@);
    }
    (failed, highest)
}

/// A write of `len` bytes at probed offset `k` keeps every byte outside the
/// probed regions.
proof fn lemma_probe_write_frame(offsets: Seq<u64>, len: int, k: int, c0: Seq<u8>, before: Seq<u8>, after: Seq<u8>,
    data: Seq<u8>, ok: bool, stores: bool)
    requires
        0 <= k < offsets.len(),
        data.len() == len,
        stores ==> before.len() == c0.len()
            && forall|i: int| 0 <= i < c0.len() && !in_probed(offsets, len, i) ==> #[trigger] before[i] == c0[i],
        !ok ==> after == before,
        ok && stores ==> offsets[k] + data.len() <= before.len() && after == overwrite(before, offsets[k] as int, data),
    ensures
        stores ==> after.len() == c0.len()
            && forall|i: int| 0 <= i < c0.len() && !in_probed(offsets, len, i) ==> #[trigger] after[i] == c0[i],
{
    if stores && ok {
        assert forall|i: int| 0 <= i < c0.len() && !in_probed(offsets, len, i) implies #[trigger] after[i] == c0[i] by {
            if offsets[k] <= i < offsets[k] + len {
                assert(in_probed(offsets, len, i));
            }
            assert(before[i] == c0[i]);
        }
    }
}

/// The running maximum only depends on which earlier offsets failed; the
/// offset at `k` is not among them yet.
proof fn lemma_max_verified_frame(offsets: Seq<u64>, failed: Seq<u64>, offset: u64, len: int, k: int)
    requires
        increasing(offsets),
        0 <= k < offsets.len(),
        offsets[k] == offset,
        forall|i: int| 0 <= i < failed.len() ==> offsets.take(k).contains(#[trigger] failed[i]),
    ensures
        !failed.contains(offset),
        max_verified(offsets, failed.push(offset), len, k) == max_verified(offsets, failed, len, k),
{
    if failed.contains(offset) {
        let i = choose|i: int| 0 <= i < failed.len() && failed[i] == offset;
        let q = choose|q: int| 0 <= q < k && offsets.take(k)[q] == failed[i];
        assert(offsets[q] < offsets[k]);
    }
    assert forall|j: int| 0 <= j < k implies offsets[j] < offset by {
        assert(offsets[j] < offsets[k]);
    }
    lemma_max_verified_push(offsets, failed, offset, len, k);
}

proof fn lemma_max_verified_push(offsets: Seq<u64>, failed: Seq<u64>, offset: u64, len: int, n: int)
    requires
        0 <= n <= offsets.len(),
        forall|j: int| 0 <= j < n ==> offsets[j] < offset,
    ensures
        max_verified(offsets, failed.push(offset), len, n) == max_verified(offsets, failed, len, n),
    decreases n,
{
    if n > 0 {
        lemma_max_verified_push(offsets, failed, offset, len, n - 1);
        let o = offsets[n - 1];
        assert(failed.push(offset).contains(o) == failed.contains(o)) by {
            if failed.push(offset).contains(o) {
                let i = choose|i: int| 0 <= i < failed.push(offset).len() && failed.push(offset)[i] == o;
                if i < failed.len() {
                    assert(failed[i] == o);
                }
            }
            if failed.contains(o) {
                let i = choose|i: int| 0 <= i < failed.len() && failed[i] == o;
                assert(failed.push(offset)[i] == o);
            }
        }
    }
}


/// `x` rounded down to a multiple of `ss`.
fn align_down(x: u64, ss: u64) -> (r: u64)
    requires
        ss > 0,
    ensures
        r == x / ss * ss,
        r <= x,
        x < r + ss,
{
    let q = x / ss;
    proof {
        assert(q * ss <= x && x < q * ss + ss) by (nonlinear_arith)
            requires q == x / ss, ss > 0;
    }
    q * ss
}

/// Sector-aligned offset at `pct` percent of `cap`, not below `floor`.
pub open spec fn percent_offset(cap: int, ss: int, floor: int, pct: int) -> int {
    let aligned = ((cap / 100) * pct) / ss * ss;
    if aligned > floor { aligned } else { floor }
}

/// Offsets at the percentages `pcts` (in increasing order) whose `len`-byte
/// region fits in `cap`, repeated offsets dropped.
pub open spec fn percent_offsets(cap: int, ss: int, floor: int, len: int, pcts: Seq<int>) -> Seq<u64>
    decreases pcts.len(),
{
    if pcts.len() == 0 {
        Seq::empty()
    } else {
        let prev = percent_offsets(cap, ss, floor, len, pcts.drop_last());
        let o = percent_offset(cap, ss, floor, pcts.last());
        if o + len <= cap && (prev.len() == 0 || prev.last() != o) { prev.push(o as u64) } else { prev }
    }
}

/// The probe percentages of [`sanity_check_writable`].
pub open spec fn sanity_percents() -> Seq<int> {
    seq![10int, 25, 50, 75, 90, 99]
}

/// Pattern length for sector size `ss`: 4096 bytes or one sector, at most
/// 65536, in whole sectors.
pub open spec fn sanity_pattern_len(ss: int) -> int {
    let l = if ss > 4096 { ss } else { 4096 };
    let l2 = if l < 65536 { l } else { 65536 };
    l2 / ss * ss
}

proof fn lemma_percent_monotone(cap: int, ss: int, floor: int, p1: int, p2: int)
    requires
        0 <= cap,
        0 < ss,
        0 <= p1 <= p2,
    ensures
        percent_offset(cap, ss, floor, p1) <= percent_offset(cap, ss, floor, p2),
{
    let c = cap / 100;
    assert(c * p1 <= c * p2) by (nonlinear_arith)
        requires 0 <= c, p1 <= p2;
    assert((c * p1) / ss * ss <= (c * p2) / ss * ss) by (nonlinear_arith)
        requires c * p1 <= c * p2, 0 < ss, 0 <= c * p1;
}

proof fn lemma_percent_nonneg(cap: int, ss: int, floor: int, pct: int)
    requires
        0 <= cap,
        0 < ss,
        0 <= floor,
        0 <= pct,
    ensures
        0 <= percent_offset(cap, ss, floor, pct),
{
    let c = cap / 100;
    assert(0 <= (c * pct) / ss * ss) by (nonlinear_arith)
        requires 0 <= c, 0 <= pct, 0 < ss;
}

proof fn lemma_percent_offsets_sorted(cap: int, ss: int, floor: int, len: int, pcts: Seq<int>)
    requires
        0 <= cap <= u64::MAX,
        0 < ss,
        0 <= floor,
        0 <= len,
        forall|i: int, j: int| 0 <= i < j < pcts.len() ==> (#[trigger] pcts[i]) <= (#[trigger] pcts[j]),
        forall|i: int| 0 <= i < pcts.len() ==> 0 <= #[trigger] pcts[i],
    ensures
        increasing(percent_offsets(cap, ss, floor, len, pcts)),
        forall|i: int| 0 <= i < percent_offsets(cap, ss, floor, len, pcts).len()
            ==> #[trigger] percent_offsets(cap, ss, floor, len, pcts)[i] + len <= cap,
        pcts.len() > 0 && percent_offsets(cap, ss, floor, len, pcts).len() > 0
            ==> percent_offsets(cap, ss, floor, len, pcts).last() <= percent_offset(cap, ss, floor, pcts.last()),
    decreases pcts.len(),
{
    if pcts.len() > 0 {
        let q = pcts.drop_last();
        assert forall|i: int, j: int| 0 <= i < j < q.len() implies (#[trigger] q[i]) <= (#[trigger] q[j]) by {
            assert(pcts[i] <= pcts[j]);
        }
        assert forall|i: int| 0 <= i < q.len() implies 0 <= #[trigger] q[i] by {
            assert(0 <= pcts[i]);
        }
        lemma_percent_offsets_sorted(cap, ss, floor, len, q);
        let prev = percent_offsets(cap, ss, floor, len, q);
        let o = percent_offset(cap, ss, floor, pcts.last());
        assert(0 <= pcts[pcts.len() - 1]);
        lemma_percent_nonneg(cap, ss, floor, pcts.last());
        if q.len() > 0 {
            assert(q.last() <= pcts.last()) by {
                assert(pcts[q.len() - 1] <= pcts[pcts.len() - 1]);
            }
            assert(0 <= q.last()) by {
                assert(0 <= pcts[q.len() - 1]);
            }
            lemma_percent_monotone(cap, ss, floor, q.last(), pcts.last());
        }
        if prev.len() > 0 {
            assert(q.len() > 0);
            assert(prev.last() <= o);
        }
        if o + len <= cap && (prev.len() == 0 || prev.last() != o) {
            let next = prev.push(o as u64);
            assert((o as u64) as int == o);
            assert forall|a: int, b: int| 0 <= a < b < next.len() implies next[a] < next[b] by {
                if b == next.len() - 1 {
                    assert(prev[a] <= prev.last());
                }
            }
        }
    }
}

/// Sampled write-and-read-back check: a test pattern is written at 10, 25,
/// 50, 75, 90 and 99 percent of the capacity (sector aligned, not below
/// `skip_below` rounded up to a sector, and only where the pattern fits),
/// synced and read back; verified regions are zero-filled afterwards.
/// Errors of the device are recorded as failed offsets, never returned.
pub fn sanity_check_writable<D: BlockDevice>(device: &mut D, skip_below: u64) -> (r: CoreFsResult<DeviceVerificationReport>)
    requires
        old(device).inv(),
        skip_below as int + old(device).spec_geometry().sector_size as int + 65536 <= u64::MAX,
    ensures
        final(device).inv(),
        final(device).spec_geometry() == old(device).spec_geometry(),
        final(device).stores_writes() == old(device).stores_writes(),
        r matches Ok(rep) && ({
            let cap = old(device).spec_geometry().capacity_bytes as int;
            let ss = old(device).spec_geometry().sector_size as int;
            let floor = (skip_below as int + ss - 1) / ss * ss;
            let len = sanity_pattern_len(ss);
            probe_report_ok(rep, cap as u64, percent_offsets(cap, ss, floor, len, sanity_percents()), len)
        }),
        r matches Ok(rep) ==> (old(device).stores_writes() ==> final(device).content().len() == old(device).content().len()
            && forall|i: int| 0 <= i < old(device).content().len()
                && !in_probed(rep.probed_offsets@, sanity_pattern_len(old(device).spec_geometry().sector_size as int), i)
                ==> #[trigger] final(device).content()[i] == old(device).content()[i]),
{
    proof {
        device.lemma_inv();
    }
    let capacity = device.capacity();
    let ss = device.sector_size() as u64;
    let l1 = if ss > 4096 { ss } else { 4096 };
    let l2 = if l1 < 65536 { l1 } else { 65536 };
    let pattern_len = align_down(l2, ss);
    let floor = align_down(skip_below + ss - 1, ss);
    let pcts: [u64; 6] = [10, 25, 50, 75, 90, 99];
    let ghost gp = sanity_percents();
    let mut offsets: Vec<u64> = Vec::new();
    let mut i: usize = 0;
    while i < 6
        invariant
            i <= 6,
            ss > 0,
            floor <= skip_below + ss,
            skip_below as int + ss + 65536 <= u64::MAX,
            pattern_len <= 65536,
            forall|k: int| 0 <= k < 6 ==> pcts@[k] as int == #[trigger] gp[k],
            gp == sanity_percents(),
            offsets@ == percent_offsets(capacity as int, ss as int, floor as int, pattern_len as int, gp.take(i as int)),
        decreases 6 - i,
    {
        proof {
            assert((capacity / 100) * pcts@[i as int] <= capacity) by (nonlinear_arith)
                requires pcts@[i as int] <= 99;
        }
        let raw = (capacity / 100) * pcts[i];
        let aligned = align_down(raw, ss);
        let o = if aligned > floor { aligned } else { floor };
        proof {
            assert(raw as int == (capacity as int / 100) * gp[i as int]);
            assert(gp.take(i as int + 1).drop_last() =~= gp.take(i as int));
            assert(gp.take(i as int + 1).last() == gp[i as int]);
        }
        if o <= capacity && capacity - o >= pattern_len {
            let n = offsets.len();
            if n == 0 || offsets[n - 1] != o {
                offsets.push(o);
            }
        }
        i = i + 1;
    }
    proof {
        assert(gp.take(6) =~= gp);
        lemma_percent_offsets_sorted(capacity as int, ss as int, floor as int, pattern_len as int, gp);
    }
    let (failed, highest) = run_probes(device, &offsets, pattern_len, true);
    let _ = device.sync();
    let estimated = if failed.len() == 0 { capacity } else { highest };
    Ok(DeviceVerificationReport {
        advertised_bytes: capacity,
        probed_offsets: offsets,
        failed_offsets: failed,
        highest_verified_offset: highest,
        estimated_usable_bytes: estimated,
    })
}

/// Offset `i` of `count` evenly spaced probes over `[0, max_offset]`,
/// sector aligned.
pub open spec fn spaced_offset(max_offset: int, count: int, ss: int, i: int) -> int {
    if count == 1 { 0 } else { (max_offset * i / (count - 1)) / ss * ss }
}

/// The first `n` spaced offsets, repeated offsets dropped.
pub open spec fn spaced_offsets(max_offset: int, count: int, ss: int, n: int) -> Seq<u64>
    decreases n,
{
    if n <= 0 {
        Seq::empty()
    } else {
        let prev = spaced_offsets(max_offset, count, ss, n - 1);
        let o = spaced_offset(max_offset, count, ss, n - 1);
        if prev.len() == 0 || prev.last() != o { prev.push(o as u64) } else { prev }
    }
}

/// Probe size for `chunk_size` bytes on `ss`-byte sectors: rounded up to
/// whole sectors, at least one sector.
pub open spec fn probe_chunk(chunk_size: int, ss: int) -> int {
    let c = (chunk_size + ss - 1) / ss * ss;
    if c > ss { c } else { ss }
}

proof fn lemma_spaced_range(max_offset: int, count: int, ss: int, k: int)
    requires
        0 <= max_offset,
        count >= 1,
        0 < ss,
        0 <= k < count,
    ensures
        0 <= spaced_offset(max_offset, count, ss, k) <= max_offset,
        k > 0 ==> spaced_offset(max_offset, count, ss, k - 1) <= spaced_offset(max_offset, count, ss, k),
{
    if count > 1 {
        assert(0 <= (max_offset * k / (count - 1)) / ss * ss <= max_offset) by (nonlinear_arith)
            requires 0 <= max_offset, count > 1, 0 < ss, 0 <= k < count;
        if k > 0 {
            assert((max_offset * (k - 1) / (count - 1)) / ss * ss <= (max_offset * k / (count - 1)) / ss * ss)
                by (nonlinear_arith)
                requires 0 <= max_offset, count > 1, 0 < ss, 1 <= k;
        }
    }
}

proof fn lemma_spaced_sorted(max_offset: int, count: int, ss: int, n: int)
    requires
        0 <= max_offset <= u64::MAX,
        count >= 1,
        0 < ss,
        0 <= n <= count,
    ensures
        increasing(spaced_offsets(max_offset, count, ss, n)),
        n > 0 ==> spaced_offsets(max_offset, count, ss, n).len() > 0
            && spaced_offsets(max_offset, count, ss, n).last() == spaced_offset(max_offset, count, ss, n - 1),
        forall|i: int| 0 <= i < spaced_offsets(max_offset, count, ss, n).len()
            ==> #[trigger] spaced_offsets(max_offset, count, ss, n)[i] <= max_offset,
    decreases n,
{
    if n > 0 {
        lemma_spaced_sorted(max_offset, count, ss, n - 1);
        lemma_spaced_range(max_offset, count, ss, n - 1);
        let prev = spaced_offsets(max_offset, count, ss, n - 1);
        let o = spaced_offset(max_offset, count, ss, n - 1);
        assert((o as u64) as int == o);
        if prev.len() == 0 || prev.last() != o {
            let next = prev.push(o as u64);
            assert forall|a: int, b: int| 0 <= a < b < next.len() implies next[a] < next[b] by {
                if b == next.len() - 1 {
                    assert(prev[a] <= prev.last());
                }
            }
        }
    }
}

/// Destructive capacity check: `chunk_count` probes of `chunk_size` bytes
/// (rounded up to whole sectors) evenly spaced from offset 0 to the last
/// offset where a probe fits, each written, synced and read back.  Refuses
/// a read-only device and a count of zero.
pub fn verify_device_capacity<D: BlockDevice>(device: &mut D, chunk_size: u64, chunk_count: u64) -> (r: CoreFsResult<DeviceVerificationReport>)
    requires
        old(device).inv(),
        chunk_size as int + old(device).spec_geometry().sector_size as int <= usize::MAX,
    ensures
        final(device).inv(),
        final(device).spec_geometry() == old(device).spec_geometry(),
        final(device).stores_writes() == old(device).stores_writes(),
        old(device).spec_geometry().read_only ==> (r matches Err(e) && e is PolicyViolation
            && final(device).content() == old(device).content()),
        !old(device).spec_geometry().read_only && chunk_count == 0 ==> (r matches Err(e) && e is InvalidInput
            && e.message()@ == "chunk_count must be greater than zero"@
            && final(device).content() == old(device).content()),
        !old(device).spec_geometry().read_only && chunk_count > 0 ==> (r matches Ok(rep) && ({
            let cap = old(device).spec_geometry().capacity_bytes as int;
            let ss = old(device).spec_geometry().sector_size as int;
            let chunk = probe_chunk(chunk_size as int, ss);
            let max_offset = if cap > chunk { cap - chunk } else { 0 };
            probe_report_ok(rep, cap as u64, spaced_offsets(max_offset, chunk_count as int, ss, chunk_count as int), chunk)
        })),
        r matches Ok(rep) ==> (old(device).stores_writes() ==> final(device).content().len() == old(device).content().len()
            && forall|i: int| 0 <= i < old(device).content().len()
                && !in_probed(rep.probed_offsets@, probe_chunk(chunk_size as int, old(device).spec_geometry().sector_size as int), i)
                ==> #[trigger] final(device).content()[i] == old(device).content()[i]),
{
    proof {
        device.lemma_inv();
    }
    check_write_permission(device.is_read_only())?;
    let capacity = device.capacity();
    let ss = device.sector_size() as u64;
    let rounded = align_down(chunk_size + ss - 1, ss);
    let chunk = if rounded > ss { rounded } else { ss };
    if chunk_count == 0 {
        return Err(CoreFsError::InvalidInput(msg("chunk_count must be greater than zero")));
    }
    let max_offset = if capacity > chunk { capacity - chunk } else { 0 };
    let mut offsets: Vec<u64> = Vec::new();
    let mut i: u64 = 0;
    while i < chunk_count
        invariant
            ss > 0,
            chunk_count >= 1,
            i <= chunk_count,
            offsets@ == spaced_offsets(max_offset as int, chunk_count as int, ss as int, i as int),
        decreases chunk_count - i,
    {
        let o: u64 = if chunk_count == 1 {
            0
        } else {
            proof {
                assert((max_offset as int) * (i as int) <= u128::MAX) by (nonlinear_arith)
                    requires max_offset <= u64::MAX, i <= u64::MAX;
            }
            let prod = (max_offset as u128) * (i as u128);
            let m = prod / ((chunk_count - 1) as u128);
            proof {
                assert(m <= max_offset) by (nonlinear_arith)
                    requires m as int == (prod as int) / ((chunk_count - 1) as int), prod as int == (max_offset as int) * (i as int), i < chunk_count, chunk_count > 1;
            }
            align_down(m as u64, ss)
        };
        let n = offsets.len();
        if n == 0 || offsets[n - 1] != o {
            offsets.push(o);
        }
        i = i + 1;
    }
    proof {
        lemma_spaced_sorted(max_offset as int, chunk_count as int, ss as int, chunk_count as int);
        assert forall|j: int| 0 <= j < offsets@.len() implies #[trigger] offsets@[j] + chunk <= u64::MAX by {
            assert(offsets@[j] <= max_offset);
        }
    }
    let (failed, highest) = run_probes(device, &offsets, chunk, false);
    let _ = device.sync();
    let estimated = if failed.len() == 0 { capacity } else { highest };
    Ok(DeviceVerificationReport {
        advertised_bytes: capacity,
        probed_offsets: offsets,
        failed_offsets: failed,
        highest_verified_offset: highest,
        estimated_usable_bytes: estimated,
    })
}

} // verus!
