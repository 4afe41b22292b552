use corefs::block_device::{
    check_alignment, check_bounds, disk_name, generate_test_pattern, image_geometry,
    is_whole_disk_name, resized_geometry, sanity_check_writable, verify_device_capacity, BlockDevice, DeviceGeometry, DeviceVerificationReport, MemoryDevice,
};
use corefs::error::CoreFsError;
use corefs::ondisk::fault_injection::{FaultPlan, FaultyDevice};

const SECTOR: u32 = 4096;
const FOUR_SECTORS: u64 = 4 * 4096;

#[test]
fn check_alignment_accepts_aligned_values() {
    assert!(check_alignment(0, 0, 512).is_ok());
    assert!(check_alignment(512, 1024, 512).is_ok());
    assert!(check_alignment(4096, 4096, 4096).is_ok());
}

#[test]
fn check_alignment_rejects_misaligned_offset() {
    let err = check_alignment(1, 512, 512).unwrap_err();
    assert!(err.to_string().contains("offset 1"));
}

#[test]
fn check_alignment_rejects_misaligned_length() {
    let err = check_alignment(512, 100, 512).unwrap_err();
    assert!(err.to_string().contains("length 100"));
}

#[test]
fn check_bounds_accepts_exact_capacity() {
    assert!(check_bounds(0, 4096, 4096).is_ok());
}

#[test]
fn check_bounds_rejects_past_end() {
    let err = check_bounds(4096, 1, 4096).unwrap_err();
    assert!(err.to_string().contains("past end"));
}

#[test]
fn check_bounds_rejects_overflow() {
    let err = check_bounds(u64::MAX, 1, u64::MAX).unwrap_err();
    assert!(err.to_string().contains("overflows"));
}

#[test]
fn device_geometry_stores_correct_values() {
    let g = DeviceGeometry {
        sector_size: 512,
        sector_count: 2048,
        capacity_bytes: 512 * 2048,
        read_only: false,
    };
    assert_eq!(g.capacity_bytes, 1_048_576);
    assert_eq!(g.sector_count, 2048);
    assert!(!g.read_only);
}

#[test]
fn memory_device_creation_and_geometry() {
    let dev = MemoryDevice::new(FOUR_SECTORS, SECTOR).unwrap();
    assert_eq!(dev.capacity(), FOUR_SECTORS);
    assert_eq!(dev.sector_size(), SECTOR);
    assert_eq!(dev.geometry().sector_count, 4);
    assert!(!dev.is_read_only());
}

#[test]
fn memory_device_rejects_zero_capacity() {
    let err = MemoryDevice::new(0, SECTOR).unwrap_err();
    assert!(err.to_string().contains("greater than zero"));
}

#[test]
fn memory_device_rejects_non_power_of_two_sector() {
    let err = MemoryDevice::new(4096, 3000).unwrap_err();
    assert!(err.to_string().contains("power of two"));
}

#[test]
fn memory_device_rejects_unaligned_capacity() {
    let err = MemoryDevice::new(5000, SECTOR).unwrap_err();
    assert!(err.to_string().contains("multiple of sector size"));
}

#[test]
fn memory_device_write_then_read() {
    let mut dev = MemoryDevice::new(FOUR_SECTORS, SECTOR).unwrap();
    let mut payload = vec![0u8; SECTOR as usize];
    payload[0..4].copy_from_slice(b"TEST");
    dev.write_at(SECTOR as u64, &payload).unwrap();
    let readback = dev.read_at(SECTOR as u64, SECTOR as u64).unwrap();
    assert_eq!(&readback[0..4], b"TEST");
}

#[test]
fn memory_device_write_multiple_sectors() {
    let mut dev = MemoryDevice::new(FOUR_SECTORS, SECTOR).unwrap();
    let payload = vec![0xABu8; 2 * SECTOR as usize];
    dev.write_at(0, &payload).unwrap();
    let readback = dev.read_at(0, 2 * SECTOR as u64).unwrap();
    assert!(readback.iter().all(|&b| b == 0xAB));
    let untouched = dev.read_at(2 * SECTOR as u64, 2 * SECTOR as u64).unwrap();
    assert!(untouched.iter().all(|&b| b == 0));
}

#[test]
fn memory_device_read_zero_length() {
    let dev = MemoryDevice::new(FOUR_SECTORS, SECTOR).unwrap();
    let result = dev.read_at(0, 0).unwrap();
    assert!(result.is_empty());
}

#[test]
fn memory_device_write_zero_length() {
    let mut dev = MemoryDevice::new(FOUR_SECTORS, SECTOR).unwrap();
    dev.write_at(0, &[]).unwrap();
}

#[test]
fn memory_device_rejects_misaligned_read() {
    let dev = MemoryDevice::new(FOUR_SECTORS, SECTOR).unwrap();
    let err = dev.read_at(100, SECTOR as u64).unwrap_err();
    assert!(matches!(err, CoreFsError::InvalidInput(_)));
}

#[test]
fn memory_device_rejects_misaligned_write() {
    let mut dev = MemoryDevice::new(FOUR_SECTORS, SECTOR).unwrap();
    let payload = vec![0u8; 100];
    let err = dev.write_at(0, &payload).unwrap_err();
    assert!(matches!(err, CoreFsError::InvalidInput(_)));
}

#[test]
fn memory_device_rejects_out_of_bounds_read() {
    let dev = MemoryDevice::new(FOUR_SECTORS, SECTOR).unwrap();
    let err = dev.read_at(FOUR_SECTORS, SECTOR as u64).unwrap_err();
    assert!(matches!(err, CoreFsError::InvalidInput(_)));
}

#[test]
fn memory_device_rejects_out_of_bounds_write() {
    let mut dev = MemoryDevice::new(FOUR_SECTORS, SECTOR).unwrap();
    let payload = vec![0u8; SECTOR as usize];
    let err = dev.write_at(FOUR_SECTORS, &payload).unwrap_err();
    assert!(matches!(err, CoreFsError::InvalidInput(_)));
}

#[test]
fn memory_device_read_only_blocks_writes() {
    let mut dev = MemoryDevice::new(FOUR_SECTORS, SECTOR).unwrap();
    dev.set_read_only(true);
    let payload = vec![0u8; SECTOR as usize];
    let err = dev.write_at(0, &payload).unwrap_err();
    assert!(matches!(err, CoreFsError::PolicyViolation(_)));
    assert!(err.to_string().contains("read-only"));
}

#[test]
fn memory_device_read_only_allows_reads() {
    let mut dev = MemoryDevice::new(FOUR_SECTORS, SECTOR).unwrap();
    dev.set_read_only(true);
    let result = dev.read_at(0, SECTOR as u64);
    assert!(result.is_ok());
}

#[test]
fn memory_device_trim_zeros_range() {
    let mut dev = MemoryDevice::new(FOUR_SECTORS, SECTOR).unwrap();
    let payload = vec![0xFFu8; SECTOR as usize];
    dev.write_at(0, &payload).unwrap();
    dev.trim(0, SECTOR as u64).unwrap();
    let readback = dev.read_at(0, SECTOR as u64).unwrap();
    assert!(readback.iter().all(|&b| b == 0));
}

#[test]
fn memory_device_trim_records_ranges() {
    let mut dev = MemoryDevice::new(FOUR_SECTORS, SECTOR).unwrap();
    dev.trim(0, SECTOR as u64).unwrap();
    dev.trim(2 * SECTOR as u64, SECTOR as u64).unwrap();
    assert_eq!(dev.trimmed_ranges().len(), 2);
    assert_eq!(dev.trimmed_ranges()[0], (0, SECTOR as u64));
    assert_eq!(dev.trimmed_ranges()[1], (2 * SECTOR as u64, SECTOR as u64));
}

#[test]
fn memory_device_trim_disabled_is_noop() {
    let mut dev = MemoryDevice::new(FOUR_SECTORS, SECTOR).unwrap();
    let payload = vec![0xFFu8; SECTOR as usize];
    dev.write_at(0, &payload).unwrap();
    dev.set_trim_supported(false);
    assert!(!dev.supports_trim());
    dev.trim(0, SECTOR as u64).unwrap();
    let readback = dev.read_at(0, SECTOR as u64).unwrap();
    assert!(readback.iter().all(|&b| b == 0xFF));
    assert!(dev.trimmed_ranges().is_empty());
}

#[test]
fn memory_device_trim_rejects_misaligned() {
    let mut dev = MemoryDevice::new(FOUR_SECTORS, SECTOR).unwrap();
    let err = dev.trim(100, SECTOR as u64).unwrap_err();
    assert!(matches!(err, CoreFsError::InvalidInput(_)));
}

#[test]
fn memory_device_trim_rejects_out_of_bounds() {
    let mut dev = MemoryDevice::new(FOUR_SECTORS, SECTOR).unwrap();
    let err = dev.trim(FOUR_SECTORS, SECTOR as u64).unwrap_err();
    assert!(matches!(err, CoreFsError::InvalidInput(_)));
}

#[test]
fn memory_device_from_bytes_preserves_content() {
    let mut original = vec![0u8; FOUR_SECTORS as usize];
    original[0..5].copy_from_slice(b"HELLO");
    let dev = MemoryDevice::from_bytes(original, SECTOR).unwrap();
    let readback = dev.read_at(0, SECTOR as u64).unwrap();
    assert_eq!(&readback[0..5], b"HELLO");
}

#[test]
fn memory_device_from_bytes_rejects_unaligned() {
    let data = vec![0u8; 100];
    let err = MemoryDevice::from_bytes(data, SECTOR).unwrap_err();
    assert!(matches!(err, CoreFsError::InvalidInput(_)));
}

#[test]
fn memory_device_sync_succeeds() {
    let mut dev = MemoryDevice::new(FOUR_SECTORS, SECTOR).unwrap();
    assert!(dev.sync().is_ok());
}

#[test]
fn memory_device_data_reflects_writes() {
    let mut dev = MemoryDevice::new(FOUR_SECTORS, SECTOR).unwrap();
    let mut payload = vec![0u8; SECTOR as usize];
    payload[0] = 42;
    dev.write_at(SECTOR as u64, &payload).unwrap();
    assert_eq!(dev.data()[SECTOR as usize], 42);
}

#[test]
fn memory_device_512_byte_sectors() {
    let mut dev = MemoryDevice::new(8 * 512, 512).unwrap();
    assert_eq!(dev.sector_size(), 512);
    assert_eq!(dev.geometry().sector_count, 8);
    let payload = vec![0xCDu8; 512];
    dev.write_at(512, &payload).unwrap();
    let readback = dev.read_at(512, 512).unwrap();
    assert!(readback.iter().all(|&b| b == 0xCD));
}

#[test]
fn memory_device_clear_trimmed_ranges() {
    let mut dev = MemoryDevice::new(FOUR_SECTORS, SECTOR).unwrap();
    dev.trim(0, SECTOR as u64).unwrap();
    assert_eq!(dev.trimmed_ranges().len(), 1);
    dev.clear_trimmed_ranges();
    assert!(dev.trimmed_ranges().is_empty());
}

fn dispatch<D: BlockDevice>(dev: &mut D) {
    let mut payload = vec![0u8; SECTOR as usize];
    payload[0] = 0xFF;
    dev.write_at(0, &payload).unwrap();
    let readback = dev.read_at(0, SECTOR as u64).unwrap();
    assert_eq!(readback[0], 0xFF);
    assert_eq!(dev.capacity(), FOUR_SECTORS);
    assert_eq!(dev.sector_size(), SECTOR);
    assert!(!dev.is_read_only());
}

#[test]
fn trait_object_dispatch_works() {
    let mut dev = MemoryDevice::new(FOUR_SECTORS, SECTOR).unwrap();
    dispatch(&mut dev);
}

#[test]
fn full_device_round_trip_memory() {
    let mut dev = MemoryDevice::new(FOUR_SECTORS, SECTOR).unwrap();
    let data = (0..FOUR_SECTORS as usize).map(|i| (i % 256) as u8).collect::<Vec<_>>();
    dev.write_at(0, &data).unwrap();
    dev.sync().unwrap();
    let readback = dev.read_at(0, FOUR_SECTORS).unwrap();
    assert_eq!(readback, data);
}

#[test]
fn sector_by_sector_write_and_verify() {
    let mut dev = MemoryDevice::new(FOUR_SECTORS, SECTOR).unwrap();
    let ss = SECTOR as u64;
    for i in 0..4u64 {
        let payload = vec![(i + 1) as u8; SECTOR as usize];
        dev.write_at(i * ss, &payload).unwrap();
    }
    for i in 0..4u64 {
        let readback = dev.read_at(i * ss, ss).unwrap();
        assert!(readback.iter().all(|&b| b == (i + 1) as u8));
    }
}

#[test]
fn overwrite_replaces_previous_data() {
    let mut dev = MemoryDevice::new(FOUR_SECTORS, SECTOR).unwrap();
    let first = vec![0xAAu8; SECTOR as usize];
    dev.write_at(0, &first).unwrap();
    let second = vec![0xBBu8; SECTOR as usize];
    dev.write_at(0, &second).unwrap();
    let readback = dev.read_at(0, SECTOR as u64).unwrap();
    assert!(readback.iter().all(|&b| b == 0xBB));
}

#[test]
fn write_at_exact_end_boundary() {
    let mut dev = MemoryDevice::new(FOUR_SECTORS, SECTOR).unwrap();
    let payload = vec![0xCCu8; SECTOR as usize];
    dev.write_at(3 * SECTOR as u64, &payload).unwrap();
    let readback = dev.read_at(3 * SECTOR as u64, SECTOR as u64).unwrap();
    assert!(readback.iter().all(|&b| b == 0xCC));
}

#[test]
fn read_entire_device() {
    let dev = MemoryDevice::new(FOUR_SECTORS, SECTOR).unwrap();
    let result = dev.read_at(0, FOUR_SECTORS).unwrap();
    assert_eq!(result.len(), FOUR_SECTORS as usize);
}

#[test]
fn generate_test_pattern_is_offset_dependent() {
    let p1 = generate_test_pattern(0, 4096);
    let p2 = generate_test_pattern(4096, 4096);
    let p3 = generate_test_pattern(8192, 4096);
    assert_ne!(p1, p2);
    assert_ne!(p2, p3);
    assert_ne!(p1, p3);
    assert_eq!(p1.len(), 4096);
}

#[test]
fn generate_test_pattern_is_deterministic() {
    let p1 = generate_test_pattern(12345, 4096);
    let p2 = generate_test_pattern(12345, 4096);
    assert_eq!(p1, p2);
}

#[test]
fn device_verification_report_fake_ratio_calculation() {
    let report = DeviceVerificationReport {
        advertised_bytes: 1000,
        probed_offsets: vec![0, 500, 1000],
        failed_offsets: vec![500, 1000],
        highest_verified_offset: 100,
        estimated_usable_bytes: 100,
    };
    assert!(!report.is_honest());
    assert_eq!(report.fake_ratio_percent(), 90);
}

/// A memory device that rejects writes reaching past `writable_until`, as
/// a stick that advertises more than it holds would.
fn fake_stick(capacity: u64, writable_until: u64) -> FaultyDevice<MemoryDevice> {
    FaultyDevice::new(
        MemoryDevice::new(capacity, 4096).unwrap(),
        FaultPlan::new().fail_writes_in_range(writable_until, u64::MAX),
    )
}

const ONE_MIB: u64 = 1024 * 1024;

#[test]
fn sanity_check_on_honest_device_passes() {
    let mut dev = MemoryDevice::new(16 * ONE_MIB, 4096).unwrap();
    let report = sanity_check_writable(&mut dev, 0).unwrap();
    assert!(report.is_honest());
    assert!(report.failed_offsets.is_empty());
    assert_eq!(report.estimated_usable_bytes, report.advertised_bytes);
    assert_eq!(report.fake_ratio_percent(), 0);
}

#[test]
fn sanity_check_detects_fake_stick() {
    let mut dev = fake_stick(16 * ONE_MIB, 2 * ONE_MIB);
    let report = sanity_check_writable(&mut dev, 0).unwrap();
    assert!(!report.is_honest());
    assert!(!report.failed_offsets.is_empty());
    assert!(report.estimated_usable_bytes < report.advertised_bytes);
    assert!(report.fake_ratio_percent() > 50);
}

#[test]
fn sanity_check_zero_fills_probe_regions() {
    let mut dev = MemoryDevice::new(16 * ONE_MIB, 4096).unwrap();
    let marker = vec![0xAB; (16 * ONE_MIB) as usize];
    dev.write_at(0, &marker).unwrap();

    let report = sanity_check_writable(&mut dev, 0).unwrap();
    assert!(report.is_honest());

    for &offset in &report.probed_offsets {
        let read = dev.read_at(offset, 4096).unwrap();
        assert!(
            read.iter().all(|&b| b == 0),
            "probe at offset {offset} was not zero-filled"
        );
    }
}

#[test]
fn sanity_check_respects_skip_below() {
    let mut dev = MemoryDevice::new(16 * ONE_MIB, 4096).unwrap();
    let marker = vec![0xCD; 4096];
    dev.write_at(0, &marker).unwrap();

    let report = sanity_check_writable(&mut dev, 1 * ONE_MIB).unwrap();
    assert!(report.is_honest());

    let read = dev.read_at(0, 4096).unwrap();
    assert_eq!(read, marker);
}

#[test]
fn verify_device_capacity_on_honest_device() {
    let mut dev = MemoryDevice::new(16 * ONE_MIB, 4096).unwrap();
    let report = verify_device_capacity(&mut dev, 64 * 1024, 10).unwrap();
    assert!(report.is_honest());
    assert_eq!(report.probed_offsets.len(), 10);
    assert_eq!(report.fake_ratio_percent(), 0);
}

#[test]
fn verify_device_capacity_detects_fake() {
    let mut dev = fake_stick(16 * ONE_MIB, ONE_MIB);
    let report = verify_device_capacity(&mut dev, 64 * 1024, 20).unwrap();
    assert!(!report.is_honest());
    assert!(report.failed_offsets.len() > 10);
    assert!(report.fake_ratio_percent() > 80);
}

#[test]
fn verify_device_capacity_rejects_zero_chunks() {
    let mut dev = MemoryDevice::new(16 * ONE_MIB, 4096).unwrap();
    let err = verify_device_capacity(&mut dev, 64 * 1024, 0).unwrap_err();
    assert!(err.to_string().contains("chunk_count"));
}

#[test]
fn verify_device_rejects_read_only() {
    let mut dev = MemoryDevice::new(16 * ONE_MIB, 4096).unwrap();
    dev.set_read_only(true);
    let err = verify_device_capacity(&mut dev, 64 * 1024, 10).unwrap_err();
    assert!(matches!(err, CoreFsError::PolicyViolation(_)));
}

#[test]
fn verify_device_capacity_probes_are_evenly_spaced() {
    let mut dev = MemoryDevice::new(16 * ONE_MIB, 4096).unwrap();
    let report = verify_device_capacity(&mut dev, 64 * 1024, 2).unwrap();
    assert_eq!(report.probed_offsets, vec![0, 16 * ONE_MIB - 64 * 1024]);
    assert_eq!(report.highest_verified_offset, 16 * ONE_MIB);
}

#[test]
fn image_geometry_accepts_whole_sectors() {
    let g = image_geometry(8 * 4096, 4096).unwrap();
    assert_eq!(g.sector_count, 8);
    assert_eq!(g.capacity_bytes, 8 * 4096);
    assert!(!g.read_only);
}

#[test]
fn image_geometry_rejects_bad_sizes() {
    assert!(matches!(image_geometry(0, 4096), Err(CoreFsError::InvalidInput(_))));
    assert!(matches!(image_geometry(4096, 3000), Err(CoreFsError::InvalidInput(_))));
    assert!(matches!(image_geometry(4097, 4096), Err(CoreFsError::InvalidInput(_))));
}

#[test]
fn resized_geometry_follows_new_capacity() {
    let g = image_geometry(8 * 4096, 4096).unwrap();
    let r = resized_geometry(&g, 16 * 4096).unwrap();
    assert_eq!(r.sector_count, 16);
    assert_eq!(r.capacity_bytes, 16 * 4096);
    assert!(matches!(resized_geometry(&g, 5000), Err(CoreFsError::InvalidInput(_))));
    let ro = DeviceGeometry { read_only: true, ..g };
    assert!(matches!(resized_geometry(&ro, 16 * 4096), Err(CoreFsError::PolicyViolation(_))));
}

#[test]
fn whole_disk_names() {
    assert!(is_whole_disk_name(b"sdb"));
    assert!(!is_whole_disk_name(b"sdb1"));
    assert!(is_whole_disk_name(b"nvme0n1"));
    assert!(!is_whole_disk_name(b"nvme0n1p1"));
    assert!(is_whole_disk_name(b""));
}

#[test]
fn disk_name_strips_partition_number() {
    assert_eq!(disk_name(b"sdb12"), b"sdb".to_vec());
    assert_eq!(disk_name(b"vda"), b"vda".to_vec());
    assert_eq!(disk_name(b"123"), Vec::<u8>::new());
}

#[test]
fn faulty_device_reports_the_trim_support_of_its_device() {
    let dev = MemoryDevice::new(FOUR_SECTORS, SECTOR).unwrap();
    let faulty = FaultyDevice::new(dev, FaultPlan::new());
    assert!(faulty.supports_trim());
    let mut plain = MemoryDevice::new(FOUR_SECTORS, SECTOR).unwrap();
    plain.set_trim_supported(false);
    let faulty = FaultyDevice::new(plain, FaultPlan::new());
    assert!(!faulty.supports_trim());
}

#[test]
fn probe_verdict_follows_the_three_steps() {
    let pattern = vec![1u8, 2, 3];
    assert!(!corefs::block_device::probe_failed(true, true, &Some(vec![1, 2, 3]), &pattern));
    assert!(corefs::block_device::probe_failed(true, true, &Some(vec![1, 2, 4]), &pattern));
    assert!(corefs::block_device::probe_failed(true, true, &None, &pattern));
    assert!(corefs::block_device::probe_failed(true, false, &Some(vec![1, 2, 3]), &pattern));
    assert!(corefs::block_device::probe_failed(false, true, &Some(vec![1, 2, 3]), &pattern));
}
