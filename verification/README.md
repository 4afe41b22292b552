# corefs

The storage layer of CoreFS as a Verus library: executable Rust whose
behaviour is stated in `requires`/`ensures` contracts and proved by Verus.

Layout:

- `src/block_device.rs` — the `BlockDevice` trait (devices report their
  contents as a byte sequence), an in-memory device, geometry checks, the
  writability probes and device-name rules.
- `src/block_store.rs` — the copy-on-write, deduplicating block store:
  every operation is specified over an abstract `StoreView`, and each
  mutating operation keeps the reference-count invariant (`consistent`:
  every blob's count is the number of entries that refer to it).
- `src/device_volume.rs`, `src/segment_cache.rs` — the segmented volume on
  a device: image layout, directory, cache of dirty and read segments,
  flush, and the device journal.
- `src/volume_image.rs` — the framed volume image (version 5): frames,
  superblocks, directory, inspection, block splitting and free-space
  reconstruction, with round-trip laws.
- `src/ondisk/` — the on-disk format: layout planning, bitmaps, inodes,
  superblocks (with redundant copies), the write-ahead journal and its
  replay, CRC32C, extended attributes, fault injection, the
  deterministic operation generator, and the repair plan for what a
  consistency check found (`plan_repair`).
- `tests/` — the tests, run against the compiled library.
- `app/` — what Verus does not see: file and raw-device access, and the
  serde copies of library types.

Functions that read or write through a `BlockDevice` state what holds of
every outcome (a device may fail any call); the decisions they make on what
they read stand in verified functions of their own, with exact contracts
(for example `plan_save`, `check_payload_inode`, `unframe_payload`,
`build_image`, `assemble_payloads`, `probe_failed`).
