//! CoreFS storage primitives: block devices, the on-disk format (ODF v1),
//! the in-memory block store, the path catalog and the device-resident
//! segment volume.
pub mod error;
pub mod ondisk;
pub mod block_device;
pub mod order;
pub mod domain;
pub mod catalog;
pub mod allocator;
pub mod segment_cache;
pub mod device_volume;
pub mod block_store;
pub mod volume_image;
