//! The block-oriented on-disk format (ODF v1).
pub mod checksum;
pub mod codec;
pub mod layout;
pub mod bitmap;
pub mod inode;
pub mod superblock;
pub mod fault_injection;
pub mod refcount;
pub mod journal;
pub mod volume;
pub mod xattr;
pub mod property;
pub mod fsck_repair;
