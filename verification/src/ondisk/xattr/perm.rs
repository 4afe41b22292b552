//! Permission bits of an ACL record.
use vstd::prelude::*;

verus! {

/// Read access.
pub const READ: u8 = 1;
/// Write access.
pub const WRITE: u8 = 2;
/// Execute access.
pub const EXECUTE: u8 = 4;

} // verus!
