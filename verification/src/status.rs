//! What a system call answers with when it fails.

use vstd::prelude::*;

verus! {

/// A status: zero or more for success, negative for a refusal.
pub type Status = i64;

pub const STATUS_OK: i64 = 0;
pub const STATUS_BAD_CALL: i64 = -1;
pub const STATUS_BAD_ARG: i64 = -2;
pub const STATUS_BAD_ADDRESS: i64 = -3;
pub const STATUS_BUSY: i64 = -4;

} // verus!
