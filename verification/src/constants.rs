//! Protection bits and the page size.

use vstd::prelude::*;

verus! {

/// No access.
pub const PROT_NONE: i32 = 0;

/// Pages may be read.
pub const PROT_READ: i32 = 1;

/// Pages may be written.
pub const PROT_WRITE: i32 = 2;

/// Pages may be executed.
pub const PROT_EXEC: i32 = 4;

/// Bytes in one page. Offsets into a backing store are kept in bytes, so a
/// region that loses its first `n` pages has its offset advanced by
/// `n * PAGESIZE`.
pub const PAGESIZE: i64 = 4096;

} // verus!
