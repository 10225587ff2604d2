//! Configuration constants of the memory subsystem: the physical window the
//! kernel may use, the page size, and the fixed stack and user-image layout.

use vstd::prelude::*;

verus! {

/// Size in bytes of one page / one physical frame.
pub const PAGESIZE: u64 = 4096;

/// First physical address of the window the kernel occupies.
pub const MEMORY_START: u64 = 0x80200000;

/// One past the last physical address the kernel may use.
pub const MEMORY_END: u64 = 0x80800000;

/// Size in bytes of the kernel stack window.
pub const KERNEL_STACK_SIZE: u64 = 8 * 4096;

/// Size in bytes of the user stack mapped below the user entry address.
pub const USER_STACK_SIZE: u64 = 4096;

/// Fixed virtual address at which user code is loaded; the user stack sits
/// immediately below it.
pub const USER_APP_START: u64 = 0x10000;

/// One past the largest virtual address: addresses are 39 bits wide.
pub const VA_SPACE: u64 = 0x8000000000;

/// Every physical address this model hands out is below this bound, so that
/// a frame number shifted into an entry always fits in the entry word.
pub const PA_LIMIT: u64 = 0x40000000000;

} // verus!
