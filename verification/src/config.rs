//! Constants of the machine and of the kernel.

use vstd::prelude::*;

verus! {

/// Size of a page and of a physical frame, in bytes.
pub const PAGE_SIZE: usize = 4096;

/// Size of a page, as a machine word.
pub const PAGE_SIZE_U64: u64 = 4096;

/// Number of offset bits inside a page.
pub const PAGE_SIZE_BITS: usize = 12;

/// Width of a physical address under Sv39.
pub const PA_WIDTH_SV39: usize = 56;

/// Width of a virtual address under Sv39.
pub const VA_WIDTH_SV39: usize = 39;

/// Width of a physical page number under Sv39.
pub const PPN_WIDTH_SV39: usize = 44;

/// Width of a virtual page number under Sv39.
pub const VPN_WIDTH_SV39: usize = 27;

/// Number of entries in one page-table node.
pub const PT_ENTRIES: usize = 512;

/// The stride that a task of priority one would advance by on each selection.
pub const BIG_STRIDE: usize = 0x10_0000;

/// Priority that a new task starts with.
pub const DEFAULT_PRIORITY: usize = 16;

/// Number of system-call counters kept per task.
pub const MAX_SYSCALL_NUM: usize = 500;

/// Size of a user stack, in bytes.
pub const USER_STACK_SIZE: usize = 8192;

} // verus!
