//! Build-time constants of the kernel core.

use vstd::prelude::*;

verus! {

/// Number of cores the kernel is configured for.
pub const CPU_NUM: usize = 4;

/// Size of one page of physical or virtual memory, in bytes.
pub const PAGE_SIZE: usize = 0x1000;

/// log2 of `PAGE_SIZE`.
pub const PAGE_SIZE_BITS: usize = 0xc;

/// One past the highest user virtual address.
pub const USER_VIRT_ADDR_LIMIT: usize = 0xFFFF_FFFF;

/// Size of the user stack, in bytes.
pub const USER_STACK_SIZE: usize = 0x20_0000;

/// Lowest address of the user stack; the user heap grows upward from here.
pub const USER_STACK_OFFSET: usize = 0x4000_0000 - USER_STACK_SIZE;

/// Sentinel parent id of a task that has no parent.
pub const NO_PARENT: usize = usize::MAX;

} // verus!
