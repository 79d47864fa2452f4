//! Error conditions surfaced by the memory and task subsystems.

use vstd::prelude::*;

verus! {

/// Typed error conditions of the kernel core.
///
/// Allocation and permission failures bubble up as these values; only
/// genuinely impossible states (a fault at an already-valid page table
/// entry, a corrupted scheduler status) are treated by callers as fatal.
#[allow(non_camel_case_types)]
#[derive(Clone, Copy, Debug, PartialEq, Eq, Structural)]
pub enum OSError {
    /// The global physical frame allocator is exhausted.
    Memory_RunOutOfMemory,
    /// A physical memory area was asked for with an invalid page count.
    PmArea_InvalidRange,
    /// A byte range access lies outside a physical memory area.
    PmArea_OutOfRange,
    /// A lazily allocated page was released before it was ever backed.
    /// Tolerated by unmap paths: it only means "nothing to free".
    PmAreaLazy_ReleaseNotAllocatedPage,
    /// A virtual memory area was constructed over an empty range.
    VmArea_InvalidRange,
    /// A virtual memory area's span does not match its physical area's size.
    VmArea_VmSizeNotEqualToPmSize,
    /// A page fault asked for access that the area's flags forbid.
    PageFaultHandler_AccessDenied,
    /// A page fault arrived for a page whose table entry is already valid:
    /// TLB/PTE desynchronization, never a normal outcome.
    PageFaultHandler_TrapAtValidPage,
    /// A page table operation addressed a page with no entry.
    PageTable_PageNotMapped,
    /// A mapping was requested for a page that already has an entry.
    PageTable_PageAlreadyMapped,
    /// A trap arrived on a core that is not running any task.
    Task_NoTrapHandler,
}

/// Result type of the kernel core's fallible operations.
pub type OSResult<T> = Result<T, OSError>;

} // verus!
