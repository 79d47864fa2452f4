//! Core of a multi-core RISC-V style kernel, reduced to its verifiable heart:
//! the physical/virtual memory-area abstraction with lazy page-granular
//! allocation, and the per-core scheduler with the task lifecycle state
//! machine, including the try-lock reparenting protocol that hands orphaned
//! children to the init task without deadlock.
//!
//! Hardware concerns (the real MMU, TLB, context switch and SBI console) are
//! collaborators: the page table and the physical frames are modelled as
//! explicit data so that every decision the kernel core makes is verified.

pub mod addr;
pub mod console;
pub mod constants;
pub mod error;
pub mod flags;
pub mod frame;
pub mod laws;
pub mod memory_set;
pub mod page_table;
pub mod pma;
pub mod sched;
pub mod task;
pub mod time;
pub mod vma;
