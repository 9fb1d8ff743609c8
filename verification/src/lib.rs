//! The core of a small teaching kernel for a RISC-V machine with Sv39 paging:
//! address spaces, tasks and the system calls that act on them, each with a
//! machine-checked contract.

pub mod config;
pub mod fs;
pub mod mm;
pub mod syscall;
pub mod task;
