//! Process and memory management core of a small kernel.
//!
//! - [`allocator`]: alignment arithmetic, the first-fit free-list allocator
//!   with its laws, and a spin lock to share an allocator.
//! - [`region`]: the cursors from which code regions and heap regions are
//!   carved.
//! - [`paging`]: which pages a range of addresses takes, and the walk over
//!   them.
//! - [`image`]: the two formats of binary image and what loading one copies.
//! - [`proc`]: the process table and the lifecycle of a process.
//! - [`syscall`]: what each system call does to that state.
//!
//! The library keeps the books and decides. It touches neither memory nor
//! page tables: where an operation needs pages mapped, bytes copied or the
//! processor switched to user mode, its result says so.

pub mod allocator;
pub mod image;
pub mod paging;
pub mod proc;
pub mod region;
pub mod syscall;
