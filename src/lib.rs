//! A small preemptive kernel core modelled as explicitly owned state: a frame
//! allocator, Sv39 translation tables kept in its frames, a kernel heap, trap
//! dispatch, a round-robin scheduler with result voting, and system calls.
//!
//! Addresses, table entries and machine words are `u64`: the target is a
//! 64-bit RISC-V hart.
pub mod page;
pub mod page_table;
pub mod kmem;
pub mod encoding;
pub mod trap;
pub mod process;
pub mod sched;
pub mod syscall;
pub mod consts;
pub mod exit;
pub mod uart;
pub mod kernel;
