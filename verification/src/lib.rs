//! Memory-management core of a small 64-bit kernel: a block-granularity
//! first-fit heap allocator over a fixed arena, and a four-level hardware
//! page-table manager that builds virtual address spaces on top of it.
//!
//! Hardware-facing values (page-table entries, block-table entries) are kept
//! bit-exact as plain integers with named masks and accessor functions, so a
//! value produced here can be handed to the CPU unchanged.

pub mod config;
pub mod file;
pub mod heap;
pub mod idt;
pub mod paging;
pub mod pde;
pub mod pparser;
pub mod status;
