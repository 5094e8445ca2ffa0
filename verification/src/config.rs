//! Compile-time configuration of the kernel's memory layout.

use vstd::prelude::*;

verus! {

/// Total capacity of the kernel heap arena in bytes (100 MiB, starting in
/// the extended memory region).
pub const HEAP_SIZE_BYTES: usize = 104857600;

/// Allocation granularity of the heap; also the hardware page size.
pub const HEAP_BLOCK_SIZE: usize = 4096;

/// Physical address where the heap arena begins.
pub const HEAP_ADDRESS: usize = 0x01000000;

/// Number of interrupt vectors the interrupt descriptor table holds.
pub const TOTAL_INTERRUPTS: usize = 256;

/// Longest accepted filesystem path, in characters.
pub const MAX_PATH: usize = 108;

} // verus!
