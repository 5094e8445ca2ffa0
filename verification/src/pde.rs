//! The 64-bit hardware page-table entry.
//!
//! The layout is the x86-64 format and must stay bit-exact: bit 0 present,
//! bit 1 writeable, bit 2 user-accessible, bit 3 write-through, bit 4
//! cache-disabled, bit 5 accessed, bit 6 dirty, bit 7 huge-page, bit 8
//! global, bits 12–51 the physical frame address, bit 63 no-execute.  The
//! entry is kept as a plain integer with named masks and accessor
//! functions so that a value built here can be written to hardware
//! unchanged.

use vstd::prelude::*;

verus! {

/// Bit 0: the entry refers to valid backing memory or a valid child table.
pub const PDE_PRESENT: u64 = 0x1;

/// Bit 1: the mapped memory may be written.
pub const PDE_WRITEABLE: u64 = 0x2;

/// Bit 2: the mapped memory is accessible from user space as well.
pub const PDE_ACCESS_FROM_ALL: u64 = 0x4;

/// Bit 3: write-through caching.
pub const PDE_WRITE_THROUGH: u64 = 0x8;

/// Bit 4: caching disabled.
pub const PDE_CACHE_DISABLED: u64 = 0x10;

/// Bit 5: set by hardware when the entry is used in a translation.
pub const PDE_ACCESSED: u64 = 0x20;

/// Bit 6: set by hardware on a write through this entry.
pub const PDE_DIRTY: u64 = 0x40;

/// Bit 7: the entry maps a huge page instead of a child table.
pub const PDE_HUGE_PAGE: u64 = 0x80;

/// Bit 8: the translation is global across address-space switches.
pub const PDE_GLOBAL: u64 = 0x100;

/// Bits 12–51: the physical frame address, shifted left by 12.
pub const PDE_ADDR_MASK: u64 = 0x000F_FFFF_FFFF_F000;

/// Bit 63: instruction fetches through this entry are forbidden.
pub const PDE_NO_EXECUTE: u64 = 0x8000_0000_0000_0000;

/// Physical addresses must fit the 40-bit frame field, so they lie below
/// this bound (1 << 52).
pub const PDE_MAX_PHYS: u64 = 0x10_0000_0000_0000;

/// Whether the present bit is set.
pub open spec fn pde_present(v: u64) -> bool {
    v & PDE_PRESENT != 0
}

/// Whether the writeable bit is set.
pub open spec fn pde_writeable(v: u64) -> bool {
    v & PDE_WRITEABLE != 0
}

/// Whether the user-accessible bit is set.
pub open spec fn pde_access_from_all(v: u64) -> bool {
    v & PDE_ACCESS_FROM_ALL != 0
}

/// Whether the huge-page bit is set.
pub open spec fn pde_huge_page(v: u64) -> bool {
    v & PDE_HUGE_PAGE != 0
}

/// Whether the no-execute bit is set.
pub open spec fn pde_no_execute(v: u64) -> bool {
    v & PDE_NO_EXECUTE != 0
}

/// The 40-bit physical frame number held in bits 12–51.
pub open spec fn pde_frame(v: u64) -> u64 {
    (v & PDE_ADDR_MASK) >> 12
}

/// The physical address held in the entry: the frame field with its
/// original shift, i.e. a page-aligned address.
pub open spec fn pde_child_addr(v: u64) -> u64 {
    v & PDE_ADDR_MASK
}

/// The entry with its frame field replaced by `frame` and every other bit
/// kept.
pub open spec fn pde_with_addr(v: u64, frame: u64) -> u64 {
    (v & !PDE_ADDR_MASK) | ((frame << 12) & PDE_ADDR_MASK)
}

/// The entry written when a walk materializes a child table or a leaf
/// page: the old entry ORed with the requested flags, the frame field set
/// to `addr >> 12`, and the present bit set.
pub open spec fn pde_encode(v: u64, flags: u64, addr: u64) -> u64 {
    pde_with_addr(v | flags, addr >> 12) | PDE_PRESENT
}

/// An encoded entry is present, its frame field holds `addr >> 12`, and —
/// for a page-aligned address — masking the entry recovers the address
/// itself.
pub proof fn lemma_pde_encode(v: u64, flags: u64, addr: u64)
    by (bit_vector)
    requires
        addr < 0x10_0000_0000_0000,
    ensures
        pde_present(pde_encode(v, flags, addr)),
        pde_frame(pde_encode(v, flags, addr)) == addr >> 12,
        addr % 4096 == 0 ==> pde_child_addr(pde_encode(v, flags, addr)) == addr,
        addr >> 12 < 0x100_0000_0000,
{
}

/// One hardware page-table entry.
#[derive(Clone, Copy, Debug, PartialEq, Eq, Structural)]
pub struct PageDirectoryEntry {
    pub value: u64,
}

impl Default for PageDirectoryEntry {
    /// The absent entry: all bits clear.
    fn default() -> (r: Self)
        ensures
            r.value == 0,
    {
        PageDirectoryEntry { value: 0 }
    }
}

impl PageDirectoryEntry {
    /// Wraps a raw 64-bit entry value.
    pub fn from_value(value: u64) -> (r: Self)
        ensures
            r.value == value,
    {
        PageDirectoryEntry { value }
    }

    /// Whether the present bit is set.
    pub fn present(&self) -> (r: bool)
        ensures
            r == pde_present(self.value),
    {
        self.value & PDE_PRESENT != 0
    }

    /// Whether the writeable bit is set.
    pub fn writeable(&self) -> (r: bool)
        ensures
            r == pde_writeable(self.value),
    {
        self.value & PDE_WRITEABLE != 0
    }

    /// Whether the user-accessible bit is set.
    pub fn access_from_all(&self) -> (r: bool)
        ensures
            r == pde_access_from_all(self.value),
    {
        self.value & PDE_ACCESS_FROM_ALL != 0
    }

    /// The 40-bit physical frame number.
    pub fn addr(&self) -> (r: u64)
        ensures
            r == pde_frame(self.value),
    {
        (self.value & PDE_ADDR_MASK) >> 12u64
    }

    /// Sets or clears the present bit, leaving every other bit unchanged.
    pub fn set_present(&mut self, b: bool)
        ensures
            final(self).value == if b {
                old(self).value | PDE_PRESENT
            } else {
                old(self).value & !PDE_PRESENT
            },
    {
        if b {
            self.value = self.value | PDE_PRESENT;
        } else {
            self.value = self.value & !PDE_PRESENT;
        }
    }

    /// Replaces the frame field with `frame`, leaving every other bit
    /// unchanged.  The frame must fit its 40-bit field.
    pub fn set_addr(&mut self, frame: u64)
        requires
            frame < 0x100_0000_0000,
        ensures
            final(self).value == pde_with_addr(old(self).value, frame),
    {
        self.value = (self.value & !PDE_ADDR_MASK) | ((frame << 12u64) & PDE_ADDR_MASK);
    }
}


/// Shifting an address right by 12 is division by the page size: the
/// bridge between the hardware's frame field and plain arithmetic.
pub proof fn lemma_shr12_is_div(x: u64)
    by (bit_vector)
    ensures
        x >> 12 == x / 4096,
{
}

/// The physical address held in an entry's frame field is page-aligned
/// and bounded by the field's width.
pub proof fn lemma_child_addr_bounds(e: u64)
    by (bit_vector)
    ensures
        e & PDE_ADDR_MASK <= 0x000F_FFFF_FFFF_F000,
        (e & PDE_ADDR_MASK) % 4096 == 0,
{
}

/// The zero entry is absent: no flag and no frame.
pub proof fn lemma_pde_zero()
    by (bit_vector)
    ensures
        !pde_present(0u64),
        pde_frame(0u64) == 0u64,
        pde_child_addr(0u64) == 0u64,
{
}

} // verus!
