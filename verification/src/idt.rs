//! The 64-bit interrupt descriptor table.
//!
//! Each of the 256 vectors holds a 16-byte gate descriptor whose three
//! offset fields carry the handler address split into bits 0–15, 16–31 and
//! 32–63, beside the kernel code-segment selector and the interrupt-gate
//! attribute byte.  Handler addresses are taken as plain integers; loading
//! the finished table into the CPU is the surrounding kernel's privileged
//! register write.

use vstd::prelude::*;

use crate::config::TOTAL_INTERRUPTS;
use crate::status::ErrorCode;

verus! {

/// The descriptor that dispatches `addr`: offset split across the three
/// offset fields, kernel code selector (0x08), no interrupt-stack table,
/// interrupt-gate attributes (0x8E).
pub open spec fn gate_for(addr: u64) -> IdtDesc {
    IdtDesc {
        offset_1: (addr & 0xFFFF) as u16,
        selector: 0x08,
        ist: 0x00,
        type_attributes: 0x8E,
        offset_2: ((addr >> 16) & 0xFFFF) as u16,
        offset_3: (addr >> 32) as u32,
        zero: 0,
    }
}

/// The three offset fields of a gate recover the full handler address.
pub proof fn lemma_gate_offsets(addr: u64)
    by (bit_vector)
    ensures
        (addr & 0xFFFF) | (((addr >> 16) & 0xFFFF) << 16) | ((addr >> 32) << 32) == addr,
        (addr & 0xFFFF) < 0x10000,
        ((addr >> 16) & 0xFFFF) < 0x10000,
        (addr >> 32) < 0x1_0000_0000,
{
}

/// One interrupt gate descriptor, laid out exactly as the CPU reads it.
#[derive(Clone, Copy, Debug, PartialEq, Eq, Structural)]
pub struct IdtDesc {
    /// Handler offset bits 0–15.
    pub offset_1: u16,
    /// Code-segment selector in the GDT.
    pub selector: u16,
    /// Bits 0–2 select an interrupt-stack-table slot; zero disables it.
    pub ist: u8,
    /// Gate type, privilege level and present bit.
    pub type_attributes: u8,
    /// Handler offset bits 16–31.
    pub offset_2: u16,
    /// Handler offset bits 32–63.
    pub offset_3: u32,
    /// Reserved, always zero.
    pub zero: u32,
}

impl IdtDesc {
    /// A gate with the kernel code selector and interrupt-gate attributes,
    /// not yet pointing at any handler.
    pub fn default() -> (r: Self)
        ensures
            r == (IdtDesc {
                offset_1: 0,
                selector: 0x08,
                ist: 0x00,
                type_attributes: 0x8E,
                offset_2: 0,
                offset_3: 0,
                zero: 0,
            }),
    {
        IdtDesc {
            offset_1: 0,
            selector: 0x08,
            ist: 0x00,
            type_attributes: 0x8E,
            offset_2: 0,
            offset_3: 0,
            zero: 0,
        }
    }

    /// Stores a handler address in the three offset fields, leaving the
    /// selector and attribute fields as they are.
    pub fn set(&mut self, interrupt_function: u64) -> (r: Result<(), ErrorCode>)
        ensures
            r is Ok,
            final(self).offset_1 == (interrupt_function & 0xFFFF) as u16,
            final(self).offset_2 == ((interrupt_function >> 16) & 0xFFFF) as u16,
            final(self).offset_3 == (interrupt_function >> 32) as u32,
            final(self).selector == old(self).selector,
            final(self).ist == old(self).ist,
            final(self).type_attributes == old(self).type_attributes,
            final(self).zero == old(self).zero,
    {
        proof {
            lemma_gate_offsets(interrupt_function);
        }
        self.offset_1 = (interrupt_function & 0xFFFF) as u16;
        self.offset_2 = ((interrupt_function >> 16) & 0xFFFF) as u16;
        self.offset_3 = (interrupt_function >> 32) as u32;
        Ok(())
    }
}

/// The descriptor-table register value: the table's size minus one and its
/// base address, as the `lidt` instruction wants them.
#[derive(Clone, Copy, Debug, PartialEq, Eq, Structural)]
pub struct IdtrDesc {
    /// Size of the descriptor table in bytes, minus one.
    pub limit: u16,
    /// Base address of the descriptor table.
    pub base: u64,
}

impl IdtrDesc {
    /// Describes a full 256-entry table of 16-byte gates living at `base`.
    pub fn new(base: u64) -> (r: Result<IdtrDesc, ErrorCode>)
        ensures
            r is Ok,
            r->Ok_0.limit == 16 * TOTAL_INTERRUPTS - 1,
            r->Ok_0.base == base,
    {
        Ok(IdtrDesc { limit: 4095, base })
    }
}

/// The interrupt descriptor table: one gate per vector.  The surrounding
/// kernel points every vector at its default handler and vector 0x20 (the
/// timer interrupt) at its own; it then loads the table with a privileged
/// register write.
pub struct Idt {
    idt_descriptors: Vec<IdtDesc>,
}

impl Idt {
    /// The descriptors of the table, one per interrupt vector.
    pub closed spec fn table(&self) -> Seq<IdtDesc> {
        self.idt_descriptors@
    }

    /// Builds the full table: every vector dispatches `no_interrupt`,
    /// except vector 0x20 which dispatches `int20h`.
    pub fn new(no_interrupt: u64, int20h: u64) -> (r: Result<Idt, ErrorCode>)
        ensures
            r is Ok,
            r->Ok_0.table().len() == TOTAL_INTERRUPTS,
            forall|i: int|
                0 <= i < TOTAL_INTERRUPTS && i != 0x20 ==> r->Ok_0.table()[i] == gate_for(
                    no_interrupt,
                ),
            r->Ok_0.table()[0x20] == gate_for(int20h),
    {
        let mut idt_descriptors: Vec<IdtDesc> = Vec::new();
        let mut gate = IdtDesc::default();
        match gate.set(no_interrupt) {
            Ok(()) => {},
            Err(e) => {
                return Err(e);
            },
        }
        proof {
            assert(gate == gate_for(no_interrupt));
        }
        while idt_descriptors.len() < TOTAL_INTERRUPTS
            invariant
                gate == gate_for(no_interrupt),
                idt_descriptors@.len() <= TOTAL_INTERRUPTS,
                forall|i: int|
                    0 <= i < idt_descriptors@.len() ==> idt_descriptors@[i] == gate_for(
                        no_interrupt,
                    ),
            decreases TOTAL_INTERRUPTS - idt_descriptors.len(),
        {
            idt_descriptors.push(gate);
        }
        let mut timer_gate = IdtDesc::default();
        match timer_gate.set(int20h) {
            Ok(()) => {},
            Err(e) => {
                return Err(e);
            },
        }
        proof {
            assert(timer_gate == gate_for(int20h));
        }
        idt_descriptors.set(0x20, timer_gate);
        Ok(Idt { idt_descriptors })
    }

    /// Reads one gate descriptor back.
    pub fn descriptor(&self, i: usize) -> (r: IdtDesc)
        requires
            i < self.table().len(),
        ensures
            r == self.table()[i as int],
    {
        self.idt_descriptors[i]
    }
}

} // verus!
