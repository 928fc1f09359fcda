//! The interrupt-descriptor-table layout the kernel installs.
//!
//! Interrupt dispatch itself is hardware work outside this library;
//! what the kernel decides — which CPU vector gets which handler, which
//! handler runs on a dedicated stack, where the two interrupt
//! controllers are remapped — is modelled and pinned down here, and the
//! unverified boot code programs the real table from this description.

use vstd::prelude::*;

verus! {

/// Vector base the primary interrupt controller is remapped to.
pub const PIC_1_OFFSET: u8 = 32;

/// Vector base of the secondary interrupt controller.
pub const PIC_2_OFFSET: u8 = PIC_1_OFFSET + 8;

/// Stack-table slot the double-fault handler runs on.
pub const DOUBLE_FAULT_IST_INDEX: u8 = 0;

/// The hardware interrupt lines the kernel handles.
#[derive(Clone, Copy, Debug)]
pub enum InterruptIndex {
    Timer,
    Keyboard,
}

impl InterruptIndex {
    /// The CPU vector this interrupt arrives on: the controller's base
    /// for the timer, one past it for the keyboard.
    pub open spec fn spec_vector(self) -> u8 {
        match self {
            InterruptIndex::Timer => 32,
            InterruptIndex::Keyboard => 33,
        }
    }

    /// Executable form of `spec_vector`.
    pub fn as_vector(self) -> (v: u8)
        ensures
            v == self.spec_vector(),
    {
        match self {
            InterruptIndex::Timer => PIC_1_OFFSET,
            InterruptIndex::Keyboard => PIC_1_OFFSET + 1,
        }
    }
}

/// The handlers the kernel installs.
#[derive(Clone, Copy, Debug)]
pub enum IdtHandler {
    Breakpoint,
    DoubleFault,
    Timer,
    Keyboard,
    PageFault,
}

/// One slot of the table: a CPU vector, the handler installed on it,
/// and whether the handler runs on a dedicated interrupt stack.
#[derive(Clone, Copy, Debug)]
pub struct IdtEntry {
    pub vector: u8,
    pub handler: IdtHandler,
    pub uses_ist: bool,
    pub ist_index: u8,
}

/// Builds the kernel's interrupt-descriptor-table layout: breakpoint,
/// double fault (on its own stack), timer, keyboard and page fault.
/// The boot code loads the real table from this description.
pub fn init_idt() -> (t: Vec<IdtEntry>)
    ensures
        t@.len() == 5,
        t@[0].vector == 3 && t@[0].handler is Breakpoint && !t@[0].uses_ist,
        t@[1].vector == 8 && t@[1].handler is DoubleFault && t@[1].uses_ist
            && t@[1].ist_index == DOUBLE_FAULT_IST_INDEX,
        t@[2].vector == InterruptIndex::Timer.spec_vector() && t@[2].handler is Timer
            && !t@[2].uses_ist,
        t@[3].vector == InterruptIndex::Keyboard.spec_vector() && t@[3].handler is Keyboard
            && !t@[3].uses_ist,
        t@[4].vector == 14 && t@[4].handler is PageFault && !t@[4].uses_ist,
{
    let mut t: Vec<IdtEntry> = Vec::new();
    t.push(IdtEntry { vector: 3, handler: IdtHandler::Breakpoint, uses_ist: false, ist_index: 0 });
    t.push(IdtEntry { vector: 8, handler: IdtHandler::DoubleFault, uses_ist: true, ist_index: DOUBLE_FAULT_IST_INDEX });
    t.push(IdtEntry { vector: InterruptIndex::Timer.as_vector(), handler: IdtHandler::Timer, uses_ist: false, ist_index: 0 });
    t.push(IdtEntry { vector: InterruptIndex::Keyboard.as_vector(), handler: IdtHandler::Keyboard, uses_ist: false, ist_index: 0 });
    t.push(IdtEntry { vector: 14, handler: IdtHandler::PageFault, uses_ist: false, ist_index: 0 });
    t
}

} // verus!
