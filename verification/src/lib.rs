//! Verified model of a small kernel's memory-management subsystem: a
//! physical-frame source fed by the boot memory map, a virtual-address
//! mapper, the one-shot heap bootstrap, and a segregated size-class
//! allocator backed by a first-fit fallback allocator.
//!
//! Addresses are carried as plain integers. The hardware steps that the
//! kernel performs around this logic (writing live page-table memory,
//! programming the interrupt controller, storing to the video buffer)
//! happen outside the library; the library decides *what* to write and
//! proves that the decisions keep the allocator's invariants.

pub mod buddy;
pub mod fallback;
pub mod frames;
pub mod paging;
pub mod allocator;
pub mod interrupts;
pub mod vga_buffer;
