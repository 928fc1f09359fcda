//! The one-shot heap region bootstrap.
//!
//! Runs once, at kernel startup: for every page of the heap's fixed
//! virtual range it draws a physical frame from the frame source and
//! maps the page to it, then hands the fully backed byte range to the
//! allocator as its initial free extent. Any failure aborts the
//! bootstrap — the kernel cannot proceed without dynamic memory.

use vstd::prelude::*;

use crate::buddy::BuddyAllocator;
use crate::frames::BootInfoFrameAllocator;
use crate::frames::PAGE_SIZE;
use crate::paging::Mapper;
use crate::paging::FLAG_PRESENT;
use crate::paging::FLAG_WRITABLE;

verus! {

/// Virtual base address of the kernel heap. On the 64-bit target this
/// fits a `usize`; the bootstrap takes the base as `usize` so the
/// allocator can hand out addresses directly.
pub const HEAP_START: u64 = 0x4444_4444_0000;

/// Size in bytes of the kernel heap.
pub const HEAP_SIZE: usize = 100 * 1024;

/// Why the heap bootstrap failed.
#[derive(Clone, Copy, PartialEq, Eq, Structural, Debug)]
pub enum MapToError {
    /// The frame source ran out of usable physical frames — terminal:
    /// no reserve pool exists, so the boot aborts.
    FrameAllocationFailed,
}

/// Backs `[heap_start, heap_start + heap_size)` with physical frames,
/// one page at a time, and initializes the allocator over the range.
///
/// Fails with `FrameAllocationFailed`, leaving the allocator
/// uninitialized, exactly when physical memory runs out first. The
/// caller must present heap pages that are not yet mapped: mapping a
/// page twice is fatal misuse.
pub fn init_heap(
    mapper: &mut Mapper,
    frame_allocator: &mut BootInfoFrameAllocator,
    allocator: &mut BuddyAllocator,
    heap_start: usize,
    heap_size: usize,
) -> (r: Result<(), MapToError>)
    requires
        old(mapper).wf(),
        old(frame_allocator).wf(),
        old(allocator).is_unused(),
        heap_start as int % PAGE_SIZE as int == 0,
        heap_size as int % PAGE_SIZE as int == 0,
        heap_size > 0,
        heap_start + heap_size <= usize::MAX,
        forall|p: u64|
            heap_start as u64 / PAGE_SIZE <= p
                < heap_start as u64 / PAGE_SIZE + heap_size as u64 / PAGE_SIZE
                ==> !old(mapper).mappings().dom().contains(p),
    ensures
        final(mapper).wf(),
        final(frame_allocator).wf(),
        match r {
            Ok(()) => {
                // The allocator is live over exactly the requested range.
                &&& final(allocator).wf()
                &&& final(allocator).is_ready()
                &&& final(allocator).spec_heap_start() == heap_start
                &&& final(allocator).spec_heap_size() == heap_size
                &&& final(allocator).free_ranges() =~= seq![(heap_start, heap_size)]
                &&& final(allocator).live_blocks() =~= Map::<int, int>::empty()
                // Every heap page is now mapped, present and writable;
                // other pages kept their old translation.
                &&& forall|p: u64|
                        heap_start as u64 / PAGE_SIZE <= p
                            < heap_start as u64 / PAGE_SIZE + heap_size as u64 / PAGE_SIZE
                            ==> #[trigger] final(mapper).mappings().dom().contains(p)
                                && final(mapper).mappings()[p].1 == FLAG_PRESENT | FLAG_WRITABLE
                &&& forall|p: u64|
                        !(heap_start as u64 / PAGE_SIZE <= p
                            < heap_start as u64 / PAGE_SIZE + heap_size as u64 / PAGE_SIZE)
                            ==> #[trigger] final(mapper).mappings().dom().contains(p)
                                    == old(mapper).mappings().dom().contains(p)
                                && (old(mapper).mappings().dom().contains(p)
                                    ==> final(mapper).mappings()[p] == old(mapper).mappings()[p])
            },
            Err(e) => {
                // Physical memory ran out: the allocator never came up.
                &&& e == MapToError::FrameAllocationFailed
                &&& final(allocator).is_unused()
                &&& forall|f: int| !final(frame_allocator).in_remaining(f)
            },
        },
{
    let start_page: u64 = heap_start as u64 / PAGE_SIZE;
    let page_count: u64 = heap_size as u64 / PAGE_SIZE;
    let mut i: u64 = 0;
    while i < page_count
        invariant
            i <= page_count,
            start_page == heap_start as u64 / PAGE_SIZE,
            page_count == heap_size as u64 / PAGE_SIZE,
            mapper.wf(),
            frame_allocator.wf(),
            allocator.is_unused(),
            heap_start + heap_size <= usize::MAX,
            *allocator == *old(allocator),
            forall|p: u64| start_page + i <= p < start_page + page_count
                ==> !(#[trigger] mapper.mappings().dom().contains(p)),
            forall|p: u64| start_page <= p < start_page + i
                ==> #[trigger] mapper.mappings().dom().contains(p)
                    && mapper.mappings()[p].1 == FLAG_PRESENT | FLAG_WRITABLE,
            forall|p: u64| !(start_page <= p < start_page + page_count)
                ==> #[trigger] mapper.mappings().dom().contains(p)
                        == old(mapper).mappings().dom().contains(p)
                    && (old(mapper).mappings().dom().contains(p)
                        ==> mapper.mappings()[p] == old(mapper).mappings()[p]),
        decreases page_count - i,
    {
        let frame = match frame_allocator.next_frame() {
            Some(f) => f,
            None => {
                return Err(MapToError::FrameAllocationFailed);
            },
        };
        proof {
            assert(start_page + page_count <= u64::MAX) by (nonlinear_arith)
                requires
                    start_page == heap_start as u64 / PAGE_SIZE,
                    page_count == heap_size as u64 / PAGE_SIZE,
                    heap_start as u64 + heap_size as u64 <= u64::MAX,
                    PAGE_SIZE == 4096,
            {}
        }
        mapper.map_page(start_page + i, frame, FLAG_PRESENT | FLAG_WRITABLE);
        i = i + 1;
    }
    allocator.init(heap_start, heap_size);
    Ok(())
}

} // verus!
