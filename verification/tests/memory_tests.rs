use morb_os::allocator::{init_heap, MapToError, HEAP_SIZE, HEAP_START};
use morb_os::buddy::BuddyAllocator;
use morb_os::frames::{BootInfoFrameAllocator, MemoryRegion};
use morb_os::paging::{Mapper, FLAG_PRESENT, FLAG_WRITABLE};

fn region(start: u64, len: u64, usable: bool) -> MemoryRegion {
    MemoryRegion { start, len, usable }
}

#[test]
fn frames_walk_usable_regions_in_order() {
    let regions = vec![
        region(0x1000, 0x3000, true),
        region(0x5000, 0x1000, false),
        region(0x10000, 0x2000, true),
    ];
    let mut source = BootInfoFrameAllocator::init(regions);
    assert_eq!(source.next_frame(), Some(0x1000));
    assert_eq!(source.next_frame(), Some(0x2000));
    assert_eq!(source.next_frame(), Some(0x3000));
    assert_eq!(source.next_frame(), Some(0x10000));
    assert_eq!(source.next_frame(), Some(0x11000));
    assert_eq!(source.next_frame(), None);
    // Exhaustion is terminal.
    assert_eq!(source.next_frame(), None);
}

#[test]
fn frames_align_up_inside_unaligned_regions() {
    let regions = vec![region(0x1234, 0x3000, true)];
    let mut source = BootInfoFrameAllocator::init(regions);
    // Only whole frames inside [0x1234, 0x4234) count.
    assert_eq!(source.next_frame(), Some(0x2000));
    assert_eq!(source.next_frame(), Some(0x3000));
    assert_eq!(source.next_frame(), None);
}

#[test]
fn translate_follows_installed_mappings() {
    let mut mapper = Mapper::new(0xFFFF_8000_0000_0000);
    assert_eq!(mapper.translate(0x1234), None);
    mapper.map_page(0x100, 0x5000, FLAG_PRESENT | FLAG_WRITABLE);
    assert_eq!(mapper.translate(0x100 * 4096 + 7), Some(0x5007));
    assert_eq!(mapper.translate(0x100 * 4096), Some(0x5000));
    assert_eq!(mapper.translate(0x101 * 4096), None);
}

#[test]
fn init_heap_maps_every_page_and_starts_the_allocator() {
    let heap_start: usize = 0x4000_0000;
    let heap_size: usize = 0x2000;
    let mut mapper = Mapper::new(0);
    let mut frames = BootInfoFrameAllocator::init(vec![region(0x100000, 0x4000, true)]);
    let mut heap = BuddyAllocator::new();
    let r = init_heap(&mut mapper, &mut frames, &mut heap, heap_start, heap_size);
    assert!(r.is_ok());
    // Both heap pages are mapped to the first frames of the map.
    assert_eq!(mapper.translate(heap_start as u64), Some(0x100000));
    assert_eq!(mapper.translate(heap_start as u64 + 4096), Some(0x101000));
    assert_eq!(mapper.translate(heap_start as u64 + 2 * 4096), None);
    // The allocator serves from the freshly backed range.
    let a = heap.allocate(8, 1).expect("allocation after bootstrap");
    assert!(a >= heap_start && a + 8 <= heap_start + heap_size);
}

#[test]
fn init_heap_fails_on_frame_exhaustion() {
    // One usable frame cannot back a two-page heap.
    let mut mapper = Mapper::new(0);
    let mut frames = BootInfoFrameAllocator::init(vec![region(0x100000, 0x1000, true)]);
    let mut heap = BuddyAllocator::new();
    let r = init_heap(&mut mapper, &mut frames, &mut heap, 0x4000_0000, 0x2000);
    assert_eq!(r, Err(MapToError::FrameAllocationFailed));
}

#[test]
fn default_heap_configuration_bootstraps() {
    // The kernel's build-time configuration: a 100 KiB heap at the
    // fixed virtual base, backed by 25 frames.
    let heap_start = usize::try_from(HEAP_START).expect("64-bit target");
    let mut mapper = Mapper::new(0);
    let mut frames = BootInfoFrameAllocator::init(vec![region(0x20_0000, 0x2_0000, true)]);
    let mut heap = BuddyAllocator::new();
    let r = init_heap(&mut mapper, &mut frames, &mut heap, heap_start, HEAP_SIZE);
    assert!(r.is_ok());
    let a = heap.allocate(64, 8).expect("allocation after bootstrap");
    assert!(a >= heap_start && a + 64 <= heap_start + HEAP_SIZE);
}
