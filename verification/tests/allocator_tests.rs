use morb_os::buddy::{list_index, block_size, BuddyAllocator, NUM_CLASSES};
use morb_os::fallback::FallbackHeap;

#[test]
fn class_table_values() {
    let expected = [8, 16, 32, 64, 128, 256, 512, 1024, 2048, 4096, 8192];
    for (c, want) in expected.iter().enumerate() {
        assert_eq!(block_size(c), *want);
    }
    assert_eq!(NUM_CLASSES, 11);
}

#[test]
fn class_selection_size_dominates() {
    // A 20-byte request at alignment 1 must be served from class 32.
    assert_eq!(list_index(20, 1), Some(2));
    assert_eq!(block_size(2), 32);
}

#[test]
fn class_selection_alignment_dominates() {
    // An 8-byte request at alignment 16 must be served from class 16.
    assert_eq!(list_index(8, 16), Some(1));
    assert_eq!(block_size(1), 16);
}

#[test]
fn class_selection_boundaries() {
    assert_eq!(list_index(1, 1), Some(0));
    assert_eq!(list_index(8, 1), Some(0));
    assert_eq!(list_index(9, 1), Some(1));
    assert_eq!(list_index(8192, 1), Some(10));
    assert_eq!(list_index(8193, 1), None);
    assert_eq!(list_index(16, 8192), Some(10));
    assert_eq!(list_index(16, 16384), None);
}

#[test]
fn init_then_first_allocate_in_range() {
    // Bootstrap order: init, then one allocation of the smallest class
    // succeeds and lies inside [heap_start, heap_start + heap_size).
    let heap_start = 0x10000;
    let heap_size = 0x10000;
    let mut heap = BuddyAllocator::new();
    heap.init(heap_start, heap_size);
    let addr = heap.allocate(8, 1).expect("first allocation must succeed");
    assert!(addr >= heap_start);
    assert!(addr + 8 <= heap_start + heap_size);
}

#[test]
fn alignment_of_results() {
    let mut heap = BuddyAllocator::new();
    heap.init(0x40000, 0x20000);
    let a = heap.allocate(20, 16).expect("class allocation");
    assert_eq!(a % 16, 0);
    let b = heap.allocate(100, 64).expect("class allocation");
    assert_eq!(b % 64, 0);
    let c = heap.allocate(10000, 32).expect("fallback allocation");
    assert_eq!(c % 32, 0);
    let d = heap.allocate(5, 4096).expect("page-aligned class allocation");
    assert_eq!(d % 4096, 0);
}

#[test]
fn exhaustion_is_deterministic() {
    // A 64-byte heap serves exactly two 32-byte blocks; the third and
    // every later request fail cleanly.
    let mut heap = BuddyAllocator::new();
    heap.init(0x20000, 64);
    let a1 = heap.allocate(32, 1).expect("first 32-byte block");
    let a2 = heap.allocate(32, 1).expect("second 32-byte block");
    assert_ne!(a1, a2);
    assert!(a1.abs_diff(a2) >= 32, "blocks must not overlap");
    assert_eq!(heap.allocate(32, 1), None);
    assert_eq!(heap.allocate(32, 1), None);
    assert_eq!(heap.allocate(32, 1), None);
    // The failures corrupted nothing: freeing one block lets the next
    // request succeed again, at the freed address.
    heap.deallocate(a2, 32, 1);
    assert_eq!(heap.allocate(32, 1), Some(a2));
}

#[test]
fn reuse_is_lifo_and_leak_free() {
    // Allocate N blocks of one class, free all N, allocate N again:
    // the second batch is exactly the first batch's addresses.
    let mut heap = BuddyAllocator::new();
    heap.init(0x80000, 0x10000);
    let a1 = heap.allocate(32, 1).unwrap();
    let a2 = heap.allocate(32, 1).unwrap();
    let a3 = heap.allocate(32, 1).unwrap();
    heap.deallocate(a3, 32, 1);
    heap.deallocate(a2, 32, 1);
    heap.deallocate(a1, 32, 1);
    // Last freed, first reused.
    assert_eq!(heap.allocate(32, 1), Some(a1));
    assert_eq!(heap.allocate(32, 1), Some(a2));
    assert_eq!(heap.allocate(32, 1), Some(a3));
}

#[test]
fn large_block_round_trip() {
    // Requests above the largest class go to the fallback allocator
    // and can be returned to it.
    let mut heap = BuddyAllocator::new();
    heap.init(0x100000, 0x20000);
    let a = heap.allocate(9000, 8).expect("large allocation");
    assert_eq!(a % 8, 0);
    heap.deallocate(a, 9000, 8);
    let b = heap.allocate(9000, 8).expect("large allocation after free");
    assert_eq!(b % 8, 0);
}

#[test]
fn interleaved_allocations_never_overlap() {
    // A deterministic pseudo-random interleaving of allocations and
    // deallocations, with an interval-overlap check on every state.
    let mut heap = BuddyAllocator::new();
    heap.init(0x200000, 0x19000);
    // Class-exact small sizes plus one size beyond the largest class,
    // so every free presents the class-consistent pair the allocator's
    // contract asks for.
    let sizes = [8usize, 16, 32, 64, 128, 9000];
    let mut rng: u64 = 0x9E3779B97F4A7C15;
    let mut live: Vec<(usize, usize)> = Vec::new();
    for _ in 0..400 {
        rng = rng.wrapping_mul(6364136223846793005).wrapping_add(1442695040888963407);
        let pick = (rng >> 33) as usize;
        if pick % 3 != 0 || live.is_empty() {
            let size = sizes[pick % sizes.len()];
            let align = if size > 8192 { 8 } else { 1 };
            if let Some(addr) = heap.allocate(size, align) {
                assert_eq!(addr % align, 0, "alignment violated");
                for &(a, s) in &live {
                    let disjoint = addr + size <= a || a + s <= addr;
                    assert!(disjoint, "overlap: [{addr},{size}] vs [{a},{s}]");
                }
                live.push((addr, size));
            }
        } else {
            let victim = pick % live.len();
            let (addr, size) = live[victim];
            let align = if size > 8192 { 8 } else { 1 };
            // A class-fitting block the facade had to serve from the
            // fallback allocator stays allocated, as the allocator's
            // contract requires; every other block goes back.
            let class_aligned = size > 8192
                || morb_os::buddy::list_index(size, align)
                    .map(|c| addr % morb_os::buddy::block_size(c) == 0)
                    .unwrap_or(false);
            if class_aligned {
                live.swap_remove(victim);
                heap.deallocate(addr, size, align);
            }
        }
    }
}

#[test]
fn fallback_first_fit_walks_in_list_order() {
    let mut fb = FallbackHeap::empty();
    assert_eq!(fb.allocate_first_fit(8, 1), None);
    fb.init(1000, 100);
    // Carving takes the front of the first fitting range.
    assert_eq!(fb.allocate_first_fit(30, 1), Some(1000));
    assert_eq!(fb.allocate_first_fit(30, 1), Some(1030));
    // A freed range is appended and visited after the remainder.
    fb.deallocate(1000, 30);
    assert_eq!(fb.allocate_first_fit(50, 1), None);
    assert_eq!(fb.allocate_first_fit(40, 1), Some(1060));
    assert_eq!(fb.allocate_first_fit(10, 1), Some(1000));
    // An aligned request skips ranges whose aligned remainder is short.
    fb.deallocate(2000, 64);
    assert_eq!(fb.allocate_first_fit(16, 16), Some(2000));
}
