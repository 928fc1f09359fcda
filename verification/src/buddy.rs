//! The segregated size-class allocator and the kernel-wide allocation
//! facade built on top of it.
//!
//! Small requests are served from per-class free lists of power-of-two
//! block sizes; an empty list is replenished by carving a class-sized,
//! class-aligned block out of the first-fit fallback allocator. Requests
//! larger than the largest class, and class requests the fallback could
//! not replenish, go to the fallback allocator with the caller's own
//! size and alignment.

use vstd::prelude::*;

use crate::fallback::FallbackHeap;
use crate::fallback::carve_result;
use crate::fallback::first_fit;
use crate::fallback::range_contained;
use crate::fallback::ranges_disjoint;

verus! {

/// Number of size classes in the class table.
pub const NUM_CLASSES: usize = 11;

/// Size in bytes of class `c`: the power-of-two table 8, 16, ..., 8192.
pub open spec fn class_size(c: int) -> int {
    if c == 0 { 8 }
    else if c == 1 { 16 }
    else if c == 2 { 32 }
    else if c == 3 { 64 }
    else if c == 4 { 128 }
    else if c == 5 { 256 }
    else if c == 6 { 512 }
    else if c == 7 { 1024 }
    else if c == 8 { 2048 }
    else if c == 9 { 4096 }
    else { 8192 }
}

/// Executable class table lookup.
pub fn block_size(c: usize) -> (s: usize)
    requires
        c < NUM_CLASSES,
    ensures
        s == class_size(c as int),
{
    if c == 0 { 8 }
    else if c == 1 { 16 }
    else if c == 2 { 32 }
    else if c == 3 { 64 }
    else if c == 4 { 128 }
    else if c == 5 { 256 }
    else if c == 6 { 512 }
    else if c == 7 { 1024 }
    else if c == 8 { 2048 }
    else if c == 9 { 4096 }
    else { 8192 }
}

/// The bytes a request must fit in: the larger of size and alignment.
pub open spec fn required_block_size(size: int, align: int) -> int {
    if size >= align { size } else { align }
}

/// The class that serves a request, if any: the smallest class whose
/// size is at least `required_block_size(size, align)`.
pub open spec fn spec_list_index(size: int, align: int) -> Option<int> {
    let req = required_block_size(size, align);
    if req <= 8 { Some(0) }
    else if req <= 16 { Some(1) }
    else if req <= 32 { Some(2) }
    else if req <= 64 { Some(3) }
    else if req <= 128 { Some(4) }
    else if req <= 256 { Some(5) }
    else if req <= 512 { Some(6) }
    else if req <= 1024 { Some(7) }
    else if req <= 2048 { Some(8) }
    else if req <= 4096 { Some(9) }
    else if req <= 8192 { Some(10) }
    else { None }
}

/// Chooses the free-list index for an allocation request: the smallest
/// class at least as large as both the size and the alignment. `None`
/// means the request exceeds the largest class and must be served by
/// the fallback allocator.
pub fn list_index(size: usize, align: usize) -> (r: Option<usize>)
    ensures
        match r {
            Some(c) => {
                &&& spec_list_index(size as int, align as int) == Some(c as int)
                &&& c < NUM_CLASSES
                &&& class_size(c as int) >= size
                &&& class_size(c as int) >= align
                &&& c > 0 ==> class_size(c - 1) < required_block_size(size as int, align as int)
            },
            None => {
                &&& spec_list_index(size as int, align as int) is None
                &&& required_block_size(size as int, align as int) > 8192
            },
        },
{
    let req = if size >= align { size } else { align };
    if req <= 8 { Some(0) }
    else if req <= 16 { Some(1) }
    else if req <= 32 { Some(2) }
    else if req <= 64 { Some(3) }
    else if req <= 128 { Some(4) }
    else if req <= 256 { Some(5) }
    else if req <= 512 { Some(6) }
    else if req <= 1024 { Some(7) }
    else if req <= 2048 { Some(8) }
    else if req <= 4096 { Some(9) }
    else if req <= 8192 { Some(10) }
    else { None }
}

/// A power of two: one, or an even number whose half is a power of two.
pub open spec fn is_power_of_two(n: int) -> bool
    decreases n,
{
    if n <= 0 { false }
    else if n == 1 { true }
    else { n % 2 == 0 && is_power_of_two(n / 2) }
}

/// A power of two divides every power of two at least as large.
pub proof fn lemma_pow2_divides(a: int, b: int)
    requires
        is_power_of_two(a),
        is_power_of_two(b),
        a <= b,
    ensures
        b % a == 0,
    decreases b,
{
    if a == 1 {
        assert(b % 1 == 0);
    } else {
        // a >= 2, hence b >= 2 as well, and both halves are powers of two.
        lemma_pow2_divides(a / 2, b / 2);
        assert(b == 2 * (b / 2) && a == 2 * (a / 2));
        let k = (b / 2) / (a / 2);
        assert(b / 2 == k * (a / 2)) by (nonlinear_arith)
            requires (b / 2) % (a / 2) == 0 && a / 2 > 0 && k == (b / 2) / (a / 2),
        {}
        assert(b == k * a) by (nonlinear_arith)
            requires b == 2 * (b / 2) && a == 2 * (a / 2) && b / 2 == k * (a / 2),
        {}
        assert(b % a == 0) by (nonlinear_arith)
            requires b == k * a && a > 0 && k >= 0,
        {}
    }
}

/// Every class size is a power of two.
pub proof fn lemma_class_size_pow2(c: int)
    requires
        0 <= c < NUM_CLASSES,
    ensures
        is_power_of_two(class_size(c)),
{
    reveal_with_fuel(is_power_of_two, 15);
}

/// The segregated size-class allocator together with the kernel-wide
/// allocation facade.
///
/// All state a kernel would keep behind its allocator lock lives here:
/// one free stack of block addresses per size class, the fallback
/// allocator, and the heap's bounds. The ghost `live` map records the
/// address and reserved length of every allocation currently handed
/// out, so that freedom from overlap is part of the type's invariant
/// rather than a hope.
pub struct BuddyAllocator {
    heap_start: usize,
    heap_size: usize,
    ready: bool,
    list_heads: Vec<Vec<usize>>,
    fallback_allocator: FallbackHeap,
    live: Ghost<Map<int, int>>,
}

impl BuddyAllocator {
    /// First byte of the heap's reserved virtual range.
    pub closed spec fn spec_heap_start(self) -> int {
        self.heap_start as int
    }

    /// Length in bytes of the heap's reserved virtual range.
    pub closed spec fn spec_heap_size(self) -> int {
        self.heap_size as int
    }

    /// Whether the one-shot bootstrap has run.
    pub closed spec fn is_ready(self) -> bool {
        self.ready
    }

    /// The free stack of class `c`, most recently freed block last.
    pub closed spec fn class_list(self, c: int) -> Seq<usize> {
        self.list_heads@[c]@
    }

    /// How many class free stacks the allocator holds.
    pub closed spec fn num_lists(self) -> int {
        self.list_heads@.len() as int
    }

    /// The fallback allocator's free ranges.
    pub closed spec fn free_ranges(self) -> Seq<(usize, usize)> {
        self.fallback_allocator.view_ranges()
    }

    /// The fallback allocator's own invariant.
    pub closed spec fn fallback_wf(self) -> bool {
        self.fallback_allocator.wf()
    }

    /// The live allocations: start address to reserved length.
    pub closed spec fn live_blocks(self) -> Map<int, int> {
        self.live@
    }

    /// One past the last byte of the heap.
    pub open spec fn heap_end(self) -> int {
        self.spec_heap_start() + self.spec_heap_size()
    }

    /// `[a, a+s)` lies inside the heap's byte range.
    pub open spec fn in_heap(self, a: int, s: int) -> bool {
        self.spec_heap_start() <= a && a + s <= self.heap_end()
    }

    /// The allocator's invariant. Every free class block is class-sized,
    /// class-aligned and inside the heap; free class blocks, fallback
    /// ranges and live allocations are pairwise disjoint; live blocks
    /// are inside the heap.
    pub open spec fn wf(self) -> bool {
        &&& self.num_lists() == NUM_CLASSES
        &&& self.heap_end() <= usize::MAX
        // Free class blocks are well formed.
        &&& forall|c: int, i: int|
                0 <= c < NUM_CLASSES && 0 <= i < self.class_list(c).len()
                    ==> self.in_heap(#[trigger] self.class_list(c)[i] as int, class_size(c))
                        && self.class_list(c)[i] as int % class_size(c) == 0
        // Free class blocks are pairwise disjoint.
        &&& forall|c1: int, i1: int, c2: int, i2: int|
                0 <= c1 < NUM_CLASSES && 0 <= i1 < self.class_list(c1).len()
                && 0 <= c2 < NUM_CLASSES && 0 <= i2 < self.class_list(c2).len()
                && (c1 != c2 || i1 != i2)
                    ==> ranges_disjoint(
                        #[trigger] self.class_list(c1)[i1] as int, class_size(c1),
                        #[trigger] self.class_list(c2)[i2] as int, class_size(c2),
                    )
        // The fallback allocator is well formed and stays inside the heap.
        &&& self.fallback_wf()
        &&& forall|k: int| 0 <= k < self.free_ranges().len()
                ==> self.in_heap((#[trigger] self.free_ranges()[k]).0 as int, self.free_ranges()[k].1 as int)
        // Free class blocks do not intersect fallback ranges.
        &&& forall|c: int, i: int, k: int|
                0 <= c < NUM_CLASSES && 0 <= i < self.class_list(c).len()
                && 0 <= k < self.free_ranges().len()
                    ==> ranges_disjoint(
                        #[trigger] self.class_list(c)[i] as int, class_size(c),
                        (#[trigger] self.free_ranges()[k]).0 as int, self.free_ranges()[k].1 as int,
                    )
        // Live allocations are inside the heap.
        &&& forall|a: int| #[trigger] self.live_blocks().dom().contains(a)
                ==> self.in_heap(a, self.live_blocks()[a]) && self.live_blocks()[a] > 0
        // Live allocations are pairwise disjoint.
        &&& forall|a1: int, a2: int|
                #[trigger] self.live_blocks().dom().contains(a1)
                && #[trigger] self.live_blocks().dom().contains(a2)
                && a1 != a2
                    ==> ranges_disjoint(a1, self.live_blocks()[a1], a2, self.live_blocks()[a2])
        // Live allocations do not intersect free class blocks.
        &&& forall|a: int, c: int, i: int|
                #[trigger] self.live_blocks().dom().contains(a)
                && 0 <= c < NUM_CLASSES && 0 <= i < self.class_list(c).len()
                    ==> ranges_disjoint(
                        a, self.live_blocks()[a],
                        #[trigger] self.class_list(c)[i] as int, class_size(c),
                    )
        // Live allocations do not intersect fallback ranges.
        &&& forall|a: int, k: int|
                #[trigger] self.live_blocks().dom().contains(a)
                && 0 <= k < self.free_ranges().len()
                    ==> ranges_disjoint(
                        a, self.live_blocks()[a],
                        (#[trigger] self.free_ranges()[k]).0 as int, self.free_ranges()[k].1 as int,
                    )
    }

    /// A freshly constructed allocator: not ready, with nothing free and
    /// nothing live.
    pub open spec fn is_unused(self) -> bool {
        &&& !self.is_ready()
        &&& self.num_lists() == NUM_CLASSES
        &&& forall|c: int| 0 <= c < NUM_CLASSES ==> (#[trigger] self.class_list(c)).len() == 0
        &&& self.free_ranges().len() == 0
        &&& self.live_blocks() =~= Map::<int, int>::empty()
    }

    /// Creates an empty allocator: every class list empty, no fallback
    /// memory, not yet initialized.
    pub fn new() -> (r: Self)
        ensures
            r.is_unused(),
            r.wf(),
    {
        let mut list_heads: Vec<Vec<usize>> = Vec::new();
        let mut c: usize = 0;
        while c < NUM_CLASSES
            invariant
                c <= NUM_CLASSES,
                list_heads@.len() == c,
                forall|k: int| 0 <= k < c ==> (#[trigger] list_heads@[k])@.len() == 0,
            decreases NUM_CLASSES - c,
        {
            list_heads.push(Vec::new());
            c += 1;
        }
        let r = BuddyAllocator {
            heap_start: 0,
            heap_size: 0,
            ready: false,
            list_heads,
            fallback_allocator: FallbackHeap::empty(),
            live: Ghost(Map::empty()),
        };
        r
    }

    /// Initialize the allocator with the given heap bounds, handing the
    /// whole byte range to the fallback allocator as its initial free
    /// extent. Must be called exactly once, before any allocation; the
    /// caller guarantees the range is backed and otherwise unused.
    pub fn init(&mut self, heap_start: usize, heap_size: usize)
        requires
            old(self).is_unused(),
            heap_size > 0,
            heap_start + heap_size <= usize::MAX,
        ensures
            final(self).wf(),
            final(self).is_ready(),
            final(self).spec_heap_start() == heap_start,
            final(self).spec_heap_size() == heap_size,
            final(self).free_ranges() =~= seq![(heap_start, heap_size)],
            forall|c: int| 0 <= c < NUM_CLASSES ==> (#[trigger] final(self).class_list(c)).len() == 0,
            final(self).live_blocks() =~= Map::<int, int>::empty(),
    {
        self.heap_start = heap_start;
        self.heap_size = heap_size;
        self.fallback_allocator.init(heap_start, heap_size);
        self.ready = true;
        proof {
            assert forall|c: int| 0 <= c < NUM_CLASSES
                implies (#[trigger] self.class_list(c)).len() == 0 by {
                assert(self.class_list(c) == old(self).class_list(c));
            }
            assert(self.num_lists() == old(self).num_lists());
            assert(self.live_blocks() == old(self).live_blocks());
        }
    }

    /// Serves a request straight from the fallback allocator and records
    /// the served block as live. Used both to replenish an empty class
    /// list (with a class-sized, class-aligned request) and to serve
    /// requests the class lists cannot take.
    fn fallback_alloc(&mut self, rsize: usize, ralign: usize) -> (r: Option<usize>)
        requires
            old(self).wf(),
            old(self).is_ready(),
            rsize > 0,
            ralign > 0,
        ensures
            final(self).wf(),
            final(self).is_ready(),
            final(self).spec_heap_start() == old(self).spec_heap_start(),
            final(self).spec_heap_size() == old(self).spec_heap_size(),
            forall|c: int| 0 <= c < NUM_CLASSES
                ==> #[trigger] final(self).class_list(c) == old(self).class_list(c),
            match r {
                None => {
                    &&& final(self).free_ranges() == old(self).free_ranges()
                    &&& final(self).live_blocks() == old(self).live_blocks()
                    &&& first_fit(old(self).free_ranges(), rsize as int, ralign as int) is None
                },
                Some(addr) => {
                    &&& first_fit(old(self).free_ranges(), rsize as int, ralign as int) is Some
                    &&& addr == first_fit(old(self).free_ranges(), rsize as int, ralign as int)->Some_0.1
                    &&& final(self).free_ranges()
                            =~= carve_result(old(self).free_ranges(), rsize as int, ralign as int)
                    &&& addr % ralign == 0
                    &&& old(self).in_heap(addr as int, rsize as int)
                    &&& !old(self).live_blocks().dom().contains(addr as int)
                    &&& final(self).live_blocks()
                        == old(self).live_blocks().insert(addr as int, rsize as int)
                    &&& forall|a: int| #[trigger] old(self).live_blocks().dom().contains(a)
                            ==> ranges_disjoint(addr as int, rsize as int,
                                                a, old(self).live_blocks()[a])
                },
            },
    {
        let r = self.fallback_allocator.allocate_first_fit(rsize, ralign);
        match r {
            None => {
                proof {
                    assert forall|c: int| 0 <= c < NUM_CLASSES
                        implies #[trigger] self.class_list(c) == old(self).class_list(c) by {
                    }
                    assert(self.free_ranges() == old(self).free_ranges());
                    assert(self.live_blocks() == old(self).live_blocks());
                    assert(self.wf());
                }
                None
            },
            Some(addr) => {
                proof {
                    self.live@ = self.live@.insert(addr as int, rsize as int);
                }
                proof {
                    let ofb = old(self).free_ranges();
                    let nfb = self.free_ranges();
                    let olive = old(self).live_blocks();
                    crate::fallback::lemma_first_fit_props(ofb, rsize as int, ralign as int);
                    let j = first_fit(ofb, rsize as int, ralign as int)->Some_0.0;
                    assert(range_contained(addr as int, rsize as int, ofb[j].0 as int, ofb[j].1 as int));
                    assert(old(self).in_heap(ofb[j].0 as int, ofb[j].1 as int));
                    // The served block was free, so it was disjoint from
                    // every live allocation and every class block.
                    assert forall|a: int| #[trigger] olive.dom().contains(a)
                        implies ranges_disjoint(addr as int, rsize as int, a, olive[a]) by {
                        assert(ranges_disjoint(a, olive[a], ofb[j].0 as int, ofb[j].1 as int));
                    }
                    assert(!olive.dom().contains(addr as int)) by {
                        if olive.dom().contains(addr as int) {
                            assert(ranges_disjoint(addr as int, olive[addr as int],
                                                   ofb[j].0 as int, ofb[j].1 as int));
                        }
                    }
                    assert forall|c: int| 0 <= c < NUM_CLASSES
                        implies #[trigger] self.class_list(c) == old(self).class_list(c) by {
                    }
                    // Re-establish the invariant for the new state.
                    assert(self.num_lists() == NUM_CLASSES);
                    assert forall|k: int| 0 <= k < nfb.len()
                        implies self.in_heap((#[trigger] nfb[k]).0 as int, nfb[k].1 as int) by {
                        let k2 = choose|k2: int| 0 <= k2 < ofb.len()
                            && range_contained(nfb[k].0 as int, nfb[k].1 as int,
                                               ofb[k2].0 as int, ofb[k2].1 as int);
                        assert(old(self).in_heap(ofb[k2].0 as int, ofb[k2].1 as int));
                    }
                    assert forall|c: int, i: int, k: int|
                        0 <= c < NUM_CLASSES && 0 <= i < self.class_list(c).len()
                        && 0 <= k < nfb.len()
                        implies ranges_disjoint(
                            #[trigger] self.class_list(c)[i] as int, class_size(c),
                            (#[trigger] nfb[k]).0 as int, nfb[k].1 as int) by {
                        let k2 = choose|k2: int| 0 <= k2 < ofb.len()
                            && range_contained(nfb[k].0 as int, nfb[k].1 as int,
                                               ofb[k2].0 as int, ofb[k2].1 as int);
                        assert(old(self).class_list(c)[i] == self.class_list(c)[i]);
                        assert(ranges_disjoint(old(self).class_list(c)[i] as int, class_size(c),
                                               ofb[k2].0 as int, ofb[k2].1 as int));
                    }
                    let nlive = self.live_blocks();
                    assert forall|a: int| #[trigger] nlive.dom().contains(a)
                        implies self.in_heap(a, nlive[a]) && nlive[a] > 0 by {
                        if a != addr as int {
                            assert(olive.dom().contains(a));
                        }
                    }
                    assert forall|a1: int, a2: int|
                        #[trigger] nlive.dom().contains(a1) && #[trigger] nlive.dom().contains(a2)
                        && a1 != a2
                        implies ranges_disjoint(a1, nlive[a1], a2, nlive[a2]) by {
                        if a1 == addr as int {
                            assert(ranges_disjoint(addr as int, rsize as int, a2, olive[a2]));
                        } else if a2 == addr as int {
                            assert(ranges_disjoint(addr as int, rsize as int, a1, olive[a1]));
                        } else {
                            assert(olive.dom().contains(a1) && olive.dom().contains(a2));
                        }
                    }
                    assert forall|a: int, c: int, i: int|
                        #[trigger] nlive.dom().contains(a)
                        && 0 <= c < NUM_CLASSES && 0 <= i < self.class_list(c).len()
                        implies ranges_disjoint(a, nlive[a],
                            #[trigger] self.class_list(c)[i] as int, class_size(c)) by {
                        assert(self.class_list(c)[i] == old(self).class_list(c)[i]);
                        if a == addr as int {
                            // The block came out of fallback range j, which is
                            // disjoint from every free class block.
                            assert(ranges_disjoint(old(self).class_list(c)[i] as int, class_size(c),
                                                   ofb[j].0 as int, ofb[j].1 as int));
                        } else {
                            assert(olive.dom().contains(a));
                        }
                    }
                    assert forall|a: int, k: int|
                        #[trigger] nlive.dom().contains(a) && 0 <= k < nfb.len()
                        implies ranges_disjoint(a, nlive[a],
                            (#[trigger] nfb[k]).0 as int, nfb[k].1 as int) by {
                        if a == addr as int {
                            assert(ranges_disjoint(addr as int, rsize as int,
                                                   nfb[k].0 as int, nfb[k].1 as int));
                        } else {
                            assert(olive.dom().contains(a));
                            let k2 = choose|k2: int| 0 <= k2 < ofb.len()
                                && range_contained(nfb[k].0 as int, nfb[k].1 as int,
                                                   ofb[k2].0 as int, ofb[k2].1 as int);
                            assert(ranges_disjoint(a, olive[a], ofb[k2].0 as int, ofb[k2].1 as int));
                        }
                    }
                    assert(self.wf());
                }
                Some(addr)
            },
        }
    }

    /// The kernel-wide allocation entry point.
    ///
    /// Requests that fit a size class are served from that class's free
    /// list in constant time; an empty list is replenished from the
    /// fallback allocator with a class-sized, class-aligned request.
    /// If the replenishment is refused, and for requests larger than the
    /// largest class, the fallback allocator is asked directly with the
    /// caller's own size and alignment. `None` means the heap cannot
    /// serve the request; the allocator is left exactly as it was.
    ///
    /// A successful result is aligned, lies inside the heap, and does
    /// not intersect any other live allocation.
    pub fn allocate(&mut self, size: usize, align: usize) -> (r: Option<usize>)
        requires
            old(self).wf(),
            old(self).is_ready(),
            size > 0,
            is_power_of_two(align as int),
        ensures
            final(self).wf(),
            final(self).is_ready(),
            final(self).spec_heap_start() == old(self).spec_heap_start(),
            final(self).spec_heap_size() == old(self).spec_heap_size(),
            match r {
                None => {
                    &&& final(self).live_blocks() == old(self).live_blocks()
                    &&& final(self).free_ranges() == old(self).free_ranges()
                    &&& forall|c: int| 0 <= c < NUM_CLASSES
                            ==> #[trigger] final(self).class_list(c) == old(self).class_list(c)
                    &&& match spec_list_index(size as int, align as int) {
                            Some(c) => old(self).class_list(c).len() == 0
                                && first_fit(old(self).free_ranges(), class_size(c), class_size(c)) is None
                                && first_fit(old(self).free_ranges(), size as int, align as int) is None,
                            None => first_fit(old(self).free_ranges(), size as int, align as int) is None,
                        }
                },
                Some(addr) => ({
                    let reserved = final(self).live_blocks()[addr as int];
                    &&& addr % align == 0
                    &&& reserved >= size
                    &&& old(self).in_heap(addr as int, reserved)
                    &&& !old(self).live_blocks().dom().contains(addr as int)
                    &&& final(self).live_blocks()
                            == old(self).live_blocks().insert(addr as int, reserved)
                    &&& forall|a: int| #[trigger] old(self).live_blocks().dom().contains(a)
                            ==> ranges_disjoint(addr as int, reserved, a, old(self).live_blocks()[a])
                    &&& match spec_list_index(size as int, align as int) {
                            Some(c) => {
                                if old(self).class_list(c).len() > 0 {
                                    &&& addr == old(self).class_list(c).last()
                                    &&& reserved == class_size(c)
                                    &&& final(self).class_list(c) == old(self).class_list(c).drop_last()
                                    &&& forall|c2: int| 0 <= c2 < NUM_CLASSES && c2 != c
                                            ==> #[trigger] final(self).class_list(c2) == old(self).class_list(c2)
                                    &&& final(self).free_ranges() == old(self).free_ranges()
                                } else {
                                    &&& forall|c2: int| 0 <= c2 < NUM_CLASSES
                                            ==> #[trigger] final(self).class_list(c2) == old(self).class_list(c2)
                                    &&& if first_fit(old(self).free_ranges(), class_size(c), class_size(c)) is Some {
                                            addr == first_fit(old(self).free_ranges(), class_size(c), class_size(c))->Some_0.1
                                                && reserved == class_size(c)
                                                && final(self).free_ranges()
                                                    =~= carve_result(old(self).free_ranges(), class_size(c), class_size(c))
                                        } else {
                                            first_fit(old(self).free_ranges(), size as int, align as int) is Some
                                                && addr == first_fit(old(self).free_ranges(), size as int, align as int)->Some_0.1
                                                && reserved == size
                                                && final(self).free_ranges()
                                                    =~= carve_result(old(self).free_ranges(), size as int, align as int)
                                        }
                                }
                            },
                            None => {
                                &&& forall|c2: int| 0 <= c2 < NUM_CLASSES
                                        ==> #[trigger] final(self).class_list(c2) == old(self).class_list(c2)
                                &&& first_fit(old(self).free_ranges(), size as int, align as int) is Some
                                &&& addr == first_fit(old(self).free_ranges(), size as int, align as int)->Some_0.1
                                &&& final(self).free_ranges()
                                        =~= carve_result(old(self).free_ranges(), size as int, align as int)
                                &&& reserved == size
                            },
                        }
                }),
            },
    {
        proof {
            assert(align > 0);
        }
        match list_index(size, align) {
            Some(c) => {
                if self.list_heads[c].len() > 0 {
                    let node = self.list_heads[c].pop();
                    match node {
                        Some(addr) => {
                            proof {
                                self.live@ = self.live@.insert(addr as int, class_size(c as int));
                                lemma_class_hit(*old(self), *self, c as int, addr,
                                    size as int, align as int);
                            }
                            Some(addr)
                        },
                        None => {
                            // Unreachable: the list was checked non-empty.
                            proof {
                                assert(false);
                            }
                            None
                        },
                    }
                } else {
                    let bs = block_size(c);
                    let refill = self.fallback_alloc(bs, bs);
                    match refill {
                        Some(addr) => {
                            proof {
                                lemma_class_size_pow2(c as int);
                                lemma_pow2_divides(align as int, class_size(c as int));
                                lemma_mod_transitive(addr as int, class_size(c as int), align as int);
                            }
                            Some(addr)
                        },
                        None => {
                            // The class could not be replenished: fall through
                            // to the fallback allocator with the caller's own
                            // size and alignment.
                            self.fallback_alloc(size, align)
                        },
                    }
                }
            },
            None => self.fallback_alloc(size, align),
        }
    }

    /// Returns a block to the allocator.
    ///
    /// The caller must present the same size and alignment that the
    /// block was allocated with, and the block must have been served
    /// from its size class (a class-fitting request that the facade had
    /// to serve from the fallback allocator stays allocated — returning
    /// it to a class list would let the class list hand out bytes the
    /// fallback allocator still owns). Blocks larger than the largest
    /// class go back to the fallback allocator's free list.
    pub fn deallocate(&mut self, addr: usize, size: usize, align: usize)
        requires
            old(self).wf(),
            old(self).is_ready(),
            size > 0,
            is_power_of_two(align as int),
            old(self).live_blocks().dom().contains(addr as int),
            match spec_list_index(size as int, align as int) {
                Some(c) => old(self).live_blocks()[addr as int] == class_size(c)
                    && addr as int % class_size(c) == 0,
                None => old(self).live_blocks()[addr as int] == size as int,
            },
        ensures
            final(self).wf(),
            final(self).is_ready(),
            final(self).spec_heap_start() == old(self).spec_heap_start(),
            final(self).spec_heap_size() == old(self).spec_heap_size(),
            final(self).live_blocks() == old(self).live_blocks().remove(addr as int),
            match spec_list_index(size as int, align as int) {
                Some(c) => {
                    &&& final(self).class_list(c) == old(self).class_list(c).push(addr)
                    &&& forall|c2: int| 0 <= c2 < NUM_CLASSES && c2 != c
                            ==> #[trigger] final(self).class_list(c2) == old(self).class_list(c2)
                    &&& final(self).free_ranges() == old(self).free_ranges()
                },
                None => {
                    &&& forall|c2: int| 0 <= c2 < NUM_CLASSES
                            ==> #[trigger] final(self).class_list(c2) == old(self).class_list(c2)
                    &&& final(self).free_ranges() == old(self).free_ranges().push((addr, size))
                },
            },
    {
        match list_index(size, align) {
            Some(c) => {
                self.list_heads[c].push(addr);
                proof {
                    self.live@ = self.live@.remove(addr as int);
                    lemma_class_free(*old(self), *self, c as int, addr);
                }
            },
            None => {
                proof {
                    assert(old(self).in_heap(addr as int, size as int));
                    // The block is live, hence disjoint from all free ranges.
                    assert forall|k: int| 0 <= k < self.free_ranges().len()
                        implies ranges_disjoint(
                            addr as int, size as int,
                            (#[trigger] self.free_ranges()[k]).0 as int,
                            self.free_ranges()[k].1 as int) by {
                        assert(ranges_disjoint(addr as int, old(self).live_blocks()[addr as int],
                            old(self).free_ranges()[k].0 as int, old(self).free_ranges()[k].1 as int));
                    }
                }
                self.fallback_allocator.deallocate(addr, size);
                proof {
                    self.live@ = self.live@.remove(addr as int);
                    lemma_fallback_free(*old(self), *self, addr, size as int);
                }
            },
        }
    }
}

/// Popping the most recently freed block of class `c` and marking it
/// live preserves the allocator invariant; the block is aligned for
/// the request its class serves and disjoint from all other live
/// allocations.
proof fn lemma_class_hit(pre: BuddyAllocator, post: BuddyAllocator, c: int, addr: usize, size: int, align: int)
    requires
        pre.wf(),
        pre.is_ready(),
        0 <= c < NUM_CLASSES,
        is_power_of_two(align),
        align <= class_size(c),
        pre.class_list(c).len() > 0,
        addr == pre.class_list(c).last(),
        post.is_ready(),
        post.spec_heap_start() == pre.spec_heap_start(),
        post.spec_heap_size() == pre.spec_heap_size(),
        post.num_lists() == NUM_CLASSES,
        post.class_list(c) == pre.class_list(c).drop_last(),
        forall|c2: int| 0 <= c2 < NUM_CLASSES && c2 != c
            ==> #[trigger] post.class_list(c2) == pre.class_list(c2),
        post.free_ranges() == pre.free_ranges(),
        post.fallback_wf(),
        post.live_blocks() == pre.live_blocks().insert(addr as int, class_size(c)),
    ensures
        post.wf(),
        addr as int % align == 0,
        !pre.live_blocks().dom().contains(addr as int),
        forall|a: int| #[trigger] pre.live_blocks().dom().contains(a)
            ==> ranges_disjoint(addr as int, class_size(c), a, pre.live_blocks()[a]),
{
    let cs = class_size(c);
    let n = pre.class_list(c).len() as int;
    let olive = pre.live_blocks();
    let nlive = post.live_blocks();
    assert(pre.in_heap(addr as int, cs) && addr as int % cs == 0);
    assert(align > 0);
    lemma_class_size_pow2(c);
    lemma_pow2_divides(align, cs);
    lemma_mod_transitive(addr as int, cs, align);
    assert(!olive.dom().contains(addr as int)) by {
        if olive.dom().contains(addr as int) {
            assert(ranges_disjoint(addr as int, olive[addr as int], addr as int, cs));
        }
    }
    assert forall|a: int| #[trigger] olive.dom().contains(a)
        implies ranges_disjoint(addr as int, cs, a, olive[a]) by {
        assert(ranges_disjoint(a, olive[a], pre.class_list(c)[n - 1] as int, cs));
    }
    // The remaining class blocks are the old ones, minus the popped block.
    assert forall|c2: int, i: int|
        0 <= c2 < NUM_CLASSES && 0 <= i < post.class_list(c2).len()
        implies post.class_list(c2)[i] == pre.class_list(c2)[i]
            && (c2 != c || i < n - 1) by {
    }
    assert forall|c2: int, i: int|
        0 <= c2 < NUM_CLASSES && 0 <= i < post.class_list(c2).len()
        implies post.in_heap(#[trigger] post.class_list(c2)[i] as int, class_size(c2))
            && post.class_list(c2)[i] as int % class_size(c2) == 0 by {
        assert(pre.in_heap(pre.class_list(c2)[i] as int, class_size(c2)));
    }
    assert forall|c1: int, i1: int, c2: int, i2: int|
        0 <= c1 < NUM_CLASSES && 0 <= i1 < post.class_list(c1).len()
        && 0 <= c2 < NUM_CLASSES && 0 <= i2 < post.class_list(c2).len()
        && (c1 != c2 || i1 != i2)
        implies ranges_disjoint(
            #[trigger] post.class_list(c1)[i1] as int, class_size(c1),
            #[trigger] post.class_list(c2)[i2] as int, class_size(c2)) by {
        assert(ranges_disjoint(pre.class_list(c1)[i1] as int, class_size(c1),
                               pre.class_list(c2)[i2] as int, class_size(c2)));
    }
    assert forall|k: int| 0 <= k < post.free_ranges().len()
        implies post.in_heap((#[trigger] post.free_ranges()[k]).0 as int,
                             post.free_ranges()[k].1 as int) by {
        assert(pre.in_heap(pre.free_ranges()[k].0 as int, pre.free_ranges()[k].1 as int));
    }
    assert forall|c2: int, i: int, k: int|
        0 <= c2 < NUM_CLASSES && 0 <= i < post.class_list(c2).len()
        && 0 <= k < post.free_ranges().len()
        implies ranges_disjoint(
            #[trigger] post.class_list(c2)[i] as int, class_size(c2),
            (#[trigger] post.free_ranges()[k]).0 as int, post.free_ranges()[k].1 as int) by {
        assert(ranges_disjoint(pre.class_list(c2)[i] as int, class_size(c2),
                               pre.free_ranges()[k].0 as int, pre.free_ranges()[k].1 as int));
    }
    assert forall|a: int| #[trigger] nlive.dom().contains(a)
        implies post.in_heap(a, nlive[a]) && nlive[a] > 0 by {
        if a != addr as int {
            assert(olive.dom().contains(a));
        }
    }
    assert forall|a1: int, a2: int|
        #[trigger] nlive.dom().contains(a1) && #[trigger] nlive.dom().contains(a2) && a1 != a2
        implies ranges_disjoint(a1, nlive[a1], a2, nlive[a2]) by {
        if a1 == addr as int {
            assert(ranges_disjoint(a2, olive[a2], pre.class_list(c)[n - 1] as int, cs));
        } else if a2 == addr as int {
            assert(ranges_disjoint(a1, olive[a1], pre.class_list(c)[n - 1] as int, cs));
        } else {
            assert(olive.dom().contains(a1) && olive.dom().contains(a2));
        }
    }
    assert forall|a: int, c2: int, i: int|
        #[trigger] nlive.dom().contains(a)
        && 0 <= c2 < NUM_CLASSES && 0 <= i < post.class_list(c2).len()
        implies ranges_disjoint(a, nlive[a],
            #[trigger] post.class_list(c2)[i] as int, class_size(c2)) by {
        if a == addr as int {
            assert(ranges_disjoint(pre.class_list(c)[n - 1] as int, cs,
                                   pre.class_list(c2)[i] as int, class_size(c2)));
        } else {
            assert(olive.dom().contains(a));
            assert(ranges_disjoint(a, olive[a],
                                   pre.class_list(c2)[i] as int, class_size(c2)));
        }
    }
    assert forall|a: int, k: int|
        #[trigger] nlive.dom().contains(a) && 0 <= k < post.free_ranges().len()
        implies ranges_disjoint(a, nlive[a],
            (#[trigger] post.free_ranges()[k]).0 as int, post.free_ranges()[k].1 as int) by {
        if a == addr as int {
            assert(ranges_disjoint(pre.class_list(c)[n - 1] as int, cs,
                                   pre.free_ranges()[k].0 as int, pre.free_ranges()[k].1 as int));
        } else {
            assert(olive.dom().contains(a));
            assert(ranges_disjoint(a, olive[a],
                                   pre.free_ranges()[k].0 as int, pre.free_ranges()[k].1 as int));
        }
    }
}

/// Pushing a returned block onto its class free stack and dropping it
/// from the live map preserves the allocator invariant.
proof fn lemma_class_free(pre: BuddyAllocator, post: BuddyAllocator, c: int, addr: usize)
    requires
        pre.wf(),
        0 <= c < NUM_CLASSES,
        pre.live_blocks().dom().contains(addr as int),
        pre.live_blocks()[addr as int] == class_size(c),
        addr as int % class_size(c) == 0,
        post.is_ready() == pre.is_ready(),
        post.spec_heap_start() == pre.spec_heap_start(),
        post.spec_heap_size() == pre.spec_heap_size(),
        post.num_lists() == NUM_CLASSES,
        post.class_list(c) == pre.class_list(c).push(addr),
        forall|c2: int| 0 <= c2 < NUM_CLASSES && c2 != c
            ==> #[trigger] post.class_list(c2) == pre.class_list(c2),
        post.free_ranges() == pre.free_ranges(),
        post.fallback_wf(),
        post.live_blocks() == pre.live_blocks().remove(addr as int),
    ensures
        post.wf(),
{
    let cs = class_size(c);
    let n = pre.class_list(c).len() as int;
    let olive = pre.live_blocks();
    let nlive = post.live_blocks();
    assert(pre.in_heap(addr as int, cs));
    // Relate each block of the new lists to the old state: it is either
    // an old free block or the newly returned one.
    assert forall|c2: int, i: int|
        0 <= c2 < NUM_CLASSES && 0 <= i < post.class_list(c2).len()
        implies (c2 == c && i == n && post.class_list(c2)[i] == addr)
            || (0 <= i < pre.class_list(c2).len()
                && post.class_list(c2)[i] == pre.class_list(c2)[i]) by {
    }
    assert forall|c2: int, i: int|
        0 <= c2 < NUM_CLASSES && 0 <= i < post.class_list(c2).len()
        implies post.in_heap(#[trigger] post.class_list(c2)[i] as int, class_size(c2))
            && post.class_list(c2)[i] as int % class_size(c2) == 0 by {
        if !(c2 == c && i == n) {
            assert(pre.in_heap(pre.class_list(c2)[i] as int, class_size(c2)));
        }
    }
    assert forall|c1: int, i1: int, c2: int, i2: int|
        0 <= c1 < NUM_CLASSES && 0 <= i1 < post.class_list(c1).len()
        && 0 <= c2 < NUM_CLASSES && 0 <= i2 < post.class_list(c2).len()
        && (c1 != c2 || i1 != i2)
        implies ranges_disjoint(
            #[trigger] post.class_list(c1)[i1] as int, class_size(c1),
            #[trigger] post.class_list(c2)[i2] as int, class_size(c2)) by {
        if c1 == c && i1 == n {
            assert(ranges_disjoint(addr as int, olive[addr as int],
                                   pre.class_list(c2)[i2] as int, class_size(c2)));
        } else if c2 == c && i2 == n {
            assert(ranges_disjoint(addr as int, olive[addr as int],
                                   pre.class_list(c1)[i1] as int, class_size(c1)));
        } else {
            assert(ranges_disjoint(pre.class_list(c1)[i1] as int, class_size(c1),
                                   pre.class_list(c2)[i2] as int, class_size(c2)));
        }
    }
    assert forall|k: int| 0 <= k < post.free_ranges().len()
        implies post.in_heap((#[trigger] post.free_ranges()[k]).0 as int,
                             post.free_ranges()[k].1 as int) by {
        assert(pre.in_heap(pre.free_ranges()[k].0 as int, pre.free_ranges()[k].1 as int));
    }
    assert forall|c2: int, i: int, k: int|
        0 <= c2 < NUM_CLASSES && 0 <= i < post.class_list(c2).len()
        && 0 <= k < post.free_ranges().len()
        implies ranges_disjoint(
            #[trigger] post.class_list(c2)[i] as int, class_size(c2),
            (#[trigger] post.free_ranges()[k]).0 as int, post.free_ranges()[k].1 as int) by {
        if c2 == c && i == n {
            assert(ranges_disjoint(addr as int, olive[addr as int],
                                   pre.free_ranges()[k].0 as int, pre.free_ranges()[k].1 as int));
        } else {
            assert(ranges_disjoint(pre.class_list(c2)[i] as int, class_size(c2),
                                   pre.free_ranges()[k].0 as int, pre.free_ranges()[k].1 as int));
        }
    }
    assert forall|a: int| #[trigger] nlive.dom().contains(a)
        implies post.in_heap(a, nlive[a]) && nlive[a] > 0 by {
        assert(olive.dom().contains(a));
    }
    assert forall|a1: int, a2: int|
        #[trigger] nlive.dom().contains(a1) && #[trigger] nlive.dom().contains(a2) && a1 != a2
        implies ranges_disjoint(a1, nlive[a1], a2, nlive[a2]) by {
        assert(olive.dom().contains(a1) && olive.dom().contains(a2));
    }
    assert forall|a: int, c2: int, i: int|
        #[trigger] nlive.dom().contains(a)
        && 0 <= c2 < NUM_CLASSES && 0 <= i < post.class_list(c2).len()
        implies ranges_disjoint(a, nlive[a],
            #[trigger] post.class_list(c2)[i] as int, class_size(c2)) by {
        assert(olive.dom().contains(a));
        if c2 == c && i == n {
            assert(ranges_disjoint(a, olive[a], addr as int, olive[addr as int]));
        } else {
            assert(ranges_disjoint(a, olive[a],
                                   pre.class_list(c2)[i] as int, class_size(c2)));
        }
    }
    assert forall|a: int, k: int|
        #[trigger] nlive.dom().contains(a) && 0 <= k < post.free_ranges().len()
        implies ranges_disjoint(a, nlive[a],
            (#[trigger] post.free_ranges()[k]).0 as int, post.free_ranges()[k].1 as int) by {
        assert(olive.dom().contains(a));
        assert(ranges_disjoint(a, olive[a],
                               pre.free_ranges()[k].0 as int, pre.free_ranges()[k].1 as int));
    }
}

/// Appending a returned block to the fallback free list and dropping
/// it from the live map preserves the allocator invariant.
proof fn lemma_fallback_free(pre: BuddyAllocator, post: BuddyAllocator, addr: usize, size: int)
    requires
        pre.wf(),
        size > 0,
        pre.live_blocks().dom().contains(addr as int),
        pre.live_blocks()[addr as int] == size,
        post.is_ready() == pre.is_ready(),
        post.spec_heap_start() == pre.spec_heap_start(),
        post.spec_heap_size() == pre.spec_heap_size(),
        post.num_lists() == NUM_CLASSES,
        forall|c2: int| 0 <= c2 < NUM_CLASSES
            ==> #[trigger] post.class_list(c2) == pre.class_list(c2),
        post.free_ranges() == pre.free_ranges().push((addr, size as usize)),
        post.fallback_wf(),
        post.live_blocks() == pre.live_blocks().remove(addr as int),
    ensures
        post.wf(),
{
    let olive = pre.live_blocks();
    let nlive = post.live_blocks();
    let nfb = post.free_ranges();
    let m = pre.free_ranges().len() as int;
    assert(pre.in_heap(addr as int, size));
    assert forall|k: int| 0 <= k < nfb.len()
        implies post.in_heap((#[trigger] nfb[k]).0 as int, nfb[k].1 as int) by {
        if k < m {
            assert(pre.in_heap(pre.free_ranges()[k].0 as int, pre.free_ranges()[k].1 as int));
        }
    }
    assert forall|c2: int, i: int|
        0 <= c2 < NUM_CLASSES && 0 <= i < post.class_list(c2).len()
        implies post.in_heap(#[trigger] post.class_list(c2)[i] as int, class_size(c2))
            && post.class_list(c2)[i] as int % class_size(c2) == 0 by {
        assert(pre.in_heap(pre.class_list(c2)[i] as int, class_size(c2)));
    }
    assert forall|c1: int, i1: int, c2: int, i2: int|
        0 <= c1 < NUM_CLASSES && 0 <= i1 < post.class_list(c1).len()
        && 0 <= c2 < NUM_CLASSES && 0 <= i2 < post.class_list(c2).len()
        && (c1 != c2 || i1 != i2)
        implies ranges_disjoint(
            #[trigger] post.class_list(c1)[i1] as int, class_size(c1),
            #[trigger] post.class_list(c2)[i2] as int, class_size(c2)) by {
        assert(ranges_disjoint(pre.class_list(c1)[i1] as int, class_size(c1),
                               pre.class_list(c2)[i2] as int, class_size(c2)));
    }
    assert forall|c2: int, i: int, k: int|
        0 <= c2 < NUM_CLASSES && 0 <= i < post.class_list(c2).len()
        && 0 <= k < nfb.len()
        implies ranges_disjoint(
            #[trigger] post.class_list(c2)[i] as int, class_size(c2),
            (#[trigger] nfb[k]).0 as int, nfb[k].1 as int) by {
        if k < m {
            assert(ranges_disjoint(pre.class_list(c2)[i] as int, class_size(c2),
                                   pre.free_ranges()[k].0 as int, pre.free_ranges()[k].1 as int));
        } else {
            assert(ranges_disjoint(addr as int, olive[addr as int],
                                   pre.class_list(c2)[i] as int, class_size(c2)));
        }
    }
    assert forall|a: int| #[trigger] nlive.dom().contains(a)
        implies post.in_heap(a, nlive[a]) && nlive[a] > 0 by {
        assert(olive.dom().contains(a));
    }
    assert forall|a1: int, a2: int|
        #[trigger] nlive.dom().contains(a1) && #[trigger] nlive.dom().contains(a2) && a1 != a2
        implies ranges_disjoint(a1, nlive[a1], a2, nlive[a2]) by {
        assert(olive.dom().contains(a1) && olive.dom().contains(a2));
    }
    assert forall|a: int, c2: int, i: int|
        #[trigger] nlive.dom().contains(a)
        && 0 <= c2 < NUM_CLASSES && 0 <= i < post.class_list(c2).len()
        implies ranges_disjoint(a, nlive[a],
            #[trigger] post.class_list(c2)[i] as int, class_size(c2)) by {
        assert(olive.dom().contains(a));
        assert(ranges_disjoint(a, olive[a], pre.class_list(c2)[i] as int, class_size(c2)));
    }
    assert forall|a: int, k: int|
        #[trigger] nlive.dom().contains(a) && 0 <= k < nfb.len()
        implies ranges_disjoint(a, nlive[a], (#[trigger] nfb[k]).0 as int, nfb[k].1 as int) by {
        assert(olive.dom().contains(a));
        if k < m {
            assert(ranges_disjoint(a, olive[a],
                                   pre.free_ranges()[k].0 as int, pre.free_ranges()[k].1 as int));
        } else {
            assert(ranges_disjoint(a, olive[a], addr as int, olive[addr as int]));
        }
    }
}

/// No overlap: two distinct live allocations of a well-formed
/// allocator never intersect, whatever sequence of interleaved
/// `allocate` and `deallocate` calls produced them — every such call
/// preserves `wf`, of which this is a consequence.
pub proof fn lemma_live_no_overlap(h: BuddyAllocator, a1: int, a2: int)
    requires
        h.wf(),
        h.live_blocks().dom().contains(a1),
        h.live_blocks().dom().contains(a2),
        a1 != a2,
    ensures
        ranges_disjoint(a1, h.live_blocks()[a1], a2, h.live_blocks()[a2]),
{
}

/// Last-freed-first-reused: `deallocate` pushes a block onto its class
/// free stack and `allocate` pops from the same end, so freeing a
/// block and then allocating its class again yields exactly the freed
/// address and restores the stack. Allocating N blocks of one class
/// right after freeing N therefore reuses exactly the freed addresses.
pub proof fn lemma_reuse_lifo(stack: Seq<usize>, addr: usize)
    ensures
        stack.push(addr).last() == addr,
        stack.push(addr).drop_last() == stack,
{
    assert(stack.push(addr).drop_last() =~= stack);
}

/// Divisibility is transitive: a multiple of a multiple of `c` is a
/// multiple of `c`.
pub proof fn lemma_mod_transitive(a: int, b: int, c: int)
    requires
        b > 0,
        c > 0,
        a % b == 0,
        b % c == 0,
        a >= 0,
    ensures
        a % c == 0,
{
    let q = a / b;
    let r = b / c;
    assert(a == q * b) by (nonlinear_arith)
        requires a % b == 0 && b > 0 && q == a / b,
    {}
    assert(b == r * c) by (nonlinear_arith)
        requires b % c == 0 && c > 0 && r == b / c,
    {}
    assert(a == (q * r) * c) by (nonlinear_arith)
        requires a == q * b && b == r * c,
    {}
    assert(a % c == 0) by (nonlinear_arith)
        requires a == (q * r) * c && c > 0,
    {}
}

} // verus!
