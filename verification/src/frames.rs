//! The physical frame source.
//!
//! It consumes the boot-provided memory map — a list of physical
//! regions, each flagged usable or not — and yields one previously
//! unyielded, page-aligned 4 KiB frame per call, walking the usable
//! regions in map order. Frames are never reclaimed; when every usable
//! region is exhausted the source is exhausted for good.

use vstd::prelude::*;

verus! {

/// Size in bytes of a physical frame and of a virtual page.
pub const PAGE_SIZE: u64 = 4096;

/// One entry of the boot memory map: a physical byte range and whether
/// the kernel may use it.
#[derive(Clone, Copy)]
pub struct MemoryRegion {
    pub start: u64,
    pub len: u64,
    pub usable: bool,
}

/// `[f, f+4096)` is a page-aligned frame lying inside the usable
/// region `r`.
pub open spec fn frame_in_region(r: MemoryRegion, f: int) -> bool {
    &&& r.usable
    &&& f % (PAGE_SIZE as int) == 0
    &&& r.start <= f
    &&& f + PAGE_SIZE <= r.start + r.len
}

/// The first frame of region `r` starting at or past `next`, if any:
/// the larger of `next` and the region's start, rounded up to a page
/// boundary, provided a whole frame still fits in the region.
pub open spec fn region_first_frame(r: MemoryRegion, next: int) -> Option<int> {
    if !r.usable {
        None
    } else {
        let base = if next > r.start { next } else { r.start as int };
        let cand = if base % (PAGE_SIZE as int) == 0 {
            base
        } else {
            base + PAGE_SIZE - base % (PAGE_SIZE as int)
        };
        if cand + PAGE_SIZE <= r.start + r.len {
            Some(cand)
        } else {
            None
        }
    }
}

/// The first frame the walk yields from region `j` on, starting at or
/// past `next` within region `j` itself.
pub open spec fn first_frame_from(regions: Seq<MemoryRegion>, j: int, next: int) -> Option<int>
    decreases regions.len() - j,
{
    if j < 0 || j >= regions.len() {
        None
    } else {
        match region_first_frame(regions[j], next) {
            Some(f) => Some(f),
            None => first_frame_from(regions, j + 1, 0),
        }
    }
}

pub struct BootInfoFrameAllocator {
    regions: Vec<MemoryRegion>,
    region_idx: usize,
    next_addr: u64,
    yielded: Ghost<Set<int>>,
}

impl BootInfoFrameAllocator {
    /// The boot memory map this source walks.
    pub closed spec fn regions_view(self) -> Seq<MemoryRegion> {
        self.regions@
    }

    /// Every frame start this source has already handed out.
    pub closed spec fn yielded_frames(self) -> Set<int> {
        self.yielded@
    }

    /// The region the cursor stands in.
    pub closed spec fn cursor_region(self) -> int {
        self.region_idx as int
    }

    /// The next candidate frame address within the cursor's region.
    pub closed spec fn cursor_addr(self) -> int {
        self.next_addr as int
    }

    /// The frames the source can still yield: frames of a usable region
    /// at or past the cursor.
    pub open spec fn in_remaining(self, f: int) -> bool {
        exists|j: int|
            self.cursor_region() <= j < self.regions_view().len()
            && #[trigger] frame_in_region(self.regions_view()[j], f)
            && (j == self.cursor_region() ==> f >= self.cursor_addr())
    }

    /// The memory map is sane — regions do not wrap the address space
    /// and usable regions are pairwise disjoint — and no frame still
    /// remaining has already been yielded.
    pub open spec fn wf(self) -> bool {
        &&& self.cursor_region() <= self.regions_view().len()
        &&& forall|j: int| 0 <= j < self.regions_view().len()
                ==> (#[trigger] self.regions_view()[j]).start + self.regions_view()[j].len
                    <= u64::MAX
        &&& forall|j1: int, j2: int|
                0 <= j1 < self.regions_view().len() && 0 <= j2 < self.regions_view().len()
                && j1 != j2
                && (#[trigger] self.regions_view()[j1]).usable
                && (#[trigger] self.regions_view()[j2]).usable
                    ==> self.regions_view()[j1].start + self.regions_view()[j1].len
                            <= self.regions_view()[j2].start
                        || self.regions_view()[j2].start + self.regions_view()[j2].len
                            <= self.regions_view()[j1].start
        &&& forall|f: int| #[trigger] self.in_remaining(f) ==> !self.yielded_frames().contains(f)
    }

    /// Builds a frame source over the boot memory map. The boot
    /// collaborator guarantees the map's usable regions are disjoint
    /// and do not wrap the physical address space.
    pub fn init(regions: Vec<MemoryRegion>) -> (r: Self)
        requires
            forall|j: int| 0 <= j < regions@.len()
                ==> (#[trigger] regions@[j]).start + regions@[j].len <= u64::MAX,
            forall|j1: int, j2: int|
                0 <= j1 < regions@.len() && 0 <= j2 < regions@.len() && j1 != j2
                && (#[trigger] regions@[j1]).usable && (#[trigger] regions@[j2]).usable
                    ==> regions@[j1].start + regions@[j1].len <= regions@[j2].start
                        || regions@[j2].start + regions@[j2].len <= regions@[j1].start,
        ensures
            r.wf(),
            r.regions_view() == regions@,
            r.cursor_region() == 0,
            r.cursor_addr() == 0,
            r.yielded_frames() =~= Set::<int>::empty(),
    {
        BootInfoFrameAllocator {
            regions,
            region_idx: 0,
            next_addr: 0,
            yielded: Ghost(Set::empty()),
        }
    }

    /// Yields the next unused frame, or `None` once every usable region
    /// is consumed — a terminal condition: no later call can succeed.
    pub fn next_frame(&mut self) -> (r: Option<u64>)
        requires
            old(self).wf(),
        ensures
            final(self).wf(),
            final(self).regions_view() == old(self).regions_view(),
            match r {
                None => {
                    &&& final(self).yielded_frames() == old(self).yielded_frames()
                    &&& first_frame_from(old(self).regions_view(), old(self).cursor_region(),
                            old(self).cursor_addr()) is None
                    &&& forall|f: int| !old(self).in_remaining(f)
                    &&& forall|f: int| !final(self).in_remaining(f)
                },
                Some(f) => {
                    &&& Some(f as int) == first_frame_from(old(self).regions_view(),
                            old(self).cursor_region(), old(self).cursor_addr())
                    &&& f % PAGE_SIZE == 0
                    &&& old(self).in_remaining(f as int)
                    &&& exists|j: int| 0 <= j < old(self).regions_view().len()
                            && #[trigger] frame_in_region(old(self).regions_view()[j], f as int)
                    &&& !old(self).yielded_frames().contains(f as int)
                    &&& final(self).yielded_frames()
                            == old(self).yielded_frames().insert(f as int)
                },
            },
    {
        while self.region_idx < self.regions.len()
            invariant
                self.wf(),
                self.regions@ == old(self).regions_view(),
                self.yielded@ == old(self).yielded_frames(),
                forall|f: int| #[trigger] self.in_remaining(f) == old(self).in_remaining(f),
                first_frame_from(self.regions@, self.cursor_region(), self.cursor_addr())
                    == first_frame_from(old(self).regions_view(), old(self).cursor_region(),
                            old(self).cursor_addr()),
            decreases self.regions@.len() - self.region_idx,
        {
            let ghost pre = *self;
            let ghost j0 = self.region_idx as int;
            let r = self.regions[self.region_idx];
            let mut found: Option<u64> = None;
            if r.usable && r.len >= PAGE_SIZE {
                let end = r.start + r.len;
                let base = if self.next_addr > r.start { self.next_addr } else { r.start };
                if base <= u64::MAX - PAGE_SIZE {
                    let rem = base % PAGE_SIZE;
                    let cand = if rem == 0 { base } else { base + (PAGE_SIZE - rem) };
                    proof {
                        let q = base as int / PAGE_SIZE as int;
                        assert(base as int == q * PAGE_SIZE + rem as int && 0 <= rem < PAGE_SIZE)
                            by (nonlinear_arith)
                            requires
                                rem == base as int % PAGE_SIZE as int,
                                q == base as int / PAGE_SIZE as int,
                        {}
                        if rem != 0 {
                            assert(cand as int == (q + 1) * PAGE_SIZE) by (nonlinear_arith)
                                requires
                                    cand == base + (PAGE_SIZE - rem),
                                    base as int == q * PAGE_SIZE + rem,
                            {}
                            assert(cand as int % PAGE_SIZE as int == 0) by (nonlinear_arith)
                                requires
                                    cand as int == (q + 1) * PAGE_SIZE as int,
                                    q + 1 >= 0,
                            {}
                        }
                        // Any remaining page-aligned frame of this region
                        // starts at or past the rounded-up candidate.
                        assert forall|f: int|
                            frame_in_region(pre.regions_view()[j0], f) && f >= pre.cursor_addr()
                            implies f >= cand as int by {
                            assert(f >= base as int);
                            assert(f >= cand as int) by (nonlinear_arith)
                                requires
                                    f % (PAGE_SIZE as int) == 0,
                                    f >= base,
                                    base as int == q * PAGE_SIZE + rem as int,
                                    0 <= rem < PAGE_SIZE,
                                    cand as int == (if rem == 0 { base as int } else { (q + 1) * (PAGE_SIZE as int) }),
                            {}
                        }
                    }
                    if cand <= end - PAGE_SIZE {
                        found = Some(cand);
                    } else {
                        proof {
                            assert forall|f: int|
                                frame_in_region(pre.regions_view()[j0], f)
                                implies f < pre.cursor_addr() by {
                                if f >= pre.cursor_addr() {
                                    assert(f >= cand as int);
                                    assert(f + PAGE_SIZE <= r.start + r.len);
                                }
                            }
                        }
                    }
                } else {
                    proof {
                        // The candidate would wrap the address space, so
                        // nothing at or past the cursor fits in this region.
                        assert forall|f: int|
                            frame_in_region(pre.regions_view()[j0], f)
                            implies f < pre.cursor_addr() by {
                            if f >= pre.cursor_addr() {
                                assert(f >= base as int);
                                assert(f + PAGE_SIZE <= r.start + r.len);
                                assert(r.start + r.len <= u64::MAX);
                            }
                        }
                    }
                }
            }
            match found {
                Some(cand) => {
                    proof {
                        assert(region_first_frame(pre.regions_view()[j0], pre.cursor_addr())
                            == Some(cand as int));
                        assert(first_frame_from(pre.regions_view(), j0, pre.cursor_addr())
                            == Some(cand as int));
                    }
                    self.next_addr = cand + PAGE_SIZE;
                    proof {
                        self.yielded@ = self.yielded@.insert(cand as int);
                        assert(frame_in_region(pre.regions_view()[j0], cand as int));
                        assert(pre.in_remaining(cand as int));
                        lemma_advance_past(pre, *self, j0, cand as int);
                    }
                    return Some(cand);
                },
                None => {
                    proof {
                        assert(region_first_frame(pre.regions_view()[j0], pre.cursor_addr()) is None);
                    }
                    // This region is unusable or exhausted: move on.
                    self.region_idx = self.region_idx + 1;
                    self.next_addr = 0;
                    proof {
                        lemma_skip_region(pre, *self);
                        assert(first_frame_from(pre.regions_view(), j0, pre.cursor_addr())
                            == first_frame_from(self.regions@, j0 + 1, 0));
                    }
                },
            }
        }
        proof {
            assert forall|f: int| !old(self).in_remaining(f) by {
                if old(self).in_remaining(f) {
                    assert(self.in_remaining(f));
                    let j = choose|j: int|
                        self.cursor_region() <= j < self.regions_view().len()
                        && #[trigger] frame_in_region(self.regions_view()[j], f)
                        && (j == self.cursor_region() ==> f >= self.cursor_addr());
                    assert(false);
                }
            }
        }
        None
    }
}

/// Advancing the cursor just past a yielded frame keeps every still
/// remaining frame fresh: frames later in the same region start past
/// it, and frames of other usable regions cannot coincide with it.
proof fn lemma_advance_past(pre: BootInfoFrameAllocator, post: BootInfoFrameAllocator, j0: int, f: int)
    requires
        pre.wf(),
        0 <= j0 < pre.regions_view().len(),
        j0 == pre.cursor_region(),
        frame_in_region(pre.regions_view()[j0], f),
        f >= pre.cursor_addr(),
        post.regions_view() == pre.regions_view(),
        post.cursor_region() == pre.cursor_region(),
        post.cursor_addr() == f + PAGE_SIZE,
        post.yielded_frames() == pre.yielded_frames().insert(f),
    ensures
        post.wf(),
        forall|g: int| #[trigger] post.in_remaining(g) ==> pre.in_remaining(g),
{
    assert forall|g: int| #[trigger] post.in_remaining(g)
        implies pre.in_remaining(g) && g != f by {
        let j = choose|j: int|
            post.cursor_region() <= j < post.regions_view().len()
            && #[trigger] frame_in_region(post.regions_view()[j], g)
            && (j == post.cursor_region() ==> g >= post.cursor_addr());
        assert(frame_in_region(pre.regions_view()[j], g));
        assert(pre.in_remaining(g));
        if j == j0 {
            assert(g >= f + PAGE_SIZE);
        } else {
            // Usable regions are disjoint, so a frame of region j cannot
            // be the frame just yielded from region j0.
            assert(pre.regions_view()[j].start + pre.regions_view()[j].len
                    <= pre.regions_view()[j0].start
                || pre.regions_view()[j0].start + pre.regions_view()[j0].len
                    <= pre.regions_view()[j].start);
        }
    }
}

/// Moving the cursor past a region that holds no remaining frame
/// leaves the set of remaining frames unchanged.
proof fn lemma_skip_region(pre: BootInfoFrameAllocator, post: BootInfoFrameAllocator)
    requires
        pre.wf(),
        pre.cursor_region() < pre.regions_view().len(),
        post.regions_view() == pre.regions_view(),
        post.yielded_frames() == pre.yielded_frames(),
        post.cursor_region() == pre.cursor_region() + 1,
        post.cursor_addr() == 0,
        // No remaining frame stands in the region being skipped.
        forall|f: int| frame_in_region(pre.regions_view()[pre.cursor_region()], f)
            ==> f < pre.cursor_addr(),
    ensures
        post.wf(),
        forall|f: int| #[trigger] post.in_remaining(f) == pre.in_remaining(f),
{
    assert forall|f: int| #[trigger] post.in_remaining(f) == pre.in_remaining(f) by {
        if post.in_remaining(f) {
            let j = choose|j: int|
                post.cursor_region() <= j < post.regions_view().len()
                && #[trigger] frame_in_region(post.regions_view()[j], f)
                && (j == post.cursor_region() ==> f >= post.cursor_addr());
            assert(frame_in_region(pre.regions_view()[j], f));
            assert(pre.in_remaining(f));
        }
        if pre.in_remaining(f) {
            let j = choose|j: int|
                pre.cursor_region() <= j < pre.regions_view().len()
                && #[trigger] frame_in_region(pre.regions_view()[j], f)
                && (j == pre.cursor_region() ==> f >= pre.cursor_addr());
            assert(j != pre.cursor_region());
            assert(frame_in_region(post.regions_view()[j], f));
            assert(post.in_remaining(f));
        }
    }
}

} // verus!
