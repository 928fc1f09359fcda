//! The first-fit fallback allocator.
//!
//! It owns the portion of the heap's byte range that is not currently
//! carved into size-class blocks or live allocations, as a list of free
//! `(start, size)` ranges walked in list order. It is the allocator of
//! record for the heap's initial single free extent and for requests
//! larger than the largest size class. Freed ranges are appended without
//! coalescing.

use vstd::prelude::*;

verus! {

/// Two byte ranges do not intersect.
pub open spec fn ranges_disjoint(a1: int, s1: int, a2: int, s2: int) -> bool {
    a1 + s1 <= a2 || a2 + s2 <= a1
}

/// `[a1, a1+s1)` lies inside `[a2, a2+s2)`.
pub open spec fn range_contained(a1: int, s1: int, a2: int, s2: int) -> bool {
    a2 <= a1 && a1 + s1 <= a2 + s2
}

/// Where a request of `size` bytes at alignment `align` lands in a free
/// range, if it fits: the range's start rounded up to the alignment.
pub open spec fn fit_in_range(start: int, len: int, size: int, align: int) -> Option<int> {
    let pad = if start % align == 0 { 0int } else { align - start % align };
    if pad <= len && len - pad >= size {
        Some(start + pad)
    } else {
        None
    }
}

/// First-fit search from index `i` on: the index of the first range the
/// request fits in, and the address it is served at.
pub open spec fn first_fit_from(rs: Seq<(usize, usize)>, i: int, size: int, align: int) -> Option<(int, int)>
    decreases rs.len() - i,
{
    if i < 0 || i >= rs.len() {
        None
    } else {
        match fit_in_range(rs[i].0 as int, rs[i].1 as int, size, align) {
            Some(a) => Some((i, a)),
            None => first_fit_from(rs, i + 1, size, align),
        }
    }
}

/// First-fit search over the whole free list.
pub open spec fn first_fit(rs: Seq<(usize, usize)>, size: int, align: int) -> Option<(int, int)> {
    first_fit_from(rs, 0, size, align)
}

/// The free list after a successful first-fit carve: the served range
/// is replaced, in place, by whatever is left in front of and behind
/// the served block; every other range keeps its position.
pub open spec fn carve_result(rs: Seq<(usize, usize)>, size: int, align: int) -> Seq<(usize, usize)> {
    let (j, a) = first_fit(rs, size, align)->Some_0;
    let served = rs[j];
    let front = a - served.0;
    let back = served.0 + served.1 - (a + size);
    rs.take(j)
        + (if front > 0 { seq![(served.0, front as usize)] } else { Seq::<(usize, usize)>::empty() })
        + (if back > 0 { seq![((a + size) as usize, back as usize)] } else { Seq::<(usize, usize)>::empty() })
        + rs.skip(j + 1)
}

pub struct FallbackHeap {
    ranges: Vec<(usize, usize)>,
}

impl FallbackHeap {
    /// The free ranges, in the order the first-fit walk visits them.
    pub closed spec fn view_ranges(self) -> Seq<(usize, usize)> {
        self.ranges@
    }

    /// Free ranges are non-empty, do not wrap the address space, and are
    /// pairwise disjoint.
    pub open spec fn wf(self) -> bool {
        &&& forall|k: int| 0 <= k < self.view_ranges().len() ==> {
                &&& (#[trigger] self.view_ranges()[k]).1 > 0
                &&& self.view_ranges()[k].0 + self.view_ranges()[k].1 <= usize::MAX
            }
        &&& forall|k1: int, k2: int|
                0 <= k1 < self.view_ranges().len() && 0 <= k2 < self.view_ranges().len() && k1 != k2
                    ==> ranges_disjoint(
                        (#[trigger] self.view_ranges()[k1]).0 as int, self.view_ranges()[k1].1 as int,
                        (#[trigger] self.view_ranges()[k2]).0 as int, self.view_ranges()[k2].1 as int,
                    )
    }

    /// An allocator with no free memory at all.
    pub fn empty() -> (r: Self)
        ensures
            r.view_ranges() =~= Seq::<(usize, usize)>::empty(),
            r.wf(),
    {
        FallbackHeap { ranges: Vec::new() }
    }

    /// Hands the allocator its initial extent: the whole heap byte range,
    /// as one free range. Called exactly once, by the heap bootstrap.
    pub fn init(&mut self, heap_start: usize, heap_size: usize)
        requires
            old(self).view_ranges().len() == 0,
            heap_size > 0,
            heap_start + heap_size <= usize::MAX,
        ensures
            final(self).view_ranges() =~= seq![(heap_start, heap_size)],
            final(self).wf(),
    {
        self.ranges.push((heap_start, heap_size));
    }

    /// Walks the free list in order and serves the request from the first
    /// range it fits in, splitting off whatever is left over in front of
    /// and behind the served block as new free ranges.
    ///
    /// Returns `None` exactly when no free range fits the request.
    pub fn allocate_first_fit(&mut self, size: usize, align: usize) -> (r: Option<usize>)
        requires
            old(self).wf(),
            size > 0,
            align > 0,
        ensures
            final(self).wf(),
            match r {
                None => {
                    &&& final(self).view_ranges() == old(self).view_ranges()
                    &&& first_fit(old(self).view_ranges(), size as int, align as int) is None
                },
                Some(addr) => {
                    let ff = first_fit(old(self).view_ranges(), size as int, align as int);
                    &&& ff is Some
                    &&& addr == ff->Some_0.1
                    &&& addr % align == 0
                    &&& addr + size <= usize::MAX
                    &&& final(self).view_ranges()
                            =~= carve_result(old(self).view_ranges(), size as int, align as int)
                    // The served block lies inside the range it was carved from.
                    &&& range_contained(
                            addr as int, size as int,
                            old(self).view_ranges()[ff->Some_0.0].0 as int,
                            old(self).view_ranges()[ff->Some_0.0].1 as int,
                        )
                    // Every remaining free range lies inside some old free range.
                    &&& forall|k: int| 0 <= k < final(self).view_ranges().len()
                            ==> exists|k2: int| 0 <= k2 < old(self).view_ranges().len()
                                && range_contained(
                                    (#[trigger] final(self).view_ranges()[k]).0 as int,
                                    final(self).view_ranges()[k].1 as int,
                                    old(self).view_ranges()[k2].0 as int,
                                    old(self).view_ranges()[k2].1 as int,
                                )
                    // The served block does not intersect any remaining free range.
                    &&& forall|k: int| 0 <= k < final(self).view_ranges().len()
                            ==> ranges_disjoint(
                                addr as int, size as int,
                                (#[trigger] final(self).view_ranges()[k]).0 as int,
                                final(self).view_ranges()[k].1 as int,
                            )
                },
            },
    {
        let ghost orig = self.ranges@;
        proof {
            assert(orig == old(self).view_ranges());
        }
        let mut i: usize = 0;
        while i < self.ranges.len()
            invariant
                self.wf(),
                orig == old(self).view_ranges(),
                self.ranges@ == orig,
                i <= self.ranges@.len(),
                size > 0,
                align > 0,
                first_fit(orig, size as int, align as int)
                    == first_fit_from(orig, i as int, size as int, align as int),
            decreases self.ranges@.len() - i,
        {
            let (s, l) = self.ranges[i];
            proof {
                assert(self.view_ranges()[i as int] == (s, l));
                assert(l > 0 && s + l <= usize::MAX);
            }
            let rem = s % align;
            let pad = if rem == 0 { 0 } else { align - rem };
            if pad <= l && l - pad >= size {
                let addr = s + pad;
                proof {
                    assert(fit_in_range(s as int, l as int, size as int, align as int)
                        == Some(addr as int));
                    assert(first_fit_from(orig, i as int, size as int, align as int)
                        == Some((i as int, addr as int)));
                    if rem != 0 {
                        let q = s as int / align as int;
                        assert(s as int == q * align + rem) by (nonlinear_arith)
                            requires
                                align > 0,
                                rem == s as int % align as int,
                                q == s as int / align as int,
                        {}
                        assert(addr as int == (q + 1) * align) by (nonlinear_arith)
                            requires
                                addr == s + (align - rem),
                                s as int == q * align + rem,
                        {}
                        assert(addr as int % align as int == 0) by (nonlinear_arith)
                            requires
                                addr as int == (q + 1) * align as int,
                                align > 0,
                                q + 1 >= 0,
                        {}
                    }
                }
                let back_start = addr + size;
                let back_len = l - pad - size;
                proof {
                    assert(forall|k: int| 0 <= k < orig.len()
                        ==> (#[trigger] orig[k]).1 > 0 && orig[k].0 + orig[k].1 <= usize::MAX);
                    assert(forall|k1: int, k2: int|
                        0 <= k1 < orig.len() && 0 <= k2 < orig.len() && k1 != k2
                            ==> ranges_disjoint((#[trigger] orig[k1]).0 as int, orig[k1].1 as int,
                                                (#[trigger] orig[k2]).0 as int, orig[k2].1 as int));
                }
                if pad > 0 {
                    self.ranges[i] = (s, pad);
                    if back_len > 0 {
                        self.ranges.insert(i + 1, (back_start, back_len));
                    }
                } else {
                    if back_len > 0 {
                        self.ranges[i] = (back_start, back_len);
                    } else {
                        self.ranges.remove(i);
                    }
                }
                proof {
                    let j = i as int;
                    assert(self.ranges@ =~= orig.take(j)
                        + (if pad > 0 { seq![(s, pad)] } else { Seq::<(usize, usize)>::empty() })
                        + (if back_len > 0 { seq![(back_start, back_len)] } else { Seq::<(usize, usize)>::empty() })
                        + orig.skip(j + 1));
                    lemma_carve_preserves(orig, self.ranges@, j,
                        addr as int, size as int, pad as int,
                        back_start as int, back_len as int);
                    assert(range_contained(addr as int, size as int, s as int, l as int));
                }
                return Some(addr);
            }
            proof {
                assert(fit_in_range(s as int, l as int, size as int, align as int) is None);
                assert(first_fit_from(orig, i as int, size as int, align as int)
                    == first_fit_from(orig, i + 1, size as int, align as int));
            }
            i += 1;
        }
        proof {
            assert(first_fit_from(orig, self.ranges@.len() as int, size as int, align as int) is None);
        }
        None
    }

    /// Returns a byte range to the free list, appending it without
    /// coalescing. The caller owns the range and must present a range
    /// disjoint from all free memory — the allocator does not detect a
    /// double free.
    pub fn deallocate(&mut self, addr: usize, size: usize)
        requires
            old(self).wf(),
            size > 0,
            addr + size <= usize::MAX,
            forall|k: int| 0 <= k < old(self).view_ranges().len()
                ==> ranges_disjoint(
                    addr as int, size as int,
                    (#[trigger] old(self).view_ranges()[k]).0 as int,
                    old(self).view_ranges()[k].1 as int,
                ),
        ensures
            final(self).wf(),
            final(self).view_ranges() =~= old(self).view_ranges().push((addr, size)),
    {
        self.ranges.push((addr, size));
    }
}

/// After carving `[addr, addr+size)` out of range `j` of `rs` — leaving
/// `pad` front bytes and `back_len` back bytes free — the new list `nrs`
/// is still well formed, every new range sits inside an old one, and the
/// carved block is disjoint from every new range.
proof fn lemma_carve_preserves(
    rs: Seq<(usize, usize)>, nrs: Seq<(usize, usize)>, j: int,
    addr: int, size: int, pad: int, back_start: int, back_len: int,
)
    requires
        0 <= j < rs.len(),
        size > 0,
        pad >= 0,
        back_len >= 0,
        addr == rs[j].0 + pad,
        back_start == addr + size,
        rs[j].1 == pad + size + back_len,
        forall|k: int| 0 <= k < rs.len() ==> (#[trigger] rs[k]).1 > 0 && rs[k].0 + rs[k].1 <= usize::MAX,
        forall|k1: int, k2: int|
            0 <= k1 < rs.len() && 0 <= k2 < rs.len() && k1 != k2
                ==> ranges_disjoint((#[trigger] rs[k1]).0 as int, rs[k1].1 as int,
                                    (#[trigger] rs[k2]).0 as int, rs[k2].1 as int),
        // nrs is rs with range j replaced by its (possibly absent) leftovers.
        nrs =~= rs.take(j)
            + (if pad > 0 { seq![(rs[j].0, pad as usize)] } else { Seq::<(usize, usize)>::empty() })
            + (if back_len > 0 { seq![(back_start as usize, back_len as usize)] } else { Seq::<(usize, usize)>::empty() })
            + rs.skip(j + 1),
    ensures
        forall|k: int| 0 <= k < nrs.len() ==> (#[trigger] nrs[k]).1 > 0 && nrs[k].0 + nrs[k].1 <= usize::MAX,
        forall|k1: int, k2: int|
            0 <= k1 < nrs.len() && 0 <= k2 < nrs.len() && k1 != k2
                ==> ranges_disjoint((#[trigger] nrs[k1]).0 as int, nrs[k1].1 as int,
                                    (#[trigger] nrs[k2]).0 as int, nrs[k2].1 as int),
        forall|k: int| 0 <= k < nrs.len()
            ==> exists|k2: int| 0 <= k2 < rs.len()
                && range_contained((#[trigger] nrs[k]).0 as int, nrs[k].1 as int,
                                   (#[trigger] rs[k2]).0 as int, rs[k2].1 as int),
        forall|k: int| 0 <= k < nrs.len()
            ==> ranges_disjoint(addr, size, (#[trigger] nrs[k]).0 as int, nrs[k].1 as int),
{
    // Each new index maps to an old index whose range contains it.
    assert forall|k: int| 0 <= k < nrs.len()
        implies exists|k2: int| 0 <= k2 < rs.len()
            && range_contained((#[trigger] nrs[k]).0 as int, nrs[k].1 as int, (#[trigger] rs[k2]).0 as int, rs[k2].1 as int)
            && (k2 == j || nrs[k] == rs[k2])
            && nrs[k].1 > 0
    by {
        let fronts: int = if pad > 0 { 1 } else { 0 };
        let backs: int = if back_len > 0 { 1 } else { 0 };
        if k < j {
            assert(nrs[k] == rs[k]);
            assert(range_contained(nrs[k].0 as int, nrs[k].1 as int, rs[k].0 as int, rs[k].1 as int));
        } else if k < j + fronts {
            assert(nrs[k] == (rs[j].0, pad as usize));
            assert(range_contained(nrs[k].0 as int, nrs[k].1 as int, rs[j].0 as int, rs[j].1 as int));
        } else if k < j + fronts + backs {
            assert(nrs[k] == (back_start as usize, back_len as usize));
            assert(range_contained(nrs[k].0 as int, nrs[k].1 as int, rs[j].0 as int, rs[j].1 as int));
        } else {
            assert(nrs[k] == rs[k - fronts - backs + 1]);
            let k2 = k - fronts - backs + 1;
            assert(range_contained(nrs[k].0 as int, nrs[k].1 as int, rs[k2].0 as int, rs[k2].1 as int));
        }
    }
    // The carved block is disjoint from both leftovers and, through
    // disjointness of the old ranges, from everything else.
    assert forall|k: int| 0 <= k < nrs.len()
        implies ranges_disjoint(addr, size, nrs[k].0 as int, nrs[k].1 as int)
    by {
        let fronts: int = if pad > 0 { 1 } else { 0 };
        let backs: int = if back_len > 0 { 1 } else { 0 };
        if k < j {
            assert(nrs[k] == rs[k]);
            assert(ranges_disjoint(rs[j].0 as int, rs[j].1 as int, rs[k].0 as int, rs[k].1 as int));
        } else if k < j + fronts {
            assert(nrs[k] == (rs[j].0, pad as usize));
        } else if k < j + fronts + backs {
            assert(nrs[k] == (back_start as usize, back_len as usize));
        } else {
            let k2 = k - fronts - backs + 1;
            assert(nrs[k] == rs[k2]);
            assert(ranges_disjoint(rs[j].0 as int, rs[j].1 as int, rs[k2].0 as int, rs[k2].1 as int));
        }
    }
    // Pairwise disjointness of the new list.
    assert forall|k1: int, k2: int|
        0 <= k1 < nrs.len() && 0 <= k2 < nrs.len() && k1 != k2
        implies ranges_disjoint(nrs[k1].0 as int, nrs[k1].1 as int, nrs[k2].0 as int, nrs[k2].1 as int)
    by {
        let fronts: int = if pad > 0 { 1 } else { 0 };
        let backs: int = if back_len > 0 { 1 } else { 0 };
        let o1 = old_index_of(rs, j, fronts, backs, k1);
        let o2 = old_index_of(rs, j, fronts, backs, k2);
        lemma_piece_facts(rs, nrs, j, addr, size, pad, back_start, back_len, fronts, backs, k1);
        lemma_piece_facts(rs, nrs, j, addr, size, pad, back_start, back_len, fronts, backs, k2);
        if o1 != o2 {
            assert(ranges_disjoint(rs[o1].0 as int, rs[o1].1 as int, rs[o2].0 as int, rs[o2].1 as int));
        } else {
            // Both pieces come from range j: they are the front and back
            // leftovers, separated by the carved block.
            assert(o1 == j && o2 == j);
        }
    }
}

/// A successful first-fit search from `i` names a real range, and the
/// block it serves lies inside that range.
pub proof fn lemma_first_fit_from_props(rs: Seq<(usize, usize)>, i: int, size: int, align: int)
    requires
        0 <= i,
        size > 0,
        align > 0,
        first_fit_from(rs, i, size, align) is Some,
    ensures
        ({
            let (j, a) = first_fit_from(rs, i, size, align)->Some_0;
            &&& i <= j < rs.len()
            &&& fit_in_range(rs[j].0 as int, rs[j].1 as int, size, align) == Some(a)
            &&& range_contained(a, size, rs[j].0 as int, rs[j].1 as int)
        }),
    decreases rs.len() - i,
{
    let fit = fit_in_range(rs[i].0 as int, rs[i].1 as int, size, align);
    if fit is Some {
        let start = rs[i].0 as int;
        let pad = if start % align == 0 { 0int } else { align - start % align };
        assert(0 <= start % align < align) by (nonlinear_arith)
            requires align > 0 && start >= 0,
        {}
        assert(pad >= 0);
    } else {
        lemma_first_fit_from_props(rs, i + 1, size, align);
    }
}

/// A successful first-fit search names a real range containing the
/// block it serves.
pub proof fn lemma_first_fit_props(rs: Seq<(usize, usize)>, size: int, align: int)
    requires
        size > 0,
        align > 0,
        first_fit(rs, size, align) is Some,
    ensures
        ({
            let (j, a) = first_fit(rs, size, align)->Some_0;
            &&& 0 <= j < rs.len()
            &&& range_contained(a, size, rs[j].0 as int, rs[j].1 as int)
        }),
{
    lemma_first_fit_from_props(rs, 0, size, align);
}

/// The old index a piece of the carved list descends from.
spec fn old_index_of(rs: Seq<(usize, usize)>, j: int, fronts: int, backs: int, k: int) -> int {
    if k < j { k }
    else if k < j + fronts + backs { j }
    else { k - fronts - backs + 1 }
}

/// Each piece of the carved list sits inside the old range it descends
/// from; the pieces descending from range `j` are the two leftovers.
proof fn lemma_piece_facts(
    rs: Seq<(usize, usize)>, nrs: Seq<(usize, usize)>, j: int,
    addr: int, size: int, pad: int, back_start: int, back_len: int,
    fronts: int, backs: int, k: int,
)
    requires
        0 <= j < rs.len(),
        size > 0,
        pad >= 0,
        back_len >= 0,
        addr == rs[j].0 + pad,
        back_start == addr + size,
        rs[j].1 == pad + size + back_len,
        rs[j].0 + rs[j].1 <= usize::MAX,
        fronts == (if pad > 0 { 1int } else { 0int }),
        backs == (if back_len > 0 { 1int } else { 0int }),
        nrs =~= rs.take(j)
            + (if pad > 0 { seq![(rs[j].0, pad as usize)] } else { Seq::<(usize, usize)>::empty() })
            + (if back_len > 0 { seq![(back_start as usize, back_len as usize)] } else { Seq::<(usize, usize)>::empty() })
            + rs.skip(j + 1),
        0 <= k < nrs.len(),
    ensures
        0 <= old_index_of(rs, j, fronts, backs, k) < rs.len(),
        range_contained(
            nrs[k].0 as int, nrs[k].1 as int,
            rs[old_index_of(rs, j, fronts, backs, k)].0 as int,
            rs[old_index_of(rs, j, fronts, backs, k)].1 as int,
        ),
        old_index_of(rs, j, fronts, backs, k) == j
            ==> (nrs[k] == (rs[j].0, pad as usize) && pad > 0)
                || (nrs[k] == (back_start as usize, back_len as usize) && back_len > 0),
        old_index_of(rs, j, fronts, backs, k) == j && k < j + fronts
            ==> nrs[k] == (rs[j].0, pad as usize),
        old_index_of(rs, j, fronts, backs, k) == j && k >= j + fronts
            ==> nrs[k] == (back_start as usize, back_len as usize),
        old_index_of(rs, j, fronts, backs, k) != j ==> nrs[k] == rs[old_index_of(rs, j, fronts, backs, k)],
{
    if k < j {
        assert(nrs[k] == rs[k]);
    } else if k < j + fronts {
        assert(nrs[k] == (rs[j].0, pad as usize));
    } else if k < j + fronts + backs {
        assert(nrs[k] == (back_start as usize, back_len as usize));
    } else {
        assert(nrs[k] == rs[k - fronts - backs + 1]);
    }
}

} // verus!
