//! The address-space mapper.
//!
//! The real page-table hierarchy lives in CPU-owned physical memory,
//! reached through the physical-memory offset the boot collaborator
//! supplies; only the kernel's mapping decisions are modelled here. The
//! mapper records which virtual page is backed by which physical frame
//! and answers translations from that record. Double-mapping a page is
//! excluded by precondition: the design treats it as fatal misuse that
//! the caller must prevent.

use vstd::prelude::*;

use crate::frames::PAGE_SIZE;

verus! {

/// Leaf-entry flag: the mapping is present.
pub const FLAG_PRESENT: u64 = 1;

/// Leaf-entry flag: the mapping is writable.
pub const FLAG_WRITABLE: u64 = 2;

/// The mathematical content of an entry list — virtual page index to
/// (physical frame start, flags): later entries win, though the mapper
/// never keeps two entries for one page.
pub open spec fn entries_map(s: Seq<(u64, u64, u64)>) -> Map<u64, (u64, u64)>
    decreases s.len(),
{
    if s.len() == 0 {
        Map::empty()
    } else {
        entries_map(s.drop_last()).insert(s.last().0, (s.last().1, s.last().2))
    }
}

pub struct Mapper {
    phys_offset: u64,
    entries: Vec<(u64, u64, u64)>,
}

impl Mapper {
    /// The virtual base at which all physical memory is linearly
    /// mapped, as the boot collaborator reported it.
    pub closed spec fn spec_phys_offset(self) -> u64 {
        self.phys_offset
    }

    /// The raw entry list: (virtual page index, physical frame start,
    /// flags).
    pub closed spec fn entries_view(self) -> Seq<(u64, u64, u64)> {
        self.entries@
    }

    /// The mapping this mapper has installed: virtual page index to
    /// (physical frame start, flags).
    pub open spec fn mappings(self) -> Map<u64, (u64, u64)> {
        entries_map(self.entries_view())
    }

    /// Pages are mapped at most once and frames are page-aligned.
    pub open spec fn wf(self) -> bool {
        &&& forall|i: int, j: int|
                0 <= i < self.entries_view().len() && 0 <= j < self.entries_view().len() && i != j
                    ==> (#[trigger] self.entries_view()[i]).0 != (#[trigger] self.entries_view()[j]).0
        &&& forall|i: int| 0 <= i < self.entries_view().len()
                ==> (#[trigger] self.entries_view()[i]).1 % PAGE_SIZE == 0
    }

    /// Wraps the active page-table root reached through the given
    /// physical-memory offset. The offset is supplied once, at kernel
    /// entry, and is constant for the kernel's lifetime.
    pub fn new(phys_offset: u64) -> (r: Self)
        ensures
            r.wf(),
            r.spec_phys_offset() == phys_offset,
            r.mappings() =~= Map::<u64, (u64, u64)>::empty(),
    {
        Mapper { phys_offset, entries: Vec::new() }
    }

    /// Installs a mapping from a virtual page to a physical frame with
    /// the given leaf-entry flags. The page must not already be mapped:
    /// double-mapping corrupts the live table hierarchy and is the
    /// caller's to prevent.
    pub fn map_page(&mut self, page: u64, frame: u64, flags: u64)
        requires
            old(self).wf(),
            !old(self).mappings().dom().contains(page),
            frame % PAGE_SIZE == 0,
        ensures
            final(self).wf(),
            final(self).spec_phys_offset() == old(self).spec_phys_offset(),
            final(self).mappings() == old(self).mappings().insert(page, (frame, flags)),
    {
        proof {
            lemma_entries_map_keys(self.entries@, page);
        }
        self.entries.push((page, frame, flags));
        proof {
            assert(self.entries@.drop_last() =~= old(self).entries_view());
            assert(self.entries@.last() == (page, frame, flags));
        }
    }

    /// Translates a virtual address to the physical address it is
    /// mapped at, or `None` if its page is unmapped.
    pub fn translate(&self, virt: u64) -> (r: Option<u64>)
        requires
            self.wf(),
        ensures
            ({
                let page = virt / PAGE_SIZE;
                match r {
                    Some(pa) => self.mappings().dom().contains(page)
                        && pa == self.mappings()[page].0 + virt % PAGE_SIZE,
                    None => !self.mappings().dom().contains(page),
                }
            }),
    {
        let page = virt / PAGE_SIZE;
        let offset = virt % PAGE_SIZE;
        let mut i: usize = 0;
        while i < self.entries.len()
            invariant
                self.wf(),
                self.entries@ == self.entries_view(),
                i <= self.entries@.len(),
                page == virt / PAGE_SIZE,
                offset == virt % PAGE_SIZE,
                forall|k: int| 0 <= k < i ==> (#[trigger] self.entries@[k]).0 != page,
            decreases self.entries@.len() - i,
        {
            let (p, f, _flags) = self.entries[i];
            if p == page {
                proof {
                    lemma_entries_map_at(self.entries@, i as int);
                    assert(f % PAGE_SIZE == 0);
                    assert(f <= u64::MAX - (PAGE_SIZE - 1)) by (nonlinear_arith)
                        requires f % PAGE_SIZE == 0 && f <= u64::MAX && PAGE_SIZE == 4096,
                    {}
                    assert(offset < PAGE_SIZE) by (nonlinear_arith)
                        requires offset == virt % PAGE_SIZE && PAGE_SIZE == 4096,
                    {}
                }
                return Some(f + offset);
            }
            i += 1;
        }
        proof {
            lemma_entries_map_keys(self.entries@, page);
        }
        None
    }
}

/// A page is in the entry list's map exactly when some entry carries it.
proof fn lemma_entries_map_keys(s: Seq<(u64, u64, u64)>, p: u64)
    ensures
        entries_map(s).dom().contains(p)
            <==> exists|i: int| 0 <= i < s.len() && (#[trigger] s[i]).0 == p,
    decreases s.len(),
{
    if s.len() > 0 {
        lemma_entries_map_keys(s.drop_last(), p);
        if entries_map(s).dom().contains(p) {
            if s.last().0 == p {
                assert(s[s.len() - 1].0 == p);
            } else {
                let i = choose|i: int| 0 <= i < s.drop_last().len() && (#[trigger] s.drop_last()[i]).0 == p;
                assert(s[i].0 == p);
            }
        }
        if exists|i: int| 0 <= i < s.len() && (#[trigger] s[i]).0 == p {
            let i = choose|i: int| 0 <= i < s.len() && (#[trigger] s[i]).0 == p;
            if i < s.len() - 1 {
                assert(s.drop_last()[i].0 == p);
            }
        }
    }
}

/// With unique keys, the map agrees with every entry of the list.
proof fn lemma_entries_map_at(s: Seq<(u64, u64, u64)>, i: int)
    requires
        0 <= i < s.len(),
        forall|k1: int, k2: int|
            0 <= k1 < s.len() && 0 <= k2 < s.len() && k1 != k2
                ==> (#[trigger] s[k1]).0 != (#[trigger] s[k2]).0,
    ensures
        entries_map(s).dom().contains(s[i].0),
        entries_map(s)[s[i].0] == (s[i].1, s[i].2),
    decreases s.len(),
{
    if i == s.len() - 1 {
        assert(s.last() == s[i]);
    } else {
        assert(forall|k1: int, k2: int|
            0 <= k1 < s.drop_last().len() && 0 <= k2 < s.drop_last().len() && k1 != k2
                ==> (#[trigger] s.drop_last()[k1]).0 != (#[trigger] s.drop_last()[k2]).0) by {
            assert forall|k1: int, k2: int|
                0 <= k1 < s.drop_last().len() && 0 <= k2 < s.drop_last().len() && k1 != k2
                implies (#[trigger] s.drop_last()[k1]).0 != (#[trigger] s.drop_last()[k2]).0 by {
                assert(s.drop_last()[k1] == s[k1] && s.drop_last()[k2] == s[k2]);
            }
        }
        lemma_entries_map_at(s.drop_last(), i);
        assert(s.drop_last()[i] == s[i]);
        assert(s.last().0 != s[i].0);
    }
}

} // verus!
