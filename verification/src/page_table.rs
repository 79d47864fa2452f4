//! The page table collaborator, modelled as explicit data: a set of entries
//! keyed by page-aligned virtual address, together with the set of addresses
//! whose hardware translation may still be cached. Any change to an existing
//! translation marks the address stale until a TLB flush covers it; callers
//! that rely on a fresh translation must see the address flushed.

use vstd::prelude::*;

use crate::addr::page_aligned;
use crate::error::{OSError, OSResult};
use crate::flags::PTEFlags;

verus! {

/// One page table entry: a translation for one page-aligned virtual address.
#[derive(Clone, Copy, Debug, PartialEq, Eq, Structural)]
pub struct PageTableEntry {
    /// The page-aligned virtual address the entry translates.
    pub vaddr: usize,
    /// The physical address of the backing page; 0 in a placeholder entry.
    pub paddr: usize,
    /// The entry's flags; an entry whose `valid` flag is clear is a
    /// placeholder that routes a later fault to its memory area.
    pub flags: PTEFlags,
}

impl PageTableEntry {
    /// Whether the entry holds a live translation.
    pub fn is_valid(&self) -> (r: bool)
        ensures
            r == self.flags.valid,
    {
        self.flags.valid
    }
}

/// A page table: one entry per mapped page, each virtual address mapped at
/// most once.
pub struct PageTable {
    entries: Vec<PageTableEntry>,
    mappings: Ghost<Map<usize, (usize, PTEFlags)>>,
    stale: Ghost<Set<usize>>,
}

impl PageTable {
    /// The table's translations: physical address and flags per mapped
    /// page-aligned virtual address.
    pub closed spec fn view(self) -> Map<usize, (usize, PTEFlags)> {
        self.mappings@
    }

    /// The entries as stored.
    pub closed spec fn entries_view(self) -> Seq<PageTableEntry> {
        self.entries@
    }

    /// Virtual addresses whose mapping changed since the last TLB flush that
    /// covered them: the hardware may still hold the old translation.
    pub closed spec fn stale_set(self) -> Set<usize> {
        self.stale@
    }

    /// Whether `vaddr` has an entry.
    pub open spec fn spec_mapped(self, vaddr: usize) -> bool {
        self.view().contains_key(vaddr)
    }

    /// The stored entries carry pairwise distinct, page-aligned addresses
    /// and agree exactly with the table's map view.
    pub closed spec fn wf(self) -> bool {
        &&& forall|i: int|
            0 <= i < self.entries@.len() ==> page_aligned(
                #[trigger] self.entries@[i].vaddr as int,
            )
        &&& forall|i: int, j: int|
            0 <= i < self.entries@.len() && 0 <= j < self.entries@.len() && i != j
                ==> #[trigger] self.entries@[i].vaddr != #[trigger] self.entries@[j].vaddr
        &&& forall|i: int|
            0 <= i < self.entries@.len() ==> self.mappings@.contains_key(
                #[trigger] self.entries@[i].vaddr,
            ) && self.mappings@[self.entries@[i].vaddr] == (
                self.entries@[i].paddr,
                self.entries@[i].flags,
            )
        &&& forall|k: usize|
            #[trigger] self.mappings@.contains_key(k) ==> exists|i: int|
                0 <= i < self.entries@.len() && self.entries@[i].vaddr == k
    }

    /// An empty page table: nothing mapped, nothing stale.
    pub fn new() -> (r: PageTable)
        ensures
            r.wf(),
            r.view() == Map::<usize, (usize, PTEFlags)>::empty(),
            r.stale_set() == Set::<usize>::empty(),
    {
        PageTable {
            entries: Vec::new(),
            mappings: Ghost(Map::empty()),
            stale: Ghost(Set::empty()),
        }
    }

    /// The index of the entry for `vaddr`, if one exists.
    fn find_index(&self, vaddr: usize) -> (r: Option<usize>)
        requires
            self.wf(),
        ensures
            r is Some ==> {
                &&& r->Some_0 < self.entries_view().len()
                &&& self.entries_view()[r->Some_0 as int].vaddr == vaddr
            },
            r is None <==> !self.spec_mapped(vaddr),
    {
        let mut i: usize = 0;
        while i < self.entries.len()
            invariant
                self.wf(),
                i <= self.entries@.len(),
                forall|j: int| 0 <= j < i ==> self.entries@[j].vaddr != vaddr,
            decreases self.entries@.len() - i,
        {
            if self.entries[i].vaddr == vaddr {
                return Some(i);
            }
            i = i + 1;
        }
        proof {
            if self.mappings@.contains_key(vaddr) {
                let w = choose|w: int|
                    0 <= w < self.entries@.len() && self.entries@[w].vaddr == vaddr;
                assert(false);
            }
        }
        None
    }

    /// Install a translation for `vaddr`. A fresh mapping needs no TLB
    /// flush; mapping an already-mapped page is refused and changes nothing.
    pub fn map(&mut self, vaddr: usize, paddr: usize, flags: PTEFlags) -> (r: OSResult<()>)
        requires
            old(self).wf(),
            page_aligned(vaddr as int),
        ensures
            final(self).wf(),
            old(self).spec_mapped(vaddr) ==> {
                &&& r == OSResult::<()>::Err(OSError::PageTable_PageAlreadyMapped)
                &&& *final(self) == *old(self)
            },
            !old(self).spec_mapped(vaddr) ==> {
                &&& r == OSResult::<()>::Ok(())
                &&& final(self).view() == old(self).view().insert(vaddr, (paddr, flags))
                &&& final(self).stale_set() == old(self).stale_set()
            },
    {
        match self.find_index(vaddr) {
            Some(_) => Err(OSError::PageTable_PageAlreadyMapped),
            None => {
                self.entries.push(PageTableEntry { vaddr, paddr, flags });
                proof {
                    self.mappings@ = self.mappings@.insert(vaddr, (paddr, flags));
                    let n = self.entries@.len() - 1;
                    assert forall|k: usize| #[trigger] self.mappings@.contains_key(k)
                        implies exists|i: int|
                            0 <= i < self.entries@.len() && self.entries@[i].vaddr == k by {
                        if k == vaddr {
                            assert(self.entries@[n].vaddr == k);
                        } else {
                            let w = choose|w: int|
                                0 <= w < old(self).entries_view().len() && old(
                                    self,
                                ).entries_view()[w].vaddr == k;
                            assert(self.entries@[w].vaddr == k);
                        }
                    }
                }
                Ok(())
            },
        }
    }

    /// Remove the translation for `vaddr`; the address becomes stale until a
    /// flush covers it. Unmapping an unmapped page is refused.
    pub fn unmap(&mut self, vaddr: usize) -> (r: OSResult<()>)
        requires
            old(self).wf(),
        ensures
            final(self).wf(),
            !old(self).spec_mapped(vaddr) ==> {
                &&& r == OSResult::<()>::Err(OSError::PageTable_PageNotMapped)
                &&& *final(self) == *old(self)
            },
            old(self).spec_mapped(vaddr) ==> {
                &&& r == OSResult::<()>::Ok(())
                &&& final(self).view() == old(self).view().remove(vaddr)
                &&& final(self).stale_set() == old(self).stale_set().insert(vaddr)
            },
    {
        match self.find_index(vaddr) {
            None => Err(OSError::PageTable_PageNotMapped),
            Some(i) => {
                self.entries.remove(i);
                proof {
                    self.mappings@ = self.mappings@.remove(vaddr);
                    self.stale@ = self.stale@.insert(vaddr);
                    let iv = i as int;
                    let pre = old(self).entries_view();
                    assert forall|k: usize| #[trigger] self.mappings@.contains_key(k)
                        implies exists|w: int|
                            0 <= w < self.entries@.len() && self.entries@[w].vaddr == k by {
                        let w = choose|w: int| 0 <= w < pre.len() && pre[w].vaddr == k;
                        if w < iv {
                            assert(self.entries@[w].vaddr == k);
                        } else {
                            assert(self.entries@[w - 1].vaddr == k);
                        }
                    }
                    assert forall|w: int|
                        0 <= w < self.entries@.len()
                        implies self.mappings@.contains_key(#[trigger] self.entries@[w].vaddr)
                            && self.mappings@[self.entries@[w].vaddr] == (
                            self.entries@[w].paddr,
                            self.entries@[w].flags,
                        ) by {
                        if w < iv {
                            assert(self.entries@[w] == pre[w]);
                            assert(pre[w].vaddr != vaddr);
                        } else {
                            assert(self.entries@[w] == pre[w + 1]);
                            assert(pre[w + 1].vaddr != vaddr);
                        }
                    }
                }
                Ok(())
            },
        }
    }

    /// The entry for `vaddr`, if any, as a copy.
    pub fn get_entry(&self, vaddr: usize) -> (r: Option<PageTableEntry>)
        requires
            self.wf(),
        ensures
            r is Some <==> self.spec_mapped(vaddr),
            r is Some ==> {
                &&& r->Some_0.vaddr == vaddr
                &&& self.view()[vaddr] == (r->Some_0.paddr, r->Some_0.flags)
            },
    {
        match self.find_index(vaddr) {
            Some(i) => Some(self.entries[i]),
            None => None,
        }
    }

    /// Replace the flags of an existing entry; the address becomes stale
    /// until a flush covers it.
    pub fn set_flags(&mut self, vaddr: usize, flags: PTEFlags) -> (r: OSResult<()>)
        requires
            old(self).wf(),
        ensures
            final(self).wf(),
            !old(self).spec_mapped(vaddr) ==> {
                &&& r == OSResult::<()>::Err(OSError::PageTable_PageNotMapped)
                &&& *final(self) == *old(self)
            },
            old(self).spec_mapped(vaddr) ==> {
                &&& r == OSResult::<()>::Ok(())
                &&& final(self).view() == old(self).view().insert(
                    vaddr,
                    (old(self).view()[vaddr].0, flags),
                )
                &&& final(self).stale_set() == old(self).stale_set().insert(vaddr)
            },
    {
        match self.find_index(vaddr) {
            None => Err(OSError::PageTable_PageNotMapped),
            Some(i) => {
                let e = self.entries[i];
                self.entries.set(i, PageTableEntry { vaddr: e.vaddr, paddr: e.paddr, flags });
                proof {
                    self.mappings@ = self.mappings@.insert(vaddr, (e.paddr, flags));
                    self.stale@ = self.stale@.insert(vaddr);
                    self.lemma_set_entry_wf(*old(self), i as int, vaddr);
                }
                Ok(())
            },
        }
    }

    /// Rewrite an existing entry with a new translation and flags, as a page
    /// fault handler does; the address becomes stale until a flush covers
    /// it.
    pub fn set_entry(&mut self, vaddr: usize, paddr: usize, flags: PTEFlags) -> (r: OSResult<()>)
        requires
            old(self).wf(),
        ensures
            final(self).wf(),
            !old(self).spec_mapped(vaddr) ==> {
                &&& r == OSResult::<()>::Err(OSError::PageTable_PageNotMapped)
                &&& *final(self) == *old(self)
            },
            old(self).spec_mapped(vaddr) ==> {
                &&& r == OSResult::<()>::Ok(())
                &&& final(self).view() == old(self).view().insert(vaddr, (paddr, flags))
                &&& final(self).stale_set() == old(self).stale_set().insert(vaddr)
            },
    {
        match self.find_index(vaddr) {
            None => Err(OSError::PageTable_PageNotMapped),
            Some(i) => {
                let e = self.entries[i];
                self.entries.set(i, PageTableEntry { vaddr: e.vaddr, paddr, flags });
                proof {
                    self.mappings@ = self.mappings@.insert(vaddr, (paddr, flags));
                    self.stale@ = self.stale@.insert(vaddr);
                    self.lemma_set_entry_wf(*old(self), i as int, vaddr);
                }
                Ok(())
            },
        }
    }

    /// Invalidate cached translations: for one address, or for the whole
    /// table when `vaddr` is `None`.
    pub fn flush_tlb(&mut self, vaddr: Option<usize>)
        requires
            old(self).wf(),
        ensures
            final(self).wf(),
            final(self).view() == old(self).view(),
            final(self).entries_view() == old(self).entries_view(),
            vaddr is None ==> final(self).stale_set() == Set::<usize>::empty(),
            vaddr is Some ==> final(self).stale_set() == old(self).stale_set().remove(
                vaddr->Some_0,
            ),
    {
        proof {
            match vaddr {
                None => {
                    self.stale@ = Set::empty();
                },
                Some(v) => {
                    self.stale@ = self.stale@.remove(v);
                },
            }
            PageTable::lemma_wf_ignores_stale(*old(self), *self);
        }
    }

    /// Every mapped key of a well-formed table is page-aligned.
    pub proof fn lemma_keys_aligned(&self)
        requires
            self.wf(),
        ensures
            forall|k: usize| #[trigger] self.view().contains_key(k) ==> page_aligned(k as int),
    {
        assert forall|k: usize| #[trigger] self.view().contains_key(k) implies page_aligned(
            k as int,
        ) by {
            let w = choose|w: int| 0 <= w < self.entries@.len() && self.entries@[w].vaddr == k;
            assert(page_aligned(self.entries@[w].vaddr as int));
        }
    }

    /// Well-formedness depends only on the entries and the map view, not on
    /// the stale set.
    proof fn lemma_wf_ignores_stale(pre: PageTable, post: PageTable)
        requires
            pre.wf(),
            post.entries_view() == pre.entries_view(),
            post.view() == pre.view(),
        ensures
            post.wf(),
    {
        assert forall|i: int| 0 <= i < post.entries@.len()
            implies page_aligned(#[trigger] post.entries@[i].vaddr as int) by {
            assert(post.entries@[i] == pre.entries@[i]);
        }
        assert forall|i: int, j: int|
            0 <= i < post.entries@.len() && 0 <= j < post.entries@.len() && i != j
            implies #[trigger] post.entries@[i].vaddr != #[trigger] post.entries@[j].vaddr by {
            assert(post.entries@[i] == pre.entries@[i]);
            assert(post.entries@[j] == pre.entries@[j]);
        }
        assert forall|i: int|
            0 <= i < post.entries@.len()
            implies post.mappings@.contains_key(#[trigger] post.entries@[i].vaddr)
                && post.mappings@[post.entries@[i].vaddr] == (
                post.entries@[i].paddr,
                post.entries@[i].flags,
            ) by {
            assert(post.entries@[i] == pre.entries@[i]);
        }
        assert forall|k: usize| #[trigger] post.mappings@.contains_key(k)
            implies exists|i: int|
                0 <= i < post.entries@.len() && post.entries@[i].vaddr == k by {
            let w = choose|w: int|
                0 <= w < pre.entries@.len() && pre.entries@[w].vaddr == k;
            assert(post.entries@[w].vaddr == k);
        }
    }

    /// Replacing the entry at `i` in place, key unchanged and the ghost map
    /// updated to match, keeps the table well formed.
    proof fn lemma_set_entry_wf(&self, pre: PageTable, i: int, vaddr: usize)
        requires
            pre.wf(),
            0 <= i < pre.entries_view().len(),
            pre.entries_view()[i].vaddr == vaddr,
            self.entries_view() == pre.entries_view().update(i, self.entries_view()[i]),
            self.entries_view()[i].vaddr == vaddr,
            self.view() == pre.view().insert(
                vaddr,
                (self.entries_view()[i].paddr, self.entries_view()[i].flags),
            ),
        ensures
            self.wf(),
    {
        assert forall|k: usize| #[trigger] self.view().contains_key(k)
            implies exists|w: int|
                0 <= w < self.entries_view().len() && self.entries_view()[w].vaddr == k by {
            if k == vaddr {
                assert(self.entries_view()[i].vaddr == k);
            } else {
                let w = choose|w: int|
                    0 <= w < pre.entries_view().len() && pre.entries_view()[w].vaddr == k;
                assert(self.entries_view()[w].vaddr == k);
            }
        }
        assert forall|w: int|
            0 <= w < self.entries_view().len()
            implies self.view().contains_key(#[trigger] self.entries_view()[w].vaddr)
                && self.view()[self.entries_view()[w].vaddr] == (
                self.entries_view()[w].paddr,
                self.entries_view()[w].flags,
            ) by {
            if w != i {
                assert(self.entries_view()[w] == pre.entries_view()[w]);
                assert(pre.entries_view()[w].vaddr != vaddr);
            }
        }
    }
}

} // verus!
