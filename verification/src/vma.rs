//! Virtual memory areas: a page-aligned virtual range with one protection
//! flag set, bound to one lazily backed physical area, mediating every page
//! table mutation for its range.

use vstd::prelude::*;

use crate::addr::{align_down, align_up, page_aligned, spec_align_down, spec_align_up};
use crate::constants::PAGE_SIZE;
use crate::error::{OSError, OSResult};
use crate::flags::PTEFlags;
use crate::frame::{zero_page, FrameAllocator};
use crate::page_table::PageTable;
use crate::pma::{lemma_off_page, lemma_page_split, PmAreaLazy};

verus! {

/// A contiguous virtual memory area with uniform MMU flags, backed by one
/// physical memory area.
pub struct VmArea {
    /// First virtual address of the range; page-aligned.
    pub start: usize,
    /// One past the last virtual address of the range; page-aligned.
    pub end: usize,
    /// The protection flags every mapping of this area carries.
    pub flags: PTEFlags,
    /// The physical area backing the range.
    pub pma: PmAreaLazy,
}

impl VmArea {
    /// The range is page-aligned, nonempty, and exactly as large as its
    /// physical area.
    pub open spec fn wf(self) -> bool {
        &&& page_aligned(self.start as int)
        &&& page_aligned(self.end as int)
        &&& self.start < self.end
        &&& self.end - self.start == self.pma.size_spec()
        &&& self.pma.wf()
    }

    /// How many pages the area covers.
    pub open spec fn pages_spec(self) -> int {
        self.pma.page_count_spec() as int
    }

    /// The page table content this area stands for: every page of the range
    /// keyed by its virtual address — backed pages with their translation
    /// and the area's flags, unbacked pages as invalid placeholders that
    /// route a later fault back to this area.
    pub open spec fn mapping_of(self) -> Map<usize, (usize, PTEFlags)> {
        Map::new(
            |v: usize| self.start <= v < self.end && (v - self.start) % (PAGE_SIZE as int) == 0,
            |v: usize|
                if self.pma.backed((v - self.start) as int / (PAGE_SIZE as int)) {
                    (
                        self.pma.paddr_of((v - self.start) as int / (PAGE_SIZE as int)),
                        self.flags.spec_with_present_bits(),
                    )
                } else {
                    (0usize, PTEFlags::spec_empty())
                },
        )
    }

    /// Like `mapping_of`, cut off after the first `i` pages.
    pub open spec fn mapping_of_prefix(self, i: int) -> Map<usize, (usize, PTEFlags)> {
        Map::new(
            |v: usize| self.start <= v < self.start + i * PAGE_SIZE && (v - self.start) % (
            PAGE_SIZE as int) == 0,
            |v: usize|
                if self.pma.backed((v - self.start) as int / (PAGE_SIZE as int)) {
                    (
                        self.pma.paddr_of((v - self.start) as int / (PAGE_SIZE as int)),
                        self.flags.spec_with_present_bits(),
                    )
                } else {
                    (0usize, PTEFlags::spec_empty())
                },
        )
    }

    /// Build an area over `[start, end)`, aligned outward to page
    /// boundaries. An empty range is invalid; the aligned span must equal
    /// the physical area's size exactly.
    pub fn new(start: usize, end: usize, flags: PTEFlags, pma: PmAreaLazy) -> (r: OSResult<VmArea>)
        requires
            pma.wf(),
            end + PAGE_SIZE - 1 <= usize::MAX,
        ensures
            start >= end ==> r == OSResult::<VmArea>::Err(OSError::VmArea_InvalidRange),
            start < end && spec_align_up(end as int) - spec_align_down(start as int)
                != pma.size_spec() ==> r == OSResult::<VmArea>::Err(
                OSError::VmArea_VmSizeNotEqualToPmSize,
            ),
            start < end && spec_align_up(end as int) - spec_align_down(start as int)
                == pma.size_spec() ==> {
                &&& r is Ok
                &&& r->Ok_0.wf()
                &&& r->Ok_0.start == spec_align_down(start as int)
                &&& r->Ok_0.end == spec_align_up(end as int)
                &&& r->Ok_0.flags == flags
                &&& r->Ok_0.pma == pma
            },
    {
        if start >= end {
            return Err(OSError::VmArea_InvalidRange);
        }
        let astart = align_down(start);
        let aend = align_up(end);
        if aend - astart != pma.size() {
            return Err(OSError::VmArea_VmSizeNotEqualToPmSize);
        }
        Ok(VmArea { start: astart, end: aend, flags, pma })
    }

    /// Build an area of `size` bytes at `start_vaddr`, backed by a fresh,
    /// fully unbacked physical area of the matching number of pages.
    pub fn from_delay_pma(start_vaddr: usize, size: usize, flags: PTEFlags) -> (r: OSResult<VmArea>)
        requires
            start_vaddr + size + PAGE_SIZE - 1 <= usize::MAX,
        ensures
            size == 0 ==> r == OSResult::<VmArea>::Err(OSError::PmArea_InvalidRange),
            size > 0 && spec_align_up(size as int) / (PAGE_SIZE as int)
                > crate::pma::MAX_PMA_PAGES ==> r == OSResult::<VmArea>::Err(
                OSError::Memory_RunOutOfMemory,
            ),
            page_aligned(start_vaddr as int) && size > 0 && spec_align_up(size as int) / (
            PAGE_SIZE as int) <= crate::pma::MAX_PMA_PAGES ==> {
                &&& r is Ok
                &&& r->Ok_0.wf()
                &&& r->Ok_0.start == start_vaddr
                &&& r->Ok_0.end == start_vaddr + spec_align_up(size as int)
                &&& r->Ok_0.flags == flags
                &&& forall|i: int| 0 <= i < r->Ok_0.pages_spec() ==> !#[trigger] r->Ok_0.pma.backed(
                    i,
                )
            },
    {
        if size == 0 {
            return Err(OSError::PmArea_InvalidRange);
        }
        let pc = crate::addr::page_count(size);
        let pma = match PmAreaLazy::new(pc) {
            Ok(p) => p,
            Err(e) => {
                return Err(e);
            },
        };
        proof {
            if page_aligned(start_vaddr as int) {
                crate::addr::lemma_align_up_props(size as int);
                vstd::arithmetic::div_mod::lemma_mod_adds(
                    start_vaddr as int,
                    size as int,
                    PAGE_SIZE as int,
                );
                assert(spec_align_down(start_vaddr as int) == start_vaddr as int) by {
                    crate::addr::lemma_align_down_props(start_vaddr as int);
                }
                assert(spec_align_up(start_vaddr + size) == start_vaddr + spec_align_up(
                    size as int,
                )) by {
                    crate::addr::lemma_align_up_props(start_vaddr + size);
                    crate::addr::lemma_align_up_props(size as int);
                    lemma_aligned_add(start_vaddr as int, size as int);
                }
            }
        }
        VmArea::new(start_vaddr, start_vaddr + size, flags, pma)
    }

    /// Whether the area contains the virtual address.
    pub fn contains(&self, vaddr: usize) -> (r: bool)
        ensures
            r == (self.start <= vaddr < self.end),
    {
        self.start <= vaddr && vaddr < self.end
    }

    /// Whether the area overlaps the page-aligned closure of `[start, end)`.
    pub fn is_overlap_with(&self, start: usize, end: usize) -> (r: bool)
        requires
            end + PAGE_SIZE - 1 <= usize::MAX,
        ensures
            r == !(self.end <= spec_align_down(start as int) || self.start >= spec_align_up(
                end as int,
            )),
    {
        let p0 = self.start;
        let p1 = self.end;
        let p2 = align_down(start);
        let p3 = align_up(end);
        !(p1 <= p2 || p0 >= p3)
    }

    /// Whether the area is visible from user mode.
    pub fn is_user(&self) -> (r: bool)
        ensures
            r == self.flags.user,
    {
        self.flags.user
    }

    /// Write this area's mappings into the page table: a present mapping,
    /// with the area's flags and present, accessed and dirty semantics, for
    /// every backed page; an invalid placeholder for every reserved but
    /// unbacked page, so a later fault is routed to this area rather than
    /// treated as an unmapped address. Fails if any page of the range is
    /// already mapped; pages before the conflict stay mapped.
    pub fn map_area(&self, pt: &mut PageTable) -> (r: OSResult<()>)
        requires
            self.wf(),
            old(pt).wf(),
        ensures
            final(pt).wf(),
            final(pt).stale_set() == old(pt).stale_set(),
            r is Ok <==> (forall|i: int|
                0 <= i < self.pages_spec() ==> !old(pt).spec_mapped(
                    #[trigger] ((self.start + i * PAGE_SIZE) as usize),
                )),
            r is Ok ==> final(pt).view() == old(pt).view().union_prefer_right(self.mapping_of()),
            r is Err ==> r == OSResult::<()>::Err(OSError::PageTable_PageAlreadyMapped),
            forall|k: usize|
                #[trigger] old(pt).view().contains_key(k) ==> final(pt).view().contains_key(k)
                    && final(pt).view()[k] == old(pt).view()[k],
            forall|k: usize|
                #[trigger] final(pt).view().contains_key(k) ==> old(pt).view().contains_key(k)
                    || (self.mapping_of().contains_key(k) && final(pt).view()[k]
                    == self.mapping_of()[k]),
    {
        let pages = self.pma.page_count();
        let mut i: usize = 0;
        while i < pages
            invariant
                self.wf(),
                pt.wf(),
                pages == self.pages_spec(),
                i <= pages,
                pt.stale_set() == old(pt).stale_set(),
                forall|j: int|
                    0 <= j < i ==> !old(pt).spec_mapped(
                        #[trigger] ((self.start + j * PAGE_SIZE) as usize),
                    ),
                pt.view() == old(pt).view().union_prefer_right(self.mapping_of_prefix(i as int)),
            decreases pages - i,
        {
            proof {
                lemma_vaddr_of_page(*self, i as int);
            }
            let vaddr = self.start + i * PAGE_SIZE;
            let page = self.pma.frame_paddr(i);
            let res = match page {
                Some(paddr) => pt.map(vaddr, paddr, self.flags.with_present_bits()),
                None => pt.map(vaddr, 0, PTEFlags::empty()),
            };
            proof {
                lemma_prefix_domain(*self, i as int, vaddr as int);
            }
            match res {
                Ok(_) => {},
                Err(e) => {
                    proof {
                        assert(old(pt).spec_mapped(vaddr)) by {
                            assert(!self.mapping_of_prefix(i as int).contains_key(vaddr));
                        }
                        lemma_prefix_is_submap(*self, i as int);
                        lemma_union_preserves_unmapped(*self, i as int, old(pt).view(), pt.view());
                    }
                    return Err(e);
                },
            }
            proof {
                assert(pt.view() =~= old(pt).view().union_prefer_right(
                    self.mapping_of_prefix(i as int + 1),
                )) by {
                    lemma_prefix_extend(*self, i as int, vaddr);
                }
                assert(!old(pt).spec_mapped(vaddr));
            }
            i = i + 1;
        }
        proof {
            assert(self.mapping_of_prefix(pages as int) =~= self.mapping_of());
            lemma_prefix_is_submap(*self, pages as int);
            lemma_union_preserves_unmapped(*self, pages as int, old(pt).view(), pt.view());
        }
        Ok(())
    }
}

impl VmArea {
    /// The virtual addresses of the area's backed pages within `[lo, hi)`.
    pub open spec fn backed_keys_in(self, lo: int, hi: int) -> Set<usize> {
        Set::new(
            |v: usize|
                lo <= v < hi && (v - self.start) % (PAGE_SIZE as int) == 0 && self.start <= v
                    && self.pma.backed((v - self.start) as int / (PAGE_SIZE as int)),
        )
    }

    /// Tear down the mappings of `[rstart, rend)`: each backed frame is
    /// released and its page table entry removed and marked stale. A frame
    /// that was never allocated is quietly skipped — its placeholder entry
    /// stays. Fails only when a backed page has no page table entry.
    pub fn unmap_area_partial(&mut self, pt: &mut PageTable, rstart: usize, rend: usize) -> (r:
        OSResult<()>)
        requires
            old(self).wf(),
            old(pt).wf(),
            page_aligned(rstart as int),
            page_aligned(rend as int),
            old(self).start <= rstart <= rend <= old(self).end,
        ensures
            final(self).wf(),
            final(pt).wf(),
            final(self).start == old(self).start,
            final(self).end == old(self).end,
            final(self).flags == old(self).flags,
            final(self).pma.page_count_spec() == old(self).pma.page_count_spec(),
            forall|p: int|
                0 <= p < old(self).pma.page_count_spec() && !((rstart - old(self).start) / (
                PAGE_SIZE as int) <= p < (rend - old(self).start) / (PAGE_SIZE as int))
                    ==> #[trigger] final(self).pma.frames_view()[p]
                        == old(self).pma.frames_view()[p],
            forall|k: usize|
                #[trigger] final(pt).view().contains_key(k) ==> old(pt).view().contains_key(k)
                    && final(pt).view()[k] == old(pt).view()[k],
            forall|k: usize|
                #[trigger] old(pt).view().contains_key(k) && !old(self).backed_keys_in(
                    rstart as int,
                    rend as int,
                ).contains(k) ==> final(pt).view().contains_key(k),
            r is Ok <==> (forall|v: usize|
                old(self).backed_keys_in(rstart as int, rend as int).contains(v) ==> old(
                    pt,
                ).spec_mapped(v)),
            r is Err ==> r == OSResult::<()>::Err(OSError::PageTable_PageNotMapped),
            r is Ok ==> {
                &&& final(pt).view() == old(pt).view().remove_keys(
                    old(self).backed_keys_in(rstart as int, rend as int),
                )
                &&& final(pt).stale_set() == old(pt).stale_set().union(
                    old(self).backed_keys_in(rstart as int, rend as int),
                )
                &&& forall|p: int|
                    (rstart - old(self).start) / (PAGE_SIZE as int) <= p
                        < (rend - old(self).start) / (PAGE_SIZE as int)
                        ==> !(#[trigger] final(self).pma.backed(p))
            },
    {
        proof {
            lemma_range_pages(*old(self), rstart as int, rend as int);
        }
        let p0 = (rstart - self.start) / PAGE_SIZE;
        let p1 = (rend - self.start) / PAGE_SIZE;
        let mut i = p0;
        while i < p1
            invariant
                self.wf(),
                pt.wf(),
                old(self).wf(),
                self.start == old(self).start,
                self.end == old(self).end,
                self.flags == old(self).flags,
                self.pma.page_count_spec() == old(self).pma.page_count_spec(),
                page_aligned(rstart as int),
                page_aligned(rend as int),
                old(self).start <= rstart <= rend <= old(self).end,
                p0 == (rstart - old(self).start) / (PAGE_SIZE as int),
                p1 == (rend - old(self).start) / (PAGE_SIZE as int),
                rstart == old(self).start + p0 * PAGE_SIZE,
                rend == old(self).start + p1 * PAGE_SIZE,
                p1 <= self.pma.page_count_spec(),
                p0 <= i <= p1,
                forall|p: int|
                    0 <= p < old(self).pma.page_count_spec() && !(p0 <= p < i)
                        ==> #[trigger] self.pma.frames_view()[p]
                            == old(self).pma.frames_view()[p],
                forall|p: int| p0 <= p < i ==> !#[trigger] self.pma.backed(p),
                forall|v: usize|
                    old(self).backed_keys_in(rstart as int, old(self).start + i * PAGE_SIZE).contains(
                        v,
                    ) ==> #[trigger] old(pt).spec_mapped(v),
                pt.view() == old(pt).view().remove_keys(
                    old(self).backed_keys_in(rstart as int, old(self).start + i * PAGE_SIZE),
                ),
                pt.stale_set() == old(pt).stale_set().union(
                    old(self).backed_keys_in(rstart as int, old(self).start + i * PAGE_SIZE),
                ),
            decreases p1 - i,
        {
            proof {
                lemma_vaddr_of_page(*old(self), i as int);
            }
            let vaddr = self.start + i * PAGE_SIZE;
            let ghost keys_pre = old(self).backed_keys_in(
                rstart as int,
                old(self).start + i * PAGE_SIZE,
            );
            let ghost keys_post = old(self).backed_keys_in(
                rstart as int,
                old(self).start + (i + 1) * PAGE_SIZE,
            );
            proof {
                lemma_backed_keys_extend(*old(self), rstart as int, i as int, vaddr);
            }
            let ghost pma_before = self.pma;
            let res = self.pma.release_frame(i);
            match res {
                Ok(_) => {
                    proof {
                        assert(old(self).pma.backed(i as int)) by {
                            assert(pma_before.frames_view()[i as int] == old(
                                self,
                            ).pma.frames_view()[i as int]);
                        }
                        assert(keys_post =~= keys_pre.insert(vaddr));
                        assert(!keys_pre.contains(vaddr));
                    }
                    match pt.unmap(vaddr) {
                        Ok(_) => {
                            proof {
                                assert(pt.view() =~= old(pt).view().remove_keys(keys_post));
                                assert(pt.stale_set() =~= old(pt).stale_set().union(keys_post));
                                assert(old(pt).spec_mapped(vaddr));
                            }
                        },
                        Err(e) => {
                            proof {
                                assert(!old(pt).spec_mapped(vaddr)) by {
                                    assert(!keys_pre.contains(vaddr));
                                }
                                assert(old(self).backed_keys_in(rstart as int, rend as int).contains(
                                    vaddr,
                                )) by {
                                    assert(i * PAGE_SIZE + PAGE_SIZE <= p1 * PAGE_SIZE)
                                        by (nonlinear_arith)
                                        requires
                                            i + 1 <= p1,
                                            PAGE_SIZE == 0x1000;
                                }
                            }
                            return Err(e);
                        },
                    }
                },
                Err(_) => {
                    proof {
                        assert(!old(self).pma.backed(i as int)) by {
                            assert(pma_before.frames_view()[i as int] == old(
                                self,
                            ).pma.frames_view()[i as int]);
                        }
                        assert(keys_post =~= keys_pre);
                    }
                },
            }
            proof {
                assert(!self.pma.backed(i as int));
                assert forall|p: int| p0 <= p < i + 1 implies !(#[trigger] self.pma.backed(p)) by {
                    if p < i {
                        assert(self.pma.frames_view()[p] == pma_before.frames_view()[p]);
                        assert(!pma_before.backed(p));
                    }
                }
            }
            i = i + 1;
        }
        Ok(())
    }

    /// The virtual address of the area's page `idx`.
    pub open spec fn page_vaddr(self, idx: int) -> usize {
        (self.start + idx * PAGE_SIZE) as usize
    }

    /// Re-apply the area's current flags to every already-backed page: the
    /// mprotect path. Never triggers allocation, so unbacked lazy pages stay
    /// deferred; their placeholder entries and everything outside the area
    /// are untouched. Every changed address becomes stale.
    pub fn modify_area_flags(&self, pt: &mut PageTable) -> (r: OSResult<()>)
        requires
            self.wf(),
            old(pt).wf(),
            forall|v: usize|
                self.backed_keys_in(self.start as int, self.end as int).contains(v) ==> old(
                    pt,
                ).spec_mapped(v),
        ensures
            final(pt).wf(),
            r == OSResult::<()>::Ok(()),
            forall|k: usize|
                !self.backed_keys_in(self.start as int, self.end as int).contains(k) ==> (
                #[trigger] final(pt).view().contains_key(k) <==> old(pt).view().contains_key(k))
                    && (old(pt).view().contains_key(k) ==> final(pt).view()[k] == old(
                    pt,
                ).view()[k]),
            forall|v: usize|
                #[trigger] self.backed_keys_in(self.start as int, self.end as int).contains(v)
                    ==> final(pt).view().contains_key(v) && final(pt).view()[v] == (
                old(pt).view()[v].0, self.flags.spec_with_present_bits()),
            final(pt).stale_set() == old(pt).stale_set().union(
                self.backed_keys_in(self.start as int, self.end as int),
            ),
    {
        let pages = self.pma.page_count();
        let mut i: usize = 0;
        while i < pages
            invariant
                self.wf(),
                pt.wf(),
                pages == self.pages_spec(),
                i <= pages,
                forall|v: usize|
                    self.backed_keys_in(self.start as int, self.end as int).contains(v) ==> old(
                        pt,
                    ).spec_mapped(v),
                forall|k: usize|
                    !self.backed_keys_in(self.start as int, self.start + i * PAGE_SIZE).contains(k)
                        ==> (#[trigger] pt.view().contains_key(k) <==> old(
                        pt,
                    ).view().contains_key(k)) && (old(pt).view().contains_key(k)
                        ==> pt.view()[k] == old(pt).view()[k]),
                forall|v: usize|
                    #[trigger] self.backed_keys_in(
                        self.start as int,
                        self.start + i * PAGE_SIZE,
                    ).contains(v) ==> pt.view().contains_key(v) && pt.view()[v] == (
                    old(pt).view()[v].0, self.flags.spec_with_present_bits()),
                pt.stale_set() == old(pt).stale_set().union(
                    self.backed_keys_in(self.start as int, self.start + i * PAGE_SIZE),
                ),
            decreases pages - i,
        {
            proof {
                lemma_vaddr_of_page(*self, i as int);
                lemma_backed_keys_extend(*self, self.start as int, i as int, self.page_vaddr(
                    i as int,
                ));
            }
            let vaddr = self.start + i * PAGE_SIZE;
            let ghost keys_pre = self.backed_keys_in(
                self.start as int,
                self.start + i * PAGE_SIZE,
            );
            let ghost keys_post = self.backed_keys_in(
                self.start as int,
                self.start + (i + 1) * PAGE_SIZE,
            );
            if self.pma.frame_paddr(i).is_some() {
                proof {
                    assert(self.backed_keys_in(self.start as int, self.end as int).contains(vaddr))
                        by {
                        assert(i * PAGE_SIZE + PAGE_SIZE <= pages as int * PAGE_SIZE)
                            by (nonlinear_arith)
                            requires
                                i + 1 <= pages,
                                PAGE_SIZE == 0x1000;
                    }
                    assert(old(pt).spec_mapped(vaddr));
                    assert(!keys_pre.contains(vaddr));
                    assert(pt.view().contains_key(vaddr));
                    assert(pt.view()[vaddr] == old(pt).view()[vaddr]);
                }
                let ghost ptv0 = pt.view();
                match pt.set_flags(vaddr, self.flags.with_present_bits()) {
                    Ok(_) => {
                        proof {
                            assert(keys_post =~= keys_pre.insert(vaddr));
                            assert(pt.stale_set() =~= old(pt).stale_set().union(keys_post));
                            assert forall|k: usize|
                                !keys_post.contains(k) implies (#[trigger] pt.view().contains_key(
                                k,
                            ) <==> old(pt).view().contains_key(k)) && (old(
                                pt,
                            ).view().contains_key(k) ==> pt.view()[k] == old(pt).view()[k]) by {
                                assert(!keys_pre.contains(k));
                                assert(k != vaddr);
                                assert(pt.view().contains_key(k) <==> ptv0.contains_key(k));
                            }
                            assert forall|v: usize|
                                #[trigger] keys_post.contains(v) implies pt.view().contains_key(v)
                                && pt.view()[v] == (
                                old(pt).view()[v].0,
                                self.flags.spec_with_present_bits(),
                            ) by {
                                if v != vaddr {
                                    assert(keys_pre.contains(v));
                                    assert(pt.view().contains_key(v) <==> ptv0.contains_key(v));
                                }
                            }
                        }
                    },
                    Err(e) => {
                        return Err(e);
                    },
                }
            } else {
                proof {
                    assert(keys_post =~= keys_pre);
                }
            }
            i = i + 1;
        }
        proof {
            assert(self.backed_keys_in(self.start as int, self.start + pages as int * PAGE_SIZE)
                =~= self.backed_keys_in(self.start as int, self.end as int));
        }
        Ok(())
    }

    /// Handle a page fault at `offset` into the area. Forbidden access is
    /// refused without any mutation; otherwise the faulting page is
    /// demand-allocated and, if its placeholder entry is still invalid, the
    /// mapping is installed with present, accessed and dirty semantics and
    /// the TLB flushed for exactly that address. A fault at an already-valid
    /// entry signals TLB desynchronization and is a hard error for the
    /// caller, never retried here.
    pub fn handle_page_fault(
        &mut self,
        offset: usize,
        access_flags: PTEFlags,
        pt: &mut PageTable,
        allocator: &mut FrameAllocator,
    ) -> (r: OSResult<()>)
        requires
            old(self).wf(),
            old(pt).wf(),
            old(allocator).wf(),
            offset < old(self).end - old(self).start,
        ensures
            final(self).wf(),
            final(pt).wf(),
            final(allocator).wf(),
            final(self).start == old(self).start,
            final(self).end == old(self).end,
            final(self).flags == old(self).flags,
            PmAreaLazy::bytes_unchanged_outside(old(self).pma, final(self).pma, 0, 0),
            PmAreaLazy::backing_monotone(old(self).pma, final(self).pma),
            forall|p: int|
                0 <= p < old(self).pma.page_count_spec() && p != offset as int / (
                PAGE_SIZE as int) ==> #[trigger] final(self).pma.frames_view()[p]
                    == old(self).pma.frames_view()[p],
            final(allocator).frames_left() >= old(allocator).frames_left() - 1,
            !old(self).flags.spec_contains(access_flags) ==> {
                &&& r == OSResult::<()>::Err(OSError::PageFaultHandler_AccessDenied)
                &&& *final(self) == *old(self)
                &&& *final(pt) == *old(pt)
                &&& *final(allocator) == *old(allocator)
            },
            old(self).flags.spec_contains(access_flags) && !old(self).pma.backed(
                offset as int / (PAGE_SIZE as int),
            ) && old(allocator).frames_left() == 0 ==> {
                &&& r == OSResult::<()>::Err(OSError::Memory_RunOutOfMemory)
                &&& *final(self) == *old(self)
                &&& *final(pt) == *old(pt)
                &&& *final(allocator) == *old(allocator)
            },
            old(self).flags.spec_contains(access_flags) && old(self).pma.backed(
                offset as int / (PAGE_SIZE as int),
            ) ==> *final(allocator) == *old(allocator),
            old(self).flags.spec_contains(access_flags) && !old(self).pma.backed(
                offset as int / (PAGE_SIZE as int),
            ) && old(allocator).frames_left() > 0 ==> final(allocator).frames_left() == old(
                allocator,
            ).frames_left() - 1,
            old(self).flags.spec_contains(access_flags) && (old(self).pma.backed(
                offset as int / (PAGE_SIZE as int),
            ) || old(allocator).frames_left() > 0) ==> {
                &&& final(self).pma.backed(offset as int / (PAGE_SIZE as int))
                &&& fault_outcome(*old(self), *old(pt), *final(self), *final(pt), offset as int, r)
            },
    {
        if !self.flags.contains(&access_flags) {
            return Err(OSError::PageFaultHandler_AccessDenied);
        }
        proof {
            lemma_off_page(offset as int, self.pages_spec());
            lemma_page_split(offset as int / (PAGE_SIZE as int), 0);
            lemma_vaddr_of_page(*self, offset as int / (PAGE_SIZE as int));
        }
        let off_aligned = align_down(offset);
        let idx = off_aligned / PAGE_SIZE;
        let vaddr = self.start + off_aligned;
        let paddr = match self.pma.get_frame(idx, true, allocator) {
            Ok(Some(p)) => p,
            Ok(None) => {
                return Err(OSError::Memory_RunOutOfMemory);
            },
            Err(e) => {
                return Err(e);
            },
        };
        match pt.get_entry(vaddr) {
            Some(entry) => {
                if entry.is_valid() {
                    Err(OSError::PageFaultHandler_TrapAtValidPage)
                } else {
                    match pt.set_entry(vaddr, paddr, self.flags.with_present_bits()) {
                        Ok(_) => {},
                        Err(e) => {
                            return Err(e);
                        },
                    }
                    pt.flush_tlb(Some(vaddr));
                    proof {
                        assert(pt.stale_set() =~= old(pt).stale_set().remove(vaddr));
                    }
                    Ok(())
                }
            },
            None => Err(OSError::PageTable_PageNotMapped),
        }
    }

    /// Make sure the page at `offset` is backed and validly mapped: the
    /// manual-allocation path. Unlike a page fault, finding the entry
    /// already valid is simply success.
    pub fn manually_alloc_page(
        &mut self,
        offset: usize,
        pt: &mut PageTable,
        allocator: &mut FrameAllocator,
    ) -> (r: OSResult<()>)
        requires
            old(self).wf(),
            old(pt).wf(),
            old(allocator).wf(),
            offset < old(self).end - old(self).start,
        ensures
            final(self).wf(),
            final(pt).wf(),
            final(allocator).wf(),
            final(self).start == old(self).start,
            final(self).end == old(self).end,
            final(self).flags == old(self).flags,
            PmAreaLazy::bytes_unchanged_outside(old(self).pma, final(self).pma, 0, 0),
            PmAreaLazy::backing_monotone(old(self).pma, final(self).pma),
            forall|p: int|
                0 <= p < old(self).pma.page_count_spec() && p != offset as int / (
                PAGE_SIZE as int) ==> #[trigger] final(self).pma.frames_view()[p]
                    == old(self).pma.frames_view()[p],
            final(allocator).frames_left() >= old(allocator).frames_left() - 1,
            !old(self).pma.backed(offset as int / (PAGE_SIZE as int)) && old(
                allocator,
            ).frames_left() == 0 ==> {
                &&& r == OSResult::<()>::Err(OSError::Memory_RunOutOfMemory)
                &&& *final(self) == *old(self)
                &&& *final(pt) == *old(pt)
                &&& *final(allocator) == *old(allocator)
            },
            old(self).pma.backed(offset as int / (PAGE_SIZE as int)) || old(
                allocator,
            ).frames_left() > 0 ==> {
                &&& final(self).pma.backed(offset as int / (PAGE_SIZE as int))
                &&& alloc_outcome(*old(self), *old(pt), *final(self), *final(pt), offset as int, r)
            },
    {
        proof {
            lemma_off_page(offset as int, self.pages_spec());
            lemma_page_split(offset as int / (PAGE_SIZE as int), 0);
            lemma_vaddr_of_page(*self, offset as int / (PAGE_SIZE as int));
        }
        let off_aligned = align_down(offset);
        let idx = off_aligned / PAGE_SIZE;
        let vaddr = self.start + off_aligned;
        let paddr = match self.pma.get_frame(idx, true, allocator) {
            Ok(Some(p)) => p,
            Ok(None) => {
                return Err(OSError::Memory_RunOutOfMemory);
            },
            Err(e) => {
                return Err(e);
            },
        };
        match pt.get_entry(vaddr) {
            Some(entry) => {
                if !entry.is_valid() {
                    match pt.set_entry(vaddr, paddr, self.flags.with_present_bits()) {
                        Ok(_) => {},
                        Err(e) => {
                            return Err(e);
                        },
                    }
                    pt.flush_tlb(Some(vaddr));
                    proof {
                        assert(pt.stale_set() =~= old(pt).stale_set().remove(vaddr));
                    }
                }
                Ok(())
            },
            None => Err(OSError::PageTable_PageNotMapped),
        }
    }

    /// Tear down every mapping of the area, as a full unmap does.
    pub fn unmap_area(&mut self, pt: &mut PageTable) -> (r: OSResult<()>)
        requires
            old(self).wf(),
            old(pt).wf(),
        ensures
            final(self).wf(),
            final(pt).wf(),
            final(self).start == old(self).start,
            final(self).end == old(self).end,
            final(self).flags == old(self).flags,
            final(self).pma.page_count_spec() == old(self).pma.page_count_spec(),
            forall|k: usize|
                #[trigger] final(pt).view().contains_key(k) ==> old(pt).view().contains_key(k)
                    && final(pt).view()[k] == old(pt).view()[k],
            r is Ok <==> (forall|v: usize|
                old(self).backed_keys_in(old(self).start as int, old(self).end as int).contains(v)
                    ==> old(pt).spec_mapped(v)),
            r is Err ==> r == OSResult::<()>::Err(OSError::PageTable_PageNotMapped),
            r is Ok ==> {
                &&& final(pt).view() == old(pt).view().remove_keys(
                    old(self).backed_keys_in(old(self).start as int, old(self).end as int),
                )
                &&& forall|p: int|
                    0 <= p < old(self).pma.page_count_spec()
                        ==> !(#[trigger] final(self).pma.backed(p))
            },
    {
        let rstart = self.start;
        let rend = self.end;
        proof {
            lemma_range_pages(*old(self), rstart as int, rend as int);
        }
        self.unmap_area_partial(pt, rstart, rend)
    }
}

impl VmArea {
    /// A new area over the same range with the same flags, whose physical
    /// area has the same shape but no frames: the fork path that defers all
    /// population.
    pub fn copy_to_new_area_empty(&self) -> (r: OSResult<VmArea>)
        requires
            self.wf(),
        ensures
            r is Ok,
            r->Ok_0.wf(),
            r->Ok_0.start == self.start,
            r->Ok_0.end == self.end,
            r->Ok_0.flags == self.flags,
            r->Ok_0.pages_spec() == self.pages_spec(),
            forall|i: int| 0 <= i < self.pages_spec() ==> !(#[trigger] r->Ok_0.pma.backed(i)),
    {
        let pma = match self.pma.clone_as_fork() {
            Ok(p) => p,
            Err(e) => {
                return Err(e);
            },
        };
        Ok(VmArea { start: self.start, end: self.end, flags: self.flags, pma })
    }

    /// A new area over the same range with the same flags, eagerly holding a
    /// copy of every currently backed page in freshly allocated frames of its
    /// own: the fork path without copy-on-write. Cost is proportional to the
    /// resident page count; exhaustion surfaces only when the allocator is
    /// truly drained.
    pub fn copy_to_new_area_with_data(&self, allocator: &mut FrameAllocator) -> (r: OSResult<
        VmArea,
    >)
        requires
            self.wf(),
            old(allocator).wf(),
        ensures
            final(allocator).wf(),
            final(allocator).frames_left() >= old(allocator).frames_left() - self.pages_spec(),
            r is Err ==> r == OSResult::<VmArea>::Err(OSError::Memory_RunOutOfMemory)
                && final(allocator).frames_left() == 0,
            old(allocator).frames_left() >= self.pages_spec() ==> r is Ok,
            r is Ok ==> {
                &&& r->Ok_0.wf()
                &&& r->Ok_0.start == self.start
                &&& r->Ok_0.end == self.end
                &&& r->Ok_0.flags == self.flags
                &&& r->Ok_0.pages_spec() == self.pages_spec()
                &&& forall|i: int|
                    0 <= i < self.pages_spec() ==> (#[trigger] r->Ok_0.pma.backed(i)
                        <==> self.pma.backed(i))
                &&& forall|i: int|
                    0 <= i < self.pages_spec() ==> #[trigger] r->Ok_0.pma.page_bytes(i)
                        == self.pma.page_bytes(i)
            },
    {
        let mut new_pma = match self.pma.clone_as_fork() {
            Ok(p) => p,
            Err(e) => {
                return Err(e);
            },
        };
        let pages = self.pma.page_count();
        let mut buf = vec![0u8; PAGE_SIZE];
        let mut i: usize = 0;
        while i < pages
            invariant
                self.wf(),
                allocator.wf(),
                pages == self.pages_spec(),
                i <= pages,
                buf@.len() == PAGE_SIZE,
                new_pma.wf(),
                new_pma.page_count_spec() == self.pma.page_count_spec(),
                forall|j: int|
                    0 <= j < i ==> (#[trigger] new_pma.backed(j) <==> self.pma.backed(j)),
                forall|j: int|
                    0 <= j < i ==> #[trigger] new_pma.page_bytes(j) == self.pma.page_bytes(j),
                forall|j: int| i <= j < pages ==> !(#[trigger] new_pma.backed(j)),
                allocator.frames_left() >= old(allocator).frames_left() - i,
            decreases pages - i,
        {
            if self.pma.frame_paddr(i).is_some() {
                self.pma.read_page(i, &mut buf);
                let ghost np0 = new_pma;
                match new_pma.write_page(i, buf.as_slice(), allocator) {
                    Ok(_) => {},
                    Err(e) => {
                        return Err(e);
                    },
                }
                proof {
                    assert(self.pma.backed(i as int));
                    assert(new_pma.backed(i as int));
                    assert(new_pma.page_bytes(i as int) == self.pma.page_bytes(i as int));
                    assert forall|j: int|
                        0 <= j < i + 1 implies (#[trigger] new_pma.backed(j) <==> self.pma.backed(
                        j,
                    )) by {
                        if j < i {
                            assert(new_pma.frames_view()[j] == np0.frames_view()[j]);
                            assert(np0.backed(j) <==> self.pma.backed(j));
                        }
                    }
                    assert forall|j: int|
                        0 <= j < i + 1 implies #[trigger] new_pma.page_bytes(j)
                            == self.pma.page_bytes(j) by {
                        if j < i {
                            assert(new_pma.frames_view()[j] == np0.frames_view()[j]);
                            assert(np0.page_bytes(j) == self.pma.page_bytes(j));
                        }
                    }
                    assert forall|j: int| i + 1 <= j < pages implies !(#[trigger] new_pma.backed(
                        j,
                    )) by {
                        assert(new_pma.frames_view()[j] == np0.frames_view()[j]);
                        assert(!np0.backed(j));
                    }
                }
            } else {
                proof {
                    assert(zero_page() == self.pma.page_bytes(i as int));
                    assert(!new_pma.backed(i as int));
                    assert(new_pma.page_bytes(i as int) == zero_page());
                }
            }
            i = i + 1;
        }
        Ok(VmArea { start: self.start, end: self.end, flags: self.flags, pma: new_pma })
    }

    /// Carve the area in two at `pos`: this area keeps `[start, pos)` with
    /// the frames of that prefix, and a new area with the same flags takes
    /// `[pos, end)` with the remaining frames.
    pub fn split(&mut self, pos: usize) -> (r: VmArea)
        requires
            old(self).wf(),
            page_aligned(pos as int),
            old(self).start < pos < old(self).end,
        ensures
            final(self).wf(),
            r.wf(),
            final(self).start == old(self).start,
            final(self).end == pos,
            final(self).flags == old(self).flags,
            r.start == pos,
            r.end == old(self).end,
            r.flags == old(self).flags,
            final(self).pma.frames_view() == old(self).pma.frames_view().subrange(
                0,
                (pos - old(self).start) as int / (PAGE_SIZE as int),
            ),
            r.pma.frames_view() == old(self).pma.frames_view().subrange(
                (pos - old(self).start) as int / (PAGE_SIZE as int),
                old(self).pma.page_count_spec() as int,
            ),
    {
        proof {
            lemma_range_pages(*old(self), pos as int, pos as int);
            lemma_range_pages(*old(self), pos as int, old(self).end as int);
        }
        let offset = pos - self.start;
        let old_end = self.end;
        let right_pma = self.pma.split(offset, offset).unwrap();
        self.end = pos;
        proof {
            let ps = PAGE_SIZE as int;
            let k = offset as int / ps;
            let count = old(self).pma.page_count_spec() as int;
            assert(self.pma.page_count_spec() == k);
            assert(k * ps == offset as int);
            assert(pos - self.start == self.pma.size_spec());
            assert(right_pma.page_count_spec() == count - k);
            assert((count - k) * ps == count * ps - k * ps) by (nonlinear_arith);
            assert(old_end - pos == right_pma.size_spec());
        }
        VmArea { start: pos, end: old_end, flags: self.flags, pma: right_pma }
    }

    /// Replace the area's flags and re-apply them to every backed page, as
    /// the address-space container's mprotect path does.
    pub fn modify(&mut self, new_flags: PTEFlags, pt: &mut PageTable) -> (r: OSResult<()>)
        requires
            old(self).wf(),
            old(pt).wf(),
            forall|v: usize|
                old(self).backed_keys_in(old(self).start as int, old(self).end as int).contains(v)
                    ==> old(pt).spec_mapped(v),
        ensures
            final(self).wf(),
            final(pt).wf(),
            r == OSResult::<()>::Ok(()),
            final(self).start == old(self).start,
            final(self).end == old(self).end,
            final(self).flags == new_flags,
            final(self).pma == old(self).pma,
            forall|k: usize|
                !old(self).backed_keys_in(old(self).start as int, old(self).end as int).contains(k)
                    ==> (#[trigger] final(pt).view().contains_key(k)
                        <==> old(pt).view().contains_key(k)) && (old(pt).view().contains_key(k)
                        ==> final(pt).view()[k] == old(pt).view()[k]),
            forall|v: usize|
                #[trigger] old(self).backed_keys_in(
                    old(self).start as int,
                    old(self).end as int,
                ).contains(v) ==> final(pt).view().contains_key(v) && final(pt).view()[v] == (
                old(pt).view()[v].0, new_flags.spec_with_present_bits()),
    {
        self.flags = new_flags;
        proof {
            assert(self.backed_keys_in(self.start as int, self.end as int) =~= old(
                self,
            ).backed_keys_in(old(self).start as int, old(self).end as int));
        }
        self.modify_area_flags(pt)
    }

    /// Tear the area's mappings down, as the address-space container does
    /// when the area is removed outright.
    pub fn remove(&mut self, pt: &mut PageTable) -> (r: OSResult<()>)
        requires
            old(self).wf(),
            old(pt).wf(),
        ensures
            final(self).wf(),
            final(pt).wf(),
            r is Ok <==> (forall|v: usize|
                old(self).backed_keys_in(old(self).start as int, old(self).end as int).contains(v)
                    ==> old(pt).spec_mapped(v)),
            r is Ok ==> final(pt).view() == old(pt).view().remove_keys(
                old(self).backed_keys_in(old(self).start as int, old(self).end as int),
            ),
    {
        self.unmap_area(pt)
    }

    /// Synchronize the pages of `[rstart, rend)` with their backing file.
    /// A lazily backed area has no backing file, so nothing changes.
    pub fn msync(&mut self, rstart: usize, rend: usize)
        requires
            old(self).wf(),
        ensures
            *final(self) == *old(self),
    {
        let s = if rstart > self.start {
            rstart
        } else {
            self.start
        };
        let e = if rend < self.end {
            rend
        } else {
            self.end
        };
        let mut v = s;
        while v < e
            invariant
                self.wf(),
                *self == *old(self),
                self.start <= s <= v,
                e <= self.end,
            decreases e - v,
        {
            proof {
                lemma_off_page(v - self.start, self.pages_spec());
            }
            let idx = (v - self.start) / PAGE_SIZE;
            self.pma.sync_frame_with_file(idx);
            if e - v <= PAGE_SIZE {
                break;
            }
            v = v + PAGE_SIZE;
        }
    }
}

/// Two areas over the same range with the same flags and the same backing
/// stand for the same page table content.
pub proof fn lemma_mapping_preserved(pre: VmArea, post: VmArea)
    requires
        pre.wf(),
        post.wf(),
        post.start == pre.start,
        post.end == pre.end,
        post.flags == pre.flags,
        post.pma.page_count_spec() == pre.pma.page_count_spec(),
        forall|p: int|
            0 <= p < pre.pma.page_count_spec() ==> ((#[trigger] post.pma.backed(p))
                <==> pre.pma.backed(p)) && (pre.pma.backed(p) ==> post.pma.paddr_of(p)
                == pre.pma.paddr_of(p)),
    ensures
        post.mapping_of() == pre.mapping_of(),
{
    assert(post.mapping_of() =~= pre.mapping_of()) by {
        assert forall|v: usize| #[trigger] pre.mapping_of().contains_key(v)
            implies post.mapping_of()[v] == pre.mapping_of()[v] by {
            lemma_off_page(v - pre.start, pre.pma.page_count_spec() as int);
        }
    }
}

/// Backing one page of an area updates the page table content it stands for
/// at exactly that page's address.
pub proof fn lemma_mapping_insert(pre: VmArea, post: VmArea, idx: int)
    requires
        pre.wf(),
        post.wf(),
        post.start == pre.start,
        post.end == pre.end,
        post.flags == pre.flags,
        post.pma.page_count_spec() == pre.pma.page_count_spec(),
        0 <= idx < pre.pages_spec(),
        forall|p: int|
            0 <= p < pre.pma.page_count_spec() && p != idx
                ==> #[trigger] post.pma.frames_view()[p] == pre.pma.frames_view()[p],
        post.pma.backed(idx),
    ensures
        post.mapping_of() == pre.mapping_of().insert(
            pre.page_vaddr(idx),
            (post.pma.paddr_of(idx), pre.flags.spec_with_present_bits()),
        ),
{
    lemma_vaddr_of_page(pre, idx);
    let pv = pre.page_vaddr(idx);
    assert(post.mapping_of() =~= pre.mapping_of().insert(
        pv,
        (post.pma.paddr_of(idx), pre.flags.spec_with_present_bits()),
    )) by {
        assert(pre.mapping_of().contains_key(pv));
        assert forall|v: usize| #[trigger] pre.mapping_of().contains_key(v) && v != pv
            implies post.mapping_of()[v] == pre.mapping_of()[v] by {
            lemma_off_page(v - pre.start, pre.pma.page_count_spec() as int);
            let m = (v - pre.start) / (PAGE_SIZE as int);
            vstd::arithmetic::div_mod::lemma_fundamental_div_mod(
                v - pre.start,
                PAGE_SIZE as int,
            );
            if m == idx {
                assert(v == pre.start + idx * PAGE_SIZE);
            } else {
                assert(post.pma.frames_view()[m] == pre.pma.frames_view()[m]);
            }
        }
    }
}

/// What a page fault at `offset` does to the page table, once access is
/// allowed and the faulting page backed: a missing entry or an already-valid
/// entry is an error that leaves the table untouched; an invalid placeholder
/// entry receives the translation with present, accessed and dirty
/// semantics, and the address is flushed.
pub open spec fn fault_outcome(
    pre: VmArea,
    pt0: PageTable,
    post: VmArea,
    pt1: PageTable,
    offset: int,
    r: OSResult<()>,
) -> bool {
    let idx = offset / (PAGE_SIZE as int);
    let vaddr = pre.page_vaddr(idx);
    &&& (!pt0.spec_mapped(vaddr) ==> r == OSResult::<()>::Err(OSError::PageTable_PageNotMapped)
        && pt1 == pt0)
    &&& (pt0.spec_mapped(vaddr) && pt0.view()[vaddr].1.valid ==> r == OSResult::<()>::Err(
        OSError::PageFaultHandler_TrapAtValidPage,
    ) && pt1 == pt0)
    &&& (pt0.spec_mapped(vaddr) && !pt0.view()[vaddr].1.valid ==> {
        &&& r == OSResult::<()>::Ok(())
        &&& pt1.view() == pt0.view().insert(
            vaddr,
            (post.pma.paddr_of(idx), pre.flags.spec_with_present_bits()),
        )
        &&& pt1.stale_set() == pt0.stale_set().remove(vaddr)
        &&& !pt1.stale_set().contains(vaddr)
    })
}

/// What manual allocation at `offset` does to the page table, once the page
/// is backed: like a fault, except that an already-valid entry is simply
/// success with nothing changed.
pub open spec fn alloc_outcome(
    pre: VmArea,
    pt0: PageTable,
    post: VmArea,
    pt1: PageTable,
    offset: int,
    r: OSResult<()>,
) -> bool {
    let idx = offset / (PAGE_SIZE as int);
    let vaddr = pre.page_vaddr(idx);
    &&& (!pt0.spec_mapped(vaddr) ==> r == OSResult::<()>::Err(OSError::PageTable_PageNotMapped)
        && pt1 == pt0)
    &&& (pt0.spec_mapped(vaddr) && pt0.view()[vaddr].1.valid ==> r == OSResult::<()>::Ok(()) && pt1
        == pt0)
    &&& (pt0.spec_mapped(vaddr) && !pt0.view()[vaddr].1.valid ==> {
        &&& r == OSResult::<()>::Ok(())
        &&& pt1.view() == pt0.view().insert(
            vaddr,
            (post.pma.paddr_of(idx), pre.flags.spec_with_present_bits()),
        )
        &&& pt1.stale_set() == pt0.stale_set().remove(vaddr)
        &&& !pt1.stale_set().contains(vaddr)
    })
}

/// A page-aligned subrange of an area starts and ends on whole pages of the
/// area.
proof fn lemma_range_pages(a: VmArea, rstart: int, rend: int)
    requires
        a.wf(),
        page_aligned(rstart),
        page_aligned(rend),
        a.start <= rstart <= rend <= a.end,
    ensures
        rstart == a.start + ((rstart - a.start) / (PAGE_SIZE as int)) * PAGE_SIZE,
        rend == a.start + ((rend - a.start) / (PAGE_SIZE as int)) * PAGE_SIZE,
        0 <= (rstart - a.start) / (PAGE_SIZE as int) <= (rend - a.start) / (PAGE_SIZE as int),
        (rend - a.start) / (PAGE_SIZE as int) <= a.pma.page_count_spec(),
{
    let ps = PAGE_SIZE as int;
    vstd::arithmetic::div_mod::lemma_fundamental_div_mod(a.start as int, ps);
    vstd::arithmetic::div_mod::lemma_fundamental_div_mod(rstart, ps);
    vstd::arithmetic::div_mod::lemma_fundamental_div_mod(rend, ps);
    let b = a.start as int / ps;
    let q1 = rstart / ps;
    let q2 = rend / ps;
    assert(rstart - a.start == (q1 - b) * ps) by (nonlinear_arith)
        requires
            a.start == b * ps,
            rstart == q1 * ps;
    assert(rend - a.start == (q2 - b) * ps) by (nonlinear_arith)
        requires
            a.start == b * ps,
            rend == q2 * ps;
    lemma_page_split(q1 - b, 0);
    lemma_page_split(q2 - b, 0);
    vstd::arithmetic::div_mod::lemma_div_is_ordered(rstart - a.start, rend - a.start, ps);
    let count = a.pma.page_count_spec() as int;
    assert(q2 - b <= count) by (nonlinear_arith)
        requires
            (q2 - b) * ps == rend - a.start,
            rend - a.start <= count * ps,
            ps == 0x1000;
}

/// Extending the upper bound of a backed-key window by one page adds that
/// page's address exactly when the page is backed.
proof fn lemma_backed_keys_extend(a: VmArea, rstart: int, i: int, vaddr: usize)
    requires
        a.wf(),
        0 <= i < a.pma.page_count_spec(),
        page_aligned(rstart),
        a.start <= rstart <= a.start + i * PAGE_SIZE,
        vaddr == a.start + i * PAGE_SIZE,
    ensures
        !a.backed_keys_in(rstart, a.start + i * PAGE_SIZE).contains(vaddr),
        a.pma.backed(i) ==> a.backed_keys_in(rstart, a.start + (i + 1) * PAGE_SIZE)
            == a.backed_keys_in(rstart, a.start + i * PAGE_SIZE).insert(vaddr),
        !a.pma.backed(i) ==> a.backed_keys_in(rstart, a.start + (i + 1) * PAGE_SIZE)
            == a.backed_keys_in(rstart, a.start + i * PAGE_SIZE),
    decreases 0int,
{
    let ps = PAGE_SIZE as int;
    lemma_vaddr_of_page(a, i);
    assert((i + 1) * ps == i * ps + ps) by (nonlinear_arith);
    assert forall|v: usize|
        #[trigger] a.backed_keys_in(rstart, a.start + (i + 1) * PAGE_SIZE).contains(v) && v != vaddr
        implies a.backed_keys_in(rstart, a.start + i * PAGE_SIZE).contains(v) by {
        lemma_off_page(v - a.start, i + 1);
        let m = (v - a.start) / ps;
        vstd::arithmetic::div_mod::lemma_fundamental_div_mod(v - a.start, ps);
        if m == i {
            assert(v == a.start + i * ps);
        } else {
            assert(m < i);
            assert(m * ps + ps <= i * ps) by (nonlinear_arith)
                requires
                    m + 1 <= i,
                    ps == 0x1000;
        }
    }
    if a.pma.backed(i) {
        assert(a.backed_keys_in(rstart, a.start + (i + 1) * PAGE_SIZE) =~= a.backed_keys_in(
            rstart,
            a.start + i * PAGE_SIZE,
        ).insert(vaddr));
    } else {
        assert(a.backed_keys_in(rstart, a.start + (i + 1) * PAGE_SIZE) =~= a.backed_keys_in(
            rstart,
            a.start + i * PAGE_SIZE,
        ));
    }
}

/// If no page address of the prefix is a key of the base table, the union
/// leaves every mapping of the base table as it stands.
proof fn lemma_union_preserves_unmapped(
    a: VmArea,
    i: int,
    pre: Map<usize, (usize, PTEFlags)>,
    post: Map<usize, (usize, PTEFlags)>,
)
    requires
        a.wf(),
        0 <= i <= a.pages_spec(),
        post == pre.union_prefer_right(a.mapping_of_prefix(i)),
        forall|j: int|
            0 <= j < i ==> !pre.contains_key(#[trigger] ((a.start + j * PAGE_SIZE) as usize)),
    ensures
        forall|k: usize|
            #[trigger] pre.contains_key(k) ==> post.contains_key(k) && post[k] == pre[k],
{
    let ps = PAGE_SIZE as int;
    assert forall|k: usize| #[trigger] pre.contains_key(k) implies post.contains_key(k) && post[k]
        == pre[k] by {
        if a.mapping_of_prefix(i).contains_key(k) {
            lemma_off_page(k - a.start, i);
            let j = (k - a.start) / ps;
            vstd::arithmetic::div_mod::lemma_fundamental_div_mod(k - a.start, ps);
            assert(k == (a.start + j * PAGE_SIZE) as usize);
            assert(!pre.contains_key(k));
        }
    }
}

/// Adding a multiple of the page size to an aligned address keeps the sum's
/// rounding additive.
proof fn lemma_aligned_add(base: int, size: int)
    requires
        0 <= base,
        0 <= size,
        page_aligned(base),
    ensures
        spec_align_up(base + size) == base + spec_align_up(size),
{
    let ps = PAGE_SIZE as int;
    vstd::arithmetic::div_mod::lemma_fundamental_div_mod(base, ps);
    let b = base / ps;
    assert(base == b * ps);
    vstd::arithmetic::div_mod::lemma_fundamental_div_mod(size + ps - 1, ps);
    let q = (size + ps - 1) / ps;
    let r = (size + ps - 1) % ps;
    vstd::arithmetic::div_mod::lemma_mod_bound(size + ps - 1, ps);
    assert(base + size + ps - 1 == (b + q) * ps + r) by (nonlinear_arith)
        requires
            base == b * ps,
            size + ps - 1 == q * ps + r;
    lemma_page_split(b + q, r);
    assert((base + size + ps - 1) / ps == b + q);
    assert(spec_align_up(base + size) == (b + q) * ps);
    assert(spec_align_up(size) == q * ps);
    assert((b + q) * ps == b * ps + q * ps) by (nonlinear_arith);
}

/// The virtual address of the area's page `i`: in range, page-aligned, and
/// at page offset `i` of the area.
pub proof fn lemma_vaddr_of_page(a: VmArea, i: int)
    requires
        a.wf(),
        0 <= i < a.pages_spec(),
    ensures
        a.start + i * PAGE_SIZE + PAGE_SIZE <= a.end,
        a.start <= a.start + i * PAGE_SIZE,
        page_aligned(a.start + i * PAGE_SIZE),
        (a.start + i * PAGE_SIZE - a.start) % (PAGE_SIZE as int) == 0,
        (a.start + i * PAGE_SIZE - a.start) / (PAGE_SIZE as int) == i,
{
    let ps = PAGE_SIZE as int;
    let pages = a.pages_spec();
    assert(i * ps + ps <= pages * ps) by (nonlinear_arith)
        requires
            i + 1 <= pages,
            ps == 0x1000;
    assert(0 <= i * ps) by (nonlinear_arith)
        requires
            0 <= i,
            ps == 0x1000;
    lemma_page_split(i, 0);
    vstd::arithmetic::div_mod::lemma_fundamental_div_mod(a.start as int, ps);
    let b = a.start as int / ps;
    assert(a.start + i * ps == (b + i) * ps) by (nonlinear_arith)
        requires
            a.start == b * ps;
    lemma_page_split(b + i, 0);
}

/// A key of `mapping_of_prefix(i + 1)` other than page `i`'s address is a
/// key of `mapping_of_prefix(i)`; page `i`'s own address is not.
proof fn lemma_prefix_domain(a: VmArea, i: int, vaddr: int)
    requires
        a.wf(),
        0 <= i < a.pages_spec(),
        vaddr == a.start + i * PAGE_SIZE,
    ensures
        !a.mapping_of_prefix(i).contains_key(vaddr as usize),
        forall|k: usize|
            #[trigger] a.mapping_of_prefix(i + 1).contains_key(k) ==> k == vaddr
                || a.mapping_of_prefix(i).contains_key(k),
        a.mapping_of_prefix(i + 1).contains_key(vaddr as usize),
{
    let ps = PAGE_SIZE as int;
    lemma_vaddr_of_page(a, i);
    assert forall|k: usize| #[trigger] a.mapping_of_prefix(i + 1).contains_key(k) implies k == vaddr
        || a.mapping_of_prefix(i).contains_key(k) by {
        if k != vaddr {
            lemma_off_page(k - a.start, i + 1);
            let m = (k - a.start) / ps;
            vstd::arithmetic::div_mod::lemma_fundamental_div_mod(k - a.start, ps);
            if m == i {
                assert(k == a.start + i * ps);
            } else {
                assert(m < i);
                assert(m * ps + ps <= i * ps) by (nonlinear_arith)
                    requires
                        m + 1 <= i,
                        ps == 0x1000;
            }
        }
    }
}

/// Every key the prefix map holds has the value `mapping_of` gives it.
proof fn lemma_prefix_is_submap(a: VmArea, i: int)
    requires
        a.wf(),
        0 <= i <= a.pages_spec(),
    ensures
        forall|k: usize|
            #[trigger] a.mapping_of_prefix(i).contains_key(k) ==> a.mapping_of().contains_key(k)
                && a.mapping_of()[k] == a.mapping_of_prefix(i)[k],
{
    let ps = PAGE_SIZE as int;
    assert forall|k: usize| #[trigger] a.mapping_of_prefix(i).contains_key(k)
        implies a.mapping_of().contains_key(k) && a.mapping_of()[k] == a.mapping_of_prefix(i)[k] by {
        assert(i * ps <= a.pages_spec() * ps) by (nonlinear_arith)
            requires
                i <= a.pages_spec(),
                ps == 0x1000;
    }
}

/// Mapping page `i`'s address extends the prefix map by exactly that key.
proof fn lemma_prefix_extend(a: VmArea, i: int, vaddr: usize)
    requires
        a.wf(),
        0 <= i < a.pages_spec(),
        vaddr == a.start + i * PAGE_SIZE,
    ensures
        a.mapping_of_prefix(i + 1) == a.mapping_of_prefix(i).insert(
            vaddr,
            a.mapping_of_prefix(i + 1)[vaddr],
        ),
{
    lemma_prefix_domain(a, i, vaddr as int);
    let ps = PAGE_SIZE as int;
    assert(a.mapping_of_prefix(i + 1) =~= a.mapping_of_prefix(i).insert(
        vaddr,
        a.mapping_of_prefix(i + 1)[vaddr],
    )) by {
        assert forall|k: usize| #[trigger] a.mapping_of_prefix(i).contains_key(k)
            implies a.mapping_of_prefix(i + 1).contains_key(k) by {
            lemma_off_page(k - a.start, i);
            assert((k - a.start) / ps * ps + ps <= i * ps + ps);
        }
        assert(i * ps <= (i + 1) * ps) by (nonlinear_arith)
            requires
                ps == 0x1000;
    }
}

} // verus!
