//! The address space: the container of a task's virtual memory areas and
//! their page table. Areas are pairwise disjoint and the page table holds
//! exactly the union of the areas' mappings.

use vstd::prelude::*;

use crate::addr::{align_down, align_up, page_aligned, spec_align_down, spec_align_up};
use crate::constants::PAGE_SIZE;
use crate::error::{OSError, OSResult};
use crate::flags::PTEFlags;
use crate::frame::FrameAllocator;
use crate::page_table::PageTable;
use crate::pma::PmAreaLazy;
use crate::vma::VmArea;

verus! {

/// `post` holds exactly those areas of `pre` that lie outside `[lo, hi)`;
/// the areas inside were dropped.
pub open spec fn areas_filtered_outside(
    pre: Seq<crate::vma::VmArea>,
    post: Seq<crate::vma::VmArea>,
    lo: int,
    hi: int,
) -> bool {
    &&& forall|j: int|
        0 <= j < post.len() ==> pre.contains(#[trigger] post[j]) && (post[j].end <= lo || hi
            <= post[j].start)
    &&& forall|i: int|
        0 <= i < pre.len() && !(lo <= pre[i].start && pre[i].end <= hi) ==> post.contains(
            #[trigger] pre[i],
        )
}

/// An order-preserving selection of the areas outside `[lo, hi)`, given by
/// its index sequence, is exactly the filter of the originals.
proof fn lemma_filter_outside(
    pre: Seq<crate::vma::VmArea>,
    post: Seq<crate::vma::VmArea>,
    idxs: Seq<int>,
    lo: int,
    hi: int,
)
    requires
        post.len() == idxs.len(),
        forall|j: int|
            0 <= j < idxs.len() ==> 0 <= #[trigger] idxs[j] < pre.len() && post[j] == pre[idxs[j]]
                && (pre[idxs[j]].end <= lo || hi <= pre[idxs[j]].start),
        forall|w: int|
            0 <= w < pre.len() && !(lo <= pre[w].start && pre[w].end <= hi) ==> exists|j: int|
                0 <= j < idxs.len() && #[trigger] idxs[j] == w,
    ensures
        areas_filtered_outside(pre, post, lo, hi),
{
    assert forall|j: int| 0 <= j < post.len() implies pre.contains(#[trigger] post[j]) && (
    post[j].end <= lo || hi <= post[j].start) by {
        let w = idxs[j];
        assert(pre[w] == post[j]);
        assert(pre.contains(post[j]));
    }
    assert forall|i: int|
        0 <= i < pre.len() && !(lo <= pre[i].start && pre[i].end <= hi) implies post.contains(
        #[trigger] pre[i],
    ) by {
        let j = choose|j: int| 0 <= j < idxs.len() && #[trigger] idxs[j] == i;
        assert(post[j] == pre[i]);
        assert(post.contains(pre[i]));
    }
}

/// What a page fault at `vaddr` does to an address space that has an area
/// for it: forbidden access is refused untouched; a fault on a backed page
/// is the TLB-desynchronization error; a fault on an unbacked page either
/// exhausts memory or installs the page.
pub open spec fn fault_dispatch(
    pre: MemorySet,
    post: MemorySet,
    al0: FrameAllocator,
    al1: FrameAllocator,
    vaddr: usize,
    access_flags: PTEFlags,
    r: OSResult<()>,
) -> bool {
    let i = pre.area_index_of(vaddr);
    let a = pre.areas_view()[i];
    let idx = (vaddr - a.start) as int / (PAGE_SIZE as int);
    &&& (!a.flags.spec_contains(access_flags) ==> r == OSResult::<()>::Err(
        OSError::PageFaultHandler_AccessDenied,
    ) && post.areas_view() == pre.areas_view() && post.pt_view() == pre.pt_view() && al1 == al0)
    &&& (a.flags.spec_contains(access_flags) && a.pma.backed(idx) ==> {
        &&& r == OSResult::<()>::Err(OSError::PageFaultHandler_TrapAtValidPage)
        &&& post.pt_view() == pre.pt_view()
        &&& post.areas_view().len() == pre.areas_view().len()
        &&& forall|j: int|
            0 <= j < pre.areas_view().len() && j != i ==> #[trigger] post.areas_view()[j]
                == pre.areas_view()[j]
        &&& post.areas_view()[i].start == a.start && post.areas_view()[i].end == a.end
            && post.areas_view()[i].flags == a.flags
    })
    &&& (a.flags.spec_contains(access_flags) && !a.pma.backed(idx) && al0.frames_left() == 0
        ==> r == OSResult::<()>::Err(OSError::Memory_RunOutOfMemory) && post.areas_view()
        == pre.areas_view() && post.pt_view() == pre.pt_view() && al1 == al0)
    &&& (a.flags.spec_contains(access_flags) && !a.pma.backed(idx) && al0.frames_left() > 0 ==> {
        &&& r == OSResult::<()>::Ok(())
        &&& post.areas_view().len() == pre.areas_view().len()
        &&& forall|j: int|
            0 <= j < pre.areas_view().len() && j != i ==> #[trigger] post.areas_view()[j]
                == pre.areas_view()[j]
        &&& post.areas_view()[i].start == a.start && post.areas_view()[i].end == a.end
            && post.areas_view()[i].flags == a.flags
        &&& post.areas_view()[i].pma.backed(idx)
        &&& post.areas_view()[i].pma.page_bytes(idx) == crate::frame::zero_page()
        &&& post.pt_view() == pre.pt_view().insert(
            a.page_vaddr(idx),
            (post.areas_view()[i].pma.paddr_of(idx), a.flags.spec_with_present_bits()),
        )
        &&& al1.frames_left() == al0.frames_left() - 1
    })
}

/// A task's address space: its memory areas and their page table.
pub struct MemorySet {
    areas: Vec<VmArea>,
    pt: PageTable,
}

impl MemorySet {
    /// The areas of the address space.
    pub closed spec fn areas_view(self) -> Seq<VmArea> {
        self.areas@
    }

    /// The page table's translations.
    pub closed spec fn pt_view(self) -> Map<usize, (usize, PTEFlags)> {
        self.pt.view()
    }

    /// Areas `i` and `j` cover disjoint address ranges.
    pub open spec fn disjoint_at(self, i: int, j: int) -> bool {
        self.areas_view()[i].end <= self.areas_view()[j].start || self.areas_view()[j].end
            <= self.areas_view()[i].start
    }

    /// Every area is well formed, the areas are pairwise disjoint, and the
    /// page table holds exactly the union of the areas' mappings.
    pub closed spec fn wf(self) -> bool {
        &&& self.pt.wf()
        &&& forall|i: int| 0 <= i < self.areas@.len() ==> (#[trigger] self.areas@[i]).wf()
        &&& forall|i: int, j: int|
            0 <= i < self.areas@.len() && 0 <= j < self.areas@.len() && i != j
                ==> #[trigger] self.disjoint_at(i, j)
        &&& forall|i: int, v: usize|
            0 <= i < self.areas@.len() && #[trigger] self.areas@[i].mapping_of().contains_key(v)
                ==> self.pt.view().contains_key(v) && self.pt.view()[v]
                == self.areas@[i].mapping_of()[v]
        &&& forall|v: usize|
            #[trigger] self.pt.view().contains_key(v) ==> exists|i: int|
                0 <= i < self.areas@.len() && self.areas@[i].mapping_of().contains_key(v)
    }

    /// Whether some area of the address space overlaps `[lo, hi)`.
    pub open spec fn spec_overlaps(self, lo: int, hi: int) -> bool {
        exists|i: int|
            0 <= i < self.areas_view().len() && !(#[trigger] self.areas_view()[i].end <= lo || hi
                <= self.areas_view()[i].start)
    }

    /// An empty address space.
    pub fn new() -> (r: MemorySet)
        ensures
            r.wf(),
            r.areas_view().len() == 0,
            r.pt_view() == Map::<usize, (usize, PTEFlags)>::empty(),
    {
        MemorySet { areas: Vec::new(), pt: PageTable::new() }
    }

    /// How many areas the address space holds.
    pub fn area_count(&self) -> (r: usize)
        ensures
            r == self.areas_view().len(),
    {
        self.areas.len()
    }

    /// Map a fresh lazily backed area over `[start, end)` (aligned outward)
    /// and write `data` at its start. Rejects an empty or occupied range;
    /// nothing changes when any error comes back.
    #[verifier::loop_isolation(false)]
    pub fn push_with_data(
        &mut self,
        start: usize,
        end: usize,
        flags: PTEFlags,
        data: &[u8],
        allocator: &mut FrameAllocator,
    ) -> (r: OSResult<usize>)
        requires
            old(self).wf(),
            old(allocator).wf(),
            end + PAGE_SIZE - 1 <= usize::MAX,
        ensures
            final(self).wf(),
            final(allocator).wf(),
            r is Err ==> *final(self) == *old(self),
            start >= end ==> r == OSResult::<usize>::Err(OSError::VmArea_InvalidRange),
            start < end && old(self).spec_overlaps(
                spec_align_down(start as int),
                spec_align_up(end as int),
            ) ==> r == OSResult::<usize>::Err(OSError::VmArea_InvalidRange),
            r is Ok ==> {
                &&& r == OSResult::<usize>::Ok((spec_align_down(start as int) as usize))
                &&& final(self).areas_view().len() == old(self).areas_view().len() + 1
                &&& forall|i: int|
                    0 <= i < old(self).areas_view().len()
                        ==> #[trigger] final(self).areas_view()[i] == old(self).areas_view()[i]
                &&& final(self).areas_view().last().start == spec_align_down(start as int)
                &&& final(self).areas_view().last().end == spec_align_up(end as int)
                &&& final(self).areas_view().last().flags == flags
                &&& final(self).areas_view().last().pma.holds_bytes(0, data@)
            },
            start < end && !old(self).spec_overlaps(
                spec_align_down(start as int),
                spec_align_up(end as int),
            ) && data@.len() <= spec_align_up(end as int) - spec_align_down(start as int)
                && spec_align_up(end as int) - spec_align_down(start as int) <= (
            crate::pma::MAX_PMA_PAGES * PAGE_SIZE) && old(allocator).frames_left()
                > PmAreaLazy::pages_spanned(0, data@.len() as int) ==> r is Ok,
    {
        if start >= end {
            return Err(OSError::VmArea_InvalidRange);
        }
        let astart = align_down(start);
        let aend = align_up(end);
        let mut i: usize = 0;
        while i < self.areas.len()
            invariant
                *self == *old(self),
                *allocator == *old(allocator),
                self.wf(),
                i <= self.areas@.len(),
                forall|j: int|
                    0 <= j < i ==> (#[trigger] self.areas@[j].end <= astart || aend
                        <= self.areas@[j].start),
            decreases self.areas@.len() - i,
        {
            if !(self.areas[i].end <= astart || aend <= self.areas[i].start) {
                proof {
                    assert(old(self).spec_overlaps(astart as int, aend as int));
                }
                return Err(OSError::VmArea_InvalidRange);
            }
            i = i + 1;
        }
        proof {
            let ps = PAGE_SIZE as int;
            vstd::arithmetic::div_mod::lemma_fundamental_div_mod(astart as int, ps);
            vstd::arithmetic::div_mod::lemma_fundamental_div_mod(aend as int, ps);
            let q1 = astart as int / ps;
            let q2 = aend as int / ps;
            assert(aend - astart == (q2 - q1) * ps) by (nonlinear_arith)
                requires
                    astart == q1 * ps,
                    aend == q2 * ps;
            crate::pma::lemma_page_split(q2 - q1, 0);
            assert(page_aligned(aend as int - astart as int));
            crate::addr::lemma_align_up_props(aend as int - astart as int);
            assert(q2 - q1 >= 1) by (nonlinear_arith)
                requires
                    astart == q1 * ps,
                    aend == q2 * ps,
                    astart < aend,
                    ps == 0x1000;
        }
        let pc = crate::addr::page_count(aend - astart);
        proof {
            assert(pc * PAGE_SIZE == aend - astart);
            assert(pc >= 1) by (nonlinear_arith)
                requires
                    pc * PAGE_SIZE == aend - astart,
                    aend - astart >= PAGE_SIZE,
                    PAGE_SIZE == 0x1000;
            assert(pc > crate::pma::MAX_PMA_PAGES ==> aend - astart > crate::pma::MAX_PMA_PAGES * (
            PAGE_SIZE as int)) by (nonlinear_arith)
                requires
                    pc * PAGE_SIZE == aend - astart,
                    PAGE_SIZE == 0x1000;
        }
        let pma = match PmAreaLazy::new(pc) {
            Ok(p) => p,
            Err(e) => {
                return Err(e);
            },
        };
        let mut pma = pma;
        match pma.write(0, data, allocator) {
            Ok(_) => {},
            Err(e) => {
                return Err(e);
            },
        }
        proof {
            assert(pc * PAGE_SIZE == aend - astart);
            assert(spec_align_up(aend as int) == aend as int);
            assert(spec_align_down(astart as int) == astart as int);
        }
        let area = match VmArea::new(astart, aend, flags, pma) {
            Ok(a) => a,
            Err(e) => {
                return Err(e);
            },
        };
        let ghost pt0 = self.pt;
        proof {
            assert forall|k: int| 0 <= k < area.pages_spec() implies !self.pt.view().contains_key(
                #[trigger] ((area.start + k * PAGE_SIZE) as usize),
            ) by {
                crate::vma::lemma_vaddr_of_page(area, k);
                let v = (area.start + k * PAGE_SIZE) as usize;
                if self.pt.view().contains_key(v) {
                    let w = choose|w: int|
                        0 <= w < self.areas@.len() && self.areas@[w].mapping_of().contains_key(v);
                    assert(self.areas@[w].end <= astart || aend <= self.areas@[w].start);
                }
            }
        }
        match area.map_area(&mut self.pt) {
            Ok(_) => {},
            Err(e) => {
                return Err(e);
            },
        }
        let ghost area_snap = area;
        self.areas.push(area);
        proof {
            assert forall|i2: int, v: usize|
                0 <= i2 < self.areas@.len() && #[trigger] self.areas@[i2].mapping_of().contains_key(
                    v,
                ) implies self.pt.view().contains_key(v) && self.pt.view()[v]
                == self.areas@[i2].mapping_of()[v] by {
                if i2 < self.areas@.len() - 1 {
                    assert(self.areas@[i2] == old(self).areas_view()[i2]);
                    assert(pt0.view().contains_key(v) && pt0.view()[v]
                        == self.areas@[i2].mapping_of()[v]);
                }
            }
            assert forall|v: usize| #[trigger] self.pt.view().contains_key(v) implies exists|i2: int|
                0 <= i2 < self.areas@.len() && self.areas@[i2].mapping_of().contains_key(v) by {
                if pt0.view().contains_key(v) {
                    let w = choose|w: int|
                        0 <= w < old(self).areas_view().len() && old(
                            self,
                        ).areas_view()[w].mapping_of().contains_key(v);
                    assert(self.areas@[w].mapping_of().contains_key(v));
                } else {
                    assert(area_snap.mapping_of().contains_key(v));
                    assert(self.areas@[self.areas@.len() - 1].mapping_of().contains_key(v));
                }
            }
            assert forall|i2: int, j2: int|
                0 <= i2 < self.areas@.len() && 0 <= j2 < self.areas@.len() && i2 != j2
                implies #[trigger] self.disjoint_at(i2, j2) by {
                if i2 < self.areas@.len() - 1 && j2 < self.areas@.len() - 1 {
                    assert(old(self).disjoint_at(i2, j2));
                }
            }
        }
        Ok(astart)
    }

    /// Whether some area overlaps `[lo, hi)` without lying fully inside it.
    pub open spec fn spec_partially_overlaps(self, lo: int, hi: int) -> bool {
        exists|i: int|
            0 <= i < self.areas_view().len() && !(#[trigger] self.areas_view()[i].end <= lo || hi
                <= self.areas_view()[i].start) && !(lo <= self.areas_view()[i].start
                && self.areas_view()[i].end <= hi)
    }

    /// Remove every translation for `[rstart, rend)` from the table,
    /// placeholders included.
    #[verifier::loop_isolation(false)]
    fn clear_range(pt: &mut PageTable, rstart: usize, rend: usize)
        requires
            old(pt).wf(),
            page_aligned(rstart as int),
            rstart <= rend,
        ensures
            final(pt).wf(),
            forall|k: usize| rstart <= k < rend ==> !#[trigger] final(pt).view().contains_key(k),
            forall|k: usize|
                !(rstart <= k < rend) ==> (#[trigger] final(pt).view().contains_key(k) <==> old(pt).view().contains_key(k)) && (old(pt).view().contains_key(k) ==> final(pt).view()[k] == old(pt).view()[k]),
    {
        proof {
            old(pt).lemma_keys_aligned();
        }
        let mut v = rstart;
        while v < rend
            invariant
                pt.wf(),
                rstart <= v,
                page_aligned(v as int),
                forall|k: usize| rstart <= k < v ==> !#[trigger] pt.view().contains_key(k),
                forall|k: usize|
                    !(rstart <= k < rend) ==> (#[trigger] pt.view().contains_key(k) <==> old(pt).view().contains_key(k)) && (old(pt).view().contains_key(k) ==> pt.view()[k]
                        == old(pt).view()[k]),
                forall|k: usize|
                    v <= k < rend ==> (#[trigger] pt.view().contains_key(k) <==> old(pt).view().contains_key(k)) && (old(pt).view().contains_key(k) ==> pt.view()[k]
                        == old(pt).view()[k]),
            decreases rend - v,
        {
            match pt.get_entry(v) {
                Some(_) => {
                    match pt.unmap(v) {
                        Ok(_) => {},
                        Err(_) => {},
                    }
                },
                None => {},
            }
            proof {
                pt.lemma_keys_aligned();
                assert forall|k: usize| rstart <= k < v + PAGE_SIZE
                    implies !#[trigger] pt.view().contains_key(k) by {
                    if pt.view().contains_key(k) && v < k {
                        crate::addr::lemma_align_down_props(v as int);
                        crate::addr::lemma_align_down_props(k as int);
                    }
                }
            }
            if rend - v <= PAGE_SIZE {
                return ;
            }
            proof {
                vstd::arithmetic::div_mod::lemma_mod_adds(
                    v as int,
                    PAGE_SIZE as int,
                    PAGE_SIZE as int,
                );
            }
            v = v + PAGE_SIZE;
        }
    }

    /// Unmap `[start, end)` (aligned outward): every area lying fully inside
    /// the range is torn down — frames, translations and placeholders — and
    /// dropped. A range that cuts an area in half is refused, and an empty
    /// range is invalid; nothing changes when any error comes back.
    #[verifier::loop_isolation(false)]
    #[verifier::rlimit(50)]
    pub fn pop(&mut self, start: usize, end: usize) -> (r: OSResult<()>)
        requires
            old(self).wf(),
            end + PAGE_SIZE - 1 <= usize::MAX,
        ensures
            final(self).wf(),
            r is Err ==> *final(self) == *old(self),
            start >= end ==> r == OSResult::<()>::Err(OSError::VmArea_InvalidRange),
            start < end ==> {
                r == if old(self).spec_partially_overlaps(
                    spec_align_down(start as int),
                    spec_align_up(end as int),
                ) {
                    OSResult::<()>::Err(OSError::VmArea_InvalidRange)
                } else {
                    OSResult::<()>::Ok(())
                }
            },
            r is Ok ==> {
                &&& areas_filtered_outside(
                    old(self).areas_view(),
                    final(self).areas_view(),
                    spec_align_down(start as int),
                    spec_align_up(end as int),
                )
                &&& forall|k: usize|
                    spec_align_down(start as int) <= k < spec_align_up(end as int)
                        ==> !#[trigger] final(self).pt_view().contains_key(k)
                &&& forall|k: usize|
                    !(spec_align_down(start as int) <= k < spec_align_up(end as int)) ==> (
                    #[trigger] final(self).pt_view().contains_key(k) <==> old(self).pt_view().contains_key(k)) && (old(self).pt_view().contains_key(k) ==> final(self).pt_view()[k] == old(self).pt_view()[k])
            },
    {
        if start >= end {
            return Err(OSError::VmArea_InvalidRange);
        }
        let astart = align_down(start);
        let aend = align_up(end);
        let mut i: usize = 0;
        while i < self.areas.len()
            invariant
                *self == *old(self),
                i <= self.areas@.len(),
                forall|j: int|
                    0 <= j < i ==> (#[trigger] self.areas@[j].end <= astart || aend
                        <= self.areas@[j].start) || (astart <= self.areas@[j].start
                        && self.areas@[j].end <= aend),
            decreases self.areas@.len() - i,
        {
            let a_start = self.areas[i].start;
            let a_end = self.areas[i].end;
            if !(a_end <= astart || aend <= a_start) && !(astart <= a_start && a_end <= aend) {
                proof {
                    assert(old(self).spec_partially_overlaps(astart as int, aend as int));
                }
                return Err(OSError::VmArea_InvalidRange);
            }
            i = i + 1;
        }
        let mut work: Vec<VmArea> = Vec::new();
        core::mem::swap(&mut work, &mut self.areas);
        let ghost orig = old(self).areas_view();
        let ghost mut idxs: Seq<int> = Seq::empty();
        let mut done: usize = 0;
        while work.len() > 0
            invariant
                done + work@.len() == orig.len(),
                work@ == orig.subrange(done as int, orig.len() as int),
                self.areas@.len() == idxs.len(),
                forall|j: int|
                    0 <= j < idxs.len() ==> 0 <= #[trigger] idxs[j] < done
                        && self.areas@[j] == orig[idxs[j]] && (orig[idxs[j]].end <= astart || aend
                        <= orig[idxs[j]].start),
                forall|j1: int, j2: int|
                    0 <= j1 < j2 < idxs.len() ==> #[trigger] idxs[j1] < #[trigger] idxs[j2],
                forall|w: int|
                    0 <= w < done && !(astart <= orig[w].start && orig[w].end <= aend)
                        ==> exists|j: int| 0 <= j < idxs.len() && #[trigger] idxs[j] == w,
                self.pt == old(self).pt,
            decreases work@.len(),
        {
            let a = work.remove(0);
            proof {
                assert(work@ =~= orig.subrange(done + 1, orig.len() as int));
                assert(a == orig[done as int]);
            }
            if a.end <= astart || aend <= a.start {
                self.areas.push(a);
                proof {
                    let idxs0 = idxs;
                    idxs = idxs.push(done as int);
                    assert forall|w: int|
                        0 <= w < done + 1 && !(astart <= orig[w].start && orig[w].end <= aend)
                        implies exists|j: int| 0 <= j < idxs.len() && #[trigger] idxs[j] == w by {
                        if w == done {
                            assert(idxs[idxs.len() - 1] == w);
                        } else {
                            let j0 = choose|j0: int|
                                0 <= j0 < idxs0.len() && #[trigger] idxs0[j0] == w;
                            assert(idxs[j0] == w);
                        }
                    }
                }
            } else {
                proof {
                    assert(astart <= orig[done as int].start && orig[done as int].end <= aend);
                }
            }
            done = done + 1;
        }
        MemorySet::clear_range(&mut self.pt, astart, aend);
        proof {
            let post = *self;
            let pre = *old(self);
            assert forall|i2: int, j2: int|
                0 <= i2 < post.areas@.len() && 0 <= j2 < post.areas@.len() && i2 != j2
                implies #[trigger] post.disjoint_at(i2, j2) by {
                assert(pre.disjoint_at(idxs[i2], idxs[j2]));
            }
            assert forall|i2: int, v: usize|
                0 <= i2 < post.areas@.len() && #[trigger] post.areas@[i2].mapping_of().contains_key(
                    v,
                ) implies post.pt.view().contains_key(v) && post.pt.view()[v]
                == post.areas@[i2].mapping_of()[v] by {
                let w = idxs[i2];
                assert(post.areas@[i2] == pre.areas@[w]);
                assert(pre.areas@[w].mapping_of().contains_key(v));
                assert(pre.pt.view().contains_key(v) && pre.pt.view()[v]
                    == pre.areas@[w].mapping_of()[v]);
                assert(pre.areas@[w].start <= v < pre.areas@[w].end);
                assert(!(astart <= v < aend));
                assert(post.pt.view().contains_key(v) <==> pre.pt.view().contains_key(v));
                assert(post.pt.view()[v] == pre.pt.view()[v]);
            }
            assert forall|v: usize| #[trigger] post.pt.view().contains_key(v) implies exists|i2: int|
                0 <= i2 < post.areas@.len() && post.areas@[i2].mapping_of().contains_key(v) by {
                assert(pre.pt.view().contains_key(v));
                let w = choose|w: int|
                    0 <= w < pre.areas@.len() && pre.areas@[w].mapping_of().contains_key(v);
                assert(pre.areas@[w].start <= v < pre.areas@[w].end);
                assert(!(astart <= v < aend));
                if astart <= pre.areas@[w].start && pre.areas@[w].end <= aend {
                    assert(astart <= v < aend);
                }
                let j = choose|j: int| 0 <= j < idxs.len() && #[trigger] idxs[j] == w;
                assert(post.areas@[j].mapping_of().contains_key(v));
            }
            assert forall|i2: int| 0 <= i2 < post.areas@.len() implies (
            #[trigger] post.areas@[i2]).wf() by {
                assert(pre.areas@[idxs[i2]].wf());
            }
            assert(post.wf());
            assert(astart as int == spec_align_down(start as int));
            assert(aend as int == spec_align_up(end as int));
            lemma_filter_outside(
                old(self).areas_view(),
                self.areas_view(),
                idxs,
                astart as int,
                aend as int,
            );
            assert(astart as int == spec_align_down(start as int));
            assert(aend as int == spec_align_up(end as int));
            assert(areas_filtered_outside(
                old(self).areas_view(),
                self.areas_view(),
                astart as int,
                aend as int,
            )) by {
                assert forall|j: int| 0 <= j < self.areas_view().len() implies exists|i2: int|
                    0 <= i2 < old(self).areas_view().len() && old(self).areas_view()[i2]
                        == #[trigger] self.areas_view()[j] && (old(self).areas_view()[i2].end
                        <= astart as int || aend as int <= old(self).areas_view()[i2].start) by {
                    let w = idxs[j];
                    assert(0 <= w < old(self).areas_view().len() && old(self).areas_view()[w]
                        == self.areas_view()[j] && (old(self).areas_view()[w].end <= astart as int
                        || aend as int <= old(self).areas_view()[w].start));
                }
                assert forall|i2: int|
                    0 <= i2 < old(self).areas_view().len() && !(astart as int <= old(
                        self,
                    ).areas_view()[i2].start && old(self).areas_view()[i2].end <= aend as int)
                    implies exists|j: int|
                        0 <= j < self.areas_view().len() && #[trigger] self.areas_view()[j] == old(
                            self,
                        ).areas_view()[i2] by {
                    let j = choose|j: int| 0 <= j < idxs.len() && #[trigger] idxs[j] == i2;
                    assert(0 <= j < self.areas_view().len() && self.areas_view()[j] == old(
                        self,
                    ).areas_view()[i2]);
                }
            }
            assert(astart as int == spec_align_down(start as int));
            assert(aend as int == spec_align_up(end as int));
            assert forall|j: int| 0 <= j < self.areas_view().len() implies exists|i2: int|
                0 <= i2 < old(self).areas_view().len() && old(self).areas_view()[i2]
                    == #[trigger] self.areas_view()[j] && (old(self).areas_view()[i2].end
                    <= spec_align_down(start as int) || spec_align_up(end as int) <= old(
                    self,
                ).areas_view()[i2].start) by {
                let w = idxs[j];
                assert(0 <= w < old(self).areas_view().len() && old(self).areas_view()[w]
                    == self.areas_view()[j] && (old(self).areas_view()[w].end <= spec_align_down(
                    start as int,
                ) || spec_align_up(end as int) <= old(self).areas_view()[w].start));
            }
            assert forall|i2: int|
                0 <= i2 < old(self).areas_view().len() && !(spec_align_down(start as int) <= old(
                    self,
                ).areas_view()[i2].start && old(self).areas_view()[i2].end <= spec_align_up(
                    end as int,
                )) implies exists|j: int|
                    0 <= j < self.areas_view().len() && #[trigger] self.areas_view()[j] == old(
                        self,
                    ).areas_view()[i2] by {
                let j = choose|j: int| 0 <= j < idxs.len() && #[trigger] idxs[j] == i2;
                assert(0 <= j < self.areas_view().len() && self.areas_view()[j] == old(
                    self,
                ).areas_view()[i2]);
            }
            assert forall|k: usize|
                spec_align_down(start as int) <= k < spec_align_up(end as int)
                implies !#[trigger] post.pt.view().contains_key(k) by {
                assert(astart <= k < aend);
            }
            assert forall|k: usize|
                !(spec_align_down(start as int) <= k < spec_align_up(end as int)) implies (
            #[trigger] post.pt.view().contains_key(k) <==> pre.pt.view().contains_key(k)) && (
            pre.pt.view().contains_key(k) ==> post.pt.view()[k] == pre.pt.view()[k]) by {
                assert(!(astart <= k < aend));
            }
        }
        Ok(())
    }

    /// Duplicate the address space for a fork: every area is copied eagerly,
    /// each resident page into a fresh frame of its own, and mapped into a
    /// fresh page table. Exhaustion surfaces only when the allocator is
    /// truly drained.
    #[verifier::loop_isolation(false)]
    pub fn copy_as_fork(&self, allocator: &mut FrameAllocator) -> (r: OSResult<MemorySet>)
        requires
            self.wf(),
            old(allocator).wf(),
        ensures
            final(allocator).wf(),
            r is Err ==> r == OSResult::<MemorySet>::Err(OSError::Memory_RunOutOfMemory) && final(allocator).frames_left() == 0,
            r is Ok ==> {
                &&& r->Ok_0.wf()
                &&& r->Ok_0.areas_view().len() == self.areas_view().len()
                &&& forall|i: int|
                    0 <= i < self.areas_view().len() ==> {
                        &&& (#[trigger] r->Ok_0.areas_view()[i]).start
                            == self.areas_view()[i].start
                        &&& r->Ok_0.areas_view()[i].end == self.areas_view()[i].end
                        &&& r->Ok_0.areas_view()[i].flags == self.areas_view()[i].flags
                        &&& r->Ok_0.areas_view()[i].pma.page_count_spec()
                            == self.areas_view()[i].pma.page_count_spec()
                        &&& forall|p: int|
                            0 <= p < self.areas_view()[i].pages_spec() ==> (
                            #[trigger] r->Ok_0.areas_view()[i].pma.backed(p)
                                <==> self.areas_view()[i].pma.backed(p))
                        &&& forall|p: int|
                            0 <= p < self.areas_view()[i].pages_spec()
                                ==> #[trigger] r->Ok_0.areas_view()[i].pma.page_bytes(p)
                                == self.areas_view()[i].pma.page_bytes(p)
                    }
            },
    {
        let mut new_ms = MemorySet::new();
        let mut i: usize = 0;
        while i < self.areas.len()
            invariant
                self.wf(),
                allocator.wf(),
                i <= self.areas@.len(),
                new_ms.wf(),
                new_ms.areas@.len() == i,
                forall|j: int|
                    0 <= j < i ==> {
                        &&& (#[trigger] new_ms.areas@[j]).start == self.areas@[j].start
                        &&& new_ms.areas@[j].end == self.areas@[j].end
                        &&& new_ms.areas@[j].flags == self.areas@[j].flags
                        &&& new_ms.areas@[j].pma.page_count_spec()
                            == self.areas@[j].pma.page_count_spec()
                        &&& forall|p: int|
                            0 <= p < self.areas@[j].pages_spec() ==> (
                            #[trigger] new_ms.areas@[j].pma.backed(p) <==> self.areas@[j].pma.backed(
                                p,
                            ))
                        &&& forall|p: int|
                            0 <= p < self.areas@[j].pages_spec()
                                ==> #[trigger] new_ms.areas@[j].pma.page_bytes(p)
                                == self.areas@[j].pma.page_bytes(p)
                    },
            decreases self.areas@.len() - i,
        {
            let new_area = match self.areas[i].copy_to_new_area_with_data(allocator) {
                Ok(a) => a,
                Err(e) => {
                    return Err(e);
                },
            };
            let ghost nm0 = new_ms;
            proof {
                assert forall|k: int|
                    0 <= k < new_area.pages_spec() implies !new_ms.pt.view().contains_key(
                    #[trigger] ((new_area.start + k * PAGE_SIZE) as usize),
                ) by {
                    crate::vma::lemma_vaddr_of_page(new_area, k);
                    let v = (new_area.start + k * PAGE_SIZE) as usize;
                    if new_ms.pt.view().contains_key(v) {
                        let w = choose|w: int|
                            0 <= w < new_ms.areas@.len()
                                && new_ms.areas@[w].mapping_of().contains_key(v);
                        assert(self.disjoint_at(w, i as int));
                    }
                }
            }
            match new_area.map_area(&mut new_ms.pt) {
                Ok(_) => {},
                Err(e) => {
                    return Err(e);
                },
            }
            let ghost area_snap = new_area;
            new_ms.areas.push(new_area);
            proof {
                assert forall|i2: int, j2: int|
                    0 <= i2 < new_ms.areas@.len() && 0 <= j2 < new_ms.areas@.len() && i2 != j2
                    implies #[trigger] new_ms.disjoint_at(i2, j2) by {
                    assert(self.disjoint_at(i2, j2));
                }
                assert forall|i2: int, v: usize|
                    0 <= i2 < new_ms.areas@.len()
                        && #[trigger] new_ms.areas@[i2].mapping_of().contains_key(v)
                    implies new_ms.pt.view().contains_key(v) && new_ms.pt.view()[v]
                    == new_ms.areas@[i2].mapping_of()[v] by {
                    if i2 < new_ms.areas@.len() - 1 {
                        assert(nm0.areas@[i2].mapping_of().contains_key(v));
                        assert(nm0.pt.view().contains_key(v) && nm0.pt.view()[v]
                            == nm0.areas@[i2].mapping_of()[v]);
                    } else {
                        assert(area_snap.mapping_of().contains_key(v));
                    }
                }
                assert forall|v: usize| #[trigger] new_ms.pt.view().contains_key(v)
                    implies exists|i2: int|
                        0 <= i2 < new_ms.areas@.len()
                            && new_ms.areas@[i2].mapping_of().contains_key(v) by {
                    if nm0.pt.view().contains_key(v) {
                        let w = choose|w: int|
                            0 <= w < nm0.areas@.len() && nm0.areas@[w].mapping_of().contains_key(
                                v,
                            );
                        assert(new_ms.areas@[w].mapping_of().contains_key(v));
                    } else {
                        assert(new_ms.areas@[new_ms.areas@.len() - 1].mapping_of().contains_key(
                            v,
                        ));
                    }
                }
            }
            i = i + 1;
        }
        Ok(new_ms)
    }

    /// Whether some area of the address space contains `vaddr`.
    pub open spec fn has_area_for(self, vaddr: usize) -> bool {
        exists|i: int|
            0 <= i < self.areas_view().len() && self.areas_view()[i].start <= vaddr
                < (#[trigger] self.areas_view()[i]).end
    }

    /// The index of the area containing `vaddr`; by disjointness there is at
    /// most one.
    pub open spec fn area_index_of(self, vaddr: usize) -> int {
        choose|i: int|
            0 <= i < self.areas_view().len() && self.areas_view()[i].start <= vaddr
                < (#[trigger] self.areas_view()[i]).end
    }

    /// Route a page fault at `vaddr` to the area containing it. A fault
    /// outside every area is an unmapped-address error. Under the address
    /// space invariant, the entry state mirrors the page's backing: a fault
    /// on an already-backed page finds a valid entry — the
    /// TLB-desynchronization error — while a fault on an unbacked page
    /// demand-allocates it and installs its translation.
    #[verifier::loop_isolation(false)]
    #[verifier::rlimit(50)]
    pub fn handle_page_fault(
        &mut self,
        vaddr: usize,
        access_flags: PTEFlags,
        allocator: &mut FrameAllocator,
    ) -> (r: OSResult<()>)
        requires
            old(self).wf(),
            old(allocator).wf(),
        ensures
            final(self).wf(),
            final(allocator).wf(),
            final(allocator).frames_left() >= old(allocator).frames_left() - 1,
            !old(self).has_area_for(vaddr) ==> r == OSResult::<()>::Err(
                OSError::PageTable_PageNotMapped,
            ) && *final(self) == *old(self) && *final(allocator) == *old(allocator),
            old(self).has_area_for(vaddr) ==> fault_dispatch(
                *old(self),
                *final(self),
                *old(allocator),
                *final(allocator),
                vaddr,
                access_flags,
                r,
            ),
    {
        let n = self.areas.len();
        let mut i: usize = 0;
        while i < n
            invariant
                *self == *old(self),
                *allocator == *old(allocator),
                i <= n,
                n == self.areas@.len(),
                forall|j: int|
                    0 <= j < i ==> !((#[trigger] self.areas@[j]).start <= vaddr
                        < self.areas@[j].end),
            decreases n - i,
        {
            if self.areas[i].start <= vaddr && vaddr < self.areas[i].end {
                proof {
                    assert(old(self).areas_view()[i as int].start <= vaddr < old(
                        self,
                    ).areas_view()[i as int].end);
                    assert(old(self).has_area_for(vaddr));
                    let w = old(self).area_index_of(vaddr);
                    assert(0 <= w < self.areas@.len() && self.areas@[w].start <= vaddr
                        < self.areas@[w].end);
                    if w != i {
                        assert(self.disjoint_at(w, i as int));
                    }
                    assert(w == i);
                }
                let ghost a0 = self.areas@[i as int];
                let ghost pt0 = self.pt;
                let off = vaddr - self.areas[i].start;
                proof {
                    crate::pma::lemma_off_page(off as int, a0.pages_spec());
                    crate::vma::lemma_vaddr_of_page(a0, off as int / (PAGE_SIZE as int));
                    let idx = off as int / (PAGE_SIZE as int);
                    let pv = a0.page_vaddr(idx);
                    assert(a0.mapping_of().contains_key(pv)) by {
                        crate::pma::lemma_page_split(idx, 0);
                    }
                    assert(self.pt.view().contains_key(pv) && self.pt.view()[pv]
                        == a0.mapping_of()[pv]);
                }
                let res = self.areas[i].handle_page_fault(
                    off,
                    access_flags,
                    &mut self.pt,
                    allocator,
                );
                proof {
                    let idx = off as int / (PAGE_SIZE as int);
                    let pv = a0.page_vaddr(idx);
                    let a1 = self.areas@[i as int];
                    if a0.flags.spec_contains(access_flags) {
                        if a0.pma.backed(idx) {
                            crate::vma::lemma_mapping_preserved(a0, a1);
                        } else if old(allocator).frames_left() > 0 {
                            crate::vma::lemma_mapping_insert(a0, a1, idx);
                        }
                    }
                    assert forall|i2: int, j2: int|
                        0 <= i2 < self.areas@.len() && 0 <= j2 < self.areas@.len() && i2 != j2
                        implies #[trigger] self.disjoint_at(i2, j2) by {
                        assert(old(self).disjoint_at(i2, j2));
                    }
                    assert forall|i2: int, v: usize|
                        0 <= i2 < self.areas@.len()
                            && #[trigger] self.areas@[i2].mapping_of().contains_key(v)
                        implies self.pt.view().contains_key(v) && self.pt.view()[v]
                        == self.areas@[i2].mapping_of()[v] by {
                        if i2 != i {
                            assert(self.areas@[i2] == old(self).areas_view()[i2]);
                            assert(pt0.view().contains_key(v) && pt0.view()[v]
                                == self.areas@[i2].mapping_of()[v]);
                            if v == pv {
                                assert(a0.mapping_of().contains_key(pv));
                                assert(old(self).disjoint_at(i2, i as int));
                                assert(false);
                            }
                        }
                    }
                    assert forall|v: usize| #[trigger] self.pt.view().contains_key(v)
                        implies exists|i2: int|
                            0 <= i2 < self.areas@.len()
                                && self.areas@[i2].mapping_of().contains_key(v) by {
                        if pt0.view().contains_key(v) {
                            let w = choose|w: int|
                                0 <= w < old(self).areas_view().len() && old(
                                    self,
                                ).areas_view()[w].mapping_of().contains_key(v);
                            assert(self.areas@[w].mapping_of().contains_key(v));
                        } else {
                            assert(self.areas@[i as int].mapping_of().contains_key(v));
                        }
                    }
                    // the dispatch outcome, case by case
                    let iv = i as int;
                    assert(old(self).area_index_of(vaddr) == iv);
                    if !a0.flags.spec_contains(access_flags) {
                        assert(self.areas@ =~= old(self).areas_view());
                    } else if a0.pma.backed(idx) {
                        assert(self.areas@.len() == old(self).areas_view().len());
                        assert forall|j2: int|
                            0 <= j2 < old(self).areas_view().len() && j2 != iv
                            implies #[trigger] self.areas@[j2] == old(self).areas_view()[j2] by {}
                    } else if old(allocator).frames_left() == 0 {
                        assert(self.areas@ =~= old(self).areas_view());
                    } else {
                        assert((self.areas@[iv]).wf());
                        assert(self.areas@[iv].pma.frames_view()[idx] is Some);
                        assert(self.areas@[iv].pma.frames_view()[idx]->Some_0.wf());
                        assert(self.areas@[iv].pma.page_bytes(idx).len() == PAGE_SIZE);
                        assert(a0.pma.page_bytes(idx) == crate::frame::zero_page());
                        assert(self.areas@[iv].pma.page_bytes(idx) =~= crate::frame::zero_page())
                            by {
                            assert forall|m: int| 0 <= m < PAGE_SIZE
                                implies #[trigger] self.areas@[iv].pma.page_bytes(idx)[m]
                                    == 0u8 by {
                                crate::pma::lemma_page_split(idx, m);
                                assert(self.areas@[iv].pma.byte_at(idx * PAGE_SIZE + m)
                                    == a0.pma.byte_at(idx * PAGE_SIZE + m));
                                assert(a0.pma.page_bytes(idx)[m] == 0u8);
                            }
                        }
                    }
                    assert(fault_dispatch(
                        *old(self),
                        *self,
                        *old(allocator),
                        *allocator,
                        vaddr,
                        access_flags,
                        res,
                    ));
                }
                return res;
            }
            i = i + 1;
        }
        Err(OSError::PageTable_PageNotMapped)
    }

    /// Reset the address space, as `exec` does before loading the new image:
    /// every user area and every translation is dropped, which releases the
    /// areas' frames.
    pub fn clear_user_and_save_kernel(&mut self)
        ensures
            final(self).wf(),
            final(self).areas_view().len() == 0,
            final(self).pt_view() == Map::<usize, (usize, PTEFlags)>::empty(),
    {
        self.areas = Vec::new();
        self.pt = PageTable::new();
    }

    /// Flush every cached translation of this address space.
    pub fn flush_tlb(&mut self)
        requires
            old(self).wf(),
        ensures
            final(self).wf(),
            final(self).areas_view() == old(self).areas_view(),
            final(self).pt_view() == old(self).pt_view(),
    {
        self.pt.flush_tlb(None);
        proof {
            MemorySet::lemma_wf_same(*old(self), *self);
        }
    }

    /// Well-formedness depends only on the areas and the page table's map
    /// view.
    proof fn lemma_wf_same(pre: MemorySet, post: MemorySet)
        requires
            pre.wf(),
            post.areas@ == pre.areas@,
            post.pt.view() == pre.pt.view(),
            post.pt.wf(),
        ensures
            post.wf(),
    {
        assert forall|i: int| 0 <= i < post.areas@.len() implies (#[trigger] post.areas@[i]).wf()
            by {
            assert(pre.areas@[i].wf());
        }
        assert forall|i: int, j: int|
            0 <= i < post.areas@.len() && 0 <= j < post.areas@.len() && i != j
            implies #[trigger] post.disjoint_at(i, j) by {
            assert(pre.disjoint_at(i, j));
        }
        assert forall|i: int, v: usize|
            0 <= i < post.areas@.len() && #[trigger] post.areas@[i].mapping_of().contains_key(v)
            implies post.pt.view().contains_key(v) && post.pt.view()[v]
            == post.areas@[i].mapping_of()[v] by {
            assert(pre.areas@[i].mapping_of().contains_key(v));
        }
        assert forall|v: usize| #[trigger] post.pt.view().contains_key(v) implies exists|i: int|
            0 <= i < post.areas@.len() && post.areas@[i].mapping_of().contains_key(v) by {
            let w = choose|w: int|
                0 <= w < pre.areas@.len() && pre.areas@[w].mapping_of().contains_key(v);
            assert(post.areas@[w].mapping_of().contains_key(v));
        }
    }
}

} // verus!
