//! Lazily backed physical memory areas.
//!
//! A `PmAreaLazy` reserves a run of pages without backing them: a slot holds
//! `None` until the page is first touched, at which point a zeroed frame is
//! allocated for it. Unbacked pages read as zeroes, which is exactly what
//! their demand allocation will produce.

use vstd::prelude::*;

use crate::constants::{PAGE_SIZE, USER_VIRT_ADDR_LIMIT};
use crate::error::{OSError, OSResult};
use crate::frame::{zero_page, Frame, FrameAllocator};

verus! {

/// The most pages one lazily backed area may reserve.
pub const MAX_PMA_PAGES: usize = USER_VIRT_ADDR_LIMIT / PAGE_SIZE;

/// Page index and in-page remainder of a byte offset.
pub proof fn lemma_page_split(idx: int, r: int)
    requires
        0 <= idx,
        0 <= r < PAGE_SIZE,
    ensures
        (idx * PAGE_SIZE + r) / (PAGE_SIZE as int) == idx,
        (idx * PAGE_SIZE + r) % (PAGE_SIZE as int) == r,
{
    vstd::arithmetic::div_mod::lemma_fundamental_div_mod_converse(
        idx * PAGE_SIZE + r,
        PAGE_SIZE as int,
        idx,
        r,
    );
}

/// A byte offset inside an area of `count` pages decomposes into a page
/// index and an in-page position.
pub proof fn lemma_off_page(off: int, count: int)
    requires
        0 <= off,
        off < count * PAGE_SIZE,
    ensures
        0 <= off / (PAGE_SIZE as int) < count,
        off == (off / (PAGE_SIZE as int)) * PAGE_SIZE + off % (PAGE_SIZE as int),
        0 <= off % (PAGE_SIZE as int) < PAGE_SIZE,
{
    vstd::arithmetic::div_mod::lemma_fundamental_div_mod(off, PAGE_SIZE as int);
    vstd::arithmetic::div_mod::lemma_mod_bound(off, PAGE_SIZE as int);
    let q = off / (PAGE_SIZE as int);
    let r = off % (PAGE_SIZE as int);
    assert(0 <= q < count) by (nonlinear_arith)
        requires
            off == q * (PAGE_SIZE as int) + r,
            0 <= r < PAGE_SIZE,
            0 <= off,
            off < count * PAGE_SIZE,
            PAGE_SIZE == 0x1000;
}

/// A longer range never spans fewer pages.
pub proof fn lemma_pages_spanned_monotone(offset: int, len1: int, len2: int)
    requires
        0 <= offset,
        0 <= len1 <= len2,
    ensures
        0 <= PmAreaLazy::pages_spanned(offset, len1) <= PmAreaLazy::pages_spanned(offset, len2),
{
    if 0 < len1 {
        vstd::arithmetic::div_mod::lemma_div_is_ordered(
            offset + len1 - 1,
            offset + len2 - 1,
            PAGE_SIZE as int,
        );
        vstd::arithmetic::div_mod::lemma_div_is_ordered(offset, offset + len1 - 1, PAGE_SIZE as int);
    } else if 0 < len2 {
        vstd::arithmetic::div_mod::lemma_div_is_ordered(offset, offset + len2 - 1, PAGE_SIZE as int);
    }
}

/// Extending a page-aligned prefix by a run that stays within one page
/// spans exactly one more page.
pub proof fn lemma_pages_spanned_step(offset: int, processed: int, n: int, idx: int)
    requires
        0 <= offset,
        0 <= processed,
        1 <= n,
        idx == (offset + processed) / (PAGE_SIZE as int),
        (offset + processed) % (PAGE_SIZE as int) + n <= PAGE_SIZE,
        processed == 0 || (offset + processed) % (PAGE_SIZE as int) == 0,
    ensures
        PmAreaLazy::pages_spanned(offset, processed + n) == PmAreaLazy::pages_spanned(
            offset,
            processed,
        ) + 1,
{
    let ps = PAGE_SIZE as int;
    let cur = offset + processed;
    vstd::arithmetic::div_mod::lemma_fundamental_div_mod(cur, ps);
    vstd::arithmetic::div_mod::lemma_mod_bound(cur, ps);
    let pgoff = cur % ps;
    lemma_page_split(idx, pgoff + n - 1);
    assert((cur + n - 1) / ps == idx);
    if processed == 0 {
    } else {
        assert(pgoff == 0);
        assert(cur == idx * ps);
        assert(cur >= 1);
        assert(idx >= 1) by (nonlinear_arith)
            requires
                cur == idx * ps,
                cur >= 1,
                ps == 0x1000;
        lemma_page_split(idx - 1, ps - 1);
        assert((idx - 1) * ps + (ps - 1) == cur - 1) by (nonlinear_arith)
            requires
                cur == idx * ps,
                ps == 0x1000;
        assert((cur - 1) / ps == idx - 1);
    }
}

/// A discontiguous physical area whose pages are allocated on first touch.
pub struct PmAreaLazy {
    frames: Vec<Option<Frame>>,
}

impl PmAreaLazy {
    /// The area's slots, one per reserved page.
    pub closed spec fn frames_view(self) -> Seq<Option<Frame>> {
        self.frames@
    }

    /// How many pages the area reserves.
    pub open spec fn page_count_spec(self) -> nat {
        self.frames_view().len()
    }

    /// The area reserves at least one page, not more than the user address
    /// space can hold, and every backed slot holds a whole page.
    pub open spec fn wf(self) -> bool {
        &&& 1 <= self.page_count_spec() <= MAX_PMA_PAGES
        &&& forall|i: int|
            0 <= i < self.page_count_spec() && self.frames_view()[i] is Some
                ==> #[trigger] self.frames_view()[i]->Some_0.wf()
    }

    /// Total bytes the area covers.
    pub open spec fn size_spec(self) -> int {
        self.page_count_spec() * PAGE_SIZE
    }

    /// Whether page `i` is backed by a physical frame.
    pub open spec fn backed(self, i: int) -> bool {
        self.frames_view()[i] is Some
    }

    /// The physical address backing page `i`.
    pub open spec fn paddr_of(self, i: int) -> usize {
        self.frames_view()[i]->Some_0.spec_paddr()
    }

    /// The bytes of page `i`; an unbacked page reads as zeroes, which is
    /// what its demand allocation will produce.
    pub open spec fn page_bytes(self, i: int) -> Seq<u8> {
        if self.frames_view()[i] is Some {
            self.frames_view()[i]->Some_0.bytes()
        } else {
            zero_page()
        }
    }

    /// The byte at offset `off` of the area.
    pub open spec fn byte_at(self, off: int) -> u8 {
        self.page_bytes(off / (PAGE_SIZE as int))[off % (PAGE_SIZE as int)]
    }

    /// The two areas hold the same bytes everywhere but in `[lo, hi)`.
    pub open spec fn bytes_unchanged_outside(pre: PmAreaLazy, post: PmAreaLazy, lo: int, hi: int) -> bool {
        &&& pre.page_count_spec() == post.page_count_spec()
        &&& forall|off: int|
            0 <= off < pre.size_spec() && !(lo <= off < hi)
                ==> #[trigger] post.byte_at(off) == pre.byte_at(off)
    }

    /// The bytes `data` stand at offset `lo` of the area.
    pub open spec fn holds_bytes(self, lo: int, data: Seq<u8>) -> bool {
        forall|k: int| 0 <= k < data.len() ==> #[trigger] self.byte_at(lo + k) == data[k]
    }

    /// Backed pages stay backed, at the same physical address.
    pub open spec fn backing_monotone(pre: PmAreaLazy, post: PmAreaLazy) -> bool {
        &&& pre.page_count_spec() == post.page_count_spec()
        &&& forall|i: int|
            0 <= i < pre.page_count_spec() && pre.backed(i)
                ==> #[trigger] post.backed(i) && post.paddr_of(i) == pre.paddr_of(i)
    }

    /// Reserve `page_count` pages, none of them backed yet. Zero pages are
    /// an invalid range; more pages than the user address space can hold
    /// count as memory exhaustion.
    pub fn new(page_count: usize) -> (r: OSResult<PmAreaLazy>)
        ensures
            page_count == 0 ==> r == OSResult::<PmAreaLazy>::Err(OSError::PmArea_InvalidRange),
            page_count > MAX_PMA_PAGES ==> r == OSResult::<PmAreaLazy>::Err(
                OSError::Memory_RunOutOfMemory,
            ),
            1 <= page_count <= MAX_PMA_PAGES ==> {
                &&& r is Ok
                &&& r->Ok_0.wf()
                &&& r->Ok_0.page_count_spec() == page_count
                &&& forall|i: int| 0 <= i < page_count ==> !#[trigger] r->Ok_0.backed(i)
            },
    {
        if page_count == 0 {
            return Err(OSError::PmArea_InvalidRange);
        }
        if page_count > MAX_PMA_PAGES {
            return Err(OSError::Memory_RunOutOfMemory);
        }
        let mut frames: Vec<Option<Frame>> = Vec::new();
        let mut i: usize = 0;
        while i < page_count
            invariant
                i <= page_count,
                frames@.len() == i,
                forall|j: int| 0 <= j < i ==> frames@[j] is None,
            decreases page_count - i,
        {
            frames.push(None);
            i = i + 1;
        }
        Ok(PmAreaLazy { frames })
    }

    /// How many pages the area reserves.
    pub fn page_count(&self) -> (r: usize)
        ensures
            r == self.page_count_spec(),
    {
        self.frames.len()
    }

    /// Total bytes the area covers.
    pub fn size(&self) -> (r: usize)
        requires
            self.wf(),
        ensures
            r == self.size_spec(),
    {
        proof {
            assert(self.frames@.len() * PAGE_SIZE <= MAX_PMA_PAGES * PAGE_SIZE) by (nonlinear_arith)
                requires self.frames@.len() <= MAX_PMA_PAGES, PAGE_SIZE == 0x1000;
        }
        self.frames.len() * PAGE_SIZE
    }

    /// The physical address backing page `idx`, without allocating: `None`
    /// for a reserved but unbacked page.
    pub fn frame_paddr(&self, idx: usize) -> (r: Option<usize>)
        requires
            self.wf(),
            idx < self.page_count_spec(),
        ensures
            r is Some <==> self.backed(idx as int),
            r is Some ==> r->Some_0 == self.paddr_of(idx as int),
    {
        match &self.frames[idx] {
            Some(f) => Some(f.start_paddr()),
            None => None,
        }
    }

    /// The physical address backing page `idx`. If the page is unbacked and
    /// `need_alloc` is set, a zeroed frame is allocated for it: exactly once
    /// per page, since a backed page is returned as it stands.
    pub fn get_frame(&mut self, idx: usize, need_alloc: bool, allocator: &mut FrameAllocator)
        -> (r: OSResult<Option<usize>>)
        requires
            old(self).wf(),
            old(allocator).wf(),
            idx < old(self).page_count_spec(),
        ensures
            final(self).wf(),
            final(allocator).wf(),
            PmAreaLazy::bytes_unchanged_outside(*old(self), *final(self), 0, 0),
            PmAreaLazy::backing_monotone(*old(self), *final(self)),
            old(self).backed(idx as int) ==> {
                &&& *final(self) == *old(self)
                &&& *final(allocator) == *old(allocator)
                &&& r == OSResult::<Option<usize>>::Ok(Some(old(self).paddr_of(idx as int)))
            },
            !old(self).backed(idx as int) && !need_alloc ==> {
                &&& *final(self) == *old(self)
                &&& *final(allocator) == *old(allocator)
                &&& r == OSResult::<Option<usize>>::Ok(None::<usize>)
            },
            !old(self).backed(idx as int) && need_alloc ==> {
                if old(allocator).frames_left() == 0 {
                    &&& *final(self) == *old(self)
                    &&& *final(allocator) == *old(allocator)
                    &&& r == OSResult::<Option<usize>>::Err(OSError::Memory_RunOutOfMemory)
                } else {
                    &&& final(self).backed(idx as int)
                    &&& r == OSResult::<Option<usize>>::Ok(Some(final(self).paddr_of(idx as int)))
                    &&& forall|i: int|
                        0 <= i < old(self).page_count_spec() && i != idx
                            ==> #[trigger] final(self).frames_view()[i]
                                == old(self).frames_view()[i]
                    &&& final(self).page_bytes(idx as int) == zero_page()
                    &&& final(allocator).frames_left() == old(allocator).frames_left() - 1
                }
            },
    {
        if need_alloc && self.frames[idx].is_none() {
            match allocator.allocate_frame() {
                Some(frame) => {
                    let ghost fr = frame;
                    self.frames.set(idx, Some(frame));
                    proof {
                        assert(self.frames_view() =~= old(self).frames_view().update(
                            idx as int,
                            Some(fr),
                        ));
                        assert forall|i: int|
                            0 <= i < self.page_count_spec() && self.frames_view()[i] is Some
                            implies #[trigger] self.frames_view()[i]->Some_0.wf() by {
                            if i != idx {
                                assert(self.frames_view()[i] == old(self).frames_view()[i]);
                                assert(old(self).frames_view()[i]->Some_0.wf());
                            } else {
                                assert(self.frames_view()[i] == Some(fr));
                                assert(fr.wf());
                            }
                        }
                        assert(self.wf());
                        assert(forall|off: int|
                            0 <= off < old(self).size_spec()
                                ==> #[trigger] self.byte_at(off) == old(self).byte_at(off)) by {
                            assert forall|off: int| 0 <= off < old(self).size_spec()
                                implies #[trigger] self.byte_at(off) == old(self).byte_at(off) by {
                                vstd::arithmetic::div_mod::lemma_mod_bound(
                                    off,
                                    PAGE_SIZE as int,
                                );
                                vstd::arithmetic::div_mod::lemma_fundamental_div_mod(
                                    off,
                                    PAGE_SIZE as int,
                                );
                            }
                        }
                    }
                },
                None => {
                    return Err(OSError::Memory_RunOutOfMemory);
                },
            }
        }
        match &self.frames[idx] {
            Some(f) => Ok(Some(f.start_paddr())),
            None => Ok(None),
        }
    }

    /// Whether the byte range `[offset, offset + len)` lies inside the area.
    pub open spec fn in_range(self, offset: int, len: int) -> bool {
        offset < self.size_spec() && offset + len <= self.size_spec()
    }

    /// How many pages the byte range `[offset, offset + len)` touches.
    pub open spec fn pages_spanned(offset: int, len: int) -> int {
        if len <= 0 {
            0
        } else {
            (offset + len - 1) / (PAGE_SIZE as int) - offset / (PAGE_SIZE as int) + 1
        }
    }

    /// Copy `src` into the area at `offset`. Every page the range touches is
    /// demand-allocated, so a fresh area needs at most one frame per spanned
    /// page; memory exhaustion surfaces only when the allocator is truly
    /// drained.
    pub fn write(&mut self, offset: usize, src: &[u8], allocator: &mut FrameAllocator) -> (r:
        OSResult<usize>)
        requires
            old(self).wf(),
            old(allocator).wf(),
        ensures
            final(self).wf(),
            final(allocator).wf(),
            PmAreaLazy::backing_monotone(*old(self), *final(self)),
            PmAreaLazy::bytes_unchanged_outside(
                *old(self),
                *final(self),
                offset as int,
                offset + src@.len(),
            ),
            final(allocator).frames_left() >= old(allocator).frames_left()
                - PmAreaLazy::pages_spanned(offset as int, src@.len() as int),
            !old(self).in_range(offset as int, src@.len() as int) ==> {
                &&& r == OSResult::<usize>::Err(OSError::PmArea_OutOfRange)
                &&& *final(self) == *old(self)
                &&& *final(allocator) == *old(allocator)
            },
            old(self).in_range(offset as int, src@.len() as int) ==> {
                ||| {
                    &&& r == OSResult::<usize>::Ok(src@.len() as usize)
                    &&& final(self).holds_bytes(offset as int, src@)
                }
                ||| {
                    &&& r == OSResult::<usize>::Err(OSError::Memory_RunOutOfMemory)
                    &&& final(allocator).frames_left() == 0
                }
            },
    {
        let size = self.size();
        let len = src.len();
        if offset >= size || len > size - offset {
            return Err(OSError::PmArea_OutOfRange);
        }
        let mut processed: usize = 0;
        while processed < len
            invariant
                self.wf(),
                allocator.wf(),
                len == src@.len(),
                offset + len <= self.size_spec(),
                processed <= len,
                old(self).wf(),
                PmAreaLazy::backing_monotone(*old(self), *self),
                PmAreaLazy::bytes_unchanged_outside(
                    *old(self),
                    *self,
                    offset as int,
                    offset + len,
                ),
                forall|k: int| 0 <= k < processed ==> #[trigger] self.byte_at(offset + k) == src@[k],
                processed == 0 || processed == len || (offset + processed) % (
                PAGE_SIZE as int) == 0,
                allocator.frames_left() >= old(allocator).frames_left()
                    - PmAreaLazy::pages_spanned(offset as int, processed as int),
            decreases len - processed,
        {
            let ghost s0 = *self;
            let ghost a0 = *allocator;
            let cur = offset + processed;
            let idx = cur / PAGE_SIZE;
            let pgoff = cur % PAGE_SIZE;
            proof {
                lemma_off_page(cur as int, self.page_count_spec() as int);
            }
            let rem_page = PAGE_SIZE - pgoff;
            let rem = len - processed;
            let n = if rem_page < rem {
                rem_page
            } else {
                rem
            };
            match self.get_frame(idx, true, allocator) {
                Ok(_) => {},
                Err(e) => {
                    proof {
                        lemma_pages_spanned_monotone(offset as int, processed as int, len as int);
                    }
                    return Err(e);
                },
            }
            let ghost s1 = *self;
            let slot = &mut self.frames[idx];
            let taken = slot.take();
            let mut f = taken.unwrap();
            f.write_range(pgoff, src, processed, n);
            let ghost fsnap = f;
            self.frames.set(idx, Some(f));
            proof {
                assert(self.frames_view() =~= s1.frames_view().update(
                    idx as int,
                    Some(fsnap),
                ));
                assert forall|i: int|
                    0 <= i < self.page_count_spec() && self.frames_view()[i] is Some
                    implies #[trigger] self.frames_view()[i]->Some_0.wf() by {
                    if i != idx {
                        assert(self.frames_view()[i] == s1.frames_view()[i]);
                        assert(s1.frames_view()[i]->Some_0.wf());
                    } else {
                        assert(self.frames_view()[i] == Some(fsnap));
                        assert(fsnap.wf());
                    }
                }
                assert(self.wf());
                assert(fsnap.spec_paddr() == s1.paddr_of(idx as int));
                assert forall|i: int|
                    0 <= i < old(self).page_count_spec() && old(self).backed(i)
                    implies #[trigger] self.backed(i) && self.paddr_of(i) == old(self).paddr_of(
                        i,
                    ) by {
                    assert(s0.backed(i));
                    assert(s0.paddr_of(i) == old(self).paddr_of(i));
                    assert(s1.backed(i));
                    assert(s1.paddr_of(i) == s0.paddr_of(i));
                    if i != idx {
                        assert(self.frames_view()[i] == s1.frames_view()[i]);
                    }
                }
                assert(PmAreaLazy::backing_monotone(*old(self), *self));
                // bytes written this iteration
                assert forall|k: int| 0 <= k < processed + n
                    implies #[trigger] self.byte_at(offset + k) == src@[k] by {
                    lemma_off_page(offset + k, self.page_count_spec() as int);
                    if offset + k < cur {
                        if (offset + k) / (PAGE_SIZE as int) == idx {
                            assert(self.byte_at(offset + k) == s1.byte_at(offset + k));
                        }
                        assert(s1.byte_at(offset + k) == s0.byte_at(offset + k));
                    } else {
                        let m = (offset + k) % (PAGE_SIZE as int);
                        lemma_page_split(idx as int, m);
                        assert(self.byte_at(offset + k) == self.page_bytes(idx as int)[m]);
                    }
                }
                // bytes outside the whole range unchanged
                assert forall|off: int|
                    0 <= off < s0.size_spec() && !(offset <= off < offset + len)
                    implies #[trigger] self.byte_at(off) == old(self).byte_at(off) by {
                    lemma_off_page(off, self.page_count_spec() as int);
                    if off / (PAGE_SIZE as int) == idx {
                        assert(self.byte_at(off) == s1.byte_at(off));
                    }
                    assert(s1.byte_at(off) == s0.byte_at(off));
                }
                // page budget
                lemma_pages_spanned_step(offset as int, processed as int, n as int, idx as int);
                // alignment of the next cursor
                if n == rem_page {
                    lemma_page_split(idx as int + 1, 0);
                    assert((idx as int + 1) * PAGE_SIZE == cur + n) by (nonlinear_arith)
                        requires
                            cur == idx * (PAGE_SIZE as int) + pgoff,
                            n == PAGE_SIZE - pgoff;
                    assert((cur + n) % (PAGE_SIZE as int) == 0);
                }
            }
            processed = processed + n;
        }
        Ok(len)
    }

    /// Copy `dst.len()` bytes out of the area at `offset`, demand-allocating
    /// every page the range touches exactly as `write` does. The bytes of
    /// the area itself never change: a freshly backed page holds the zeroes
    /// its unbacked slot already stood for.
    pub fn read(&mut self, offset: usize, dst: &mut Vec<u8>, allocator: &mut FrameAllocator) -> (r:
        OSResult<usize>)
        requires
            old(self).wf(),
            old(allocator).wf(),
        ensures
            final(self).wf(),
            final(allocator).wf(),
            PmAreaLazy::backing_monotone(*old(self), *final(self)),
            PmAreaLazy::bytes_unchanged_outside(*old(self), *final(self), 0, 0),
            final(dst)@.len() == old(dst)@.len(),
            final(allocator).frames_left() >= old(allocator).frames_left()
                - PmAreaLazy::pages_spanned(offset as int, old(dst)@.len() as int),
            !old(self).in_range(offset as int, old(dst)@.len() as int) ==> {
                &&& r == OSResult::<usize>::Err(OSError::PmArea_OutOfRange)
                &&& *final(self) == *old(self)
                &&& *final(allocator) == *old(allocator)
                &&& final(dst)@ == old(dst)@
            },
            old(self).in_range(offset as int, old(dst)@.len() as int) ==> {
                ||| {
                    &&& r == OSResult::<usize>::Ok(old(dst)@.len() as usize)
                    &&& forall|k: int|
                        0 <= k < old(dst)@.len() ==> #[trigger] final(dst)@[k] == old(
                            self,
                        ).byte_at(offset + k)
                }
                ||| {
                    &&& r == OSResult::<usize>::Err(OSError::Memory_RunOutOfMemory)
                    &&& final(allocator).frames_left() == 0
                }
            },
    {
        let size = self.size();
        let len = dst.len();
        if offset >= size || len > size - offset {
            return Err(OSError::PmArea_OutOfRange);
        }
        let mut processed: usize = 0;
        while processed < len
            invariant
                self.wf(),
                allocator.wf(),
                len == dst@.len(),
                dst@.len() == old(dst)@.len(),
                offset + len <= self.size_spec(),
                processed <= len,
                old(self).wf(),
                PmAreaLazy::backing_monotone(*old(self), *self),
                PmAreaLazy::bytes_unchanged_outside(*old(self), *self, 0, 0),
                forall|k: int|
                    0 <= k < processed ==> #[trigger] dst@[k] == old(self).byte_at(offset + k),
                processed == 0 || processed == len || (offset + processed) % (
                PAGE_SIZE as int) == 0,
                allocator.frames_left() >= old(allocator).frames_left()
                    - PmAreaLazy::pages_spanned(offset as int, processed as int),
            decreases len - processed,
        {
            let ghost s0 = *self;
            let cur = offset + processed;
            let idx = cur / PAGE_SIZE;
            let pgoff = cur % PAGE_SIZE;
            proof {
                lemma_off_page(cur as int, self.page_count_spec() as int);
            }
            let rem_page = PAGE_SIZE - pgoff;
            let rem = len - processed;
            let n = if rem_page < rem {
                rem_page
            } else {
                rem
            };
            match self.get_frame(idx, true, allocator) {
                Ok(_) => {},
                Err(e) => {
                    proof {
                        lemma_pages_spanned_monotone(offset as int, processed as int, len as int);
                    }
                    return Err(e);
                },
            }
            proof {
                // the demand allocation kept every byte: a fresh page is zero
                assert forall|off: int| 0 <= off < s0.size_spec()
                    implies #[trigger] self.byte_at(off) == s0.byte_at(off) by {
                    lemma_off_page(off, self.page_count_spec() as int);
                }
            }
            match self.frames[idx].as_ref() {
                Some(f) => {
                    f.read_range(pgoff, dst, processed, n);
                },
                None => {},
            }
            proof {
                assert forall|k: int| 0 <= k < processed + n
                    implies #[trigger] dst@[k] == old(self).byte_at(offset + k) by {
                    if processed <= k {
                        let m = pgoff + k - processed;
                        lemma_page_split(idx as int, m);
                        assert(dst@[k] == self.page_bytes(idx as int)[m]);
                        assert(self.byte_at(offset + k) == self.page_bytes(idx as int)[m]);
                        assert(self.byte_at(offset + k) == s0.byte_at(offset + k));
                    }
                }
                lemma_pages_spanned_step(offset as int, processed as int, n as int, idx as int);
                if n == rem_page {
                    lemma_page_split(idx as int + 1, 0);
                    assert((idx as int + 1) * PAGE_SIZE == cur + n) by (nonlinear_arith)
                        requires
                            cur == idx * (PAGE_SIZE as int) + pgoff,
                            n == PAGE_SIZE - pgoff;
                    assert((cur + n) % (PAGE_SIZE as int) == 0);
                }
            }
            processed = processed + n;
        }
        Ok(len)
    }

    /// Copy the whole backed page `idx` into `dst`.
    pub fn read_page(&self, idx: usize, dst: &mut Vec<u8>)
        requires
            self.wf(),
            idx < self.page_count_spec(),
            self.backed(idx as int),
            old(dst)@.len() == PAGE_SIZE,
        ensures
            final(dst)@.len() == PAGE_SIZE,
            final(dst)@ == self.page_bytes(idx as int),
    {
        if let Some(f) = self.frames[idx].as_ref() {
            f.read_range(0, dst, 0, PAGE_SIZE);
            proof {
                assert(dst@ =~= self.page_bytes(idx as int));
            }
        }
    }

    /// Overwrite the whole page `idx` with `src`, demand-allocating it; no
    /// other page is touched.
    pub fn write_page(&mut self, idx: usize, src: &[u8], allocator: &mut FrameAllocator) -> (r:
        OSResult<()>)
        requires
            old(self).wf(),
            old(allocator).wf(),
            idx < old(self).page_count_spec(),
            src@.len() == PAGE_SIZE,
        ensures
            final(self).wf(),
            final(allocator).wf(),
            final(self).page_count_spec() == old(self).page_count_spec(),
            forall|i: int|
                0 <= i < old(self).page_count_spec() && i != idx
                    ==> #[trigger] final(self).frames_view()[i] == old(self).frames_view()[i],
            final(allocator).frames_left() >= old(allocator).frames_left() - 1,
            !old(self).backed(idx as int) && old(allocator).frames_left() == 0 ==> {
                &&& r == OSResult::<()>::Err(OSError::Memory_RunOutOfMemory)
                &&& *final(self) == *old(self)
                &&& *final(allocator) == *old(allocator)
            },
            old(self).backed(idx as int) || old(allocator).frames_left() > 0 ==> {
                &&& r == OSResult::<()>::Ok(())
                &&& final(self).backed(idx as int)
                &&& final(self).page_bytes(idx as int) == src@
                &&& final(self).paddr_of(idx as int) == if old(self).backed(idx as int) {
                    old(self).paddr_of(idx as int)
                } else {
                    final(self).paddr_of(idx as int)
                }
            },
    {
        match self.get_frame(idx, true, allocator) {
            Ok(_) => {},
            Err(e) => {
                return Err(e);
            },
        }
        let ghost s1 = *self;
        let slot = &mut self.frames[idx];
        let taken = slot.take();
        let mut f = taken.unwrap();
        f.write_range(0, src, 0, PAGE_SIZE);
        let ghost fsnap = f;
        self.frames.set(idx, Some(f));
        proof {
            assert(self.frames_view() =~= s1.frames_view().update(idx as int, Some(fsnap)));
            assert forall|i: int|
                0 <= i < self.page_count_spec() && self.frames_view()[i] is Some
                implies #[trigger] self.frames_view()[i]->Some_0.wf() by {
                if i != idx {
                    assert(self.frames_view()[i] == s1.frames_view()[i]);
                    assert(s1.frames_view()[i]->Some_0.wf());
                } else {
                    assert(self.frames_view()[i] == Some(fsnap));
                    assert(fsnap.wf());
                }
            }
            assert(self.wf());
            assert(self.page_bytes(idx as int) =~= src@);
        }
        Ok(())
    }

    /// A copy of the area's shape with no frames populated, as fork needs:
    /// the metadata is copied, population happens lazily afterwards or
    /// eagerly through the data-copying fork path.
    pub fn clone_as_fork(&self) -> (r: OSResult<PmAreaLazy>)
        requires
            self.wf(),
        ensures
            r is Ok,
            r->Ok_0.wf(),
            r->Ok_0.page_count_spec() == self.page_count_spec(),
            forall|i: int| 0 <= i < self.page_count_spec() ==> !#[trigger] r->Ok_0.backed(i),
    {
        PmAreaLazy::new(self.frames.len())
    }

    /// Lazily backed areas have no backing file, so there is nothing to
    /// synchronize a page with.
    pub fn sync_frame_with_file(&mut self, idx: usize)
        requires
            old(self).wf(),
            idx < old(self).page_count_spec(),
        ensures
            *final(self) == *old(self),
    {
    }

    /// Truncate the area to `[0, left_end)` and return a new area holding
    /// `[right_start, size)`; the frames of the gap `[left_end, right_start)`
    /// are discarded. Both offsets are page boundaries, both remaining parts
    /// are nonempty.
    pub fn split(&mut self, left_end: usize, right_start: usize) -> (r: OSResult<PmAreaLazy>)
        requires
            old(self).wf(),
            crate::addr::page_aligned(left_end as int),
            crate::addr::page_aligned(right_start as int),
            0 < left_end <= right_start,
            right_start < old(self).size_spec(),
        ensures
            r is Ok,
            final(self).wf(),
            r->Ok_0.wf(),
            final(self).frames_view() == old(self).frames_view().subrange(
                0,
                left_end as int / (PAGE_SIZE as int),
            ),
            r->Ok_0.frames_view() == old(self).frames_view().subrange(
                right_start as int / (PAGE_SIZE as int),
                old(self).page_count_spec() as int,
            ),
    {
        proof {
            lemma_off_page(right_start as int, old(self).page_count_spec() as int);
            lemma_off_page((left_end - 1) as int, old(self).page_count_spec() as int);
            vstd::arithmetic::div_mod::lemma_fundamental_div_mod(
                left_end as int,
                PAGE_SIZE as int,
            );
            vstd::arithmetic::div_mod::lemma_fundamental_div_mod(
                right_start as int,
                PAGE_SIZE as int,
            );
            vstd::arithmetic::div_mod::lemma_div_is_ordered(
                left_end as int,
                right_start as int,
                PAGE_SIZE as int,
            );
            assert(1 <= left_end as int / (PAGE_SIZE as int)) by (nonlinear_arith)
                requires
                    left_end == (left_end as int / (PAGE_SIZE as int)) * PAGE_SIZE,
                    left_end >= 1,
                    PAGE_SIZE == 0x1000;
        }
        let right_page = right_start / PAGE_SIZE;
        let tail = self.frames.split_off(right_page);
        let left_pages = left_end / PAGE_SIZE;
        self.frames.truncate(left_pages);
        let right = PmAreaLazy { frames: tail };
        proof {
            assert forall|i: int|
                0 <= i < self.page_count_spec() && self.frames_view()[i] is Some
                implies #[trigger] self.frames_view()[i]->Some_0.wf() by {
                assert(self.frames_view()[i] == old(self).frames_view()[i]);
                assert(old(self).frames_view()[i]->Some_0.wf());
            }
            assert forall|i: int|
                0 <= i < right.page_count_spec() && right.frames_view()[i] is Some
                implies #[trigger] right.frames_view()[i]->Some_0.wf() by {
                assert(right.frames_view()[i] == old(self).frames_view()[right_page + i]);
                assert(old(self).frames_view()[right_page + i]->Some_0.wf());
            }
        }
        Ok(right)
    }

    /// Shorten the area from the left: only `[new_start, size)` is kept, the
    /// frames before `new_start` are discarded.
    pub fn shrink_left(&mut self, new_start: usize) -> (r: OSResult<()>)
        requires
            old(self).wf(),
            crate::addr::page_aligned(new_start as int),
            0 < new_start < old(self).size_spec(),
        ensures
            r is Ok,
            final(self).wf(),
            final(self).frames_view() == old(self).frames_view().subrange(
                new_start as int / (PAGE_SIZE as int),
                old(self).page_count_spec() as int,
            ),
    {
        proof {
            lemma_off_page(new_start as int, old(self).page_count_spec() as int);
        }
        let start_page = new_start / PAGE_SIZE;
        let tail = self.frames.split_off(start_page);
        self.frames = tail;
        proof {
            assert forall|i: int|
                0 <= i < self.page_count_spec() && self.frames_view()[i] is Some
                implies #[trigger] self.frames_view()[i]->Some_0.wf() by {
                assert(self.frames_view()[i] == old(self).frames_view()[start_page + i]);
                assert(old(self).frames_view()[start_page + i]->Some_0.wf());
            }
        }
        Ok(())
    }

    /// Shorten the area from the right: only `[0, new_end)` is kept, the
    /// frames at and past `new_end` are discarded.
    pub fn shrink_right(&mut self, new_end: usize) -> (r: OSResult<()>)
        requires
            old(self).wf(),
            crate::addr::page_aligned(new_end as int),
            0 < new_end <= old(self).size_spec(),
        ensures
            r is Ok,
            final(self).wf(),
            final(self).frames_view() == old(self).frames_view().subrange(
                0,
                new_end as int / (PAGE_SIZE as int),
            ),
    {
        proof {
            lemma_off_page((new_end - 1) as int, old(self).page_count_spec() as int);
            vstd::arithmetic::div_mod::lemma_fundamental_div_mod(new_end as int, PAGE_SIZE as int);
            let count = old(self).page_count_spec() as int;
            assert(1 <= new_end as int / (PAGE_SIZE as int) <= count) by (nonlinear_arith)
                requires
                    new_end == (new_end as int / (PAGE_SIZE as int)) * PAGE_SIZE,
                    new_end >= 1,
                    new_end <= count * PAGE_SIZE,
                    PAGE_SIZE == 0x1000;
        }
        let end_page = new_end / PAGE_SIZE;
        self.frames.truncate(end_page);
        proof {
            assert forall|i: int|
                0 <= i < self.page_count_spec() && self.frames_view()[i] is Some
                implies #[trigger] self.frames_view()[i]->Some_0.wf() by {
                assert(self.frames_view()[i] == old(self).frames_view()[i]);
                assert(old(self).frames_view()[i]->Some_0.wf());
            }
        }
        Ok(())
    }

    /// Drop the frame backing page `idx`. Releasing a page that was never
    /// backed reports `PmAreaLazy_ReleaseNotAllocatedPage` — "nothing to
    /// free" — and, like a successful release, never touches other pages.
    pub fn release_frame(&mut self, idx: usize) -> (r: OSResult<()>)
        requires
            old(self).wf(),
            idx < old(self).page_count_spec(),
        ensures
            final(self).wf(),
            final(self).page_count_spec() == old(self).page_count_spec(),
            !final(self).backed(idx as int),
            forall|i: int|
                0 <= i < old(self).page_count_spec() && i != idx
                    ==> #[trigger] final(self).frames_view()[i] == old(self).frames_view()[i],
            r == if old(self).backed(idx as int) {
                OSResult::<()>::Ok(())
            } else {
                OSResult::<()>::Err(OSError::PmAreaLazy_ReleaseNotAllocatedPage)
            },
    {
        let had = self.frames[idx].is_some();
        self.frames.set(idx, None);
        if had {
            Ok(())
        } else {
            Err(OSError::PmAreaLazy_ReleaseNotAllocatedPage)
        }
    }
}

} // verus!

