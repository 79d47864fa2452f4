//! Physical page frames and the process-wide physical frame allocator.
//!
//! A frame is an exclusively owned physical page: the handle carries the
//! page's physical address and models the page's bytes directly, so that
//! ownership transfer (never aliasing) is structural.

use vstd::prelude::*;

use crate::addr::page_aligned;
use crate::constants::PAGE_SIZE;

verus! {

/// An exclusively owned physical page.
pub struct Frame {
    paddr: usize,
    data: Vec<u8>,
}

/// A page worth of zero bytes.
pub open spec fn zero_page() -> Seq<u8> {
    Seq::new(PAGE_SIZE as nat, |i: int| 0u8)
}

impl Frame {
    /// The physical address the frame starts at.
    pub closed spec fn spec_paddr(self) -> usize {
        self.paddr
    }

    /// The page's bytes.
    pub closed spec fn bytes(self) -> Seq<u8> {
        self.data@
    }

    /// The frame handle is exactly one page of bytes at a page boundary.
    pub open spec fn wf(self) -> bool {
        &&& self.bytes().len() == PAGE_SIZE
        &&& page_aligned(self.spec_paddr() as int)
    }

    /// The physical address the frame starts at.
    pub fn start_paddr(&self) -> (r: usize)
        ensures
            r == self.spec_paddr(),
    {
        self.paddr
    }

    /// Read one byte of the page.
    pub fn read_byte(&self, offset: usize) -> (r: u8)
        requires
            self.wf(),
            offset < PAGE_SIZE,
        ensures
            r == self.bytes()[offset as int],
    {
        self.data[offset]
    }

    /// Overwrite one byte of the page.
    pub fn write_byte(&mut self, offset: usize, value: u8)
        requires
            old(self).wf(),
            offset < PAGE_SIZE,
        ensures
            final(self).wf(),
            final(self).spec_paddr() == old(self).spec_paddr(),
            final(self).bytes() == old(self).bytes().update(offset as int, value),
    {
        self.data.set(offset, value);
    }

    /// Copy `src[start..start + n]` into the page at `pgoff`.
    pub fn write_range(&mut self, pgoff: usize, src: &[u8], start: usize, n: usize)
        requires
            old(self).wf(),
            pgoff + n <= PAGE_SIZE,
            start + n <= src@.len(),
        ensures
            final(self).wf(),
            final(self).spec_paddr() == old(self).spec_paddr(),
            forall|k: int|
                pgoff <= k < pgoff + n ==> #[trigger] final(self).bytes()[k] == src@[start + k
                    - pgoff],
            forall|k: int|
                0 <= k < PAGE_SIZE && !(pgoff <= k < pgoff + n)
                    ==> #[trigger] final(self).bytes()[k] == old(self).bytes()[k],
    {
        let srclen = src.len();
        let mut j: usize = 0;
        while j < n
            invariant
                self.wf(),
                self.spec_paddr() == old(self).spec_paddr(),
                j <= n,
                pgoff + n <= PAGE_SIZE,
                start + n <= srclen <= usize::MAX,
                srclen == src@.len(),
                forall|k: int|
                    pgoff <= k < pgoff + j ==> #[trigger] self.bytes()[k] == src@[start + k
                        - pgoff],
                forall|k: int|
                    0 <= k < PAGE_SIZE && !(pgoff <= k < pgoff + j) ==> #[trigger] self.bytes()[k]
                        == old(self).bytes()[k],
            decreases n - j,
        {
            self.data.set(pgoff + j, src[start + j]);
            j = j + 1;
        }
    }

    /// Copy the page's bytes at `pgoff` into `dst[start..start + n]`.
    pub fn read_range(&self, pgoff: usize, dst: &mut Vec<u8>, start: usize, n: usize)
        requires
            self.wf(),
            pgoff + n <= PAGE_SIZE,
            start + n <= old(dst)@.len(),
        ensures
            final(dst)@.len() == old(dst)@.len(),
            forall|k: int|
                start <= k < start + n ==> #[trigger] final(dst)@[k] == self.bytes()[pgoff + k
                    - start],
            forall|k: int|
                0 <= k < old(dst)@.len() && !(start <= k < start + n)
                    ==> #[trigger] final(dst)@[k] == old(dst)@[k],
    {
        let dstlen = dst.len();
        let mut j: usize = 0;
        while j < n
            invariant
                self.wf(),
                j <= n,
                pgoff + n <= PAGE_SIZE,
                start + n <= dstlen <= usize::MAX,
                dstlen == dst@.len(),
                dst@.len() == old(dst)@.len(),
                forall|k: int|
                    start <= k < start + j ==> #[trigger] dst@[k] == self.bytes()[pgoff + k
                        - start],
                forall|k: int|
                    0 <= k < old(dst)@.len() && !(start <= k < start + j) ==> #[trigger] dst@[k]
                        == old(dst)@[k],
            decreases n - j,
        {
            let b = self.data[pgoff + j];
            dst.set(start + j, b);
            j = j + 1;
        }
    }

    /// Fill the page with zeroes.
    pub fn zero(&mut self)
        requires
            old(self).wf(),
        ensures
            final(self).wf(),
            final(self).spec_paddr() == old(self).spec_paddr(),
            final(self).bytes() == zero_page(),
    {
        let mut i: usize = 0;
        while i < PAGE_SIZE
            invariant
                self.wf(),
                self.spec_paddr() == old(self).spec_paddr(),
                i <= PAGE_SIZE,
                forall|j: int| 0 <= j < i ==> self.bytes()[j] == 0u8,
            decreases PAGE_SIZE - i,
        {
            self.data.set(i, 0u8);
            i = i + 1;
        }
        proof {
            assert(self.bytes() =~= zero_page());
        }
    }
}

/// The process-wide physical frame allocator: hands out the pages of a
/// contiguous physical region, one by one, zeroed.
pub struct FrameAllocator {
    next_page: usize,
    end_page: usize,
}

impl FrameAllocator {
    /// The page number the next allocation will return.
    pub closed spec fn spec_next_page(self) -> usize {
        self.next_page
    }

    /// The page number just past the allocator's physical region.
    pub closed spec fn spec_end_page(self) -> usize {
        self.end_page
    }

    /// Page numbers stay in range and every address handed out fits.
    pub open spec fn wf(self) -> bool {
        &&& self.spec_next_page() <= self.spec_end_page()
        &&& self.spec_end_page() <= usize::MAX as int / PAGE_SIZE as int
    }

    /// How many frames the allocator can still hand out.
    pub open spec fn frames_left(self) -> int {
        self.spec_end_page() - self.spec_next_page()
    }

    /// An allocator over physical pages `start_page` up to `end_page`.
    pub fn new(start_page: usize, end_page: usize) -> (r: FrameAllocator)
        requires
            start_page <= end_page,
            end_page <= usize::MAX / PAGE_SIZE,
        ensures
            r.wf(),
            r.spec_next_page() == start_page,
            r.frames_left() == end_page - start_page,
    {
        FrameAllocator { next_page: start_page, end_page }
    }

    /// Hand out the next physical page as a zeroed frame, or report
    /// exhaustion with `None`.
    pub fn allocate_frame(&mut self) -> (r: Option<Frame>)
        requires
            old(self).wf(),
        ensures
            final(self).wf(),
            r is None <==> old(self).frames_left() == 0,
            r is None ==> *final(self) == *old(self),
            r is Some ==> {
                &&& r->Some_0.wf()
                &&& r->Some_0.bytes() == zero_page()
                &&& r->Some_0.spec_paddr() == old(self).spec_next_page() * PAGE_SIZE
                &&& final(self).frames_left() == old(self).frames_left() - 1
                &&& final(self).spec_next_page() == old(self).spec_next_page() + 1
            },
    {
        if self.next_page == self.end_page {
            return None;
        }
        let paddr = self.next_page * PAGE_SIZE;
        proof {
            assert(page_aligned(paddr as int)) by (nonlinear_arith)
                requires paddr == self.next_page * PAGE_SIZE, PAGE_SIZE == 0x1000;
        }
        let data = vec![0u8; PAGE_SIZE];
        self.next_page = self.next_page + 1;
        proof {
            assert(data@ =~= zero_page());
        }
        Some(Frame { paddr, data })
    }
}

} // verus!
