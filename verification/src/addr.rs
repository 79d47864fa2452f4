//! Page alignment arithmetic on virtual and physical addresses.

use vstd::prelude::*;

use crate::constants::PAGE_SIZE;

verus! {

/// Whether an address sits on a page boundary.
pub open spec fn page_aligned(a: int) -> bool {
    a % (PAGE_SIZE as int) == 0
}

/// The largest page boundary at or below `a`.
pub open spec fn spec_align_down(a: int) -> int {
    (a / (PAGE_SIZE as int)) * (PAGE_SIZE as int)
}

/// The smallest page boundary at or above `a`.
pub open spec fn spec_align_up(a: int) -> int {
    spec_align_down(a + (PAGE_SIZE as int) - 1)
}

pub proof fn lemma_align_down_props(a: int)
    requires
        a >= 0,
    ensures
        page_aligned(spec_align_down(a)),
        spec_align_down(a) <= a < spec_align_down(a) + PAGE_SIZE,
        page_aligned(a) ==> spec_align_down(a) == a,
{
    vstd::arithmetic::div_mod::lemma_fundamental_div_mod(a, PAGE_SIZE as int);
    assert(spec_align_down(a) % (PAGE_SIZE as int) == 0) by (nonlinear_arith)
        requires spec_align_down(a) == (a / (PAGE_SIZE as int)) * (PAGE_SIZE as int);
    vstd::arithmetic::div_mod::lemma_mod_bound(a, PAGE_SIZE as int);
}

pub proof fn lemma_align_up_props(a: int)
    requires
        a >= 0,
    ensures
        page_aligned(spec_align_up(a)),
        a <= spec_align_up(a) < a + PAGE_SIZE,
        page_aligned(a) ==> spec_align_up(a) == a,
{
    lemma_align_down_props(a + (PAGE_SIZE as int) - 1);
    if page_aligned(a) {
        vstd::arithmetic::div_mod::lemma_mod_adds(a, (PAGE_SIZE - 1) as int, PAGE_SIZE as int);
        vstd::arithmetic::div_mod::lemma_fundamental_div_mod(a, PAGE_SIZE as int);
        vstd::arithmetic::div_mod::lemma_fundamental_div_mod(
            a + (PAGE_SIZE as int) - 1,
            PAGE_SIZE as int,
        );
    }
}

/// Round an address down to its page boundary.
pub fn align_down(addr: usize) -> (r: usize)
    ensures
        r == spec_align_down(addr as int),
        page_aligned(r as int),
        r <= addr,
        addr < r + PAGE_SIZE,
        page_aligned(addr as int) ==> r == addr,
{
    proof {
        lemma_align_down_props(addr as int);
    }
    (addr / PAGE_SIZE) * PAGE_SIZE
}

/// Round an address up to the next page boundary.
pub fn align_up(addr: usize) -> (r: usize)
    requires
        addr + PAGE_SIZE - 1 <= usize::MAX,
    ensures
        r == spec_align_up(addr as int),
        page_aligned(r as int),
        addr <= r,
        r < addr + PAGE_SIZE,
        page_aligned(addr as int) ==> r == addr,
{
    proof {
        lemma_align_up_props(addr as int);
    }
    ((addr + (PAGE_SIZE - 1)) / PAGE_SIZE) * PAGE_SIZE
}

/// How many whole pages cover `size` bytes.
pub fn page_count(size: usize) -> (r: usize)
    requires
        size + PAGE_SIZE - 1 <= usize::MAX,
    ensures
        r == spec_align_up(size as int) / (PAGE_SIZE as int),
        r * PAGE_SIZE == spec_align_up(size as int),
        size <= r * PAGE_SIZE < size + PAGE_SIZE,
{
    proof {
        lemma_align_up_props(size as int);
        vstd::arithmetic::div_mod::lemma_fundamental_div_mod(
            size + (PAGE_SIZE as int) - 1,
            PAGE_SIZE as int,
        );
        assert(spec_align_up(size as int) / (PAGE_SIZE as int)
            == (size + (PAGE_SIZE as int) - 1) / (PAGE_SIZE as int)) by (nonlinear_arith)
            requires
                spec_align_up(size as int)
                    == ((size + (PAGE_SIZE as int) - 1) / (PAGE_SIZE as int)) * (PAGE_SIZE as int),
                PAGE_SIZE == 0x1000;
    }
    (size + (PAGE_SIZE - 1)) / PAGE_SIZE
}

} // verus!
