//! User virtual address ranges, handed out upwards from 1 GiB and kept
//! aligned to 2 MiB so huge pages stay possible.
use vstd::prelude::*;
use crate::mm::PAGE_SIZE;

verus! {

/// Where the first user range starts: 1 GiB.
pub const FIRST_USER_VADDR: usize = 0x4000_0000;
pub const HUGE_PAGE_MASK: usize = 0x1F_FFFF;

/// `x` rounded up to a multiple of 2 MiB.
pub open spec fn align_2m(x: usize) -> usize {
    ((x + HUGE_PAGE_MASK) as usize) & !HUGE_PAGE_MASK
}

/// Reserves `count` pages of user address space at `*next` and moves
/// `*next` past them to the next 2 MiB boundary.
pub fn alloc_virtual_pages(next: &mut usize, count: usize) -> (r: usize)
    requires
        *old(next) + count * PAGE_SIZE + HUGE_PAGE_MASK <= usize::MAX,
    ensures
        r == *old(next),
        *final(next) == align_2m((*old(next) + count * PAGE_SIZE) as usize),
{
    let addr: usize = *next;
    assert(count * 4096 <= usize::MAX) by (nonlinear_arith)
        requires
            *next + count * 4096 + 0x1F_FFFF <= usize::MAX,
    ;
    *next = *next + count * PAGE_SIZE;
    *next = (*next + HUGE_PAGE_MASK) & !HUGE_PAGE_MASK;
    addr
}

} // verus!
