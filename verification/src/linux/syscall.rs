//! System-call bookkeeping of the running Linux program: the call count,
//! the heap break and the next `mmap` address.
use vstd::prelude::*;
use crate::linux::{USER_HEAP_BASE, USER_HEAP_MAX};

verus! {

/// Counters of the program being run.
pub struct SyscallStats {
    pub count: usize,
    pub brk: usize,
    pub mmap_next: usize,
}

/// Starts a program's bookkeeping afresh: no calls yet, the break at the
/// heap base and `mmap` from the middle of the heap.
pub fn reset_stats(stats: &mut SyscallStats)
    ensures
        final(stats).count == 0,
        final(stats).brk == USER_HEAP_BASE,
        final(stats).mmap_next == USER_HEAP_BASE + USER_HEAP_MAX / 2,
{
    stats.count = 0;
    stats.brk = USER_HEAP_BASE as usize;
    stats.mmap_next = (USER_HEAP_BASE + USER_HEAP_MAX / 2) as usize;
}

/// System calls made so far.
pub fn count(stats: &SyscallStats) -> (r: usize)
    ensures
        r == stats.count,
{
    stats.count
}

} // verus!
