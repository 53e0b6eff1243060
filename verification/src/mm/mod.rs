//! Memory management: the layout constants, the page counters, and the
//! allocation of user virtual address ranges.
use vstd::prelude::*;

pub mod virt;

verus! {

pub const PAGE_SIZE: usize = 4096;
pub const PAGE_SHIFT: usize = 12;
pub const TOTAL_MEMORY: usize = 256 * 1024 * 1024;
pub const FREE_MEMORY_START: usize = 0x100000;
pub const KERNEL_BASE: usize = 0x10000;
pub const KERNEL_HEAP_START: usize = 0x200000;
pub const KERNEL_HEAP_MAX: usize = 18 * 1024 * 1024;

/// A region of physical memory.
#[derive(Debug, Clone, Copy)]
pub struct MemoryRegion {
    pub start: usize,
    pub size: usize,
    pub usable: bool,
}

/// Pages handed out and pages given back.
pub struct MemStats {
    pub allocated: usize,
    pub freed: usize,
}

/// The page counters: allocated, freed.
pub fn stats(m: &MemStats) -> (r: (usize, usize))
    ensures
        r == (m.allocated, m.freed),
{
    (m.allocated, m.freed)
}

} // verus!
