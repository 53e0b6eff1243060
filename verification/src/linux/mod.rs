//! Running Linux programs: the user address-space layout, the program
//! description, and the system-call statistics.
use vstd::prelude::*;

pub mod elf;
pub mod syscall;

verus! {

pub const USER_IMAGE_BASE: u64 = 0x0180_0000;
pub const USER_IMAGE_MAX: u64 = 0x0040_0000;
pub const USER_STACK_BOTTOM: u64 = USER_IMAGE_BASE + USER_IMAGE_MAX;
pub const USER_STACK_SIZE: u64 = 256 * 1024;
pub const USER_STACK_TOP: u64 = USER_STACK_BOTTOM + USER_STACK_SIZE;
pub const USER_HEAP_BASE: u64 = USER_STACK_TOP + 0x1000;
pub const USER_HEAP_MAX: u64 = 2 * 1024 * 1024;
pub const USER_AREA_END: u64 = USER_HEAP_BASE + USER_HEAP_MAX;

/// How a program ended: its exit code and the system calls it made.
pub struct RunResult {
    pub exit_code: i64,
    pub syscalls: usize,
}

/// Describes an ELF program without running it.
pub fn inspect(image: &[u8]) -> (r: Result<Vec<String>, String>)
    ensures
        match elf::inspection(image@) {
            Ok(lines) => r matches Ok(v) && crate::text::views(v@) == lines,
            Err(m) => r matches Err(s) && s@ == m,
        },
{
    elf::inspect(image)
}

} // verus!
