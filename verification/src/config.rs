//! Global layout constants of the kernel: page geometry, the trampoline and
//! trap-context pages, stack sizes, and the stride-scheduler parameters.

use vstd::prelude::*;

verus! {

/// Bytes per page.
pub const PAGE_SIZE: usize = 0x1000;
/// log2 of the page size.
pub const PAGE_SIZE_BITS: usize = 0xc;

/// Size of each user stack, in bytes.
pub const USER_STACK_SIZE: usize = 4096;
/// Size of each kernel stack, in bytes.
pub const KERNEL_STACK_SIZE: usize = 8192;

/// Virtual address of the trampoline page: the top page of every space.
pub const TRAMPOLINE: usize = usize::MAX - PAGE_SIZE + 1;
/// Virtual address of the trap-context page: just below the trampoline.
pub const TRAP_CONTEXT: usize = TRAMPOLINE - PAGE_SIZE;

/// The stride added over one full pass: a dispatched task's stride grows by
/// `BIG_STRIDE / priority`.
pub const BIG_STRIDE: isize = 0x7FFFFFFF;
/// Priority given to a fresh task.
pub const TASK_INIT_PRIORITY: isize = 16;

/// Timer frequency of the platform clock, in ticks per second.
pub const CLOCK_FREQ: usize = 12500000;
/// Scheduling ticks per second.
pub const TICKS_PER_SEC: usize = 100;

/// Return (bottom, top) of the kernel stack of the task with the given pid,
/// counted down from just below the trampoline page, one guard page between
/// neighbouring stacks.
pub fn kernel_stack_position(app_id: usize) -> (r: (usize, usize))
    requires
        app_id * (KERNEL_STACK_SIZE + PAGE_SIZE) < TRAMPOLINE - KERNEL_STACK_SIZE,
    ensures
        r.1 == TRAMPOLINE - app_id * (KERNEL_STACK_SIZE + PAGE_SIZE),
        r.0 == r.1 - KERNEL_STACK_SIZE,
        r.0 < r.1,
{
    let top = TRAMPOLINE - app_id * (KERNEL_STACK_SIZE + PAGE_SIZE);
    let bottom = top - KERNEL_STACK_SIZE;
    (bottom, top)
}

} // verus!
