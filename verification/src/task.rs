//! Task state: the contexts saved on traps and switches, and the run states
//! a process moves through.

use vstd::prelude::*;
use crate::config::{PAGE_SIZE, TRAP_CONTEXT};

verus! {

/// Run state of a process.
#[derive(Copy, Clone, PartialEq, Eq, Structural, Debug)]
pub enum TaskStatus {
    /// Waiting in the ready queue.
    Ready,
    /// On the processor.
    Running,
    /// Exited, waiting to be collected by its parent.
    Zombie,
}

/// The callee-saved part of a suspended task: the return address and the
/// twelve saved registers, enough for a switch to look like a call return.
pub struct TaskContext {
    /// Where the switch returns to.
    pub ra: usize,
    /// The callee-saved registers.
    pub s: Vec<usize>,
}

impl TaskContext {
    /// Twelve saved registers.
    pub open spec fn wf(&self) -> bool {
        self.s@.len() == 12
    }

    /// A context whose return address enters the trap-return path, so the
    /// first switch into a fresh task drops straight to user mode.
    pub fn goto_trap_return(trap_return_entry: usize) -> (r: TaskContext)
        ensures
            r.wf(),
            r.ra == trap_return_entry,
            forall|i: int| 0 <= i < 12 ==> r.s@[i] == 0,
    {
        let mut s: Vec<usize> = Vec::new();
        let mut i: usize = 0;
        while i < 12
            invariant
                i <= 12,
                s@.len() == i,
                forall|j: int| 0 <= j < i ==> s@[j] == 0,
            decreases 12 - i,
        {
            s.push(0);
            i = i + 1;
        }
        TaskContext { ra: trap_return_entry, s }
    }
}

/// What a trap saves of user mode: the register file, the supervisor status
/// and program counter, and the three kernel fields written once at birth.
pub struct TrapContext {
    /// The 32 general-purpose registers.
    pub x: Vec<usize>,
    /// The saved status; the privilege bit points back at user mode.
    pub sstatus: usize,
    /// The saved program counter.
    pub sepc: usize,
    /// The kernel page-table token.
    pub kernel_satp: usize,
    /// Top of the kernel stack belonging to the task.
    pub kernel_sp: usize,
    /// Virtual address of the trap handler.
    pub trap_handler: usize,
}

impl TrapContext {
    /// Thirty-two registers.
    pub open spec fn wf(&self) -> bool {
        self.x@.len() == 32
    }

    /// Point the saved stack register at `sp`.
    pub fn set_sp(&mut self, sp: usize)
        requires
            old(self).wf(),
        ensures
            final(self).wf(),
            final(self).x@ == old(self).x@.update(2, sp),
            final(self).sepc == old(self).sepc,
            final(self).sstatus == old(self).sstatus,
            final(self).kernel_satp == old(self).kernel_satp,
            final(self).kernel_sp == old(self).kernel_sp,
            final(self).trap_handler == old(self).trap_handler,
    {
        self.x[2] = sp;
    }

    /// The context a fresh task first returns to user mode with: zeroed
    /// registers but the stack pointer, the entry point in the saved program
    /// counter, and the kernel fields filled in.
    pub fn app_init_context(
        entry: usize,
        sp: usize,
        kernel_satp: usize,
        kernel_sp: usize,
        trap_handler: usize,
    ) -> (r: TrapContext)
        ensures
            r.wf(),
            r.sepc == entry,
            r.x@[2] == sp,
            forall|i: int| 0 <= i < 32 && i != 2 ==> r.x@[i] == 0,
            r.kernel_satp == kernel_satp,
            r.kernel_sp == kernel_sp,
            r.trap_handler == trap_handler,
    {
        let mut x: Vec<usize> = Vec::new();
        let mut i: usize = 0;
        while i < 32
            invariant
                i <= 32,
                x@.len() == i,
                forall|j: int| 0 <= j < i ==> x@[j] == 0,
            decreases 32 - i,
        {
            x.push(0);
            i = i + 1;
        }
        let mut cx = TrapContext {
            x,
            sstatus: 0,
            sepc: entry,
            kernel_satp,
            kernel_sp,
            trap_handler,
        };
        cx.set_sp(sp);
        cx
    }
}

/// Everything a fresh or replaced user task carries on the memory side: its
/// address space, the frame holding its trap context, the context itself,
/// and where execution starts.
pub struct TaskImage {
    /// The user address space.
    pub memory_set: crate::memory_set::MemorySet,
    /// The frame behind the trap-context page.
    pub trap_cx_ppn: u64,
    /// The initial trap context.
    pub trap_cx: TrapContext,
    /// Top of the user stack.
    pub user_sp: usize,
    /// The entry point.
    pub entry: usize,
}

/// Build a task's memory side from an executable image: the address space
/// with its segments, stack and trap-context page, and a trap context that
/// enters user mode at the image's entry with the stack pointer set — the
/// work done once at the first process's birth and again on every replace.
pub fn build_task_image(
    elf_data: &Vec<u8>,
    strampoline: crate::addr::PhysPageNum,
    kernel_satp: usize,
    kernel_sp: usize,
    trap_handler: usize,
    alloc: &mut crate::frame_allocator::StackFrameAllocator,
    mem: &mut crate::frame_allocator::PhysMem,
) -> (r: Option<TaskImage>)
    requires
        crate::memory_set::sys_inv(*old(alloc), *old(mem)),
        strampoline.0 as u64 <= crate::page_table::PPN_MASK,
    ensures
        crate::memory_set::sys_inv(*final(alloc), *final(mem)),
        final(mem).base == old(mem).base,
        final(mem).pages@.len() == old(mem).pages@.len(),
        forall|q: nat| old(alloc).is_allocated(q) ==> final(alloc).is_allocated(q),
        forall|q: nat|
            old(mem).covers(q) && old(alloc).is_allocated(q) ==> final(mem).page(q) == old(
                mem,
            ).page(q),
        r matches Some(t) ==> {
            &&& t.memory_set.wf(*final(alloc), *final(mem))
            &&& t.entry == crate::elf::spec_le64(elf_data@, 24)
            &&& t.trap_cx.wf()
            &&& t.trap_cx.sepc == t.entry
            &&& t.trap_cx.x@[2] == t.user_sp
            &&& t.trap_cx.kernel_satp == kernel_satp
            &&& t.trap_cx.kernel_sp == kernel_sp
            &&& t.trap_cx.trap_handler == trap_handler
            &&& t.memory_set.maps((TRAP_CONTEXT / PAGE_SIZE) as usize)
        },
        // an image whose loadable segments fit the space, with frames to
        // spare, is owed a task image
        (crate::memory_set::spec_elf_loadable(elf_data@) && crate::memory_set::spec_usable(
            *old(alloc),
        ) >= 9 + 3 * crate::memory_set::spec_segs_pages(
            crate::memory_set::spec_elf_segments(elf_data@),
            crate::memory_set::spec_elf_segments(elf_data@).len() as int,
        )) ==> r is Some,
{
    let built = crate::memory_set::MemorySet::from_elf(elf_data, strampoline, alloc, mem);
    let (memory_set, user_sp, entry) = match built {
        Some(t) => t,
        None => {
            return None;
        },
    };
    // find the frame behind the trap-context page, as the hardware would
    let trap_vpn = crate::addr::VirtAddr(TRAP_CONTEXT).floor();
    let pte = match memory_set.translate(trap_vpn) {
        Some(e) => e,
        None => {
            return None;
        },
    };
    if !pte.is_valid() {
        return None;
    }
    let trap_cx_ppn: u64 = (pte.bits >> 10) & crate::page_table::PPN_MASK;
    let trap_cx = TrapContext::app_init_context(
        entry,
        user_sp,
        kernel_satp,
        kernel_sp,
        trap_handler,
    );
    Some(TaskImage { memory_set, trap_cx_ppn, trap_cx, user_sp, entry })
}

/// The cause a trap hands the kernel.
#[derive(Copy, Clone, PartialEq, Eq, Structural, Debug)]
pub enum TrapCause {
    /// An environment call from user mode.
    UserEnvCall,
    /// A store fault or store page fault at the given address.
    StoreFault,
    /// A load fault or load page fault at the given address.
    LoadFault,
    /// An instruction fault or instruction page fault.
    InstructionFault,
    /// An illegal instruction.
    IllegalInstruction,
    /// The supervisor timer fired.
    SupervisorTimer,
}

/// What the trap handler decides for a faulting cause: the exit code the
/// process dies with, none for causes handled without killing it.
pub open spec fn spec_fault_exit_code(cause: TrapCause) -> Option<i32> {
    match cause {
        TrapCause::StoreFault => Some(-2i32),
        TrapCause::LoadFault => Some(-2i32),
        TrapCause::InstructionFault => Some(-2i32),
        TrapCause::IllegalInstruction => Some(-3i32),
        TrapCause::UserEnvCall => None,
        TrapCause::SupervisorTimer => None,
    }
}

/// Decide what a fault does to the faulting process: memory faults kill it
/// with one code, illegal instructions with another; calls and timer ticks
/// do not kill.
pub fn fault_exit_code(cause: TrapCause) -> (r: Option<i32>)
    ensures
        r == spec_fault_exit_code(cause),
{
    match cause {
        TrapCause::StoreFault => Some(-2i32),
        TrapCause::LoadFault => Some(-2i32),
        TrapCause::InstructionFault => Some(-2i32),
        TrapCause::IllegalInstruction => Some(-3i32),
        TrapCause::UserEnvCall => None,
        TrapCause::SupervisorTimer => None,
    }
}

} // verus!
