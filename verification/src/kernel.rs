//! The process model: control blocks, the stride scheduler, descriptor
//! tables, and the syscall layer over pipes, mailboxes and the console.
//!
//! Address spaces are built and changed through the memory modules; here the
//! kernel decides what each call returns and how the process table moves.

use vstd::prelude::*;
use crate::config::{BIG_STRIDE, TASK_INIT_PRIORITY};
use crate::mail_box::{MailBox, MailPacket, MAX_PACKET_NUM, PACKET_BUFFER_SIZE};
use crate::pipe::{PipeState, RING_BUFFER_SIZE};
use crate::task::{TaskStatus, TrapCause, fault_exit_code, spec_fault_exit_code};
use vstd::pervasive::unreached;

verus! {

/// What a descriptor names.
#[derive(Copy, Clone, PartialEq, Eq, Structural, Debug)]
pub enum FileDescriptor {
    /// The console input.
    Stdin,
    /// The console output; the error stream shares it.
    Stdout,
    /// The read end of the pipe with this index.
    PipeRead(usize),
    /// The write end of the pipe with this index.
    PipeWrite(usize),
}

/// A process: its identity, run state, scheduling fields, family links,
/// exit code, descriptor table and mailbox.
#[verifier::ext_equal]
pub struct TaskControlBlock {
    /// The process id: the slot it occupies.
    pub pid: usize,
    /// Run state.
    pub task_status: TaskStatus,
    /// Stride accumulator; the scheduler always picks the smallest.
    pub task_stride: isize,
    /// Priority; at least two.
    pub task_priority: isize,
    /// Parent process id; the initial process is its own parent.
    pub parent: usize,
    /// Child process ids.
    pub children: Vec<usize>,
    /// Recorded at exit, collected by the parent.
    pub exit_code: i32,
    /// Sparse descriptor table; holes are free descriptors.
    pub fd_table: Vec<Option<FileDescriptor>>,
    /// The process's mailbox.
    pub mail_box: MailBox,
}

impl TaskControlBlock {
    /// Descriptors point at existing pipes; the priority floor holds.
    pub open spec fn wf(&self, npipes: int) -> bool {
        &&& self.task_priority >= 2
        &&& self.mail_box.wf()
        &&& forall|f: int|
            0 <= f < self.fd_table@.len() ==> match #[trigger] self.fd_table@[f] {
                Some(FileDescriptor::PipeRead(i)) => i < npipes,
                Some(FileDescriptor::PipeWrite(i)) => i < npipes,
                _ => true,
            }
    }
}

/// The machine's process state: the table of control blocks by pid, the
/// running process, the ready queue, the open pipes, and the console
/// streams.
pub struct Kernel {
    /// Control blocks, indexed by pid; a hole is a free pid.
    pub procs: Vec<Option<TaskControlBlock>>,
    /// The pid on the processor.
    pub current: Option<usize>,
    /// Pids waiting to run.
    pub ready_queue: Vec<usize>,
    /// Open pipes, shared by their ends through indices.
    pub pipes: Vec<PipeState>,
    /// Bytes written to standard output, in order.
    pub console_out: Vec<u8>,
    /// Bytes waiting on standard input, in order.
    pub console_in: Vec<u8>,
}

impl Kernel {
    /// Whether a pid names a live process.
    pub open spec fn live(&self, p: int) -> bool {
        0 <= p < self.procs@.len() && self.procs@[p] is Some
    }

    /// Every live block is well-formed, the running pid and the queued pids
    /// are live, the running one is marked so, and queued ones are ready.
    pub open spec fn wf(&self) -> bool {
        &&& forall|p: int|
            self.live(p) ==> (#[trigger] self.procs@[p])->0.wf(self.pipes@.len() as int)
        &&& forall|p: int| self.live(p) ==> (#[trigger] self.procs@[p])->0.pid == p
        &&& forall|i: int| 0 <= i < self.pipes@.len() ==> (#[trigger] self.pipes@[i]).wf()
        &&& match self.current {
            Some(c) => self.live(c as int) && self.procs@[c as int]->0.task_status
                == TaskStatus::Running,
            None => true,
        }
        &&& forall|i: int|
            0 <= i < self.ready_queue@.len() ==> self.live(#[trigger] self.ready_queue@[i] as int)
                && self.procs@[self.ready_queue@[i] as int]->0.task_status == TaskStatus::Ready
        &&& forall|i: int, j: int|
            0 <= i < j < self.ready_queue@.len() ==> self.ready_queue@[i] != self.ready_queue@[j]
        // every child entry names a slot of the table
        &&& forall|p: int, k: int|
            self.live(p) && 0 <= k < self.procs@[p]->0.children@.len() ==> (
            #[trigger] self.procs@[p]->0.children@[k]) < self.procs@.len()
        // a child appears at most once in its parent's list
        &&& forall|p: int, k1: int, k2: int|
            self.live(p) && 0 <= k1 < k2 < self.procs@[p]->0.children@.len()
                ==> self.procs@[p]->0.children@[k1] != self.procs@[p]->0.children@[k2]
        // and in at most one list
        &&& forall|p1: int, p2: int, k1: int, k2: int|
            self.live(p1) && self.live(p2) && p1 != p2 && 0 <= k1 < self.procs@[p1]->0.children@.len() && 0 <= k2 < self.procs@[p2]->0.children@.len()
                ==> self.procs@[p1]->0.children@[k1] != self.procs@[p2]->0.children@[k2]
    }

    /// A machine with no processes.
    pub fn new() -> (r: Kernel)
        ensures
            r.wf(),
            r.procs@.len() == 0,
            r.current is None,
            r.ready_queue@.len() == 0,
            r.pipes@.len() == 0,
            r.console_out@.len() == 0,
    {
        Kernel {
            procs: Vec::new(),
            current: None,
            ready_queue: Vec::new(),
            pipes: Vec::new(),
            console_out: Vec::new(),
            console_in: Vec::new(),
        }
    }

    /// The running process's control block.
    fn current_tcb(&self) -> (r: &TaskControlBlock)
        requires
            self.wf(),
            self.current is Some,
        ensures
            r == self.procs@[self.current->0 as int]->0,
    {
        let c = match self.current {
            Some(c) => c,
            None => unreached(),
        };
        match &self.procs[c] {
            Some(t) => t,
            None => unreached(),
        }
    }

    /// Spawn the first process: descriptors 0, 1 and 2 preinstalled with the
    /// standard streams; it starts on the ready queue.
    pub fn add_initproc(&mut self) -> (pid: usize)
        requires
            old(self).wf(),
        ensures
            final(self).wf(),
            final(self).procs@.len() == old(self).procs@.len() + 1,
            pid == old(self).procs@.len(),
            final(self).live(pid as int),
            final(self).procs@[pid as int]->0.fd_table@ == seq![
                Some(FileDescriptor::Stdin),
                Some(FileDescriptor::Stdout),
                Some(FileDescriptor::Stdout),
            ],
            final(self).procs@[pid as int]->0.task_priority == TASK_INIT_PRIORITY,
            final(self).ready_queue@ == old(self).ready_queue@.push(pid),
            final(self).current == old(self).current,
            final(self).pipes@ == old(self).pipes@,
    {
        let pid = self.procs.len();
        let mut fd_table: Vec<Option<FileDescriptor>> = Vec::new();
        fd_table.push(Some(FileDescriptor::Stdin));
        fd_table.push(Some(FileDescriptor::Stdout));
        fd_table.push(Some(FileDescriptor::Stdout));
        let tcb = TaskControlBlock {
            pid,
            task_status: TaskStatus::Ready,
            task_stride: 0,
            task_priority: TASK_INIT_PRIORITY,
            parent: pid,
            children: Vec::new(),
            exit_code: 0,
            fd_table,
            mail_box: MailBox::new(),
        };
        self.procs.push(Some(tcb));
        self.ready_queue.push(pid);
        proof {
            assert(self.procs@[pid as int]->0.fd_table@ =~= seq![
                Some(FileDescriptor::Stdin),
                Some(FileDescriptor::Stdout),
                Some(FileDescriptor::Stdout),
            ]);
            assert forall|p: int| self.live(p) implies ((#[trigger] self.procs@[p])->0.wf(
                self.pipes@.len() as int,
            ) && self.procs@[p]->0.pid == p) by {
                if p < pid {
                    assert(old(self).procs@[p] == self.procs@[p]);
                }
            }
            assert forall|p: int|
                self.live(p) implies ((old(self).live(p) && #[trigger] self.procs@[p]->0.children@
                == old(self).procs@[p]->0.children@) || self.procs@[p]->0.children@.len() == 0) by {
                if p < pid {
                    assert(self.procs@[p] == old(self).procs@[p]);
                }
            }
            lemma_children_preserved(*old(self), *self);
        }
        pid
    }

    /// Pick the ready process with the least stride, mark it running, and
    /// advance its stride by the stride constant over its priority. Returns
    /// the chosen pid, or none when the queue is empty or a task already
    /// runs.
    pub fn run_next(&mut self) -> (r: Option<usize>)
        requires
            old(self).wf(),
        ensures
            final(self).wf(),
            final(self).pipes@ == old(self).pipes@,
            r is None <==> old(self).current is Some || old(self).ready_queue@.len() == 0,
            r is None ==> final(self).current == old(self).current && final(self).ready_queue@
                == old(self).ready_queue@ && final(self).procs@ == old(self).procs@,
            r matches Some(p) ==> {
                &&& final(self).current == Some(p)
                &&& old(self).ready_queue@.contains(p)
                &&& final(self).ready_queue@.len() == old(self).ready_queue@.len() - 1
                // the remaining queue is the old one with that pid taken out
                &&& exists|i: int|
                    0 <= i < old(self).ready_queue@.len() && old(self).ready_queue@[i] == p
                        && final(self).ready_queue@ == old(self).ready_queue@.remove(i)
                // the chosen stride is least among the ready
                &&& forall|i: int|
                    0 <= i < old(self).ready_queue@.len() ==> old(self).procs@[(
                    #[trigger] old(self).ready_queue@[i]) as int]->0.task_stride >= old(self).procs@[p as int]->0.task_stride
                // the dispatched stride advances by the stride quantum,
                // saturating at the top of the field
                &&& final(self).procs@[p as int]->0.task_stride == if old(self).procs@[p as int]->0.task_stride + BIG_STRIDE / old(self).procs@[p as int]->0.task_priority <= isize::MAX {
                    old(self).procs@[p as int]->0.task_stride + BIG_STRIDE / old(self).procs@[p as int]->0.task_priority
                } else {
                    isize::MAX as int
                }
            },
    {
        if self.current.is_some() {
            return None;
        }
        let n = self.ready_queue.len();
        if n == 0 {
            return None;
        }
        // find the least stride, first among equals
        let mut best: usize = 0;
        let mut i: usize = 1;
        while i < n
            invariant
                self.wf(),
                n == self.ready_queue@.len(),
                0 < n,
                best < n,
                i <= n,
                forall|j: int|
                    0 <= j < i ==> self.procs@[(#[trigger] self.ready_queue@[j]) as int]->0.task_stride
                        >= self.procs@[self.ready_queue@[best as int] as int]->0.task_stride,
            decreases n - i,
        {
            let cand = self.ready_queue[i];
            let bestp = self.ready_queue[best];
            let cand_stride = match &self.procs[cand] {
                Some(t) => t.task_stride,
                None => unreached(),
            };
            let best_stride = match &self.procs[bestp] {
                Some(t) => t.task_stride,
                None => unreached(),
            };
            if cand_stride < best_stride {
                best = i;
            }
            i = i + 1;
        }
        let p = self.ready_queue.remove(best);
        let pr = match &self.procs[p] {
            Some(t) => t.task_priority,
            None => unreached(),
        };
        let st = match &self.procs[p] {
            Some(t) => t.task_stride,
            None => unreached(),
        };
        let quantum: isize = BIG_STRIDE / pr;
        let newst: isize = if st > isize::MAX - quantum {
            isize::MAX
        } else {
            st + quantum
        };
        if let Some(tcb) = &mut self.procs[p] {
            tcb.task_status = TaskStatus::Running;
            tcb.task_stride = newst;
        }
        self.current = Some(p);
        proof {
            assert(self.ready_queue@ == old(self).ready_queue@.subrange(0, best as int) + old(self).ready_queue@.subrange(best as int + 1, old(self).ready_queue@.len() as int));
            assert(old(self).ready_queue@[best as int] == p && self.ready_queue@ == old(self).ready_queue@.remove(best as int));
        }
        proof {
            assert forall|pp: int| self.live(pp) implies ((#[trigger] self.procs@[pp])->0.wf(
                self.pipes@.len() as int,
            ) && self.procs@[pp]->0.pid == pp) by {
                if pp != p {
                    assert(old(self).procs@[pp] == self.procs@[pp]);
                }
            }
            assert forall|j: int| 0 <= j < self.ready_queue@.len() implies (self.live(
                #[trigger] self.ready_queue@[j] as int,
            ) && self.procs@[self.ready_queue@[j] as int]->0.task_status == TaskStatus::Ready) by {
                if j < best {
                    assert(self.ready_queue@[j] == old(self).ready_queue@[j]);
                    assert(old(self).ready_queue@[j] != old(self).ready_queue@[best as int]);
                } else {
                    assert(self.ready_queue@[j] == old(self).ready_queue@[j + 1]);
                    assert(old(self).ready_queue@[j + 1] != old(self).ready_queue@[best as int]);
                }
                assert(self.ready_queue@[j] != p);
            }
            assert forall|pp: int|
                self.live(pp) implies ((old(self).live(pp)
                && #[trigger] self.procs@[pp]->0.children@ == old(self).procs@[pp]->0.children@)
                || self.procs@[pp]->0.children@.len() == 0) by {
                if pp != p {
                    assert(self.procs@[pp] == old(self).procs@[pp]);
                }
            }
            lemma_children_preserved(*old(self), *self);
        }
        Some(p)
    }

    /// Take the running process off the processor and back onto the ready
    /// queue: a voluntary yield or a timer tick.
    pub fn suspend_current(&mut self)
        requires
            old(self).wf(),
            old(self).current is Some,
        ensures
            final(self).wf(),
            final(self).current is None,
            final(self).ready_queue@ == old(self).ready_queue@.push(old(self).current->0),
            final(self).pipes@ == old(self).pipes@,
            final(self).procs@.len() == old(self).procs@.len(),
            forall|p: int|
                0 <= p < old(self).procs@.len() && p != old(self).current->0 ==> final(self).procs@[p] == old(self).procs@[p],
    {
        let c = match self.current {
            Some(c) => c,
            None => unreached(),
        };
        if let Some(tcb) = &mut self.procs[c] {
            tcb.task_status = TaskStatus::Ready;
        }
        self.current = None;
        self.ready_queue.push(c);
        proof {
            assert forall|p: int| final(self).live(p) implies (#[trigger] final(self).procs@[p])->0.wf(
                final(self).pipes@.len() as int,
            ) && final(self).procs@[p]->0.pid == p by {
                if p != c {
                    assert(old(self).procs@[p] == final(self).procs@[p]);
                }
            }
            assert forall|j: int| 0 <= j < self.ready_queue@.len() implies (self.live(
                #[trigger] self.ready_queue@[j] as int,
            ) && self.procs@[self.ready_queue@[j] as int]->0.task_status == TaskStatus::Ready) by {
                if j < old(self).ready_queue@.len() {
                    assert(self.ready_queue@[j] == old(self).ready_queue@[j]);
                }
            }
            assert forall|i2: int, j2: int|
                0 <= i2 < j2 < self.ready_queue@.len() implies self.ready_queue@[i2]
                != self.ready_queue@[j2] by {
                if j2 < old(self).ready_queue@.len() {
                } else {
                    assert(self.ready_queue@[j2] == c);
                    assert(old(self).procs@[old(self).ready_queue@[i2] as int]->0.task_status
                        == TaskStatus::Ready);
                    assert(old(self).procs@[c as int]->0.task_status == TaskStatus::Running);
                }
            }
            assert forall|pp: int|
                self.live(pp) implies ((old(self).live(pp)
                && #[trigger] self.procs@[pp]->0.children@ == old(self).procs@[pp]->0.children@)
                || self.procs@[pp]->0.children@.len() == 0) by {
                if pp != c {
                    assert(self.procs@[pp] == old(self).procs@[pp]);
                }
            }
            lemma_children_preserved(*old(self), *self);
        }
    }
}

/// A kernel whose process table changed only in slot `c`, to a block that is
/// well-formed, keeps its pid and keeps its run state, is still well-formed.
pub proof fn lemma_wf_one_slot(pre: Kernel, post: Kernel, c: int)
    requires
        pre.wf(),
        0 <= c < pre.procs@.len(),
        pre.procs@[c] is Some,
        post.procs@.len() == pre.procs@.len(),
        forall|p: int| 0 <= p < pre.procs@.len() && p != c ==> post.procs@[p] == pre.procs@[p],
        post.procs@[c] is Some,
        post.procs@[c]->0.wf(post.pipes@.len() as int),
        post.procs@[c]->0.pid == c,
        post.procs@[c]->0.task_status == pre.procs@[c]->0.task_status,
        post.procs@[c]->0.children@ == pre.procs@[c]->0.children@,
        post.current == pre.current,
        post.ready_queue@ == pre.ready_queue@,
        post.pipes@.len() == pre.pipes@.len(),
        forall|i: int| 0 <= i < post.pipes@.len() ==> (#[trigger] post.pipes@[i]).wf(),
    ensures
        post.wf(),
{
    assert forall|p: int| post.live(p) implies ((#[trigger] post.procs@[p])->0.wf(
        post.pipes@.len() as int,
    ) && post.procs@[p]->0.pid == p) by {
        if p != c {
            assert(post.procs@[p] == pre.procs@[p]);
        }
    }
    assert forall|i: int| 0 <= i < post.ready_queue@.len() implies post.live(
        #[trigger] post.ready_queue@[i] as int,
    ) && post.procs@[post.ready_queue@[i] as int]->0.task_status == TaskStatus::Ready by {
        assert(pre.live(pre.ready_queue@[i] as int));
    }
    assert forall|p: int| post.live(p) implies #[trigger] post.procs@[p]->0.children@
        == pre.procs@[p]->0.children@ by {
        if p != c {
            assert(post.procs@[p] == pre.procs@[p]);
        }
    }
}

/// The family-tree clauses survive any step that keeps each live slot's
/// child list (or leaves it empty) and does not grow the table past its
/// old entries.
pub proof fn lemma_children_preserved(pre: Kernel, post: Kernel)
    requires
        pre.wf(),
        post.procs@.len() >= pre.procs@.len(),
        forall|p: int|
            post.live(p) ==> ((pre.live(p) && #[trigger] post.procs@[p]->0.children@
                == pre.procs@[p]->0.children@) || post.procs@[p]->0.children@.len() == 0),
        forall|p: int| post.live(p) && p >= pre.procs@.len() ==> post.procs@[p]->0.children@.len() == 0,
    ensures
        forall|p: int, k: int|
            post.live(p) && 0 <= k < post.procs@[p]->0.children@.len() ==> (
            #[trigger] post.procs@[p]->0.children@[k]) < post.procs@.len(),
        forall|p: int, k1: int, k2: int|
            post.live(p) && 0 <= k1 < k2 < post.procs@[p]->0.children@.len()
                ==> post.procs@[p]->0.children@[k1] != post.procs@[p]->0.children@[k2],
        forall|p1: int, p2: int, k1: int, k2: int|
            post.live(p1) && post.live(p2) && p1 != p2 && 0 <= k1 < post.procs@[p1]->0.children@.len() && 0 <= k2 < post.procs@[p2]->0.children@.len()
                ==> post.procs@[p1]->0.children@[k1] != post.procs@[p2]->0.children@[k2],
{
    assert forall|p: int, k: int|
        post.live(p) && 0 <= k < post.procs@[p]->0.children@.len() implies (
    #[trigger] post.procs@[p]->0.children@[k]) < post.procs@.len() by {
        assert(pre.live(p) && post.procs@[p]->0.children@ == pre.procs@[p]->0.children@);
    }
    assert forall|p: int, k1: int, k2: int|
        post.live(p) && 0 <= k1 < k2 < post.procs@[p]->0.children@.len() implies post.procs@[p]->0.children@[k1] != post.procs@[p]->0.children@[k2] by {
        assert(pre.live(p) && post.procs@[p]->0.children@ == pre.procs@[p]->0.children@);
    }
    assert forall|p1: int, p2: int, k1: int, k2: int|
        post.live(p1) && post.live(p2) && p1 != p2 && 0 <= k1 < post.procs@[p1]->0.children@.len() && 0 <= k2 < post.procs@[p2]->0.children@.len() implies post.procs@[p1]->0.children@[k1] != post.procs@[p2]->0.children@[k2] by {
        assert(pre.live(p1) && post.procs@[p1]->0.children@ == pre.procs@[p1]->0.children@);
        assert(pre.live(p2) && post.procs@[p2]->0.children@ == pre.procs@[p2]->0.children@);
    }
}

impl Kernel {
    /// Growing the pipe table, leaving everything else alone, keeps the
    /// kernel well-formed: descriptors point into a prefix of it.
    proof fn lemma_wf_more_pipes(pre: Kernel, post: Kernel)
        requires
            pre.wf(),
            post.procs@ == pre.procs@,
            post.current == pre.current,
            post.ready_queue@ == pre.ready_queue@,
            post.pipes@.len() >= pre.pipes@.len(),
            forall|i: int| 0 <= i < post.pipes@.len() ==> (#[trigger] post.pipes@[i]).wf(),
        ensures
            post.wf(),
    {
        assert forall|p: int| post.live(p) implies ((#[trigger] post.procs@[p])->0.wf(
            post.pipes@.len() as int,
        ) && post.procs@[p]->0.pid == p) by {
            assert(pre.procs@[p]->0.wf(pre.pipes@.len() as int));
        }
        assert forall|i: int| 0 <= i < post.ready_queue@.len() implies post.live(
            #[trigger] post.ready_queue@[i] as int,
        ) && post.procs@[post.ready_queue@[i] as int]->0.task_status == TaskStatus::Ready by {
            assert(pre.live(pre.ready_queue@[i] as int));
        }
        lemma_children_preserved(pre, post);
    }

    /// The pid of the running process.
    pub fn sys_getpid(&self) -> (r: isize)
        requires
            self.wf(),
            self.current is Some,
            self.current->0 <= isize::MAX,
        ensures
            r == self.current->0,
    {
        let t = self.current_tcb();
        t.pid as isize
    }

    /// Set the running process's priority and return it; a priority below
    /// two is refused with -1 and changes nothing.
    pub fn sys_set_priority(&mut self, priority: isize) -> (r: isize)
        requires
            old(self).wf(),
            old(self).current is Some,
        ensures
            final(self).wf(),
            priority >= 2 ==> r == priority && final(self).procs@[old(self).current->0 as int]->0.task_priority == priority,
            priority < 2 ==> r == -1 && final(self).procs@ == old(self).procs@,
            final(self).current == old(self).current,
            final(self).ready_queue@ == old(self).ready_queue@,
            final(self).pipes@ == old(self).pipes@,
    {
        if priority < 2 {
            return -1;
        }
        let c = match self.current {
            Some(c) => c,
            None => unreached(),
        };
        if let Some(tcb) = &mut self.procs[c] {
            tcb.task_priority = priority;
        }
        proof {
            lemma_wf_one_slot(*old(self), *self, c as int);
        }
        priority
    }

    /// The smallest free descriptor of process `c`, extending the table
    /// when none is free.
    fn alloc_fd(&mut self, c: usize) -> (fd: usize)
        requires
            old(self).wf(),
            old(self).live(c as int),
        ensures
            final(self).wf(),
            final(self).current == old(self).current,
            final(self).ready_queue@ == old(self).ready_queue@,
            final(self).pipes@ == old(self).pipes@,
            final(self).procs@.len() == old(self).procs@.len(),
            forall|p: int|
                0 <= p < old(self).procs@.len() && p != c ==> final(self).procs@[p] == old(self).procs@[p],
            final(self).procs@[c as int] is Some,
            fd < final(self).procs@[c as int]->0.fd_table@.len(),
            final(self).procs@[c as int]->0.fd_table@[fd as int] is None,
            fd < old(self).procs@[c as int]->0.fd_table@.len() ==> old(self).procs@[c as int]->0.fd_table@[fd as int] is None,
            // the smallest free slot is taken
            forall|g: int|
                0 <= g < fd ==> (#[trigger] old(self).procs@[c as int]->0.fd_table@[g]) is Some,
            final(self).procs@[c as int]->0.task_status == old(self).procs@[c as int]->0.task_status,
            // all other descriptors keep their value
            forall|f: int|
                0 <= f < old(self).procs@[c as int]->0.fd_table@.len() && f != fd ==> final(self).procs@[c as int]->0.fd_table@[f] == old(self).procs@[c as int]->0.fd_table@[f],
            final(self).procs@[c as int]->0.fd_table@.len() <= old(self).procs@[c as int]->0.fd_table@.len() + 1,
            final(self).procs@[c as int]->0.fd_table@.len() >= old(self).procs@[c as int]->0.fd_table@.len(),
            final(self).procs@[c as int]->0.fd_table@.len() == if fd < old(self).procs@[c as int]->0.fd_table@.len() {
                old(self).procs@[c as int]->0.fd_table@.len() as int
            } else {
                old(self).procs@[c as int]->0.fd_table@.len() as int + 1
            },
            final(self).procs@[c as int]->0.mail_box == old(self).procs@[c as int]->0.mail_box,
            final(self).procs@[c as int]->0.task_priority == old(self).procs@[c as int]->0.task_priority,
            final(self).procs@[c as int]->0.task_stride == old(self).procs@[c as int]->0.task_stride,
            final(self).procs@[c as int]->0.parent == old(self).procs@[c as int]->0.parent,
            final(self).procs@[c as int]->0.exit_code == old(self).procs@[c as int]->0.exit_code,
            final(self).procs@[c as int]->0.children@ == old(self).procs@[c as int]->0.children@,
            final(self).procs@[c as int]->0.pid == old(self).procs@[c as int]->0.pid,
    {
        let mut result: usize = 0;
        let mut found = false;
        if let Some(tcb) = &mut self.procs[c] {
            let n = tcb.fd_table.len();
            let mut f: usize = 0;
            while f < n && !found
                invariant
                    f <= n,
                    n == tcb.fd_table@.len(),
                    !found ==> forall|g: int|
                        0 <= g < f ==> (#[trigger] tcb.fd_table@[g]) is Some,
                    found ==> result < n && tcb.fd_table@[result as int] is None && forall|g: int|
                        0 <= g < result ==> (#[trigger] tcb.fd_table@[g]) is Some,
                decreases n - f, 1int - if found { 1int } else { 0int },
            {
                if tcb.fd_table[f].is_none() {
                    found = true;
                    result = f;
                } else {
                    f = f + 1;
                }
            }
            if !found {
                tcb.fd_table.push(None);
                result = n;
            }
        }
        proof {
            lemma_wf_one_slot(*old(self), *self, c as int);
        }
        result
    }

    /// Write one descriptor slot of a live process.
    fn set_fd(&mut self, c: usize, fd: usize, entry: Option<FileDescriptor>)
        requires
            old(self).wf(),
            old(self).live(c as int),
            fd < old(self).procs@[c as int]->0.fd_table@.len(),
            match entry {
                Some(FileDescriptor::PipeRead(i)) => i < old(self).pipes@.len(),
                Some(FileDescriptor::PipeWrite(i)) => i < old(self).pipes@.len(),
                _ => true,
            },
        ensures
            final(self).wf(),
            final(self).current == old(self).current,
            final(self).ready_queue@ == old(self).ready_queue@,
            final(self).pipes@ == old(self).pipes@,
            final(self).procs@.len() == old(self).procs@.len(),
            forall|p: int|
                0 <= p < old(self).procs@.len() && p != c ==> final(self).procs@[p] == old(self).procs@[p],
            final(self).procs@[c as int] is Some,
            final(self).procs@[c as int]->0.fd_table@ == old(self).procs@[c as int]->0.fd_table@.update(
                fd as int,
                entry,
            ),
            final(self).procs@[c as int]->0.task_status == old(self).procs@[c as int]->0.task_status,
            final(self).procs@[c as int]->0.task_priority == old(self).procs@[c as int]->0.task_priority,
            final(self).procs@[c as int]->0.task_stride == old(self).procs@[c as int]->0.task_stride,
            final(self).procs@[c as int]->0.parent == old(self).procs@[c as int]->0.parent,
            final(self).procs@[c as int]->0.children@ == old(self).procs@[c as int]->0.children@,
            final(self).procs@[c as int]->0.exit_code == old(self).procs@[c as int]->0.exit_code,
            final(self).procs@[c as int]->0.mail_box == old(self).procs@[c as int]->0.mail_box,
            final(self).procs@[c as int]->0.pid == old(self).procs@[c as int]->0.pid,
    {
        if let Some(tcb) = &mut self.procs[c] {
            tcb.fd_table[fd] = entry;
        }
        proof {
            assert forall|f: int|
                0 <= f < self.procs@[c as int]->0.fd_table@.len() implies match #[trigger] self.procs@[c as int]->0.fd_table@[f] {
                Some(FileDescriptor::PipeRead(i)) => i < self.pipes@.len(),
                Some(FileDescriptor::PipeWrite(i)) => i < self.pipes@.len(),
                _ => true,
            } by {
                if f != fd {
                    assert(self.procs@[c as int]->0.fd_table@[f] == old(self).procs@[c as int]->0.fd_table@[f]);
                }
            }
            lemma_wf_one_slot(*old(self), *self, c as int);
        }
    }

    /// Open a pipe for the running process: the ring is created and the read
    /// and write ends take the two smallest free descriptors, read end
    /// first.
    pub fn sys_pipe(&mut self) -> (r: (usize, usize))
        requires
            old(self).wf(),
            old(self).current is Some,
        ensures
            final(self).wf(),
            final(self).current == old(self).current,
            final(self).ready_queue@ == old(self).ready_queue@,
            final(self).pipes@.len() == old(self).pipes@.len() + 1,
            forall|i: int| 0 <= i < old(self).pipes@.len() ==> final(self).pipes@[i] == old(self).pipes@[i],
            final(self).pipes@.last().buffer.contents() == Seq::<u8>::empty(),
            final(self).pipes@.last().read_ends == 1,
            final(self).pipes@.last().write_ends == 1,
            final(self).procs@[old(self).current->0 as int]->0.fd_table@[r.0 as int] == Some(
                FileDescriptor::PipeRead((final(self).pipes@.len() - 1) as usize),
            ),
            final(self).procs@[old(self).current->0 as int]->0.fd_table@[r.1 as int] == Some(
                FileDescriptor::PipeWrite((final(self).pipes@.len() - 1) as usize),
            ),
            r.0 != r.1,
            r.0 < final(self).procs@[old(self).current->0 as int]->0.fd_table@.len(),
            r.1 < final(self).procs@[old(self).current->0 as int]->0.fd_table@.len(),
    {
        let c = match self.current {
            Some(c) => c,
            None => unreached(),
        };
        let idx = self.pipes.len();
        self.pipes.push(PipeState::make_pipe());
        proof {
            Kernel::lemma_wf_more_pipes(*old(self), *self);
        }
        let read_fd = self.alloc_fd(c);
        self.set_fd(c, read_fd, Some(FileDescriptor::PipeRead(idx)));
        let ghost k3 = *self;
        let write_fd = self.alloc_fd(c);
        proof {
            assert(k3.procs@[c as int]->0.fd_table@[read_fd as int] == Some(
                FileDescriptor::PipeRead(idx),
            ));
            assert(read_fd != write_fd);
            assert(read_fd < k3.procs@[c as int]->0.fd_table@.len());
            assert(self.procs@[c as int]->0.fd_table@[read_fd as int] == Some(
                FileDescriptor::PipeRead(idx),
            ));
        }
        self.set_fd(c, write_fd, Some(FileDescriptor::PipeWrite(idx)));
        proof {
            assert(self.procs@[c as int]->0.fd_table@[read_fd as int] == Some(
                FileDescriptor::PipeRead(idx),
            ));
        }
        (read_fd, write_fd)
    }

    /// Close a descriptor of the running process: -1 when it is out of range
    /// or already free; a pipe end's count drops by one.
    pub fn sys_close(&mut self, fd: usize) -> (r: isize)
        requires
            old(self).wf(),
            old(self).current is Some,
        ensures
            final(self).wf(),
            final(self).current == old(self).current,
            final(self).ready_queue@ == old(self).ready_queue@,
            final(self).pipes@.len() == old(self).pipes@.len(),
            r == -1 <==> (fd >= old(self).procs@[old(self).current->0 as int]->0.fd_table@.len()
                || old(self).procs@[old(self).current->0 as int]->0.fd_table@[fd as int] is None),
            r == -1 ==> final(self).procs@ == old(self).procs@ && final(self).pipes@ == old(self).pipes@,
            r != -1 ==> r == 0 && final(self).procs@[old(self).current->0 as int]->0.fd_table@[fd as int] is None,
            r != -1 ==> forall|f: int|
                0 <= f < old(self).procs@[old(self).current->0 as int]->0.fd_table@.len() && f
                    != fd ==> final(self).procs@[old(self).current->0 as int]->0.fd_table@[f]
                    == old(self).procs@[old(self).current->0 as int]->0.fd_table@[f],
            // closing one end of a pipe lowers that end's count by one
            r != -1 ==> match old(self).procs@[old(self).current->0 as int]->0.fd_table@[fd as int] {
                Some(FileDescriptor::PipeWrite(i)) => final(self).pipes@[i as int].write_ends
                    == old(self).pipes@[i as int].write_ends - 1 || (old(self).pipes@[i as int].write_ends
                    == 0 && final(self).pipes@[i as int].write_ends == 0),
                Some(FileDescriptor::PipeRead(i)) => final(self).pipes@[i as int].read_ends == old(self).pipes@[i as int].read_ends - 1 || (old(self).pipes@[i as int].read_ends == 0
                    && final(self).pipes@[i as int].read_ends == 0),
                _ => final(self).pipes@ == old(self).pipes@,
            },
            r != -1 ==> forall|i: int|
                0 <= i < old(self).pipes@.len() ==> (#[trigger] final(self).pipes@[i]).buffer
                    == old(self).pipes@[i].buffer,
            // no other process's table moves: a descriptor inherited across
            // a fork stays open there
            forall|p: int|
                0 <= p < old(self).procs@.len() && p != old(self).current->0 ==> final(self).procs@[p] == old(self).procs@[p],
    {
        let c = match self.current {
            Some(c) => c,
            None => unreached(),
        };
        let mut taken: Option<FileDescriptor> = None;
        if let Some(tcb) = &mut self.procs[c] {
            if fd >= tcb.fd_table.len() {
                return -1;
            }
            if tcb.fd_table[fd].is_none() {
                return -1;
            }
            core::mem::swap(&mut tcb.fd_table[fd], &mut taken);
        }
        proof {
            assert forall|f: int|
                0 <= f < self.procs@[c as int]->0.fd_table@.len() implies match #[trigger] self.procs@[c as int]->0.fd_table@[f] {
                Some(FileDescriptor::PipeRead(i)) => i < self.pipes@.len(),
                Some(FileDescriptor::PipeWrite(i)) => i < self.pipes@.len(),
                _ => true,
            } by {
                if f != fd {
                    assert(self.procs@[c as int]->0.fd_table@[f] == old(self).procs@[c as int]->0.fd_table@[f]);
                }
            }
            lemma_wf_one_slot(*old(self), *self, c as int);
        }
        let ghost k1 = *self;
        match taken {
            Some(FileDescriptor::PipeRead(i)) => {
                let ends = self.pipes[i].read_ends;
                if ends > 0 {
                    self.pipes[i].read_ends = ends - 1;
                }
            },
            Some(FileDescriptor::PipeWrite(i)) => {
                let ends = self.pipes[i].write_ends;
                if ends > 0 {
                    self.pipes[i].write_ends = ends - 1;
                }
            },
            _ => (),
        }
        proof {
            assert forall|i: int| 0 <= i < self.pipes@.len() implies (#[trigger] self.pipes@[i]).wf() by {
                assert(k1.pipes@[i].wf());
                assert(self.pipes@[i].buffer == k1.pipes@[i].buffer);
            }
            lemma_wf_one_slot(*old(self), *self, c as int);
        }
        0
    }

    /// Duplicate a descriptor of the running process onto the smallest free
    /// one; -1 when it is out of range or free.
    pub fn sys_dup(&mut self, fd: usize) -> (r: isize)
        requires
            old(self).wf(),
            old(self).current is Some,
        ensures
            final(self).wf(),
            final(self).current == old(self).current,
            final(self).ready_queue@ == old(self).ready_queue@,
            final(self).pipes@ == old(self).pipes@,
            (fd >= old(self).procs@[old(self).current->0 as int]->0.fd_table@.len() || old(self).procs@[old(self).current->0 as int]->0.fd_table@[fd as int] is None) ==> r == -1,
            // a live descriptor owes a duplicate, onto the smallest free slot
            (fd < old(self).procs@[old(self).current->0 as int]->0.fd_table@.len() && old(self).procs@[old(self).current->0 as int]->0.fd_table@[fd as int] is Some && old(self).procs@[old(self).current->0 as int]->0.fd_table@.len() < isize::MAX) ==> r >= 0,
            r >= 0 ==> forall|g: int|
                0 <= g < r ==> (#[trigger] old(self).procs@[old(self).current->0 as int]->0.fd_table@[g]) is Some,
            r >= 0 ==> final(self).procs@[old(self).current->0 as int]->0.fd_table@[r as int]
                == old(self).procs@[old(self).current->0 as int]->0.fd_table@[fd as int],
            // a refusal leaves the whole table as it was
            r == -1 ==> final(self).procs@ == old(self).procs@,
            // a duplicate touches only the new slot: the source and every
            // other descriptor keep their value, in this and every other
            // process
            r >= 0 ==> forall|f: int|
                0 <= f < old(self).procs@[old(self).current->0 as int]->0.fd_table@.len() && f != r
                    ==> #[trigger] final(self).procs@[old(self).current->0 as int]->0.fd_table@[f]
                    == old(self).procs@[old(self).current->0 as int]->0.fd_table@[f],
            r >= 0 ==> final(self).procs@[old(self).current->0 as int]->0.fd_table@.len() == if r
                < old(self).procs@[old(self).current->0 as int]->0.fd_table@.len() {
                old(self).procs@[old(self).current->0 as int]->0.fd_table@.len() as int
            } else {
                old(self).procs@[old(self).current->0 as int]->0.fd_table@.len() as int + 1
            },
            forall|p: int|
                0 <= p < old(self).procs@.len() && p != old(self).current->0
                    ==> #[trigger] final(self).procs@[p] == old(self).procs@[p],
    {
        let c = match self.current {
            Some(c) => c,
            None => unreached(),
        };
        let entry: Option<FileDescriptor> = match &self.procs[c] {
            Some(tcb) => {
                if fd >= tcb.fd_table.len() {
                    return -1;
                }
                if tcb.fd_table.len() >= isize::MAX as usize {
                    return -1;
                }
                tcb.fd_table[fd]
            },
            None => unreached(),
        };
        let entry = match entry {
            Some(e) => e,
            None => {
                return -1;
            },
        };
        let new_fd = self.alloc_fd(c);
        let ghost k1 = *self;
        if let Some(tcb) = &mut self.procs[c] {
            tcb.fd_table[new_fd] = Some(entry);
        }
        proof {
            assert forall|f: int|
                0 <= f < self.procs@[c as int]->0.fd_table@.len() implies match #[trigger] self.procs@[c as int]->0.fd_table@[f] {
                Some(FileDescriptor::PipeRead(i)) => i < self.pipes@.len(),
                Some(FileDescriptor::PipeWrite(i)) => i < self.pipes@.len(),
                _ => true,
            } by {
                if f != new_fd {
                    assert(self.procs@[c as int]->0.fd_table@[f] == k1.procs@[c as int]->0.fd_table@[f]);
                }
            }
            lemma_wf_one_slot(k1, *self, c as int);
            assert(new_fd != fd);
        }
        new_fd as isize
    }
}

impl Kernel {
    /// Fork the running process: the child shares every open descriptor
    /// (pipe end counts grow), carries a copy of the mailbox, inherits the
    /// priority, starts with stride zero on the ready queue, and is linked
    /// as a child of its parent. Returns the child pid.
    #[verifier::rlimit(100)]
    #[verifier::spinoff_prover]
    pub fn sys_fork(&mut self) -> (child: usize)
        requires
            old(self).wf(),
            old(self).current is Some,
        ensures
            final(self).wf(),
            final(self).current == old(self).current,
            child == old(self).procs@.len(),
            final(self).live(child as int),
            // the child's descriptor table is the parent's, entry for entry
            final(self).procs@[child as int]->0.fd_table@ == old(self).procs@[old(self).current->0 as int]->0.fd_table@,
            final(self).procs@[child as int]->0.task_priority == old(self).procs@[old(self).current->0 as int]->0.task_priority,
            final(self).procs@[child as int]->0.task_stride == 0,
            final(self).procs@[child as int]->0.parent == old(self).current->0,
            final(self).procs@[child as int]->0.children@.len() == 0,
            final(self).procs@[child as int]->0.mail_box.view_packets() == old(self).procs@[old(self).current->0 as int]->0.mail_box.view_packets(),
            final(self).ready_queue@ == old(self).ready_queue@.push(child),
            final(self).procs@[old(self).current->0 as int]->0.children@ == old(self).procs@[old(self).current->0 as int]->0.children@.push(child),
            final(self).procs@[old(self).current->0 as int]->0.fd_table@ == old(self).procs@[old(self).current->0 as int]->0.fd_table@,
            final(self).pipes@.len() == old(self).pipes@.len(),
            forall|i: int|
                0 <= i < old(self).pipes@.len() ==> (#[trigger] final(self).pipes@[i]).buffer
                    == old(self).pipes@[i].buffer,
    {
        let c = match self.current {
            Some(c) => c,
            None => unreached(),
        };
        let child = self.procs.len();
        // copy the descriptor table and count the new holders of each pipe end
        let mut new_fd_table: Vec<Option<FileDescriptor>> = Vec::new();
        let n = match &self.procs[c] {
            Some(t) => t.fd_table.len(),
            None => unreached(),
        };
        let mut f: usize = 0;
        while f < n
            invariant
                f <= n,
                self.wf(),
                self.live(c as int),
                self.current == old(self).current,
                self.current == Some(c),
                n == self.procs@[c as int]->0.fd_table@.len(),
                self.procs@ == old(self).procs@,
                self.ready_queue@ == old(self).ready_queue@,
                self.pipes@.len() == old(self).pipes@.len(),
                forall|i: int|
                    0 <= i < old(self).pipes@.len() ==> (#[trigger] self.pipes@[i]).buffer == old(self).pipes@[i].buffer,
                new_fd_table@.len() == f,
                forall|g: int|
                    0 <= g < f ==> new_fd_table@[g] == self.procs@[c as int]->0.fd_table@[g],
            decreases n - f,
        {
            let entry = match &self.procs[c] {
                Some(t) => t.fd_table[f],
                None => unreached(),
            };
            match entry {
                Some(FileDescriptor::PipeRead(i)) => {
                    let ends = self.pipes[i].read_ends;
                    if ends < usize::MAX {
                        self.pipes[i].read_ends = ends + 1;
                    }
                },
                Some(FileDescriptor::PipeWrite(i)) => {
                    let ends = self.pipes[i].write_ends;
                    if ends < usize::MAX {
                        self.pipes[i].write_ends = ends + 1;
                    }
                },
                _ => (),
            }
            new_fd_table.push(entry);
            f = f + 1;
            proof {
                assert forall|i: int| 0 <= i < self.pipes@.len() implies (#[trigger] self.pipes@[i]).wf() by {
                    assert(self.pipes@[i].buffer == old(self).pipes@[i].buffer);
                    assert(old(self).pipes@[i].wf());
                }
            }
        }
        // copy the mailbox
        let mut new_mail = crate::mail_box::MailBox::new();
        let m = match &self.procs[c] {
            Some(t) => t.mail_box.packets.len(),
            None => unreached(),
        };
        let mut k: usize = 0;
        while k < m
            invariant
                k <= m,
                self.wf(),
                self.live(c as int),
                m == self.procs@[c as int]->0.mail_box.packets@.len(),
                m <= MAX_PACKET_NUM,
                new_mail.wf(),
                new_mail.packets@.len() == k,
                forall|g: int|
                    0 <= g < k ==> (#[trigger] new_mail.packets@[g]).data@ == self.procs@[c as int]->0.mail_box.packets@[g].data@,
            decreases m - k,
        {
            let data = match &self.procs[c] {
                Some(t) => crate::memory_set::subvec(
                    &t.mail_box.packets[k].data,
                    0,
                    t.mail_box.packets[k].data.len(),
                ),
                None => unreached(),
            };
            new_mail.push(MailPacket { data });
            k = k + 1;
        }
        let prio = match &self.procs[c] {
            Some(t) => t.task_priority,
            None => unreached(),
        };
        let tcb = TaskControlBlock {
            pid: child,
            task_status: TaskStatus::Ready,
            task_stride: 0,
            task_priority: prio,
            parent: c,
            children: Vec::new(),
            exit_code: 0,
            fd_table: new_fd_table,
            mail_box: new_mail,
        };
        let ghost k1 = *self;
        self.procs.push(Some(tcb));
        if let Some(parent) = &mut self.procs[c] {
            parent.children.push(child);
        }
        self.ready_queue.push(child);
        proof {
            assert forall|p: int| self.live(p) implies ((#[trigger] self.procs@[p])->0.wf(
                self.pipes@.len() as int,
            ) && self.procs@[p]->0.pid == p) by {
                if p < child && p != c {
                    assert(self.procs@[p] == k1.procs@[p]);
                } else if p == child {
                    assert(self.procs@[p]->0.fd_table@ == k1.procs@[c as int]->0.fd_table@);
                    assert(k1.procs@[c as int]->0.wf(k1.pipes@.len() as int));
                }
            }
            assert forall|j: int| 0 <= j < self.ready_queue@.len() implies (self.live(
                #[trigger] self.ready_queue@[j] as int,
            ) && self.procs@[self.ready_queue@[j] as int]->0.task_status == TaskStatus::Ready) by {
                if j < k1.ready_queue@.len() {
                    assert(self.ready_queue@[j] == k1.ready_queue@[j]);
                    assert(k1.live(k1.ready_queue@[j] as int));
                }
            }
            assert forall|i2: int, j2: int|
                0 <= i2 < j2 < self.ready_queue@.len() implies self.ready_queue@[i2]
                != self.ready_queue@[j2] by {
                if j2 == self.ready_queue@.len() - 1 {
                    assert(self.ready_queue@[j2] == child);
                    assert(k1.live(k1.ready_queue@[i2] as int));
                }
            }
            assert(self.procs@[child as int]->0.mail_box.view_packets() =~= old(self).procs@[old(self).current->0 as int]->0.mail_box.view_packets());
        }
        child
    }

    /// End the running process: mark it a zombie with the code, hand its
    /// children to the initial process, clear its own list, and free the
    /// processor. The block itself stays until the parent collects it.
    pub fn exit_current(&mut self, exit_code: i32, initproc: usize)
        requires
            old(self).wf(),
            old(self).current is Some,
            old(self).live(initproc as int),
            old(self).current->0 != initproc,
        ensures
            final(self).wf(),
            final(self).current is None,
            final(self).live(old(self).current->0 as int),
            final(self).procs@[old(self).current->0 as int]->0.task_status == TaskStatus::Zombie,
            final(self).procs@[old(self).current->0 as int]->0.exit_code == exit_code,
            final(self).procs@[old(self).current->0 as int]->0.children@.len() == 0,
            final(self).ready_queue@ == old(self).ready_queue@,
            final(self).pipes@ == old(self).pipes@,
            final(self).procs@.len() == old(self).procs@.len(),
            // the orphans now hang under the initial process
            final(self).procs@[initproc as int]->0.children@ == old(self).procs@[initproc as int]->0.children@ + old(self).procs@[old(self).current->0 as int]->0.children@,
            forall|p: int|
                0 <= p < old(self).procs@.len() && p != old(self).current->0 && p != initproc
                    ==> final(self).procs@[p] == old(self).procs@[p],
    {
        let c = match self.current {
            Some(c) => c,
            None => unreached(),
        };
        let mut orphans: Vec<usize> = Vec::new();
        if let Some(tcb) = &mut self.procs[c] {
            core::mem::swap(&mut tcb.children, &mut orphans);
            tcb.task_status = TaskStatus::Zombie;
            tcb.exit_code = exit_code;
        }
        let ghost k1 = *self;
        if let Some(init) = &mut self.procs[initproc] {
            init.children.append(&mut orphans);
        }
        self.current = None;
        proof {
            assert forall|p: int| self.live(p) implies ((#[trigger] self.procs@[p])->0.wf(
                self.pipes@.len() as int,
            ) && self.procs@[p]->0.pid == p) by {
                if p != c && p != initproc {
                    assert(self.procs@[p] == old(self).procs@[p]);
                } else if p == initproc {
                    assert(k1.procs@[initproc as int]->0.wf(k1.pipes@.len() as int));
                }
            }
            assert forall|j: int| 0 <= j < self.ready_queue@.len() implies (self.live(
                #[trigger] self.ready_queue@[j] as int,
            ) && self.procs@[self.ready_queue@[j] as int]->0.task_status == TaskStatus::Ready) by {
                assert(old(self).live(old(self).ready_queue@[j] as int));
                assert(old(self).ready_queue@[j] != c);
            }
        }
    }

    /// Collect a zombie child: -1 when no child matches the asked pid (or
    /// any, for -1), -2 when a matching child still runs, else the child's
    /// pid with its exit code; the child's slot is freed.
    #[verifier::rlimit(100)]
    #[verifier::spinoff_prover]
    pub fn sys_waitpid(&mut self, pid: isize) -> (r: (isize, i32))
        requires
            old(self).wf(),
            old(self).current is Some,
            old(self).procs@.len() <= isize::MAX,
        ensures
            final(self).wf(),
            final(self).current == old(self).current,
            final(self).ready_queue@ == old(self).ready_queue@,
            final(self).pipes@ == old(self).pipes@,
            // no matching child at all
            r.0 == -1 <==> (forall|k: int|
                0 <= k < old(self).procs@[old(self).current->0 as int]->0.children@.len()
                    ==> !child_matches(
                    *old(self),
                    #[trigger] old(self).procs@[old(self).current->0 as int]->0.children@[k],
                    pid,
                )),
            r.0 == -1 ==> final(self).procs@ == old(self).procs@,
            // a matching zombie child owes a reap
            (exists|k: int|
                0 <= k < old(self).procs@[old(self).current->0 as int]->0.children@.len()
                    && child_matches(
                    *old(self),
                    #[trigger] old(self).procs@[old(self).current->0 as int]->0.children@[k],
                    pid,
                ) && old(self).procs@[old(self).procs@[old(self).current->0 as int]->0.children@[k] as int]->0.task_status == TaskStatus::Zombie) ==> r.0 >= 0,
            // a match exists but none is a zombie yet
            r.0 == -2 ==> exists|k: int|
                0 <= k < old(self).procs@[old(self).current->0 as int]->0.children@.len()
                    && child_matches(
                    *old(self),
                    #[trigger] old(self).procs@[old(self).current->0 as int]->0.children@[k],
                    pid,
                ),
            r.0 == -2 ==> final(self).procs@ == old(self).procs@,
            // a zombie child was collected: its slot is freed and it leaves
            // the child list
            r.0 >= 0 ==> {
                &&& old(self).live(r.0 as int)
                &&& old(self).procs@[r.0 as int]->0.task_status == TaskStatus::Zombie
                &&& r.1 == old(self).procs@[r.0 as int]->0.exit_code
                &&& final(self).procs@[r.0 as int] is None
                &&& !final(self).procs@[old(self).current->0 as int]->0.children@.contains(
                    r.0 as usize,
                )
            },
    {
        let c = match self.current {
            Some(c) => c,
            None => unreached(),
        };
        let nchildren = match &self.procs[c] {
            Some(t) => t.children.len(),
            None => unreached(),
        };
        let mut any_match = false;
        let mut zombie_at: Option<usize> = None;
        let mut k: usize = 0;
        while k < nchildren
            invariant
                k <= nchildren,
                self.wf(),
                self.live(c as int),
                nchildren == self.procs@[c as int]->0.children@.len(),
                !any_match ==> forall|j: int|
                    0 <= j < k ==> !child_matches(
                        *self,
                        #[trigger] self.procs@[c as int]->0.children@[j],
                        pid,
                    ),
                any_match ==> exists|j: int|
                    0 <= j < k && child_matches(
                        *self,
                        #[trigger] self.procs@[c as int]->0.children@[j],
                        pid,
                    ),
                zombie_at matches Some(j) ==> j < k && child_matches(
                    *self,
                    self.procs@[c as int]->0.children@[j as int],
                    pid,
                ) && self.live(self.procs@[c as int]->0.children@[j as int] as int)
                    && self.procs@[self.procs@[c as int]->0.children@[j as int] as int]->0.task_status
                    == TaskStatus::Zombie,
                zombie_at is None ==> forall|jj: int|
                    0 <= jj < k ==> !(child_matches(
                        *self,
                        #[trigger] self.procs@[c as int]->0.children@[jj],
                        pid,
                    ) && self.procs@[self.procs@[c as int]->0.children@[jj] as int]->0.task_status
                        == TaskStatus::Zombie),
            decreases nchildren - k,
        {
            let ch = match &self.procs[c] {
                Some(t) => t.children[k],
                None => unreached(),
            };
            let matches_pid = pid == -1 || pid == 0 || (ch <= isize::MAX as usize && pid == ch as isize);
            if matches_pid && ch < self.procs.len() {
                match &self.procs[ch] {
                    Some(t) => {
                        any_match = true;
                        if matches!(t.task_status, TaskStatus::Zombie) && zombie_at.is_none() {
                            zombie_at = Some(k);
                        }
                    },
                    None => (),
                }
            }
            k = k + 1;
        }
        match zombie_at {
            Some(j) => {
                let ch = match &self.procs[c] {
                    Some(t) => t.children[j],
                    None => unreached(),
                };
                let code = match &self.procs[ch] {
                    Some(t) => t.exit_code,
                    None => unreached(),
                };
                let ghost k0 = *self;
                if let Some(t) = &mut self.procs[c] {
                    t.children.remove(j);
                }
                proof {
                    // the caller's shrunken child list keeps every clause
                    assert(self.procs@[c as int]->0.children@ == k0.procs@[c as int]->0.children@.remove(j as int));
                    assert forall|p: int, k: int|
                        self.live(p) && 0 <= k < self.procs@[p]->0.children@.len() implies (
                    #[trigger] self.procs@[p]->0.children@[k]) < self.procs@.len() by {
                        if p != c {
                            assert(self.procs@[p] == k0.procs@[p]);
                        } else {
                            if k < j {
                                assert(self.procs@[c as int]->0.children@[k] == k0.procs@[c as int]->0.children@[k]);
                            } else {
                                assert(self.procs@[c as int]->0.children@[k] == k0.procs@[c as int]->0.children@[k + 1]);
                            }
                        }
                    }
                    assert forall|p: int, k1: int, k2: int|
                        self.live(p) && 0 <= k1 < k2 < self.procs@[p]->0.children@.len() implies self.procs@[p]->0.children@[k1] != self.procs@[p]->0.children@[k2] by {
                        if p != c {
                            assert(self.procs@[p] == k0.procs@[p]);
                        } else {
                            let a1: int = if k1 < j { k1 } else { k1 + 1 };
                            let a2: int = if k2 < j { k2 } else { k2 + 1 };
                            assert(self.procs@[c as int]->0.children@[k1] == k0.procs@[c as int]->0.children@[a1]);
                            assert(self.procs@[c as int]->0.children@[k2] == k0.procs@[c as int]->0.children@[a2]);
                        }
                    }
                    assert forall|p1: int, p2: int, k1: int, k2: int|
                        self.live(p1) && self.live(p2) && p1 != p2 && 0 <= k1 < self.procs@[p1]->0.children@.len() && 0 <= k2 < self.procs@[p2]->0.children@.len() implies self.procs@[p1]->0.children@[k1] != self.procs@[p2]->0.children@[k2] by {
                        let a1: int = if p1 == c && k1 >= j { k1 + 1 } else { k1 };
                        let a2: int = if p2 == c && k2 >= j { k2 + 1 } else { k2 };
                        assert(self.procs@[p1]->0.children@[k1] == k0.procs@[p1]->0.children@[a1]);
                        assert(self.procs@[p2]->0.children@[k2] == k0.procs@[p2]->0.children@[a2]);
                    }
                    assert forall|p: int| self.live(p) implies ((#[trigger] self.procs@[p])->0.wf(
                        self.pipes@.len() as int,
                    ) && self.procs@[p]->0.pid == p) by {
                        if p != c {
                            assert(self.procs@[p] == k0.procs@[p]);
                        }
                    }
                    assert forall|jq: int| 0 <= jq < self.ready_queue@.len() implies (self.live(
                        #[trigger] self.ready_queue@[jq] as int,
                    ) && self.procs@[self.ready_queue@[jq] as int]->0.task_status
                        == TaskStatus::Ready) by {
                        assert(k0.live(k0.ready_queue@[jq] as int));
                    }
                }
                let ghost k1 = *self;
                self.procs[ch] = None;
                proof {
                    assert forall|p: int| self.live(p) implies ((#[trigger] self.procs@[p])->0.wf(
                        self.pipes@.len() as int,
                    ) && self.procs@[p]->0.pid == p) by {
                        if p != ch {
                            assert(self.procs@[p] == k1.procs@[p]);
                            assert(k1.live(p));
                        }
                    }
                    assert forall|jq: int| 0 <= jq < self.ready_queue@.len() implies (self.live(
                        #[trigger] self.ready_queue@[jq] as int,
                    ) && self.procs@[self.ready_queue@[jq] as int]->0.task_status
                        == TaskStatus::Ready) by {
                        assert(k1.live(k1.ready_queue@[jq] as int));
                        assert(k1.procs@[k1.ready_queue@[jq] as int]->0.task_status
                            == TaskStatus::Ready);
                        assert(k1.ready_queue@[jq] != ch);
                    }
                    assert forall|pp: int|
                        self.live(pp) implies ((k1.live(pp)
                        && #[trigger] self.procs@[pp]->0.children@ == k1.procs@[pp]->0.children@)
                        || self.procs@[pp]->0.children@.len() == 0) by {
                        if pp != ch {
                            assert(self.procs@[pp] == k1.procs@[pp]);
                        }
                    }
                    lemma_children_preserved(k1, *self);
                    // a reaped child leaves its parent's list for good: the
                    // list held it once
                    if self.procs@[c as int]->0.children@.contains(ch) {
                        let kk = choose|kk: int|
                            0 <= kk < self.procs@[c as int]->0.children@.len()
                                && self.procs@[c as int]->0.children@[kk] == ch;
                        let aa: int = if kk < j {
                            kk
                        } else {
                            kk + 1
                        };
                        assert(k0.procs@[c as int]->0.children@[aa] == ch);
                        assert(k0.procs@[c as int]->0.children@[j as int] == ch);
                        assert(false);
                    }
                }
                (ch as isize, code)
            },
            None => {
                if any_match {
                    (-2, 0)
                } else {
                    (-1, 0)
                }
            },
        }
    }
}

impl Kernel {
    /// What the running process's descriptor currently names; none when out
    /// of range or free.
    fn fd_entry(&self, fd: usize) -> (r: Option<FileDescriptor>)
        requires
            self.wf(),
            self.current is Some,
        ensures
            r == if fd < self.procs@[self.current->0 as int]->0.fd_table@.len() {
                self.procs@[self.current->0 as int]->0.fd_table@[fd as int]
            } else {
                None::<FileDescriptor>
            },
    {
        let t = self.current_tcb();
        if fd < t.fd_table.len() {
            t.fd_table[fd]
        } else {
            None
        }
    }

    /// Write through a descriptor. The console takes everything; a pipe
    /// takes what fits in its ring, and the written count comes back, so a
    /// cut-short writer yields and retries: the blocking point of the
    /// original becomes a partial count. Unknown, free or read-only
    /// descriptors give -1.
    #[verifier::rlimit(100)]
    #[verifier::spinoff_prover]
    pub fn sys_write(&mut self, fd: usize, data: &Vec<u8>) -> (r: isize)
        requires
            old(self).wf(),
            old(self).current is Some,
            data@.len() <= isize::MAX,
        ensures
            final(self).wf(),
            final(self).current == old(self).current,
            final(self).ready_queue@ == old(self).ready_queue@,
            final(self).procs@ == old(self).procs@,
            final(self).pipes@.len() == old(self).pipes@.len(),
            match spec_fd_of(*old(self), fd) {
                Some(FileDescriptor::Stdout) => r == data@.len()
                    && final(self).console_out@ == old(self).console_out@ + data@ && final(self).pipes@ == old(self).pipes@,
                Some(FileDescriptor::PipeWrite(i)) => {
                    &&& r == min_int(
                        data@.len() as int,
                        RING_BUFFER_SIZE - old(self).pipes@[i as int].buffer.contents().len(),
                    )
                    &&& final(self).pipes@[i as int].buffer.contents() == old(self).pipes@[i as int].buffer.contents() + data@.subrange(0, r as int)
                    &&& forall|j: int|
                        0 <= j < old(self).pipes@.len() && j != i ==> final(self).pipes@[j] == old(self).pipes@[j]
                    &&& final(self).console_out@ == old(self).console_out@
                },
                _ => r == -1 && final(self).pipes@ == old(self).pipes@ && final(self).console_out@
                    == old(self).console_out@,
            },
    {
        let entry = self.fd_entry(fd);
        match entry {
            Some(FileDescriptor::Stdout) => {
                let mut k: usize = 0;
                let n = data.len();
                while k < n
                    invariant
                        k <= n,
                        n == data@.len(),
                        self.wf(),
                        self.current == old(self).current,
                        self.ready_queue@ == old(self).ready_queue@,
                        self.procs@ == old(self).procs@,
                        self.pipes@ == old(self).pipes@,
                        self.console_out@ == old(self).console_out@ + data@.subrange(0, k as int),
                        self.console_in@ == old(self).console_in@,
                    decreases n - k,
                {
                    self.console_out.push(data[k]);
                    k = k + 1;
                    proof {
                        assert(self.console_out@ =~= old(self).console_out@ + data@.subrange(
                            0,
                            k as int,
                        ));
                    }
                }
                proof {
                    assert(data@.subrange(0, n as int) =~= data@);
                }
                n as isize
            },
            Some(FileDescriptor::PipeWrite(i)) => {
                let room = self.pipes[i].buffer.available_write();
                let n = data.len();
                let take: usize = if n < room {
                    n
                } else {
                    room
                };
                let mut k: usize = 0;
                while k < take
                    invariant
                        k <= take,
                        i < self.pipes@.len(),
                        take <= data@.len(),
                        take - k <= RING_BUFFER_SIZE - self.pipes@[i as int].buffer.contents().len(),
                        self.wf(),
                        self.current == old(self).current,
                        self.ready_queue@ == old(self).ready_queue@,
                        self.procs@ == old(self).procs@,
                        self.pipes@.len() == old(self).pipes@.len(),
                        self.console_out@ == old(self).console_out@,
                        self.console_in@ == old(self).console_in@,
                        forall|j: int|
                            0 <= j < old(self).pipes@.len() && j != i ==> self.pipes@[j] == old(self).pipes@[j],
                        self.pipes@[i as int].read_ends == old(self).pipes@[i as int].read_ends,
                        self.pipes@[i as int].write_ends == old(self).pipes@[i as int].write_ends,
                        self.pipes@[i as int].buffer.contents() == old(self).pipes@[i as int].buffer.contents() + data@.subrange(0, k as int),
                    decreases take - k,
                {
                    proof {
                        assert(self.pipes@[i as int].wf());
                    }
                    let b = data[k];
                    self.pipes[i].buffer.write_byte(b);
                    k = k + 1;
                    proof {
                        assert(self.pipes@[i as int].buffer.contents() =~= old(self).pipes@[i as int].buffer.contents() + data@.subrange(0, k as int));
                    }
                }
                take as isize
            },
            _ => -1,
        }
    }

    /// Read through a descriptor, at most `len` bytes. A pipe hands out what
    /// it holds; an empty pipe gives 0 once every write end is closed, and
    /// -2 — the suspension point — while writers remain. The console input
    /// gives one byte when present, -2 when none waits. Unknown, free or
    /// write-only descriptors give -1.
    #[verifier::rlimit(100)]
    #[verifier::spinoff_prover]
    pub fn sys_read(&mut self, fd: usize, len: usize) -> (r: (isize, Vec<u8>))
        requires
            old(self).wf(),
            old(self).current is Some,
            len <= isize::MAX,
        ensures
            final(self).wf(),
            final(self).current == old(self).current,
            final(self).ready_queue@ == old(self).ready_queue@,
            final(self).procs@ == old(self).procs@,
            final(self).console_out@ == old(self).console_out@,
            final(self).pipes@.len() == old(self).pipes@.len(),
            match spec_fd_of(*old(self), fd) {
                Some(FileDescriptor::PipeRead(i)) => {
                    let avail = old(self).pipes@[i as int].buffer.contents().len() as int;
                    &&& (avail == 0 && old(self).pipes@[i as int].write_ends == 0 ==> r.0 == 0
                        && r.1@.len() == 0)
                    &&& (avail == 0 && old(self).pipes@[i as int].write_ends > 0 ==> r.0 == -2
                        && final(self).pipes@ == old(self).pipes@)
                    &&& (avail > 0 ==> {
                        &&& r.0 == min_int(len as int, avail)
                        &&& r.1@ == old(self).pipes@[i as int].buffer.contents().subrange(
                            0,
                            r.0 as int,
                        )
                        &&& final(self).pipes@[i as int].buffer.contents() == old(self).pipes@[i as int].buffer.contents().skip(r.0 as int)
                        &&& forall|j: int|
                            0 <= j < old(self).pipes@.len() && j != i ==> final(self).pipes@[j]
                                == old(self).pipes@[j]
                    })
                },
                Some(FileDescriptor::Stdin) => {
                    &&& (old(self).console_in@.len() == 0 ==> r.0 == -2)
                    &&& (old(self).console_in@.len() > 0 && len == 0 ==> r.0 == 0
                        && final(self).console_in@ == old(self).console_in@)
                    &&& (old(self).console_in@.len() > 0 && len > 0 ==> r.0 == 1 && r.1@ == seq![
                        old(self).console_in@[0],
                    ] && final(self).console_in@ == old(self).console_in@.drop_first())
                },
                _ => r.0 == -1 && final(self).pipes@ == old(self).pipes@,
            },
    {
        let entry = self.fd_entry(fd);
        match entry {
            Some(FileDescriptor::PipeRead(i)) => {
                let avail = self.pipes[i].buffer.available_read();
                if avail == 0 {
                    if self.pipes[i].write_ends == 0 {
                        return (0, Vec::new());
                    }
                    return (-2, Vec::new());
                }
                let take: usize = if len < avail {
                    len
                } else {
                    avail
                };
                let mut out: Vec<u8> = Vec::new();
                let mut k: usize = 0;
                while k < take
                    invariant
                        k <= take,
                        i < self.pipes@.len(),
                        take <= old(self).pipes@[i as int].buffer.contents().len(),
                        self.wf(),
                        self.current == old(self).current,
                        self.ready_queue@ == old(self).ready_queue@,
                        self.procs@ == old(self).procs@,
                        self.pipes@.len() == old(self).pipes@.len(),
                        self.console_out@ == old(self).console_out@,
                        self.console_in@ == old(self).console_in@,
                        forall|j: int|
                            0 <= j < old(self).pipes@.len() && j != i ==> self.pipes@[j] == old(self).pipes@[j],
                        self.pipes@[i as int].read_ends == old(self).pipes@[i as int].read_ends,
                        self.pipes@[i as int].write_ends == old(self).pipes@[i as int].write_ends,
                        self.pipes@[i as int].buffer.contents() == old(self).pipes@[i as int].buffer.contents().skip(k as int),
                        out@ == old(self).pipes@[i as int].buffer.contents().subrange(0, k as int),
                    decreases take - k,
                {
                    proof {
                        assert(self.pipes@[i as int].wf());
                        assert(self.pipes@[i as int].buffer.contents().len() == old(self).pipes@[i as int].buffer.contents().len() - k);
                    }
                    let b = self.pipes[i].buffer.read_byte();
                    out.push(b);
                    k = k + 1;
                    proof {
                        assert(self.pipes@[i as int].buffer.contents() =~= old(self).pipes@[i as int].buffer.contents().skip(k as int));
                        assert(out@ =~= old(self).pipes@[i as int].buffer.contents().subrange(
                            0,
                            k as int,
                        ));
                    }
                }
                (take as isize, out)
            },
            Some(FileDescriptor::Stdin) => {
                if self.console_in.len() == 0 {
                    return (-2, Vec::new());
                }
                if len == 0 {
                    return (0, Vec::new());
                }
                let b = self.console_in.remove(0);
                let mut out: Vec<u8> = Vec::new();
                out.push(b);
                proof {
                    assert(out@ =~= seq![old(self).console_in@[0]]);
                    assert(self.console_in@ =~= old(self).console_in@.drop_first());
                }
                (1, out)
            },
            _ => (-1, Vec::new()),
        }
    }

    /// Deliver a datagram into any process's mailbox, the running one's
    /// included; the bounds and probe rules of the mailbox decide the
    /// result. An unknown pid gives -1.
    pub fn sys_mail_write(&mut self, pid: usize, data: &Vec<u8>) -> (r: isize)
        requires
            old(self).wf(),
        ensures
            final(self).wf(),
            final(self).current == old(self).current,
            final(self).ready_queue@ == old(self).ready_queue@,
            final(self).pipes@ == old(self).pipes@,
            !old(self).live(pid as int) ==> r == -1 && final(self).procs@ =~~= old(self).procs@,
            old(self).live(pid as int) ==> ({
                let pre = old(self).procs@[pid as int]->0.mail_box;
                &&& (pre.packets@.len() >= MAX_PACKET_NUM ==> r == -1 && final(self).procs@[pid as int]->0.mail_box.view_packets() == pre.view_packets())
                &&& (pre.packets@.len() < MAX_PACKET_NUM && data@.len() == 0 ==> r == 0
                    && final(self).procs@[pid as int]->0.mail_box.view_packets()
                    == pre.view_packets())
                &&& (forall|p: int|
                    0 <= p < old(self).procs@.len() && p != pid ==> final(self).procs@[p] == old(self).procs@[p])
                &&& (pre.packets@.len() < MAX_PACKET_NUM && data@.len() > 0 ==> {
                    &&& r == min_int(data@.len() as int, PACKET_BUFFER_SIZE as int)
                    &&& final(self).procs@[pid as int]->0.mail_box.view_packets() == pre.view_packets().push(data@.subrange(0, r as int))
                })
            }),
    {
        if pid >= self.procs.len() {
            return -1;
        }
        let mut r: isize = -1;
        let ghost k0 = *self;
        let mut live = false;
        if let Some(tcb) = &mut self.procs[pid] {
            live = true;
            r = tcb.mail_box.write(data);
        }
        proof {
            if k0.live(pid as int) {
                lemma_wf_one_slot(k0, *self, pid as int);
                let pre = k0.procs@[pid as int]->0.mail_box;
                if pre.packets@.len() < MAX_PACKET_NUM && data@.len() > 0 {
                    assert(self.procs@[pid as int]->0.mail_box.view_packets()
                        =~~= pre.view_packets().push(data@.subrange(0, r as int)));
                }
                if pre.packets@.len() >= MAX_PACKET_NUM || data@.len() == 0 {
                    assert(self.procs@[pid as int]->0.mail_box.view_packets()
                        =~= pre.view_packets());
                }
            } else {
                assert(self.procs@ =~~= k0.procs@);
            }
        }
        r
    }

    /// Take the oldest datagram of the running process's mailbox, cut to
    /// `len`; the mailbox's bounds and probe rules decide the result.
    pub fn sys_mail_read(&mut self, len: usize) -> (r: (isize, Vec<u8>))
        requires
            old(self).wf(),
            old(self).current is Some,
        ensures
            final(self).wf(),
            final(self).current == old(self).current,
            final(self).ready_queue@ == old(self).ready_queue@,
            final(self).pipes@ == old(self).pipes@,
            ({
                let pre = old(self).procs@[old(self).current->0 as int]->0.mail_box;
                &&& (pre.packets@.len() == 0 ==> r.0 == -1 && final(self).procs@[old(self).current->0 as int]->0.mail_box.view_packets() == pre.view_packets())
                &&& (pre.packets@.len() > 0 && len == 0 ==> r.0 == 0 && final(self).procs@[old(self).current->0 as int]->0.mail_box.view_packets() == pre.view_packets())
                &&& (forall|p: int|
                    0 <= p < old(self).procs@.len() && p != old(self).current->0 ==> final(self).procs@[p] == old(self).procs@[p])
                &&& (pre.packets@.len() > 0 && len > 0 ==> {
                    &&& final(self).procs@[old(self).current->0 as int]->0.mail_box.view_packets()
                        == pre.view_packets().drop_first()
                    &&& r.1@ == if pre.packets@[0].data@.len() <= len {
                        pre.packets@[0].data@
                    } else {
                        pre.packets@[0].data@.subrange(0, len as int)
                    }
                    &&& r.0 == r.1@.len()
                })
            }),
    {
        let c = match self.current {
            Some(c) => c,
            None => unreached(),
        };
        let ghost k0 = *self;
        let mut r: (isize, Vec<u8>) = (-1, Vec::new());
        if let Some(tcb) = &mut self.procs[c] {
            r = tcb.mail_box.read(len);
        }
        proof {
            lemma_wf_one_slot(k0, *self, c as int);
            if k0.procs@[c as int]->0.mail_box.packets@.len() == 0 || len == 0 {
                assert(self.procs@[c as int]->0.mail_box.view_packets() =~= k0.procs@[c as int]->0.mail_box.view_packets());
            }
        }
        r
    }

    /// Act on a trap cause for the running process: a memory fault or an
    /// illegal instruction kills it with the distinctive code, a timer tick
    /// suspends it; an environment call changes nothing here.
    pub fn handle_trap(&mut self, cause: TrapCause, initproc: usize) -> (r: Option<i32>)
        requires
            old(self).wf(),
            old(self).current is Some,
            old(self).live(initproc as int),
            old(self).current->0 != initproc,
        ensures
            final(self).wf(),
            r == spec_fault_exit_code(cause),
            r matches Some(code) ==> {
                &&& final(self).current is None
                &&& final(self).procs@[old(self).current->0 as int]->0.task_status
                    == TaskStatus::Zombie
                &&& final(self).procs@[old(self).current->0 as int]->0.exit_code == code
                // the other processes continue: queue, pipes and every slot
                // but the victim's and the initial process's child list stay
                &&& final(self).ready_queue@ == old(self).ready_queue@
                &&& final(self).pipes@ == old(self).pipes@
                &&& forall|p: int|
                    0 <= p < old(self).procs@.len() && p != old(self).current->0 && p != initproc
                        ==> final(self).procs@[p] == old(self).procs@[p]
            },
            cause == TrapCause::SupervisorTimer ==> final(self).current is None && final(self).ready_queue@ == old(self).ready_queue@.push(old(self).current->0),
            cause == TrapCause::UserEnvCall ==> *final(self) == *old(self),
    {
        match fault_exit_code(cause) {
            Some(code) => {
                self.exit_current(code, initproc);
                Some(code)
            },
            None => {
                if matches!(cause, TrapCause::SupervisorTimer) {
                    self.suspend_current();
                }
                None
            },
        }
    }
}

/// The smaller of two mathematical integers.
pub open spec fn min_int(a: int, b: int) -> int {
    if a < b {
        a
    } else {
        b
    }
}

/// The descriptor a kernel's running process holds at `fd`.
pub open spec fn spec_fd_of(k: Kernel, fd: usize) -> Option<FileDescriptor> {
    if fd < k.procs@[k.current->0 as int]->0.fd_table@.len() {
        k.procs@[k.current->0 as int]->0.fd_table@[fd as int]
    } else {
        None
    }
}

/// Whether a child pid matches a waited-for pid: -1 and 0 ask for any
/// child, else the exact pid.
pub open spec fn child_matches(k: Kernel, ch: usize, pid: isize) -> bool {
    (pid == -1 || pid == 0 || pid as int == ch as int) && k.live(ch as int)
}

/// One dispatch advances a stride by at most the stride constant and by
/// more than the constant less the priority: the weighted stride advance
/// stays within one priority of the constant on every dispatch.
pub proof fn lemma_stride_quantum_bounds(p: int)
    requires
        2 <= p <= isize::MAX,
    ensures
        p * (BIG_STRIDE as int / p) <= BIG_STRIDE as int,
        p * (BIG_STRIDE as int / p) > BIG_STRIDE as int - p,
{
    let b = BIG_STRIDE as int;
    assert(p * (b / p) <= b && p * (b / p) > b - p) by (nonlinear_arith)
        requires
            2 <= p && b == 0x7FFFFFFF,
    ;
}

} // verus!
