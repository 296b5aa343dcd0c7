//! Process-model behavior: fork and descriptor inheritance, pipes,
//! mailboxes, waiting, faults, and stride scheduling.

use rcoreos::kernel::{FileDescriptor, Kernel, TaskControlBlock};
use rcoreos::mail_box::MailBox;
use rcoreos::task::{TaskStatus, TrapCause};

fn booted() -> (Kernel, usize) {
    let mut k = Kernel::new();
    let init = k.add_initproc();
    let got = k.run_next();
    assert_eq!(got, Some(init));
    (k, init)
}

#[test]
fn initproc_starts_with_standard_streams() {
    let (k, init) = booted();
    let t = k.procs[init].as_ref().unwrap();
    assert!(matches!(t.fd_table[0], Some(FileDescriptor::Stdin)));
    assert!(matches!(t.fd_table[1], Some(FileDescriptor::Stdout)));
    assert!(matches!(t.fd_table[2], Some(FileDescriptor::Stdout)));
}

#[test]
fn console_write_collects_bytes() {
    let (mut k, _) = booted();
    let msg = b"hi there".to_vec();
    assert_eq!(k.sys_write(1, &msg), 8);
    assert_eq!(k.console_out, msg);
    // reading the output stream is refused
    let (r, _) = k.sys_read(1, 4);
    assert_eq!(r, -1);
}

#[test]
fn pipe_carries_bytes_in_order() {
    let (mut k, _) = booted();
    let (rfd, wfd) = k.sys_pipe();
    let msg: Vec<u8> = (0..20u8).collect();
    assert_eq!(k.sys_write(wfd, &msg), 20);
    let (n, data) = k.sys_read(rfd, 20);
    assert_eq!(n, 20);
    assert_eq!(data, msg);
}

#[test]
fn overfull_pipe_write_blocks_at_capacity() {
    let (mut k, _) = booted();
    let (rfd, wfd) = k.sys_pipe();
    let msg: Vec<u8> = (0..40u8).collect();
    // only the ring's capacity goes through; the writer would now wait
    assert_eq!(k.sys_write(wfd, &msg), 32);
    let (n, data) = k.sys_read(rfd, 40);
    assert_eq!(n, 32);
    assert_eq!(&data[..], &msg[..32]);
}

#[test]
fn empty_pipe_read_waits_until_writers_close() {
    let (mut k, _) = booted();
    let (rfd, wfd) = k.sys_pipe();
    // writers still exist: the reader would wait
    let (r, _) = k.sys_read(rfd, 1);
    assert_eq!(r, -2);
    assert_eq!(k.sys_close(wfd), 0);
    // all write ends closed: the read ends with nothing
    let (r, _) = k.sys_read(rfd, 1);
    assert_eq!(r, 0);
}

#[test]
fn fork_shares_descriptors_without_sharing_the_table() {
    let (mut k, init) = booted();
    let (rfd, wfd) = k.sys_pipe();
    let child = k.sys_fork();
    // the child's table lists the same entries
    {
        let p = k.procs[init].as_ref().unwrap();
        let c = k.procs[child].as_ref().unwrap();
        assert_eq!(p.fd_table, c.fd_table);
        assert_eq!(c.parent, init);
        assert_eq!(p.children, vec![child]);
    }
    // both ends are now held twice
    assert_eq!(k.pipes[0].read_ends, 2);
    assert_eq!(k.pipes[0].write_ends, 2);
    // closing in the parent does not close the child's copy
    assert_eq!(k.sys_close(rfd), 0);
    assert!(k.procs[init].as_ref().unwrap().fd_table[rfd].is_none());
    assert!(k.procs[child].as_ref().unwrap().fd_table[rfd].is_some());
    assert_eq!(k.pipes[0].read_ends, 1);
    let _ = wfd;
}

#[test]
fn pipe_echo_between_parent_and_child() {
    let (mut k, init) = booted();
    let (rfd, wfd) = k.sys_pipe();
    let child = k.sys_fork();
    // parent closes its read end, writes the message, closes the write end
    assert_eq!(k.sys_close(rfd), 0);
    let msg = b"Hello, world!".to_vec();
    assert_eq!(k.sys_write(wfd, &msg), 13);
    assert_eq!(k.sys_close(wfd), 0);
    // nothing to collect yet
    let (r, _) = k.sys_waitpid(-1);
    assert_eq!(r, -2);
    // the parent yields; the child runs
    k.suspend_current();
    assert_eq!(k.run_next(), Some(child));
    // child closes its write end, reads the message, and exits cleanly
    assert_eq!(k.sys_close(wfd), 0);
    let (n, data) = k.sys_read(rfd, 64);
    assert_eq!(n, 13);
    assert_eq!(data, msg);
    // the message was consumed; with every writer closed the next read ends
    let (n2, _) = k.sys_read(rfd, 1);
    assert_eq!(n2, 0);
    k.exit_current(0, init);
    // back to the parent, which now collects the child
    assert_eq!(k.run_next(), Some(init));
    let (pid, code) = k.sys_waitpid(-1);
    assert_eq!(pid as usize, child);
    assert_eq!(code, 0);
    // the child's slot is gone
    assert!(k.procs[child].is_none());
}

#[test]
fn waitpid_distinguishes_no_child_from_running_child() {
    let (mut k, init) = booted();
    let (r, _) = k.sys_waitpid(-1);
    assert_eq!(r, -1);
    let child = k.sys_fork();
    let (r, _) = k.sys_waitpid(child as isize);
    assert_eq!(r, -2);
    let (r, _) = k.sys_waitpid(12345);
    assert_eq!(r, -1);
    let _ = init;
}

#[test]
fn mailbox_limits_hold() {
    let (mut k, init) = booted();
    let pkt = vec![0xA5u8; 256];
    for _ in 0..16 {
        assert_eq!(k.sys_mail_write(init, &pkt), 256);
    }
    // the seventeenth delivery is refused
    assert_eq!(k.sys_mail_write(init, &pkt), -1);
    // a zero-length read probes without draining
    let (r, _) = k.sys_mail_read(0);
    assert_eq!(r, 0);
    // still full
    assert_eq!(k.sys_mail_write(init, &pkt), -1);
    // drain one and a delivery fits again
    let (r, data) = k.sys_mail_read(256);
    assert_eq!(r, 256);
    assert_eq!(data, pkt);
    assert_eq!(k.sys_mail_write(init, &pkt), 256);
}

#[test]
fn mail_truncates_to_packet_bound() {
    let (mut k, init) = booted();
    let long = vec![9u8; 300];
    assert_eq!(k.sys_mail_write(init, &long), 256);
    let (r, data) = k.sys_mail_read(512);
    assert_eq!(r, 256);
    assert_eq!(data, vec![9u8; 256]);
}

#[test]
fn store_fault_kills_with_code_minus_two() {
    let (mut k, init) = booted();
    let child = k.sys_fork();
    k.suspend_current();
    assert_eq!(k.run_next(), Some(child));
    // the child stores to an unmapped address and the handler kills it
    let r = k.handle_trap(TrapCause::StoreFault, init);
    assert_eq!(r, Some(-2));
    assert_eq!(
        k.procs[child].as_ref().unwrap().task_status,
        TaskStatus::Zombie
    );
    // the parent continues and collects the exit code
    assert_eq!(k.run_next(), Some(init));
    let (pid, code) = k.sys_waitpid(-1);
    assert_eq!(pid as usize, child);
    assert_eq!(code, -2);
}

#[test]
fn illegal_instruction_kills_with_code_minus_three() {
    let (mut k, init) = booted();
    let child = k.sys_fork();
    k.suspend_current();
    assert_eq!(k.run_next(), Some(child));
    let r = k.handle_trap(TrapCause::IllegalInstruction, init);
    assert_eq!(r, Some(-3));
    assert_eq!(k.run_next(), Some(init));
    let (pid, code) = k.sys_waitpid(child as isize);
    assert_eq!(pid as usize, child);
    assert_eq!(code, -3);
}

#[test]
fn timer_tick_preempts_and_requeues() {
    let (mut k, init) = booted();
    let r = k.handle_trap(TrapCause::SupervisorTimer, usize::MAX);
    // usize::MAX is no live pid, but the tick path never consults it
    let _ = r;
    assert!(k.current.is_none());
    assert_eq!(k.ready_queue, vec![init]);
}

#[test]
fn set_priority_enforces_the_floor() {
    let (mut k, _) = booted();
    assert_eq!(k.sys_set_priority(1), -1);
    assert_eq!(k.sys_set_priority(0), -1);
    assert_eq!(k.sys_set_priority(-5), -1);
    assert_eq!(k.sys_set_priority(2), 2);
    assert_eq!(k.sys_set_priority(100), 100);
}

fn ready_proc(pid: usize, priority: isize) -> Option<TaskControlBlock> {
    Some(TaskControlBlock {
        pid,
        task_status: TaskStatus::Ready,
        task_stride: 0,
        task_priority: priority,
        parent: pid,
        children: Vec::new(),
        exit_code: 0,
        fd_table: Vec::new(),
        mail_box: MailBox::new(),
    })
}

#[test]
fn stride_scheduling_is_fair_in_proportion_to_priority() {
    // two busy processes, priorities 10 and 20: over a long window the
    // higher priority runs twice as often, give or take one dispatch
    let mut k = Kernel {
        procs: vec![ready_proc(0, 10), ready_proc(1, 20)],
        current: None,
        ready_queue: vec![0, 1],
        pipes: Vec::new(),
        console_out: Vec::new(),
        console_in: Vec::new(),
    };
    let mut dispatches = [0usize; 2];
    for _ in 0..300 {
        let p = k.run_next().unwrap();
        dispatches[p] += 1;
        k.suspend_current();
    }
    assert_eq!(dispatches[0] + dispatches[1], 300);
    let low = dispatches[0] as i64;
    let high = dispatches[1] as i64;
    assert!((high - 2 * low).abs() <= 2, "ratio drifted: {high} vs {low}");
}

#[test]
fn scheduler_always_picks_the_least_stride() {
    let mut k = Kernel {
        procs: vec![ready_proc(0, 2), ready_proc(1, 2)],
        current: None,
        ready_queue: vec![0, 1],
        pipes: Vec::new(),
        console_out: Vec::new(),
        console_in: Vec::new(),
    };
    k.procs[0].as_mut().unwrap().task_stride = 500;
    k.procs[1].as_mut().unwrap().task_stride = 100;
    assert_eq!(k.run_next(), Some(1));
}

#[test]
fn dup_names_the_same_descriptor() {
    let (mut k, init) = booted();
    let (rfd, _wfd) = k.sys_pipe();
    let dup = k.sys_dup(rfd);
    assert!(dup >= 0);
    let t = k.procs[init].as_ref().unwrap();
    assert_eq!(t.fd_table[dup as usize], t.fd_table[rfd]);
    // an unknown descriptor is refused
    assert_eq!(k.sys_dup(999), -1);
}

#[test]
fn getpid_reports_the_running_process() {
    let (mut k, init) = booted();
    assert_eq!(k.sys_getpid(), init as isize);
    let child = k.sys_fork();
    k.suspend_current();
    assert_eq!(k.run_next(), Some(child));
    assert_eq!(k.sys_getpid(), child as isize);
}

#[test]
fn exit_reparents_grandchildren_to_the_initial_process() {
    let (mut k, init) = booted();
    let child = k.sys_fork();
    k.suspend_current();
    assert_eq!(k.run_next(), Some(child));
    let grandchild = k.sys_fork();
    k.exit_current(0, init);
    assert_eq!(
        k.procs[init].as_ref().unwrap().children,
        vec![child, grandchild]
    );
    assert!(k.procs[child].as_ref().unwrap().children.is_empty());
}

#[test]
fn stride_advances_by_the_quantum_each_dispatch() {
    // one busy process: after n dispatches its stride is exactly
    // n * (BIG_STRIDE / priority), so priority times the advance stays
    // within one priority of BIG_STRIDE per dispatch
    let big: isize = 0x7FFF_FFFF;
    let prio: isize = 10;
    let mut k = Kernel {
        procs: vec![ready_proc(0, prio)],
        current: None,
        ready_queue: vec![0],
        pipes: Vec::new(),
        console_out: Vec::new(),
        console_in: Vec::new(),
    };
    for n in 1..=5isize {
        assert_eq!(k.run_next(), Some(0));
        let stride = k.procs[0].as_ref().unwrap().task_stride;
        assert_eq!(stride, n * (big / prio));
        assert!(prio * (big / prio) <= big);
        assert!(prio * (big / prio) > big - prio);
        k.suspend_current();
    }
}
