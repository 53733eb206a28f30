use twilight_kernel::errno::{EAGAIN, EBADF, ECHILD, EINVAL, ENOSYS, ESRCH};
use twilight_kernel::preempt::{
    await_io, exit, exit_group, in_scheduler, preempt_disable, preempt_enable_no_resched,
    terminate_current_by_signal, Preempt,
};
use twilight_kernel::proc::launch::{kernel_process, standard_fd_table, PidCounter, Resources};
use twilight_kernel::proc::mem::{
    align_dn, align_up, protect_mmap_regions, BrkPlan, MmapKind, ProcMM, VmPermissions, USER_MMAP_BASE,
};
use twilight_kernel::proc::process::{
    task_comm_from_path, FdEntry, Process, ProcessState, WakeReason, FD_CLOEXEC,
};
use twilight_kernel::proc::regs::{
    build_initial_preempt_frame, child_frame, initial_context_stack_top, InterruptStack,
    IretRegisters, PreservedRegisters, ScratchRegisters,
};
use twilight_kernel::proc::sched::{
    current_process_group_id, id, on_timer_tick, process_group_id, queue_signal, run, wake_from_timer,
    wake_process,
};
use twilight_kernel::proc::signals::{lowest_signal, signal_bit, SignalAction, SignalSet, SIGCHLD, SIGKILL};
use twilight_kernel::proc::stack::{build_initial_stack, USER_STACK_TOP};
use twilight_kernel::proc::table::{Departure, ProcessTable};
use twilight_kernel::syscall::memory::{mmap_begin, munmap_begin};
use twilight_kernel::syscall::signal::{
    deliver_pending_signal, kill, rt_sigaction, rt_sigprocmask, rt_sigreturn, LinuxSigAction,
};
use twilight_kernel::syscall::dispatch::{finish_call, syscall_handler, Dispatch};
use twilight_kernel::syscall::route::Service;
use twilight_kernel::syscall::wait::{clone, fork, wait4, wait_block, WaitOutcome, CLONE_REQUIRED, WNOHANG};

fn process(pid: u16, parent: u16, state: ProcessState) -> Process {
    let mut p = kernel_process(Resources { page_table: 1, kernel_rsp: 0x9000, proc_mm: 0 });
    p.pid = pid;
    p.tgid = pid;
    p.pgid = pid;
    p.sid = 1;
    p.parent_pid = parent;
    p.state = state;
    p.fd_table = standard_fd_table(0, 1, 2);
    p
}

fn table() -> ProcessTable {
    let mut t = ProcessTable::new();
    t.proc_list.push(process(1, 0, ProcessState::Running));
    t.proc_list.push(process(2, 1, ProcessState::Runnable));
    t.proc_list.push(process(3, 2, ProcessState::AwaitingIo));
    t.current = 1;
    t
}

#[test]
fn numbers_and_groups() {
    let mut t = table();
    assert_eq!(id(&t), 1);
    assert_eq!(process_group_id(&t, 2), Some(2));
    assert_eq!(process_group_id(&t, 9), None);
    assert_eq!(current_process_group_id(&t), 1);
    assert_eq!(t.find_process_index(3), Some(2));
    assert!(t.get_process(9).is_none());
    assert_eq!(t.find_next_runnable_index(0), Some(1));
    assert!(t.validate_running_owner(0));
    assert!(t.switch_by_index(0, 1));
    assert_eq!(id(&t), 2);
    assert_eq!(t.proc_list[0].state, ProcessState::Runnable);
    assert_eq!(t.proc_list[1].state, ProcessState::Running);
}

#[test]
fn names_are_short() {
    assert_eq!(task_comm_from_path(b"/bin/a-very-long-program-name"), b"a-very-long-pro\0".to_vec());
    assert_eq!(task_comm_from_path(b"/bin/sh"), b"sh\0\0\0\0\0\0\0\0\0\0\0\0\0\0".to_vec());
}

#[test]
fn descriptors() {
    let mut p = process(5, 1, ProcessState::Running);
    let e = FdEntry { file: 9, fd_flags: 0 };
    assert_eq!(p.install_fd(e, 0), Ok(3));
    assert_eq!(p.close_fd(1), Ok(FdEntry { file: 1, fd_flags: 0 }));
    assert_eq!(p.close_fd(1), Err(EBADF));
    assert_eq!(p.install_fd(e, 0), Ok(1));
    assert_eq!(p.install_fd(e, 7), Ok(7));
    assert!(p.set_fd_flags(7, FD_CLOEXEC));
    assert!(!p.set_fd_flags(8, FD_CLOEXEC));
    p.close_on_exec();
    assert_eq!(p.fd_entry(7), None);
    assert_eq!(p.fd_entry(3), Some(e));
    assert_eq!(p.fd_entry(-1), None);
    p.close_all_fds();
    assert_eq!(p.fd_entry(0), None);
}

#[test]
fn signals_wait_their_turn() {
    assert_eq!(signal_bit(1), 1);
    assert_eq!(signal_bit(64), 1 << 63);
    assert_eq!(lowest_signal(0b1010_0000), Some(6));
    assert_eq!(lowest_signal(0), None);
    let mut p = process(5, 1, ProcessState::Running);
    p.queue_signal(9);
    p.queue_signal(4);
    assert_eq!(p.next_unblocked_signal(), Some(4));
    p.signal_mask = SignalSet { low: signal_bit(4), high: 0 };
    assert_eq!(p.next_unblocked_signal(), Some(9));
    p.dequeue_signal(9);
    assert!(!p.has_unblocked_signal());
}

#[test]
fn a_handler_returns_to_where_it_was() {
    let mut p = process(5, 1, ProcessState::Running);
    let act = LinuxSigAction { handler: 0x40_1000, flags: 0x0400_0000, restorer: 0x40_2000, mask: signal_bit(2) };
    assert!(rt_sigaction(&mut p, 10, Some(act)).is_ok());
    assert_eq!(rt_sigaction(&mut p, 10, None).unwrap(), act);
    assert_eq!(rt_sigaction(&mut p, 9, Some(act)).unwrap_err(), -(EINVAL as i64));
    assert_eq!(rt_sigaction(&mut p, 0, None).unwrap_err(), -(EINVAL as i64));
    p.queue_signal(10);
    let scratch = ScratchRegisters { r11: 1, r10: 2, r9: 3, r8: 4, rsi: 5, rdi: 6, rdx: 7, rcx: 8, rax: 9 };
    let preserved = PreservedRegisters { r15: 1, r14: 2, r13: 3, r12: 4, rbp: 5, rbx: 6 };
    let iret = IretRegisters { rip: 0x40_0000, cs: 0x2B, rflags: 0x202, rsp: 0x7000_0000, ss: 0x23 };
    let regs = InterruptStack { preserved, scratch, iret };
    assert!(regs.iret.is_user());
    let d = deliver_pending_signal(&mut p, &regs).unwrap();
    assert_eq!(d.regs.iret.rip, 0x40_1000);
    assert_eq!(d.regs.scratch.rdi, 10);
    assert_eq!(d.restorer, 0x40_2000);
    assert!(d.ret_slot < 0x7000_0000);
    assert_eq!(p.signal_mask.low & signal_bit(2), signal_bit(2));
    assert_eq!(p.signal_mask.low & signal_bit(10), signal_bit(10));
    assert_eq!(p.pending_signals, 0);
    let back = rt_sigreturn(&mut p, &d.frame, &d.regs).unwrap();
    assert_eq!(back.iret.rip, 0x40_0000);
    assert_eq!(back.iret.rsp, 0x7000_0000);
    assert_eq!(back.scratch, scratch);
    assert_eq!(p.signal_mask, SignalSet { low: 0, high: 0 });
    // Bits of the flags that the processor does not know are dropped.
    let mut odd = d.frame;
    odd.rflags = 0x202 | 1 << 40 | 1 << 3;
    let again = rt_sigreturn(&mut p, &odd, &d.regs).unwrap();
    assert_eq!(again.iret.rflags & (1 << 40), 0);
    assert_eq!(again.iret.rflags & 0x200, 0x200);
}

#[test]
fn some_signals_are_never_blocked() {
    let mut p = process(5, 1, ProcessState::Running);
    let all = SignalSet { low: u64::MAX, high: 0 };
    let (r, old) = rt_sigprocmask(&mut p, 2, Some(all));
    assert_eq!((r, old), (0, SignalSet { low: 0, high: 0 }));
    assert_eq!(p.signal_mask.low & signal_bit(SIGKILL), 0);
    assert_ne!(p.signal_mask.low & signal_bit(2), 0);
}

#[test]
fn signals_to_processes() {
    let mut t = table();
    assert_eq!(kill(&mut t, 99, 9).0, -(ESRCH as i64));
    assert_eq!(kill(&mut t, 2, 99).0, -(EINVAL as i64));
    assert_eq!(kill(&mut t, 3, 0).0, 0);
    assert!(queue_signal(&mut t, 3, 10));
    assert!(!queue_signal(&mut t, 99, 10));
    assert_ne!(t.proc_list[2].pending_signals, 0);
}

#[test]
fn sleepers_are_woken() {
    let mut t = table();
    t.proc_list[2].wait_token = Some(7);
    wake_from_timer(&mut t, 3, 7);
    assert_eq!(t.proc_list[2].state, ProcessState::AwaitingIo);
    t.proc_list[2].state = ProcessState::Sleeping;
    wake_from_timer(&mut t, 3, 6);
    assert_eq!(t.proc_list[2].state, ProcessState::Sleeping);
    wake_from_timer(&mut t, 3, 7);
    assert_eq!(t.proc_list[2].state, ProcessState::Runnable);
    assert_eq!(t.proc_list[2].wake_reason, Some(WakeReason::Deadline));
    t.proc_list[2].state = ProcessState::AwaitingIo;
    wake_process(&mut t, 3);
    assert_eq!(t.proc_list[2].state, ProcessState::Runnable);
    let mut p = Preempt::new();
    on_timer_tick(&mut p);
}

#[test]
fn a_process_ends_and_is_waited_for() {
    let mut t = table();
    assert!(t.switch_by_index(0, 1));
    let d = t.exit(3);
    assert!(matches!(d, Departure::Switch(_)));
    assert_eq!(t.get_process(2).unwrap().state, ProcessState::Dead);
    // The child of the process that ended goes to the first process.
    assert_eq!(t.get_process(3).unwrap().parent_pid, 1);
    assert_ne!(t.proc_list[0].pending_signals & signal_bit(SIGCHLD), 0);
    match wait4(&mut t, 1, 2, 0) {
        WaitOutcome::Reaped { gone } => {
            assert_eq!((gone.pid, gone.exit_code, gone.wait_status), (2, 3, 3 << 8))
        }
        _ => panic!("the child has ended"),
    }
    assert!(t.get_process(2).is_none());
    assert!(matches!(wait4(&mut t, 1, 3, WNOHANG), WaitOutcome::Return(0)));
    match wait4(&mut t, 3, -1, 0) {
        WaitOutcome::Return(e) => assert_eq!(e, -(ECHILD as i64)),
        _ => panic!("there is no child"),
    }
}

#[test]
fn children() {
    let mut pids = PidCounter { next: 40 };
    let mut p = process(5, 1, ProcessState::Running);
    let own = Resources { page_table: 2, kernel_rsp: 0xA000, proc_mm: 1 };
    let c = p.fork(0x1234, own, &mut pids);
    assert_eq!((c.pid, c.parent_pid, c.fs_base, c.page_table), (40, 5, 0x1234, 2));
    assert_eq!(pids.next, 41);
    let own = Resources { page_table: 2, kernel_rsp: 0xB000, proc_mm: 1 };
    let t = p.clone_thread(0x5000, 0x6000, own.kernel_rsp, &mut pids);
    assert!(t.is_thread);
    assert_eq!((t.tgid, t.fs_base), (5, 0x6000));
    let mut tab = table();
    let mut pre = Preempt::new();
    run(&mut tab, &mut pre, process(8, 1, ProcessState::Runnable), 0x7777);
    assert!(tab.get_process(8).is_some());
}

#[test]
fn children_are_asked_for() {
    let mut t = table();
    let mut pids = PidCounter { next: u16::MAX };
    let own = Resources { page_table: 2, kernel_rsp: 0xA000, proc_mm: 1 };
    assert_eq!(fork(&mut t, 0x1234, None, &mut pids), -(ENOSYS as i64));
    assert_eq!((t.proc_list.len(), pids.next, t.proc_list[0].fs_base), (3, 0, 0x1234));
    pids.next = u16::MAX;
    assert_eq!(fork(&mut t, 0x1234, Some(own), &mut pids), 65535);
    assert_eq!((t.proc_list[3].pid, t.proc_list[3].parent_pid), (u16::MAX, 1));
    assert_eq!(pids.next, 0);
    t.current = 99;
    let own = Resources { page_table: 2, kernel_rsp: 0xA000, proc_mm: 1 };
    assert_eq!(fork(&mut t, 0x1234, Some(own), &mut pids), -(ENOSYS as i64));
    assert_eq!(pids.next, 0);
}

#[test]
fn the_scheduler_guards_departures() {
    let mut t = table();
    let mut p = Preempt::new();
    preempt_disable(&mut p);
    assert!(exit(&mut p, &mut t, 3).is_none());
    assert_eq!(t.proc_list[0].state, ProcessState::Running);
    assert!(await_io(&mut p, &mut t, 1).is_none());
    preempt_enable_no_resched(&mut p);
    assert!(exit_group(&mut p, &mut t, 3).is_some());
    assert_eq!(t.proc_list[0].state, ProcessState::Dead);
    assert!(!in_scheduler(&p));
    assert!(terminate_current_by_signal(&mut p, &mut t, 9).is_some());
}

#[test]
fn calls_without_a_process() {
    let mut t = ProcessTable::new();
    t.current = 9;
    let preserved = PreservedRegisters { r15: 0, r14: 0, r13: 0, r12: 0, rbp: 0, rbx: 0 };
    let iret = IretRegisters { rip: 0, cs: 0x2B, rflags: 0x202, rsp: 0, ss: 0x23 };
    let mut call = |rax: u64, rdi: u64, rsi: u64| {
        let scratch = ScratchRegisters { r11: 0, r10: 0, r9: 0, r8: 0, rsi, rdi, rdx: 0, rcx: 0, rax };
        syscall_handler(&mut t, &InterruptStack { preserved, scratch, iret })
    };
    assert_eq!(call(32, u64::MAX, 0), Dispatch::Done(-(EBADF as i64)));
    assert_eq!(call(33, 1, u64::MAX), Dispatch::Done(-(EBADF as i64)));
    assert_eq!(call(32, 1, 0), Dispatch::Done(-(ESRCH as i64)));
    assert_eq!(call(39, 0, 0), Dispatch::Done(9));
    assert_eq!(call(49, 0xF_0000_0003, 8), Dispatch::Outside(Service::Bind { fd: 3, addr: 8, len: 0 }));
    assert_eq!(call(102, 0, 0), Dispatch::Outside(Service::Geteuid));
    assert_eq!(call(107, 0, 0), Dispatch::Outside(Service::Geteuid));
    assert_eq!(call(2, 8, u64::MAX), Dispatch::Outside(Service::Open { path: 8, flags: -1, mode: 0 }));
    assert_eq!(call(8, 1 << 40, 5), Dispatch::Outside(Service::Lseek { fd: 1 << 40, offset: 5, whence: 0 }));
    assert_eq!(call(7, 1, 2), Dispatch::Outside(Service::Poll { fds: 1, count: 2, timeout: 0 }));
}

#[test]
fn a_parent_waits() {
    let mut t = table();
    let mut p = Preempt::new();
    preempt_disable(&mut p);
    assert!(!wait_block(&mut p, &mut t));
    assert_eq!((t.current, t.proc_list[0].state), (1, ProcessState::Waiting));
    preempt_enable_no_resched(&mut p);
    assert!(wait_block(&mut p, &mut t));
    assert_eq!((t.current, t.proc_list[0].state), (t.proc_list[1].pid, ProcessState::Waiting));
}

#[test]
fn threads_are_asked_for() {
    let mut t = table();
    let mut pids = PidCounter { next: 40 };
    let flags = CLONE_REQUIRED;
    assert_eq!(clone(&mut t, flags, 0, 0, Some(0xA000), &mut pids), -(EINVAL as i64));
    assert_eq!(pids.next, 40);
    assert_eq!(clone(&mut t, flags, 0x7000, 0, None, &mut pids), -(EAGAIN as i64));
    assert_eq!((t.proc_list.len(), pids.next), (3, 41));
    assert_eq!(clone(&mut t, flags, 0x7000, 0, Some(0xA000), &mut pids), 41);
    assert_eq!((t.proc_list[3].pid, t.proc_list[3].is_thread, pids.next), (41, true, 42));
    t.current = 99;
    assert_eq!(clone(&mut t, flags, 0x7000, 0, Some(0xA000), &mut pids), -(ESRCH as i64));
}

#[test]
fn calls_end() {
    let preserved = PreservedRegisters { r15: 0, r14: 0, r13: 0, r12: 0, rbp: 0, rbx: 0 };
    let iret = IretRegisters { rip: 0x40_0000, cs: 0x2B, rflags: 0x202, rsp: 0x8000, ss: 0x23 };
    let scratch = ScratchRegisters { r11: 0, r10: 0, r9: 0, r8: 0, rsi: 0, rdi: 0, rdx: 0, rcx: 0, rax: 39 };
    let before = InterruptStack { preserved, scratch, iret };
    let mut t = table();
    let mut p = Preempt::new();
    let mut regs = before;
    assert!(finish_call(&mut p, &mut t, &mut regs, -5, false).is_none());
    assert_eq!((regs.scratch.rax, regs.iret), ((-5i64) as u64, iret));
    t.proc_list[0].signal_actions[10] =
        SignalAction { handler: 0x1234, flags: 0, restorer: 0x5678, mask: SignalSet { low: 0, high: 0 } };
    t.proc_list[0].pending_signals = signal_bit(10);
    regs = before;
    assert!(finish_call(&mut p, &mut t, &mut regs, 7, true).is_none());
    assert_eq!(regs, before);
    assert_eq!(t.proc_list[0].pending_signals, signal_bit(10));
    let d = finish_call(&mut p, &mut t, &mut regs, 7, false).unwrap();
    assert_eq!((regs.iret.rip, regs.scratch.rdi, d.restorer), (0x1234, 10, 0x5678));
    assert_eq!((d.frame.scratch.rax, d.frame.rip), (7, 0x40_0000));
    assert_eq!(t.proc_list[0].pending_signals, 0);
    p.need_resched = true;
    assert!(finish_call(&mut p, &mut t, &mut regs, 0, true).is_none());
    assert!(!p.need_resched);
    t.current = 99;
    regs = before;
    assert!(finish_call(&mut p, &mut t, &mut regs, 3, false).is_none());
    assert_eq!(regs.scratch.rax, 3);
}

#[test]
fn permissions_change_in_part() {
    let rw = VmPermissions { read: true, write: true, execute: false };
    let r = VmPermissions { read: true, write: false, execute: false };
    let mut mm = ProcMM::new(0x10_0000);
    mm.track_mmap(0x5000, 0x3000, MmapKind::Anonymous, rw);
    mm.track_mmap(0x9000, 0x1000, MmapKind::Anonymous, rw);
    let after = protect_mmap_regions(&mm.mmap_regions, 0x6000, 0x7000, r);
    let at = |addr: u64| {
        let hit: Vec<VmPermissions> =
            after.iter().filter(|m| m.base <= addr && addr < m.base + m.len).map(|m| m.permissions).collect();
        assert!(hit.len() <= 1);
        hit.first().copied()
    };
    assert_eq!(at(0x5fff), Some(rw));
    assert_eq!(at(0x6000), Some(r));
    assert_eq!(at(0x7000), Some(rw));
    assert_eq!(at(0x8000), None);
    assert_eq!(at(0x9000), Some(rw));
}

#[test]
fn frames_of_registers() {
    let f = build_initial_preempt_frame(0x1000, 0x40_0000, 0x7000, 5, 0x2B, 0x23);
    assert_eq!((f.cr3, f.rip, f.rsp, f.rax, f.rflags), (0x1000, 0x40_0000, 0x7000, 5, 0x202));
    assert_eq!(initial_context_stack_top(0x10000) % 16, 0);
    let scratch = ScratchRegisters { r11: 1, r10: 2, r9: 3, r8: 4, rsi: 5, rdi: 6, rdx: 7, rcx: 8, rax: 9 };
    let preserved = PreservedRegisters { r15: 1, r14: 2, r13: 3, r12: 4, rbp: 5, rbx: 6 };
    let iret = IretRegisters { rip: 1, cs: 0x2B, rflags: 0x202, rsp: 2, ss: 0x23 };
    let c = child_frame(&InterruptStack { preserved, scratch, iret }, 0x9000);
    assert_eq!(c.stack.scratch.rax, 0);
    assert_eq!(c.stack.iret.rsp, 0x9000);
}

#[test]
fn the_stack_of_a_new_program() {
    let argv = vec![b"prog".to_vec(), b"-x".to_vec()];
    let envp = vec![b"A=1".to_vec()];
    let s = build_initial_stack(USER_STACK_TOP, 0x40_0000, 0, &argv, &envp, 0x40_0040, 56, 3, None, None)
        .unwrap();
    assert_eq!(s.rsp % 16, 0);
    assert_eq!(s.rsp + s.image.len() as u64, USER_STACK_TOP);
    let word = |at: u64| {
        let i = (at - s.rsp) as usize;
        u64::from_le_bytes(s.image[i..i + 8].try_into().unwrap())
    };
    assert_eq!(word(s.rsp), 2);
    let arg1 = (word(s.rsp + 16) - s.rsp) as usize;
    assert_eq!(&s.image[arg1..arg1 + 3], b"-x\0");
    assert_eq!(word(s.rsp + 24), 0);
    assert_eq!(word(s.rsp + 40), 0);
}

#[test]
fn the_environment_of_a_new_program_is_in_order() {
    let argv = vec![b"prog".to_vec(), b"-x".to_vec()];
    let envp = vec![b"A=1".to_vec(), b"LONG=two".to_vec(), b"C=3".to_vec()];
    let s = build_initial_stack(USER_STACK_TOP, 0x40_0000, 0, &argv, &envp, 0x40_0040, 56, 3, None, None)
        .unwrap();
    let word = |at: u64| {
        let i = (at - s.rsp) as usize;
        u64::from_le_bytes(s.image[i..i + 8].try_into().unwrap())
    };
    let text = |at: u64| {
        let rest = &s.image[(at - s.rsp) as usize..];
        rest[..rest.iter().position(|c| *c == 0).unwrap()].to_vec()
    };
    let args: Vec<Vec<u8>> = (0..2).map(|i| text(word(s.rsp + 8 + 8 * i))).collect();
    assert_eq!(args, argv);
    assert_eq!(word(s.rsp + 24), 0);
    let vars: Vec<Vec<u8>> = (0..3).map(|i| text(word(s.rsp + 32 + 8 * i))).collect();
    assert_eq!(vars, envp);
    assert_eq!(word(s.rsp + 56), 0);
    // Without a name of its own the file that runs is the first argument.
    let mut at = s.rsp + 64;
    while word(at) != 31 {
        assert_ne!(word(at), 0);
        at += 16;
    }
    assert_eq!(word(at + 8), word(s.rsp + 8));
}

#[test]
fn mappings_that_are_asked_for_and_let_go() {
    let mut mm = ProcMM::new(0x10_0000);
    let (anonymous, fixed) = (0x22u64, 0x32u64);
    let none = u64::MAX;
    let r = mmap_begin(&mut mm, 0, 5000, 3, anonymous, none, 0).unwrap();
    assert_eq!((r.va, r.len, r.fixed, r.file), (USER_MMAP_BASE, 0x2000, false, false));
    assert_eq!(mm.mmap_base_hint, USER_MMAP_BASE + 0x2000);
    // What is refused at once changes nothing.
    assert_eq!(mmap_begin(&mut mm, 0, 0, 3, anonymous, none, 0).err(), Some(-22));
    assert_eq!(mmap_begin(&mut mm, 4097, 1, 3, fixed, none, 0).err(), Some(-22));
    assert_eq!(mmap_begin(&mut mm, 0, u64::MAX, 3, anonymous, none, 0).err(), Some(-12));
    assert_eq!(mm.mmap_base_hint, USER_MMAP_BASE + 0x2000);
    // Where no address is left, the base of the mappings is settled all the same.
    let mut fresh = ProcMM::new(0x10_0000);
    assert_eq!(fresh.mmap_base_hint, 0);
    assert_eq!(mmap_begin(&mut fresh, 0, 1 << 47, 3, anonymous, none, 0).err(), Some(-12));
    assert_eq!(fresh.mmap_base_hint, USER_MMAP_BASE);
    let rw = VmPermissions { read: true, write: true, execute: false };
    mm.track_mmap(r.va, r.len, MmapKind::Anonymous, rw);
    assert_eq!(munmap_begin(&mut mm, r.va + 1, 4096).err(), Some(-22));
    assert_eq!(munmap_begin(&mut mm, r.va, 0).err(), Some(-22));
    assert_eq!(mm.mmap_regions.len(), 1);
    assert_eq!(munmap_begin(&mut mm, r.va, 1).unwrap().len(), 1);
    let left: Vec<(u64, u64)> = mm.mmap_regions.iter().map(|m| (m.base, m.len)).collect();
    assert_eq!(left, vec![(r.va + 0x1000, 0x1000)]);
    assert_eq!((mm.heap_start, mm.brk_cur, mm.mapped_heap_end), (0x10_0000, 0x10_0000, 0x10_0000));
    assert_eq!(mm.mmap_base_hint, USER_MMAP_BASE + 0x2000);
}

#[test]
fn memory_of_a_process() {
    assert_eq!(align_up(4097, 4096), 8192);
    assert_eq!(align_dn(4097, 4096), 4096);
    let mut mm = ProcMM::new(0x10_0001);
    assert_eq!(mm.curr_brk(), 0x10_1000);
    assert!(matches!(mm.plan_brk(0x10_3000), BrkPlan::Grow { from: 0x10_1000, len: 0x2000 }));
    assert_eq!(mm.set_brk(0x10_2800, true), Ok(0x10_3000));
    assert_eq!(mm.set_brk(0x10_9000, false), Err(()));
    assert_eq!(mm.curr_brk(), 0x10_3000);
    let a = mm.reserve_mmap_range(5000).unwrap();
    assert_eq!(a, USER_MMAP_BASE);
    let rw = VmPermissions { read: true, write: true, execute: false };
    mm.track_mmap(a, 0x3000, MmapKind::Anonymous, rw);
    assert_eq!(mm.permissions_for_page(a + 0x1000), Some(rw));
    let r = VmPermissions { read: true, write: false, execute: false };
    mm.protect_range(a + 0x1000, 0x1000, r);
    let mut parts: Vec<(u64, u64)> = mm.mmap_regions.iter().map(|m| (m.base, m.len)).collect();
    parts.sort();
    assert_eq!(parts, vec![(a, 0x1000), (a + 0x1000, 0x1000), (a + 0x2000, 0x1000)]);
    assert_eq!(mm.permissions_for_page(a + 0x1000), Some(r));
    assert_eq!(mm.permissions_for_page(a + 0x2000), Some(rw));
    let gone = mm.remove_mmap_range(a, 0x1000);
    assert_eq!(gone.len(), 1);
    assert_eq!(mm.permissions_for_page(a), None);
    assert_eq!(VmPermissions::from_prot(5), VmPermissions { read: true, write: false, execute: true });
    assert!(rw.allows(true, false));
    assert!(!rw.allows(false, true));
}
