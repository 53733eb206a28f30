//! Children: making them, and waiting for them.

use crate::errno::{fail, failed, EAGAIN, ECHILD, EINVAL, ENOSYS, ESRCH};
use crate::preempt::{can_schedule, schedule_now, scheduled, Preempt};
use crate::proc::fork::{child, thread};
use crate::proc::launch::{PidCounter, Resources};
use crate::proc::process::{ProcView, Process, ProcessState};
use crate::proc::regs::{InterruptStack, IretRegisters, PreservedRegisters, ScratchRegisters};
use crate::proc::sched::{process, with_process};
use crate::proc::table::{
    after_end, ended, exit_status, handed_over, known, lemma_next_in_turn, lemma_position, position,
    proc_views, reparented, reported, successor, ProcessTable, TableView,
};
use vstd::prelude::*;

verus! {

pub const WNOHANG: i32 = 1;

pub const WUNTRACED: i32 = 2;

/// The flags that making a thread needs.
pub const CLONE_REQUIRED: u64 = 0x0005_0F00;

/// The flag that gives a thread its own thread-local memory.
pub const CLONE_SETTLS: u64 = 0x0008_0000;

/// Whether `p` is a child of `parent` that `pid` means.
pub open spec fn awaited(p: ProcView, parent: u16, pid: i32) -> bool {
    !p.is_thread && p.parent_pid == parent && (pid == -1 || p.pid as i32 == pid)
}

/// Whether there is something to report of a child.
pub open spec fn reportable(p: ProcView, options: i32) -> bool {
    p.state == ProcessState::Dead || (options & WUNTRACED != 0 && p.state == ProcessState::Stopped
        && !p.wait_reported)
}

/// The first child that there is something to report of, or the number of processes.
pub open spec fn first_reportable(ps: Seq<ProcView>, parent: u16, pid: i32, options: i32) -> int
    decreases ps.len(),
{
    if ps.len() == 0 {
        0
    } else {
        let k = first_reportable(ps.drop_last(), parent, pid, options);
        if k < ps.len() - 1 {
            k
        } else if awaited(ps.last(), parent, pid) && reportable(ps.last(), options) {
            ps.len() - 1
        } else {
            ps.len() as int
        }
    }
}

/// Whether a process has a child that `pid` means.
pub open spec fn has_child(ps: Seq<ProcView>, parent: u16, pid: i32) -> bool {
    exists|i: int| 0 <= i < ps.len() && awaited(#[trigger] ps[i], parent, pid)
}

/// The processes without the threads of group `tgid`.
pub open spec fn threads_gone(ps: Seq<ProcView>, tgid: u16) -> Seq<ProcView>
    decreases ps.len(),
{
    if ps.len() == 0 {
        ps
    } else {
        let rest = threads_gone(ps.drop_last(), tgid);
        if ps.last().is_thread && ps.last().tgid == tgid {
            rest
        } else {
            rest.push(ps.last())
        }
    }
}

/// What a wait for a child comes to.
pub enum WaitOutcome {
    /// A child has ended; it is no longer in the table.
    Reaped { gone: Process },
    /// A child was stopped.
    Stopped { pid: u16, status: i32 },
    /// The call returns this.
    Return(i64),
    /// The process waits.
    Block,
}

/// The first child that there is something to report of is found by going through them in
/// turn.
pub proof fn lemma_first_reportable(ps: Seq<ProcView>, parent: u16, pid: i32, options: i32, k: int)
    requires
        0 <= k <= ps.len(),
        forall|i: int|
            0 <= i < k ==> !(awaited(#[trigger] ps[i], parent, pid) && reportable(ps[i], options)),
        k < ps.len() ==> awaited(ps[k], parent, pid) && reportable(ps[k], options),
    ensures
        first_reportable(ps, parent, pid, options) == k,
    decreases ps.len(),
{
    if ps.len() > 0 {
        let front = ps.drop_last();
        if k < ps.len() {
            if k < ps.len() - 1 {
                assert forall|i: int| 0 <= i < k implies !(awaited(#[trigger] front[i], parent, pid)
                    && reportable(front[i], options)) by {
                    assert(front[i] == ps[i]);
                }
                lemma_first_reportable(front, parent, pid, options, k);
            } else {
                assert forall|i: int| 0 <= i < front.len() implies !(awaited(
                    #[trigger] front[i],
                    parent,
                    pid,
                ) && reportable(front[i], options)) by {
                    assert(front[i] == ps[i]);
                }
                lemma_first_reportable(front, parent, pid, options, front.len() as int);
            }
        } else {
            assert forall|i: int| 0 <= i < front.len() implies !(awaited(
                #[trigger] front[i],
                parent,
                pid,
            ) && reportable(front[i], options)) by {
                assert(front[i] == ps[i]);
            }
            lemma_first_reportable(front, parent, pid, options, front.len() as int);
            assert(ps.last() == ps[ps.len() - 1]);
        }
    }
}

fn drop_threads(list: &mut Vec<Process>, tgid: u16)
    ensures
        proc_views(final(list)@) == threads_gone(proc_views(old(list)@), tgid),
{
    let ghost ps = proc_views(list@);
    let ghost mut done: int = 0;
    let mut i: usize = 0;
    proof {
        assert(proc_views(list@) =~= threads_gone(ps.take(0), tgid) + ps.skip(0));
    }
    while i < list.len()
        invariant
            0 <= done <= ps.len(),
            i == threads_gone(ps.take(done), tgid).len(),
            i <= list@.len(),
            proc_views(list@) == threads_gone(ps.take(done), tgid) + ps.skip(done),
        decreases list@.len() - i,
    {
        let ghost before = list@;
        let ghost kept = threads_gone(ps.take(done), tgid);
        proof {
            assert(proc_views(before)[i as int] == ps[done]);
            assert(proc_views(before)[i as int] == before[i as int]@);
            assert(ps.take(done + 1).drop_last() =~= ps.take(done));
            assert(ps.take(done + 1).last() == ps[done]);
        }
        if list[i].is_thread && list[i].tgid == tgid {
            let _ = list.remove(i);
            proof {
                assert(proc_views(list@) =~= proc_views(before).remove(i as int));
                assert(proc_views(list@) =~= kept + ps.skip(done + 1));
            }
        } else {
            proof {
                assert(proc_views(list@) =~= kept.push(ps[done]) + ps.skip(done + 1));
            }
            i = i + 1;
        }
        proof {
            done = done + 1;
        }
    }
    proof {
        assert(proc_views(list@).len() == i);
        assert(ps.skip(done).len() == 0);
        assert(ps.take(done) =~= ps);
        assert(proc_views(list@) =~= threads_gone(ps, tgid));
    }
}

/// What a wait came to: the processes afterwards, and the answer.
pub open spec fn waited(t: TableView, after: TableView, parent: u16, pid: i32, options: i32, r: WaitOutcome) -> bool {
    let k = first_reportable(t.procs, parent, pid, options);
    match r {
        WaitOutcome::Reaped { gone } => {
            &&& k < t.procs.len()
            &&& gone@ == t.procs[k]
            &&& gone@.state == ProcessState::Dead
            &&& after == (TableView {
                procs: threads_gone(t.procs.remove(k), t.procs[k].tgid),
                ..t
            })
        },
        WaitOutcome::Stopped { pid: who, status } => {
            &&& k < t.procs.len()
            &&& t.procs[k].state == ProcessState::Stopped
            &&& who == t.procs[k].pid
            &&& status == t.procs[k].wait_status
            &&& after == (TableView {
                procs: t.procs.update(k, ProcView { wait_reported: true, ..t.procs[k] }),
                ..t
            })
        },
        WaitOutcome::Return(e) => {
            &&& k == t.procs.len()
            &&& after == t
            &&& if has_child(t.procs, parent, pid) {
                e == 0 && options & WNOHANG != 0
            } else {
                e == failed(ECHILD)
            }
        },
        WaitOutcome::Block => {
            &&& k == t.procs.len()
            &&& has_child(t.procs, parent, pid)
            &&& options & WNOHANG == 0
            &&& after == if known(t.procs, parent) {
                with_process(
                    t,
                    parent,
                    ProcView { state: ProcessState::Waiting, ..process(t, parent) },
                )
            } else {
                t
            }
        },
    }
}

/// Waits for a child of the process `parent`. One that has ended leaves the table, with
/// the threads of its group.
pub fn wait4(table: &mut ProcessTable, parent: u16, pid: i32, options: i32) -> (r: WaitOutcome)
    ensures
        waited(old(table)@, final(table)@, parent, pid, options, r),
{
    let ghost t = table@;
    let ghost ps = t.procs;
    let mut children: bool = false;
    let mut i: usize = 0;
    while i < table.proc_list.len()
        invariant
            t == old(table)@,
            table@ == t,
            ps == t.procs,
            i <= ps.len(),
            children == exists|k: int| 0 <= k < i && awaited(#[trigger] ps[k], parent, pid),
            forall|k: int|
                0 <= k < i ==> !(awaited(#[trigger] ps[k], parent, pid) && reportable(
                    ps[k],
                    options,
                )),
        decreases ps.len() - i,
    {
        proof {
            assert(ps[i as int] == table.proc_list@[i as int]@);
        }
        let c_pid: u16 = table.proc_list[i].pid;
        if !table.proc_list[i].is_thread && table.proc_list[i].parent_pid == parent && (pid == -1
            || c_pid as i32 == pid) {
            proof {
                assert(awaited(ps[i as int], parent, pid));
            }
            children = true;
            if table.proc_list[i].state == ProcessState::Dead {
                proof {
                    lemma_first_reportable(ps, parent, pid, options, i as int);
                }
                let gone: Process = table.proc_list.remove(i);
                let tgid: u16 = gone.tgid;
                proof {
                    assert(proc_views(table.proc_list@) =~= ps.remove(i as int));
                }
                drop_threads(&mut table.proc_list, tgid);
                return WaitOutcome::Reaped { gone };
            }
            if options & WUNTRACED != 0 && table.proc_list[i].state == ProcessState::Stopped
                && !table.proc_list[i].wait_reported {
                proof {
                    lemma_first_reportable(ps, parent, pid, options, i as int);
                }
                let status: i32 = table.proc_list[i].wait_status;
                table.proc_list[i].wait_reported = true;
                proof {
                    assert(table@.procs =~= ps.update(
                        i as int,
                        ProcView { wait_reported: true, ..ps[i as int] },
                    ));
                }
                return WaitOutcome::Stopped { pid: c_pid, status };
            }
        }
        i = i + 1;
    }
    proof {
        lemma_first_reportable(ps, parent, pid, options, i as int);
    }
    if !children {
        return WaitOutcome::Return(fail(ECHILD));
    }
    if options & WNOHANG != 0 {
        return WaitOutcome::Return(0);
    }
    proof {
        lemma_position(ps, parent);
    }
    match table.find_process_index(parent) {
        Some(k) => {
            proof {
                assert(ps[k as int] == table.proc_list@[k as int]@);
            }
            table.proc_list[k].state = ProcessState::Waiting;
            proof {
                assert(table@.procs =~= ps.update(
                    k as int,
                    ProcView { state: ProcessState::Waiting, ..ps[k as int] },
                ));
            }
        },
        None => {},
    }
    WaitOutcome::Block
}

/// The process that has the processor waits for a child.
pub open spec fn waiting(t: TableView) -> TableView {
    if known(t.procs, t.current) {
        with_process(
            t,
            t.current,
            ProcView { state: ProcessState::Waiting, ..process(t, t.current) },
        )
    } else {
        t
    }
}

/// Blocks a wait: the process waits, and the next task is chosen. Says whether there was one.
pub fn wait_block(p: &mut Preempt, table: &mut ProcessTable) -> (r: bool)
    ensures
        ({
            let t = waiting(old(table)@);
            if old(p).scheduler_open() {
                &&& r == can_schedule(t)
                &&& final(table)@ == scheduled(t)
                &&& *final(p) == (Preempt { need_resched: false, ..*old(p) })
            } else {
                !r && final(table)@ == t && *final(p) == *old(p)
            }
        }),
{
    let ghost t = table@;
    proof {
        lemma_position(t.procs, t.current);
    }
    match table.find_process_index(table.current) {
        Some(i) => {
            proof {
                assert(t.procs[i as int] == table.proc_list@[i as int]@);
            }
            table.proc_list[i].state = ProcessState::Waiting;
            proof {
                assert(table@.procs =~= t.procs.update(
                    i as int,
                    ProcView { state: ProcessState::Waiting, ..t.procs[i as int] },
                ));
            }
        },
        None => {},
    }
    proof {
        assert(table@ == waiting(t));
    }
    schedule_now(p, table)
}

/// The pid counter once a number was taken.
pub open spec fn next_pid(pid: u16) -> u16 {
    if pid == u16::MAX {
        0
    } else {
        (pid + 1) as u16
    }
}

/// The processes once the one that has the processor was split, and what it is answered. `own` is
/// what the child gets of its own, where there was enough, and `pid` the number it gets.
pub open spec fn forked(t: TableView, live_fs_base: u64, own: Option<Resources>, pid: u16) -> (TableView, i64) {
    let i = position(t.procs, t.current);
    let parent = ProcView { fs_base: live_fs_base, ..t.procs[i] };
    if !known(t.procs, t.current) {
        (t, failed(ENOSYS))
    } else {
        match own {
            Some(o) => (
                TableView {
                    procs: t.procs.update(i, parent).push(child(t.procs[i], pid, live_fs_base, o)),
                    ..t
                },
                pid as i64,
            ),
            None => (TableView { procs: t.procs.update(i, parent), ..t }, failed(ENOSYS)),
        }
    }
}

/// Makes a child of the process that has the processor, and puts it into the table. `own` is
/// what the child has for itself, None where it could not be had: its number is used up then,
/// and the process has kept the base of its thread-local memory.
pub fn fork(table: &mut ProcessTable, live_fs_base: u64, own: Option<Resources>, pids: &mut PidCounter) -> (r:
    i64)
    ensures
        (final(table)@, r) == forked(old(table)@, live_fs_base, own, old(pids).next),
        final(pids).next == if known(old(table)@.procs, old(table)@.current) {
            next_pid(old(pids).next)
        } else {
            old(pids).next
        },
{
    let ghost t = table@;
    proof {
        lemma_position(t.procs, t.current);
    }
    let i: usize = match table.find_process_index(table.current) {
        Some(i) => i,
        None => return fail(ENOSYS),
    };
    proof {
        assert(t.procs[i as int] == table.proc_list@[i as int]@);
    }
    let own: Resources = match own {
        Some(own) => own,
        None => {
            table.proc_list[i].fs_base = live_fs_base;
            let _ = pids.take();
            proof {
                assert(table@.procs =~= t.procs.update(
                    i as int,
                    ProcView { fs_base: live_fs_base, ..t.procs[i as int] },
                ));
            }
            return fail(ENOSYS);
        },
    };
    let born: Process = table.proc_list[i].fork(live_fs_base, own, pids);
    let pid: u16 = born.pid;
    proof {
        assert(table@.procs =~= t.procs.update(
            i as int,
            ProcView { fs_base: live_fs_base, ..t.procs[i as int] },
        ));
    }
    let ghost mid = table@.procs;
    table.proc_list.push(born);
    proof {
        assert(table@.procs =~= mid.push(born@));
    }
    pid as i64
}

/// Whether a thread can be made with `flags`.
pub open spec fn clone_valid(flags: u64, child_stack: u64) -> bool {
    &&& child_stack != 0
    &&& flags & CLONE_REQUIRED == CLONE_REQUIRED
    &&& flags & !(CLONE_REQUIRED | CLONE_SETTLS) == 0
}

/// The processes once the one that has the processor made a thread, and what it is answered.
/// `kernel_rsp` is the stack that the thread gets in the kernel, where there is one, and `pid` the
/// number it gets.
pub open spec fn threaded(
    t: TableView,
    flags: u64,
    child_stack: u64,
    tls: u64,
    kernel_rsp: Option<u64>,
    pid: u16,
) -> (TableView, i64) {
    let p = process(t, t.current);
    if !clone_valid(flags, child_stack) {
        (t, failed(EINVAL))
    } else if !known(t.procs, t.current) {
        (t, failed(ESRCH))
    } else {
        match kernel_rsp {
            None => (t, failed(EAGAIN)),
            Some(rsp) => (
                TableView {
                    procs: t.procs.push(
                        thread(
                            p,
                            pid,
                            child_stack,
                            if flags & CLONE_SETTLS != 0 {
                                tls
                            } else {
                                p.fs_base
                            },
                            rsp,
                        ),
                    ),
                    ..t
                },
                pid as i64,
            ),
        }
    }
}

/// Makes a thread of the process that has the processor, and puts it into the table.
/// `kernel_rsp` is the stack that the thread is switched on, None where none could be had: its
/// number is used up then.
pub fn clone(
    table: &mut ProcessTable,
    flags: u64,
    child_stack: u64,
    tls: u64,
    kernel_rsp: Option<u64>,
    pids: &mut PidCounter,
) -> (r: i64)
    ensures
        (final(table)@, r) == threaded(old(table)@, flags, child_stack, tls, kernel_rsp, old(pids).next),
        final(pids).next == if clone_valid(flags, child_stack) && known(
            old(table)@.procs,
            old(table)@.current,
        ) {
            next_pid(old(pids).next)
        } else {
            old(pids).next
        },
{
    if child_stack == 0 || flags & CLONE_REQUIRED != CLONE_REQUIRED || flags & !(CLONE_REQUIRED
        | CLONE_SETTLS) != 0 {
        return fail(EINVAL);
    }
    let ghost t = table@;
    proof {
        lemma_position(t.procs, t.current);
    }
    let i: usize = match table.find_process_index(table.current) {
        Some(i) => i,
        None => return fail(ESRCH),
    };
    proof {
        assert(t.procs[i as int] == table.proc_list@[i as int]@);
    }
    let rsp: u64 = match kernel_rsp {
        Some(rsp) => rsp,
        None => {
            let _ = pids.take();
            return fail(EAGAIN);
        },
    };
    let base: u64 = if flags & CLONE_SETTLS != 0 {
        tls
    } else {
        table.proc_list[i].fs_base
    };
    let born: Process = table.proc_list[i].clone_thread(child_stack, base, rsp, pids);
    let pid: u16 = born.pid;
    table.proc_list.push(born);
    proof {
        assert(table@.procs =~= t.procs.push(born@));
    }
    pid as i64
}

/// The registers of a program that makes a child, with interrupts on.
pub open spec fn trapped(preserved: PreservedRegisters, scratch: ScratchRegisters, iret: IretRegisters) -> InterruptStack {
    InterruptStack {
        preserved,
        scratch,
        iret: IretRegisters { rflags: iret.rflags | 0x202, ..iret },
    }
}

/// The registers of a program that makes a child: interrupts are on in the child.
pub fn trap_frame(preserved: PreservedRegisters, scratch: ScratchRegisters, iret: IretRegisters) -> (r:
    InterruptStack)
    ensures
        r == trapped(preserved, scratch, iret),
{
    let mut i: IretRegisters = iret;
    i.rflags = i.rflags | 0x202;
    InterruptStack { preserved, scratch, iret: i }
}

/// Whether no two processes have the same number.
pub open spec fn numbers_differ(ps: Seq<ProcView>) -> bool {
    forall|i: int, j: int| 0 <= i < j < ps.len() ==> (#[trigger] ps[i]).pid != (#[trigger] ps[j]).pid
}

/// What a process exits with is what its parent is told: when it waits for the process
/// afterwards it finds it, ended, with that status.
pub proof fn lemma_exit_is_reported(t: TableView, code: i32, options: i32)
    requires
        known(t.procs, t.current),
        numbers_differ(t.procs),
        !t.procs[position(t.procs, t.current)].is_thread,
        t.procs[position(t.procs, t.current)].parent_pid != t.current,
    ensures
        ({
            let i = position(t.procs, t.current);
            let parent = t.procs[i].parent_pid;
            let ps = after_end(t.procs, i, code, exit_status(code));
            let left = handed_over(TableView { procs: ps, ..t }, i, successor(ps, parent, i));
            let k = first_reportable(left.procs, parent, t.current as i32, options);
            &&& k < left.procs.len()
            &&& left.procs[k].pid == t.current
            &&& left.procs[k].state == ProcessState::Dead
            &&& left.procs[k].wait_status == exit_status(code)
            &&& left.procs[k].exit_code == code
        }),
{
    let ps0 = t.procs;
    let i = position(ps0, t.current);
    lemma_position(ps0, t.current);
    lemma_position(ps0, 1);
    let parent = ps0[i].parent_pid;
    let heir = reparented(ps0, ps0[i].pid);
    assert(heir.len() == ps0.len());
    assert(heir[i] == ps0[i]);
    assert forall|k: int| 0 <= k < ps0.len() implies (#[trigger] heir[k]).pid == ps0[k].pid by {}
    let ended_one = heir.update(i, reported(ended(heir[i], code), exit_status(code)));
    lemma_position(ended_one, parent);
    let ps = after_end(ps0, i, code, exit_status(code));
    assert(ps[i] == ended_one[i]);
    assert forall|k: int| 0 <= k < ps0.len() implies (#[trigger] ps[k]).pid == ps0[k].pid by {
        assert(ended_one[k].pid == heir[k].pid);
    }
    lemma_position(ps, parent);
    lemma_next_in_turn(ps, i);
    let left = handed_over(TableView { procs: ps, ..t }, i, successor(ps, parent, i));
    assert(left.procs.len() == ps0.len());
    assert(left.procs[i] == ps[i]);
    assert forall|k: int| 0 <= k < ps0.len() implies (#[trigger] left.procs[k]).pid == ps0[k].pid by {
        assert(ps[k].pid == ps0[k].pid);
    }
    let pid = t.current as i32;
    assert forall|k: int| 0 <= k < i implies !(awaited(#[trigger] left.procs[k], parent, pid)
        && reportable(left.procs[k], options)) by {
        assert(ps0[k].pid != ps0[i].pid);
        assert(left.procs[k].pid == ps0[k].pid);
    }
    lemma_first_reportable(left.procs, parent, pid, options, i);
}

/// A child that was waited for is no longer there.
pub proof fn lemma_reaped_is_gone(ps: Seq<ProcView>, k: int)
    requires
        numbers_differ(ps),
        0 <= k < ps.len(),
    ensures
        !known(threads_gone(ps.remove(k), ps[k].tgid), ps[k].pid),
{
    let left = threads_gone(ps.remove(k), ps[k].tgid);
    lemma_position(left, ps[k].pid);
    if known(left, ps[k].pid) {
        let i = position(left, ps[k].pid);
        lemma_threads_gone(ps.remove(k), ps[k].tgid, i);
        let j = choose|j: int| 0 <= j < ps.remove(k).len() && ps.remove(k)[j] == left[i];
        if j < k {
            assert(ps.remove(k)[j] == ps[j]);
        } else {
            assert(ps.remove(k)[j] == ps[j + 1]);
        }
    }
}

/// Removing the threads of a group adds no process.
proof fn lemma_threads_gone(ps: Seq<ProcView>, tgid: u16, i: int)
    requires
        0 <= i < threads_gone(ps, tgid).len(),
    ensures
        exists|j: int| 0 <= j < ps.len() && ps[j] == threads_gone(ps, tgid)[i],
    decreases ps.len(),
{
    let rest = threads_gone(ps.drop_last(), tgid);
    if i < rest.len() {
        lemma_threads_gone(ps.drop_last(), tgid, i);
        let j = choose|j: int| 0 <= j < ps.drop_last().len() && ps.drop_last()[j] == rest[i];
        assert(ps[j] == threads_gone(ps, tgid)[i]);
    } else {
        assert(ps[ps.len() - 1] == threads_gone(ps, tgid)[i]);
    }
}

} // verus!
