//! What holds over the life of a process: how it starts, what an exec leaves it, what is left
//! of it when it ends, and who has the processor meanwhile.

use crate::fs::spelled;
use crate::preempt::{hazard_if, hazards, resched_result, scheduled, Hazard, Preempt, Section};
use crate::proc::launch::{
    fresh_process, idle_made, idle_name, kernel_made, kernel_name, launch_ranges, launch_rsp, replaced,
    session_for, spawned, standard_fds, turned_into, ProgramView, Resources,
};
use crate::proc::process::{slot_of, FdEntry, ProcView, ProcessState, WakeReason};
use crate::proc::sched::{await_begun, halt_over, joined_by, timed_out, woken, AwaitStep};
use crate::proc::signals::{has_signal, lemma_added};
use crate::proc::table::{
    adopted, after_end, after_group_end, ended, ended_by_signal, exit_status, exited, group_ended,
    group_exited, known, lemma_next_in_turn, lemma_position, lone_owner, next_runnable, position,
    reparented, reported, running_owner, switched, Departure, TableView,
};
use crate::syscall::wait::numbers_differ;
use vstd::prelude::*;

verus! {

/// An exec keeps each descriptor that is not marked to be closed, for the same file, and
/// closes those that are.
pub proof fn lemma_exec_keeps_descriptors(
    p: ProcView,
    entry_point: u64,
    stack: u64,
    ranges: Seq<(u64, u64)>,
    page_table: u64,
    proc_mm: usize,
    fd: int,
)
    ensures
        slot_of(replaced(p, entry_point, stack, ranges, page_table, proc_mm).fd_table, fd)
            == match slot_of(p.fd_table, fd) {
            Some(e) => if e.fd_flags & 1 == 0 {
                Some(e)
            } else {
                None
            },
            None => None,
        },
{
}

/// An exec gives a process another program, with its own memory and stack, and forgets what
/// the process did about signals; who it is, where it is and who waits for it stays.
pub proof fn lemma_exec_changes_program(
    p: ProcView,
    entry_point: u64,
    stack: u64,
    ranges: Seq<(u64, u64)>,
    page_table: u64,
    proc_mm: usize,
    sig: int,
)
    requires
        0 <= sig < 65,
    ensures
        ({
            let q = replaced(p, entry_point, stack, ranges, page_table, proc_mm);
            &&& q.entry_point == entry_point
            &&& q.stack == stack
            &&& q.stack_size == 0x64000
            &&& q.addr_size_vec == ranges
            &&& q.page_table == page_table
            &&& q.proc_mm == proc_mm
            &&& q.fs_base == 0
            &&& q.gs_base == 0
            &&& q.signal_actions.len() == 65
            &&& q.signal_actions[sig].handler == 0
            &&& q.signal_mask.low == 0
            &&& q.pending_signals == 0
            &&& q.pid == p.pid
            &&& q.tgid == p.tgid
            &&& q.is_thread == p.is_thread
            &&& q.parent_pid == p.parent_pid
            &&& q.pgid == p.pgid
            &&& q.sid == p.sid
            &&& q.state == p.state
            &&& q.pwd == p.pwd
            &&& q.umask == p.umask
            &&& q.kernel_rsp == p.kernel_rsp
        }),
{
}

/// A new process leads its own group, has the standard mask for new files, does nothing
/// about signals, and starts at the entry of its program with the stack that was made for it.
pub proof fn lemma_fresh_process(
    pid: u16,
    path: Seq<u8>,
    pwd: Seq<u8>,
    parent_pid: u16,
    sid: u16,
    state: ProcessState,
    own: Resources,
    fds: Seq<Option<FdEntry>>,
    entry_point: u64,
    stack: u64,
    stack_size: u64,
    ranges: Seq<(u64, u64)>,
    sig: int,
)
    requires
        0 <= sig < 65,
    ensures
        ({
            let p = fresh_process(
                pid,
                path,
                pwd,
                parent_pid,
                sid,
                state,
                own,
                fds,
                entry_point,
                stack,
                stack_size,
                ranges,
            );
            &&& p.pid == pid
            &&& p.tgid == pid
            &&& p.pgid == pid
            &&& !p.is_thread
            &&& p.parent_pid == parent_pid
            &&& p.sid == sid
            &&& p.state == state
            &&& p.exe_path == path
            &&& p.pwd == pwd
            &&& p.fd_table == fds
            &&& p.entry_point == entry_point
            &&& p.stack == stack
            &&& p.stack_size == stack_size
            &&& p.addr_size_vec == ranges
            &&& p.page_table == own.page_table
            &&& p.kernel_rsp == own.kernel_rsp
            &&& p.proc_mm == own.proc_mm
            &&& p.umask == 18
            &&& p.signal_actions.len() == 65
            &&& p.signal_actions[sig].handler == 0
            &&& p.signal_mask.low == 0
            &&& p.pending_signals == 0
            &&& p.comm.len() == 16
            &&& p.comm[15] == 0
            &&& p.exit_code == 0
            &&& p.wait_status == 0
            &&& !p.wait_reported
            &&& p.fs_base == 0
            &&& p.gs_base == 0
            &&& !p.in_sigsuspend
            &&& !p.pending_io
            &&& p.wait_token is None
            &&& p.wait_deadline_ns is None
            &&& p.wake_reason is None
        }),
{
}

/// A process is of the session of its parent; one without a parent leads its own.
pub proof fn lemma_session(pid: u16, parent_pid: u16, parent_sid: u16)
    ensures
        parent_pid != 0 ==> session_for(pid, parent_pid, Some(parent_sid)) == parent_sid,
        session_for(pid, 0, Some(parent_sid)) == pid,
        session_for(pid, parent_pid, None) == pid,
{
}

/// The first three descriptors of a program are where it reads, writes, and reports errors.
pub proof fn lemma_standard_descriptors(input: usize, output: usize, errors: usize, fd: int)
    ensures
        ({
            let t = standard_fds(input, output, errors);
            &&& slot_of(t, 0) == Some(FdEntry { file: input, fd_flags: 0 })
            &&& slot_of(t, 1) == Some(FdEntry { file: output, fd_flags: 0 })
            &&& slot_of(t, 2) == Some(FdEntry { file: errors, fd_flags: 0 })
            &&& fd < 0 || fd > 2 ==> slot_of(t, fd) is None
        }),
{
}

/// The status of a process that exits holds the low byte of its code in the second byte, and
/// nothing in the first, by which it is told from one that a signal ended.
pub proof fn lemma_exit_status(code: i32)
    ensures
        exit_status(code) & 0xff == 0,
        (exit_status(code) >> 8) & 0xff == code & 0xff,
        0 <= exit_status(code) <= 0xff00,
{
    assert(((code & 0xff) << 8) & 0xff == 0 && (((code & 0xff) << 8) >> 8) & 0xff == code & 0xff && 0
        <= ((code & 0xff) << 8) && ((code & 0xff) << 8) <= 0xff00) by (bit_vector);
}

/// Whether process `q` is process `p` but for what the end of another one may change: who its
/// parent is, and that a signal waits for it.
pub open spec fn touched_only(p: ProcView, q: ProcView) -> bool {
    &&& q == (ProcView {
        parent_pid: q.parent_pid,
        pending_signals: q.pending_signals,
        state: q.state,
        pending_io: q.pending_io,
        ..p
    })
    &&& q.state == p.state || (q.state == ProcessState::Runnable && (p.state
        == ProcessState::Waiting || p.state == ProcessState::SignalWait || p.state
        == ProcessState::AwaitingIo))
}

/// What the end of a process leaves of the others.
proof fn lemma_reparented_each(ps: Seq<ProcView>, exiting: u16, k: int)
    requires
        0 <= k < ps.len(),
    ensures
        reparented(ps, exiting).len() == ps.len(),
        touched_only(ps[k], reparented(ps, exiting)[k]),
        reparented(ps, exiting)[k].parent_pid == if exiting != 1 && known(ps, 1) && !ps[k].is_thread
            && ps[k].parent_pid == exiting {
            1
        } else {
            ps[k].parent_pid
        },
{
    lemma_position(ps, 1);
    assert(ps.map_values(|p: ProcView| adopted(p, exiting)).len() == ps.len());
}

/// A process that ends is dead, holds no file, and keeps its code and its status for its
/// parent, who is sent SIGCHLD. Its children become those of process 1. Of all others nothing
/// is touched.
pub proof fn lemma_end_of_process(ps: Seq<ProcView>, i: int, code: i32, status: i32, k: int)
    requires
        numbers_differ(ps),
        0 <= i < ps.len(),
        0 <= k < ps.len(),
        ps[i].parent_pid != ps[i].pid,
    ensures
        ({
            let after = after_end(ps, i, code, status);
            let (p, q) = (ps[k], after[k]);
            &&& after.len() == ps.len()
            &&& after[i].state == ProcessState::Dead
            &&& after[i].exit_code == code
            &&& after[i].wait_status == status
            &&& !after[i].wait_reported
            &&& after[i].fd_table.len() == 0
            &&& after[i].pid == ps[i].pid
            &&& after[i].parent_pid == ps[i].parent_pid
            &&& after[i].wait_token is None
            &&& k != i ==> touched_only(p, q)
            &&& k != i ==> q.parent_pid == if ps[i].pid != 1 && known(ps, 1) && !p.is_thread
                && p.parent_pid == ps[i].pid {
                1
            } else {
                p.parent_pid
            }
            &&& k != i && p.pid == ps[i].parent_pid ==> has_signal(q.pending_signals, 17)
        }),
{
    let pid = ps[i].pid;
    let parent = ps[i].parent_pid;
    let left = reparented(ps, pid);
    lemma_reparented_each(ps, pid, i);
    lemma_reparented_each(ps, pid, k);
    let mid = left.update(i, reported(ended(left[i], code), status));
    lemma_position(mid, parent);
    let after = after_end(ps, i, code, status);
    assert forall|j: int| 0 <= j < ps.len() implies (#[trigger] mid[j]).pid == ps[j].pid by {
        lemma_reparented_each(ps, pid, j);
    }
    assert(left[i].parent_pid == parent);
    if known(mid, parent) {
        let j = position(mid, parent);
        assert(mid[j].pid == parent);
        assert(j != i);
        if k != i && ps[k].pid == parent {
            assert(mid[k].pid == ps[k].pid);
            if j < k {
                assert(ps[j].pid != ps[k].pid);
            }
            assert(j == k);
            lemma_added(mid[k].pending_signals, 17, 17);
        }
    } else if k != i && ps[k].pid == parent {
        assert(mid[k].pid == parent);
    }
}

/// What is left after an exit of the process that has the processor: it is dead with its
/// code, its parent can hear of it, and its children are those of process 1.
pub proof fn lemma_exit_ends(t: TableView, after: TableView, code: i32, d: Departure, k: int)
    requires
        exited(t, after, code, d),
        known(t.procs, t.current),
        numbers_differ(t.procs),
        running_owner(t.procs, position(t.procs, t.current)),
        !t.procs[position(t.procs, t.current)].is_thread,
        t.procs[position(t.procs, t.current)].parent_pid != t.current,
        0 <= k < t.procs.len(),
    ensures
        ({
            let i = position(t.procs, t.current);
            let (p, q) = (t.procs[k], after.procs[k]);
            &&& after.procs.len() == t.procs.len()
            &&& after.procs[i].pid == t.current
            &&& after.procs[i].state == ProcessState::Dead
            &&& after.procs[i].exit_code == code
            &&& (after.procs[i].wait_status >> 8) & 0xff == code & 0xff
            &&& after.procs[i].wait_status & 0x7f == 0
            &&& after.procs[i].fd_table.len() == 0
            &&& k != i ==> q.pid == p.pid && q.fd_table == p.fd_table && q.exit_code == p.exit_code
            &&& k != i && !p.is_thread && p.parent_pid == t.current && t.current != 1 && known(
                t.procs,
                1,
            ) ==> q.parent_pid == 1
            &&& k != i && p.pid == t.procs[i].parent_pid ==> has_signal(q.pending_signals, 17)
        }),
{
    let i = position(t.procs, t.current);
    lemma_position(t.procs, t.current);
    let ps = after_end(t.procs, i, code, exit_status(code));
    let parent = t.procs[i].parent_pid;
    lemma_end_of_process(t.procs, i, code, exit_status(code), i);
    lemma_end_of_process(t.procs, i, code, exit_status(code), k);
    lemma_exit_status(code);
    let s = exit_status(code);
    assert(s & 0x7f == 0) by (bit_vector)
        requires
            s & 0xff == 0,
    ;
    lemma_position(ps, parent);
    lemma_next_in_turn(ps, i);
}

/// After an exit the processor goes to the parent, where that can run, and else to the next
/// in turn; it stands idle only where no one can run.
pub proof fn lemma_exit_hands_over(t: TableView, after: TableView, code: i32, d: Departure)
    requires
        exited(t, after, code, d),
        known(t.procs, t.current),
        numbers_differ(t.procs),
        running_owner(t.procs, position(t.procs, t.current)),
        !t.procs[position(t.procs, t.current)].is_thread,
        t.procs[position(t.procs, t.current)].parent_pid != t.current,
    ensures
        ({
            let i = position(t.procs, t.current);
            let parent = t.procs[i].parent_pid;
            match d {
                Departure::Unknown => false,
                Departure::Switch(n) => {
                    &&& n < after.procs.len()
                    &&& after.current == after.procs[n as int].pid
                    &&& running_owner(after.procs, n as int)
                    &&& known(t.procs, parent) && (process_waits(t, parent) || t.procs[position(
                        t.procs,
                        parent,
                    )].state == ProcessState::Runnable) ==> after.current == parent
                },
                Departure::Idle => {
                    &&& after.current == t.current
                    &&& forall|k: int|
                        0 <= k < after.procs.len() ==> (#[trigger] after.procs[k]).state
                            != ProcessState::Runnable && after.procs[k].state
                            != ProcessState::Running
                },
            }
        }),
{
    let i = position(t.procs, t.current);
    lemma_position(t.procs, t.current);
    let ps = after_end(t.procs, i, code, exit_status(code));
    let parent = t.procs[i].parent_pid;
    assert forall|k: int| 0 <= k < t.procs.len() implies (#[trigger] ps[k]).pid == t.procs[k].pid && (
    ps[k].state == ProcessState::Running ==> false) && ps.len() == t.procs.len() by {
        lemma_end_of_process(t.procs, i, code, exit_status(code), k);
    }
    lemma_end_of_process(t.procs, i, code, exit_status(code), i);
    lemma_position(ps, parent);
    lemma_position(t.procs, parent);
    lemma_next_in_turn(ps, i);
    if known(t.procs, parent) {
        let j = position(t.procs, parent);
        lemma_end_of_process(t.procs, i, code, exit_status(code), j);
        assert(ps[j].pid == parent);
        let m = position(ps, parent);
        assert(m == j) by {
            if m < j {
                assert(ps[m].pid == t.procs[m].pid);
            }
        }
        assert(j != i);
        if process_waits(t, parent) {
            lemma_parent_wakes(t.procs, i, code, exit_status(code), j);
        }
    }
}

/// Whether process `pid` waits, so that a signal lets it run.
pub open spec fn process_waits(t: TableView, pid: u16) -> bool {
    let s = t.procs[position(t.procs, pid)].state;
    s == ProcessState::Waiting || s == ProcessState::SignalWait || s == ProcessState::AwaitingIo
}

proof fn lemma_parent_wakes(ps: Seq<ProcView>, i: int, code: i32, status: i32, j: int)
    requires
        numbers_differ(ps),
        0 <= i < ps.len(),
        0 <= j < ps.len(),
        i != j,
        ps[j].pid == ps[i].parent_pid,
        ps[i].parent_pid != ps[i].pid,
        ps[j].state == ProcessState::Waiting || ps[j].state == ProcessState::SignalWait || ps[j].state
            == ProcessState::AwaitingIo,
    ensures
        after_end(ps, i, code, status)[j].state == ProcessState::Runnable,
{
    let pid = ps[i].pid;
    let parent = ps[i].parent_pid;
    let left = reparented(ps, pid);
    lemma_reparented_each(ps, pid, i);
    lemma_reparented_each(ps, pid, j);
    let mid = left.update(i, reported(ended(left[i], code), status));
    lemma_position(mid, parent);
    assert forall|k: int| 0 <= k < ps.len() implies (#[trigger] mid[k]).pid == ps[k].pid by {
        lemma_reparented_each(ps, pid, k);
    }
    assert(mid[j].pid == parent);
    let m = position(mid, parent);
    if m < j {
        assert(mid[m].pid == ps[m].pid);
        assert(ps[m].pid != ps[j].pid);
    }
}

/// A thread that exits ends alone: its files are let go, no one is sent a signal, and no
/// other process is touched, but that one of them is given the processor.
pub proof fn lemma_thread_exit(t: TableView, after: TableView, code: i32, d: Departure, k: int)
    requires
        exited(t, after, code, d),
        known(t.procs, t.current),
        t.procs[position(t.procs, t.current)].is_thread,
        0 <= k < t.procs.len(),
    ensures
        ({
            let i = position(t.procs, t.current);
            &&& after.procs[i].state == ProcessState::Dead
            &&& after.procs[i].exit_code == code
            &&& after.procs[i].fd_table.len() == 0
            &&& k != i ==> after.procs[k] == (ProcView {
                state: after.procs[k].state,
                ..t.procs[k]
            })
        }),
{
    let i = position(t.procs, t.current);
    lemma_position(t.procs, t.current);
    let ps = t.procs.update(i, ended(t.procs[i], code));
    lemma_next_in_turn(ps, i);
}

/// A process that a signal ends is dead with the signal as its status, and a code of 128 more
/// than the signal.
pub proof fn lemma_signal_ends(t: TableView, after: TableView, sig: i32, d: Departure)
    requires
        ended_by_signal(t, after, sig, d),
        1 <= sig <= 64,
        known(t.procs, t.current),
        numbers_differ(t.procs),
        t.procs[position(t.procs, t.current)].parent_pid != t.current,
    ensures
        ({
            let i = position(t.procs, t.current);
            &&& after.procs[i].pid == t.current
            &&& after.procs[i].state == ProcessState::Dead
            &&& after.procs[i].exit_code == 128 + sig
            &&& after.procs[i].wait_status & 0x7f == sig
            &&& after.procs[i].wait_status >> 7 == 0
            &&& after.procs[i].fd_table.len() == 0
        }),
{
    let i = position(t.procs, t.current);
    lemma_position(t.procs, t.current);
    let ps = after_end(t.procs, i, (128 + sig) as i32, sig & 0x7f);
    lemma_end_of_process(t.procs, i, (128 + sig) as i32, sig & 0x7f, i);
    lemma_position(ps, t.procs[i].parent_pid);
    lemma_next_in_turn(ps, i);
    assert((sig & 0x7f) & 0x7f == sig && (sig & 0x7f) >> 7 == 0) by (bit_vector)
        requires
            1 <= sig <= 64,
    ;
}

/// When a group ends all its members are dead, with the code, and hold no files; the leader
/// keeps the status for its parent. No one outside the group is ended.
pub proof fn lemma_group_ends(t: TableView, after: TableView, code: i32, d: Departure, k: int)
    requires
        group_exited(t, after, code, d),
        known(t.procs, t.current),
        numbers_differ(t.procs),
        0 <= k < t.procs.len(),
        ({
            let tgid = t.procs[position(t.procs, t.current)].tgid;
            let leader = position(t.procs, tgid);
            &&& known(t.procs, tgid)
            &&& t.procs[leader].tgid == tgid
            &&& t.procs[leader].parent_pid != tgid
        }),
    ensures
        ({
            let tgid = t.procs[position(t.procs, t.current)].tgid;
            let leader = position(t.procs, tgid);
            let (p, q) = (t.procs[k], after.procs[k]);
            &&& after.procs.len() == t.procs.len()
            &&& q.pid == p.pid
            &&& p.tgid == tgid ==> q.state == ProcessState::Dead && q.exit_code == code
                && q.fd_table.len() == 0
            &&& p.tgid != tgid ==> q.exit_code == p.exit_code && q.fd_table == p.fd_table && (q.state
                == ProcessState::Dead ==> p.state == ProcessState::Dead)
            &&& k == leader ==> q.wait_status == exit_status(code) && !q.wait_reported
        }),
{
    let i = position(t.procs, t.current);
    let tgid = t.procs[i].tgid;
    let leader = position(t.procs, tgid);
    let parent = t.procs[leader].parent_pid;
    lemma_position(t.procs, t.current);
    lemma_position(t.procs, tgid);
    let moved = reparented(t.procs, tgid);
    lemma_reparented_each(t.procs, tgid, k);
    lemma_reparented_each(t.procs, tgid, leader);
    lemma_reparented_each(t.procs, tgid, i);
    let gone = group_ended(moved, tgid, code);
    let mid = gone.update(leader, reported(gone[leader], exit_status(code)));
    lemma_position(mid, parent);
    let ps = after_group_end(t.procs, tgid, leader, code);
    lemma_position(ps, parent);
    lemma_next_in_turn(ps, i);
    assert(mid.len() == t.procs.len());
    assert(mid[k].pid == t.procs[k].pid);
    assert(ps[k].pid == mid[k].pid);
}

/// A switch takes the processor from one process and gives it to another, which can run:
/// nothing else changes.
pub proof fn lemma_switch_changes(t: TableView, cur: int, next: int, k: int)
    requires
        0 <= cur < t.procs.len(),
        0 <= next < t.procs.len(),
        0 <= k < t.procs.len(),
    ensures
        ({
            let s = switched(t, cur, next);
            &&& s.procs.len() == t.procs.len()
            &&& s.procs[k] == (ProcView { state: s.procs[k].state, ..t.procs[k] })
            &&& k != cur && k != next ==> s.procs[k] == t.procs[k]
            &&& cur != next && lone_owner(t.procs, cur) && t.procs[next].state
                == ProcessState::Runnable ==> {
                &&& s.current == t.procs[next].pid
                &&& s.procs[next].state == ProcessState::Running
                &&& t.procs[cur].state == ProcessState::Running ==> s.procs[cur].state
                    == ProcessState::Runnable
                &&& t.procs[cur].state != ProcessState::Running ==> s.procs[cur].state
                    == t.procs[cur].state
            }
            &&& cur == next || !lone_owner(t.procs, cur) || t.procs[next].state
                != ProcessState::Runnable ==> s == t
        }),
{
}

/// A task that gives up the processor while it can run gets it back in its turn: choosing the
/// next task leaves it able to run, and gives the processor to one that can.
pub proof fn lemma_schedule_is_fair(t: TableView)
    requires
        known(t.procs, t.current),
        running_owner(t.procs, position(t.procs, t.current)),
        exists|k: int|
            0 <= k < t.procs.len() && (#[trigger] t.procs[k]).state == ProcessState::Runnable,
    ensures
        ({
            let i = position(t.procs, t.current);
            let s = scheduled(t);
            let n = next_runnable(t.procs, i)->0;
            &&& next_runnable(t.procs, i) is Some
            &&& n != i
            &&& t.procs[n].state == ProcessState::Runnable
            &&& s.current == t.procs[n].pid
            &&& running_owner(s.procs, n)
            &&& s.procs[i].state == ProcessState::Runnable
        }),
{
    let i = position(t.procs, t.current);
    lemma_position(t.procs, t.current);
    lemma_next_in_turn(t.procs, i);
}

/// A point at which another task may be chosen does nothing unless that was asked for, no
/// section that forbids it is open, and no interrupt is being served; the request is met then.
pub proof fn lemma_resched_point(p: Preempt, t: TableView)
    ensures
        p.need_resched && p.preempt_count == 0 && p.irq_depth == 0 && !p.in_scheduler
            ==> !resched_result(p, t).0.need_resched && resched_result(p, t).1 == scheduled(t),
        !(p.need_resched && p.preempt_count == 0 && p.irq_depth == 0 && !p.in_scheduler)
            ==> resched_result(p, t) == (p, t),
        resched_result(p, t).0.preempt_count == p.preempt_count,
        resched_result(p, t).0.held_locks == p.held_locks,
{
}

proof fn lemma_named_in_either(a: Seq<Hazard>, c: bool, h: Hazard, x: Hazard)
    ensures
        (a + hazard_if(c, h)).contains(x) == (a.contains(x) || (c && x == h)),
{
    let all = a + hazard_if(c, h);
    if a.contains(x) {
        let i = choose|i: int| 0 <= i < a.len() && a[i] == x;
        assert(all[i] == x);
    }
    if c && x == h {
        assert(all[a.len() as int] == x);
    }
    if all.contains(x) {
        let i = choose|i: int| 0 <= i < all.len() && all[i] == x;
        if i < a.len() {
            assert(a[i] == x);
        }
    }
}

/// A hazard is named exactly where there is one.
pub proof fn lemma_hazards_named(p: Preempt, x: Hazard)
    ensures
        hazards(p).contains(x) == match x {
            Hazard::Interrupt => p.irq_depth != 0,
            Hazard::Locks => p.held_locks != 0,
            Hazard::Inside(Section::Fault) => p.fault != 0,
            Hazard::Inside(Section::Allocator) => p.allocator != 0,
            Hazard::Inside(Section::ProcessTable) => p.process_table != 0,
            Hazard::Inside(Section::Vfs) => p.vfs != 0,
            Hazard::Inside(Section::Pagetable) => p.pagetable != 0,
        },
{
    let a = Seq::<Hazard>::empty() + hazard_if(p.irq_depth != 0, Hazard::Interrupt);
    let first = hazard_if(p.irq_depth != 0, Hazard::Interrupt);
    assert(a =~= first);
    let b = first + hazard_if(p.held_locks != 0, Hazard::Locks);
    let c = b + hazard_if(p.fault != 0, Hazard::Inside(Section::Fault));
    let d = c + hazard_if(p.allocator != 0, Hazard::Inside(Section::Allocator));
    let e = d + hazard_if(p.process_table != 0, Hazard::Inside(Section::ProcessTable));
    let f = e + hazard_if(p.vfs != 0, Hazard::Inside(Section::Vfs));
    lemma_named_in_either(Seq::<Hazard>::empty(), p.irq_depth != 0, Hazard::Interrupt, x);
    lemma_named_in_either(first, p.held_locks != 0, Hazard::Locks, x);
    lemma_named_in_either(b, p.fault != 0, Hazard::Inside(Section::Fault), x);
    lemma_named_in_either(c, p.allocator != 0, Hazard::Inside(Section::Allocator), x);
    lemma_named_in_either(d, p.process_table != 0, Hazard::Inside(Section::ProcessTable), x);
    lemma_named_in_either(e, p.vfs != 0, Hazard::Inside(Section::Vfs), x);
    lemma_named_in_either(f, p.pagetable != 0, Hazard::Inside(Section::Pagetable), x);
}

/// What a device has done wakes the process that waits for it, and is kept for one that does
/// not wait yet; one that is stopped or has ended hears nothing of it.
pub proof fn lemma_device_wakes(p: ProcView)
    ensures
        ({
            let q = woken(p);
            &&& q == (ProcView { state: q.state, pending_io: q.pending_io, ..p })
            &&& p.state == ProcessState::AwaitingIo ==> q.state == ProcessState::Runnable
                && q.pending_io
            &&& p.state == ProcessState::Dead || p.state == ProcessState::Stopped ==> q == p
            &&& p.state != ProcessState::AwaitingIo ==> q.state == p.state
            &&& p.state == ProcessState::Running || p.state == ProcessState::Runnable || p.state
                == ProcessState::Sleeping || p.state == ProcessState::Waiting || p.state
                == ProcessState::SignalWait ==> q.pending_io
        }),
{
}

/// A deadline ends the sleep that it was set for, and says so; it ends nothing else.
pub proof fn lemma_deadline_wakes(p: ProcView, token: u64)
    ensures
        ({
            let q = timed_out(p, token);
            &&& p.state == ProcessState::Sleeping && p.wait_token == Some(token) ==> {
                &&& q.state == ProcessState::Runnable
                &&& q.wake_reason == Some(WakeReason::Deadline)
                &&& q.wait_token is None
                &&& q.wait_deadline_ns is None
            }
            &&& p.state != ProcessState::Sleeping || p.wait_token != Some(token) ==> q == p
            &&& q.fd_table == p.fd_table
            &&& q.pending_signals == p.pending_signals
            &&& timed_out(q, token) == q
        }),
{
}

/// A process that waits for a device does not run until the device has done something: the
/// processor goes to another, or is halted where there is none. A wait that is over already
/// is not begun.
pub proof fn lemma_await_gives_up(t: TableView, after: TableView, pid: u16, r: AwaitStep)
    requires
        await_begun(t, after, pid, r),
        known(t.procs, pid),
    ensures
        ({
            let i = position(t.procs, pid);
            let p = t.procs[i];
            &&& p.pending_io ==> r == AwaitStep::Return
            &&& r == AwaitStep::Return ==> !after.procs[i].pending_io && after.current == t.current
            &&& r == AwaitStep::Halt ==> after.procs[i].state == ProcessState::AwaitingIo
                && after.current == t.current
            &&& r matches AwaitStep::Switch(n) ==> {
                &&& n != i
                &&& after.procs[i].state == ProcessState::AwaitingIo
                &&& t.procs[n as int].state == ProcessState::Runnable
            }
        }),
{
    let i = position(t.procs, pid);
    lemma_position(t.procs, pid);
    let waiting = t.procs.update(i, ProcView { state: ProcessState::AwaitingIo, ..t.procs[i] });
    lemma_next_in_turn(waiting, i);
}

/// A new process joins the others at their end. Where the scheduler can be used it runs at once,
/// and the one that started it waits; else the one that started it goes on, and the new one stays
/// ready. Nobody else is touched.
pub proof fn lemma_joined_by(t: TableView, born: ProcView, open: bool, k: int)
    requires
        known(t.procs, t.current),
        born.pid != t.current,
        0 <= k < t.procs.len(),
        born.state == ProcessState::Runnable,
    ensures
        ({
            let (after, r) = joined_by(t, born, open);
            let i = position(t.procs, t.current);
            let n = t.procs.len() as int;
            &&& r == open
            &&& after.procs.len() == n + 1
            &&& after.procs[n].pid == born.pid
            &&& k != i ==> after.procs[k] == t.procs[k]
            &&& open ==> after.current == born.pid && after.procs[n].state == ProcessState::Running
                && after.procs[i].state == ProcessState::Waiting
            &&& !open ==> after.current == t.current && after.procs[n] == born && after.procs[i].state
                == ProcessState::Running
            &&& after.procs[i].pid == t.current
            &&& after.procs[n].preempt_frame == born.preempt_frame
            &&& after.procs[n] == (ProcView { state: after.procs[n].state, ..born })
            &&& after.procs[i].preempt_frame == 0
            &&& after.procs[i].fd_table == t.procs[i].fd_table
        }),
{
    let ps = t.procs.push(born);
    lemma_position(t.procs, t.current);
    lemma_position(ps, t.current);
    let i = position(t.procs, t.current);
    assert(ps[i].pid == t.current);
    let j = position(ps, t.current);
    if j < i {
        assert(ps[j] == t.procs[j]);
    }
}

/// After a halt a process that waited for a device is told whether the device was heard of; it then
/// has heard of it, and runs where it was ready.
pub proof fn lemma_halt_over(t: TableView, pid: u16, k: int)
    requires
        known(t.procs, pid),
        0 <= k < t.procs.len(),
    ensures
        ({
            let (after, r) = halt_over(t, pid);
            let i = position(t.procs, pid);
            &&& r == (t.procs[i].pending_io || t.procs[i].state == ProcessState::Runnable)
            &&& !after.procs[i].pending_io
            &&& t.procs[i].state == ProcessState::Runnable ==> after.procs[i].state == ProcessState::Running
            &&& t.procs[i].state != ProcessState::Runnable ==> after.procs[i].state == t.procs[i].state
            &&& k != i ==> after.procs[k] == t.procs[k]
            &&& after.current == t.current
        }),
{
    lemma_position(t.procs, pid);
}

/// The kernel's own processes have these names.
pub proof fn lemma_kernel_named()
    ensures
        spelled(kernel_name(), "[kernel]"@),
        spelled(idle_name(), "[idle]"@),
{
    reveal_strlit("[kernel]");
    reveal_strlit("[idle]");
}

/// A process that was started is ready to run its program from the entry on, with the stack that
/// its arguments were put on, and has the descriptors and the directory it was given; it belongs to
/// the session of its parent.
pub proof fn lemma_spawned(
    pid: u16,
    exe_path: Seq<u8>,
    pwd: Seq<u8>,
    parent_pid: u16,
    parent_sid: u16,
    own: Resources,
    fds: Seq<Option<FdEntry>>,
    program: ProgramView,
    args: Seq<Seq<u8>>,
    env: Seq<Seq<u8>>,
    stack_granted: bool,
)
    requires
        parent_pid != 0,
        0 <= launch_rsp(args, env) <= u64::MAX,
    ensures
        ({
            let p = spawned(
                pid,
                exe_path,
                pwd,
                parent_pid,
                Some(parent_sid),
                own,
                fds,
                program,
                args,
                env,
                stack_granted,
            );
            &&& p.pid == pid
            &&& p.parent_pid == parent_pid
            &&& p.sid == parent_sid
            &&& p.state == ProcessState::Runnable
            &&& p.entry_point == program.entry_point
            &&& p.stack == launch_rsp(args, env)
            &&& p.stack_size == 0x6_4000
            &&& p.addr_size_vec == launch_ranges(program, stack_granted)
            &&& p.fd_table == fds
            &&& p.pwd == pwd
            &&& p.exe_path == exe_path
            &&& p.page_table == own.page_table
            &&& p.proc_mm == own.proc_mm
        }),
{
}

/// A process that takes up another program goes on from its entry, with the stack that the new
/// arguments were put on and in the new memory; it stays the same process.
pub proof fn lemma_turned_into(
    p: ProcView,
    program: ProgramView,
    args: Seq<Seq<u8>>,
    env: Seq<Seq<u8>>,
    page_table: u64,
    proc_mm: usize,
)
    requires
        0 <= launch_rsp(args, env) <= u64::MAX,
    ensures
        ({
            let q = turned_into(p, program, args, env, page_table, proc_mm);
            &&& q.entry_point == program.entry_point
            &&& q.stack == launch_rsp(args, env)
            &&& q.addr_size_vec == launch_ranges(program, true)
            &&& q.page_table == page_table
            &&& q.proc_mm == proc_mm
            &&& q.pid == p.pid && q.tgid == p.tgid && q.parent_pid == p.parent_pid
            &&& q.pgid == p.pgid && q.sid == p.sid
            &&& q.pwd == p.pwd
            &&& q.umask == p.umask
            &&& q.state == p.state
        }),
{
}

/// The kernel has two processes of its own, both with the number zero and without files: one that is
/// ready, and one that runs when there is nothing to do.
pub proof fn lemma_kernel_processes(own: Resources, gs_base: u64)
    ensures
        ({
            let (k, i) = (kernel_made(own), idle_made(own, gs_base));
            &&& k.pid == 0 && i.pid == 0
            &&& k.parent_pid == 0 && i.parent_pid == 0
            &&& k.state == ProcessState::Runnable
            &&& i.state == ProcessState::Running
            &&& i.gs_base == gs_base
            &&& k.fd_table.len() == 0 && i.fd_table.len() == 0
            &&& k.pwd == seq![47u8] && i.pwd == seq![47u8]
            &&& k.exe_path == kernel_name() && i.exe_path == idle_name()
            &&& k.page_table == own.page_table && i.page_table == own.page_table
        }),
{
}

} // verus!
