//! Waiting, waking and starting: what processes do to the table while they run.

use crate::preempt::{
    can_preempt_kernel, resched_result, schedule_now, scheduled, set_need_resched, Preempt,
    SchedulerGuard, ENABLE_KERNEL_PREEMPTION,
};
use crate::proc::process::{signalled, unblocked, ProcView, Process, ProcessState, WakeReason};
use crate::proc::table::{
    known, lemma_position, next_runnable, position, switched, ProcessTable, TableView,
};
use vstd::prelude::*;

verus! {

/// The number of the process that has the processor.
pub fn id(table: &ProcessTable) -> (r: u16)
    ensures
        r == table@.current,
{
    table.current
}

/// Process `pid` of the table.
pub open spec fn process(t: TableView, pid: u16) -> ProcView {
    t.procs[position(t.procs, pid)]
}

/// The table with process `pid` changed to `p`.
pub open spec fn with_process(t: TableView, pid: u16, p: ProcView) -> TableView {
    TableView { procs: t.procs.update(position(t.procs, pid), p), ..t }
}

pub fn process_group_id(table: &ProcessTable, pid: u16) -> (r: Option<u16>)
    ensures
        r == if known(table@.procs, pid) {
            Some(process(table@, pid).pgid)
        } else {
            None::<u16>
        },
{
    match table.get_process(pid) {
        Some(p) => Some(p.pgid),
        None => None,
    }
}

pub fn process_session_id(table: &ProcessTable, pid: u16) -> (r: Option<u16>)
    ensures
        r == if known(table@.procs, pid) {
            Some(process(table@, pid).sid)
        } else {
            None::<u16>
        },
{
    match table.get_process(pid) {
        Some(p) => Some(p.sid),
        None => None,
    }
}

/// The group of the process that has the processor.
pub fn current_process_group_id(table: &ProcessTable) -> (r: u16)
    ensures
        r == if known(table@.procs, table@.current) {
            process(table@, table@.current).pgid
        } else {
            table@.current
        },
{
    let current: u16 = id(table);
    match process_group_id(table, current) {
        Some(g) => g,
        None => current,
    }
}

pub fn current_has_unblocked_signal(table: &ProcessTable) -> (r: bool)
    ensures
        r == (known(table@.procs, table@.current) && unblocked(process(table@, table@.current)) != 0),
{
    match table.get_process(table.current) {
        Some(p) => p.has_unblocked_signal(),
        None => false,
    }
}

/// A process after something that it waits for has happened.
pub open spec fn woken(p: ProcView) -> ProcView {
    match p.state {
        ProcessState::AwaitingIo => ProcView {
            state: ProcessState::Runnable,
            pending_io: true,
            ..p
        },
        ProcessState::Dead => p,
        ProcessState::Stopped => p,
        _ => ProcView { pending_io: true, ..p },
    }
}

/// A process after the deadline of wait `token` passed. A wait that is over does not
/// end a later one.
pub open spec fn timed_out(p: ProcView, token: u64) -> ProcView {
    if p.wait_token == Some(token) && p.state == ProcessState::Sleeping {
        ProcView {
            state: ProcessState::Runnable,
            wait_token: None,
            wait_deadline_ns: None,
            wake_reason: Some(WakeReason::Deadline),
            ..p
        }
    } else {
        p
    }
}

fn wake_one(p: &mut Process)
    ensures
        final(p)@ == woken(old(p)@),
{
    match p.state {
        ProcessState::AwaitingIo => {
            p.state = ProcessState::Runnable;
            p.pending_io = true;
        },
        ProcessState::Dead => {},
        ProcessState::Stopped => {},
        _ => {
            p.pending_io = true;
        },
    }
}

/// Tells process `pid` that something it waits for has happened.
pub fn wake_process(table: &mut ProcessTable, pid: u16)
    ensures
        final(table)@ == if known(old(table)@.procs, pid) {
            with_process(old(table)@, pid, woken(process(old(table)@, pid)))
        } else {
            old(table)@
        },
{
    let ghost t = table@;
    proof {
        lemma_position(t.procs, pid);
    }
    match table.find_process_index(pid) {
        Some(i) => {
            proof {
                assert(t.procs[i as int] == table.proc_list@[i as int]@);
            }
            wake_one(&mut table.proc_list[i]);
            proof {
                assert(table@.procs =~= t.procs.update(i as int, woken(t.procs[i as int])));
            }
        },
        None => {},
    }
}

/// Ends wait `token` of process `pid`, whose deadline has passed.
pub fn wake_from_timer(table: &mut ProcessTable, pid: u16, token: u64)
    ensures
        final(table)@ == if known(old(table)@.procs, pid) {
            with_process(old(table)@, pid, timed_out(process(old(table)@, pid), token))
        } else {
            old(table)@
        },
{
    let ghost t = table@;
    proof {
        lemma_position(t.procs, pid);
    }
    match table.find_process_index(pid) {
        Some(i) => {
            proof {
                assert(t.procs[i as int] == table.proc_list@[i as int]@);
            }
            let due: bool = match table.proc_list[i].wait_token {
                Some(k) => k == token && table.proc_list[i].state == ProcessState::Sleeping,
                None => false,
            };
            if due {
                table.proc_list[i].state = ProcessState::Runnable;
                table.proc_list[i].wait_token = None;
                table.proc_list[i].wait_deadline_ns = None;
                table.proc_list[i].wake_reason = Some(WakeReason::Deadline);
            }
            proof {
                assert(table@.procs =~= t.procs.update(
                    i as int,
                    timed_out(t.procs[i as int], token),
                ));
            }
        },
        None => {},
    }
}

/// Sends a signal to process `pid`, and says whether there is such a process.
pub fn queue_signal(table: &mut ProcessTable, pid: u16, sig: usize) -> (r: bool)
    ensures
        r == known(old(table)@.procs, pid),
        final(table)@ == if r {
            with_process(old(table)@, pid, woken(signalled(process(old(table)@, pid), sig as int)))
        } else {
            old(table)@
        },
{
    let ghost t = table@;
    proof {
        lemma_position(t.procs, pid);
    }
    match table.find_process_index(pid) {
        Some(i) => {
            proof {
                assert(t.procs[i as int] == table.proc_list@[i as int]@);
            }
            table.proc_list[i].queue_signal(sig);
            wake_one(&mut table.proc_list[i]);
            proof {
                assert(table@.procs =~= t.procs.update(
                    i as int,
                    woken(signalled(t.procs[i as int], sig as int)),
                ));
            }
            true
        },
        None => false,
    }
}

/// What a process that waits for a device does next.
#[derive(Debug, Clone, Copy, PartialEq, Eq, Structural)]
pub enum AwaitStep {
    /// The wait is over.
    Return,
    /// The processor was offered to the process at this place.
    Switch(usize),
    /// Nobody else can run: the processor is to be halted.
    Halt,
}

/// A process that finds its wait over when it asks.
pub open spec fn resumed(p: ProcView) -> ProcView {
    let q = ProcView { pending_io: false, ..p };
    if p.state == ProcessState::Runnable || (p.pending_io && p.state == ProcessState::AwaitingIo) {
        ProcView { state: ProcessState::Running, ..q }
    } else {
        q
    }
}

/// Whether the wait of a process is over before it has begun.
pub open spec fn wait_over(p: ProcView) -> bool {
    p.pending_io || p.state == ProcessState::Runnable
}

/// What becomes of the table when process `pid` starts to wait for a device, or goes on.
pub open spec fn await_begun(t: TableView, after: TableView, pid: u16, r: AwaitStep) -> bool {
    let i = position(t.procs, pid);
    let p = t.procs[i];
    let waiting = t.procs.update(i, ProcView { state: ProcessState::AwaitingIo, ..p });
    if !known(t.procs, pid) {
        r == AwaitStep::Return && after == t
    } else if wait_over(p) {
        r == AwaitStep::Return && after == with_process(t, pid, resumed(p))
    } else {
        match next_runnable(waiting, i) {
            Some(n) => {
                &&& r matches AwaitStep::Switch(k) && k == n
                &&& after == switched(TableView { procs: waiting, ..t }, i, n)
            },
            None => r == AwaitStep::Halt && after == (TableView {
                procs: waiting,
                ..t
            }),
        }
    }
}

/// Starts to wait for a device, or goes on waiting.
pub fn await_io_begin(table: &mut ProcessTable, pid: u16) -> (r: AwaitStep)
    ensures
        await_begun(old(table)@, final(table)@, pid, r),
{
    let ghost t = table@;
    proof {
        lemma_position(t.procs, pid);
    }
    let i: usize = match table.find_process_index(pid) {
        Some(i) => i,
        None => return AwaitStep::Return,
    };
    proof {
        assert(t.procs[i as int] == table.proc_list@[i as int]@);
    }
    if table.proc_list[i].pending_io {
        table.proc_list[i].pending_io = false;
        if table.proc_list[i].state == ProcessState::Runnable || table.proc_list[i].state
            == ProcessState::AwaitingIo {
            table.proc_list[i].state = ProcessState::Running;
        }
        proof {
            assert(table@.procs =~= t.procs.update(i as int, resumed(t.procs[i as int])));
        }
        return AwaitStep::Return;
    }
    if table.proc_list[i].state == ProcessState::Runnable {
        table.proc_list[i].state = ProcessState::Running;
        proof {
            assert(table@.procs =~= t.procs.update(i as int, resumed(t.procs[i as int])));
        }
        return AwaitStep::Return;
    }
    table.proc_list[i].state = ProcessState::AwaitingIo;
    proof {
        assert(table@.procs =~= t.procs.update(
            i as int,
            ProcView { state: ProcessState::AwaitingIo, ..t.procs[i as int] },
        ));
    }
    match table.find_next_runnable_index(i) {
        Some(n) => {
            let _ = table.switch_by_index(i, n);
            AwaitStep::Switch(n)
        },
        None => AwaitStep::Halt,
    }
}

/// Whether the wait of process `pid` is over, asked when the processor came back to it.
pub fn await_io_after_switch(table: &mut ProcessTable, pid: u16) -> (r: bool)
    ensures
        ({
            let t = old(table)@;
            let p = process(t, pid);
            if !known(t.procs, pid) {
                !r && final(table)@ == t
            } else {
                &&& r == (p.pending_io || p.state == ProcessState::Running)
                &&& final(table)@ == with_process(t, pid, ProcView { pending_io: false, ..p })
            }
        }),
{
    let ghost t = table@;
    proof {
        lemma_position(t.procs, pid);
    }
    match table.find_process_index(pid) {
        Some(i) => {
            proof {
                assert(t.procs[i as int] == table.proc_list@[i as int]@);
            }
            let r: bool = table.proc_list[i].pending_io || table.proc_list[i].state
                == ProcessState::Running;
            table.proc_list[i].pending_io = false;
            proof {
                assert(table@.procs =~= t.procs.update(
                    i as int,
                    ProcView { pending_io: false, ..t.procs[i as int] },
                ));
            }
            r
        },
        None => false,
    }
}

/// The processes once the one that waits for a device was woken from a halt, and whether its wait
/// is over.
pub open spec fn halt_over(t: TableView, pid: u16) -> (TableView, bool) {
    let p = process(t, pid);
    if !known(t.procs, pid) {
        (t, false)
    } else {
        (
            with_process(
                t,
                pid,
                ProcView {
                    pending_io: false,
                    state: if p.state == ProcessState::Runnable {
                        ProcessState::Running
                    } else {
                        p.state
                    },
                    ..p
                },
            ),
            wait_over(p),
        )
    }
}

/// Whether the wait of process `pid` is over, asked after the processor was halted.
pub fn await_io_after_halt(table: &mut ProcessTable, pid: u16) -> (r: bool)
    ensures
        (final(table)@, r) == halt_over(old(table)@, pid),
{
    let ghost t = table@;
    proof {
        lemma_position(t.procs, pid);
    }
    match table.find_process_index(pid) {
        Some(i) => {
            proof {
                assert(t.procs[i as int] == table.proc_list@[i as int]@);
            }
            let ghost p = t.procs[i as int];
            let runnable: bool = table.proc_list[i].state == ProcessState::Runnable;
            let r: bool = table.proc_list[i].pending_io || runnable;
            table.proc_list[i].pending_io = false;
            if runnable {
                table.proc_list[i].state = ProcessState::Running;
            }
            proof {
                let q = ProcView {
                    pending_io: false,
                    state: if p.state == ProcessState::Runnable {
                        ProcessState::Running
                    } else {
                        p.state
                    },
                    ..p
                };
                assert(table@.procs =~= t.procs.update(i as int, q));
            }
            r
        },
        None => false,
    }
}

/// The place of the process that starts another one: that of the process with the
/// processor, or the last one.
pub open spec fn launcher(t: TableView, new: ProcView) -> int {
    let ps = t.procs.push(new);
    if known(ps, t.current) {
        position(ps, t.current)
    } else {
        ps.len() - 2
    }
}

fn park(table: &mut ProcessTable, i: usize, state: ProcessState, frame: u64)
    requires
        i < old(table)@.procs.len(),
    ensures
        final(table)@ == (TableView {
            procs: old(table)@.procs.update(
                i as int,
                ProcView { state, preempt_frame: frame, ..old(table)@.procs[i as int] },
            ),
            ..old(table)@
        }),
{
    let ghost ps = table@.procs;
    proof {
        assert(ps[i as int] == table.proc_list@[i as int]@);
    }
    table.proc_list[i].state = state;
    table.proc_list[i].preempt_frame = frame;
    proof {
        assert(table@.procs =~= ps.update(
            i as int,
            ProcView { state, preempt_frame: frame, ..ps[i as int] },
        ));
    }
}

fn append(table: &mut ProcessTable, p: Process)
    ensures
        final(table)@ == (TableView { procs: old(table)@.procs.push(p@), current: p@.pid }),
{
    let ghost ps = table@.procs;
    table.current = p.pid;
    table.proc_list.push(p);
    proof {
        assert(table@.procs =~= ps.push(p@));
    }
}

/// The processes once a new one was put among them, and whether it has got the processor: where
/// somebody waits for it and the scheduler can be used (`open`), it runs at once.
pub open spec fn joined_by(t: TableView, born: ProcView, open: bool) -> (TableView, bool) {
    let ps = t.procs.push(born);
    let i = launcher(t, born);
    let n = t.procs.len() as int;
    if i == n {
        (TableView { procs: ps, current: born.pid }, false)
    } else if open {
        (
            TableView {
                procs: ps.update(
                    i,
                    ProcView { state: ProcessState::Waiting, preempt_frame: 0, ..ps[i] },
                ).update(n, ProcView { state: ProcessState::Running, ..born }),
                current: born.pid,
            },
            true,
        )
    } else {
        (
            TableView {
                procs: ps.update(
                    i,
                    ProcView { state: ProcessState::Running, preempt_frame: 0, ..ps[i] },
                ),
                current: t.current,
            },
            false,
        )
    }
}

/// Starts a process: it gets the processor, and the one that started it waits until
/// it ends. `frame` is where the registers of the new process lie. Where the scheduler
/// cannot be entered, the process stays in the table and the other one goes on.
pub fn run(table: &mut ProcessTable, p: &mut Preempt, new: Process, frame: u64) -> (r: bool)
    requires
        old(table)@.procs.len() > 0,
        old(table)@.procs.len() < usize::MAX,
        new@.state == ProcessState::Runnable,
    ensures
        (final(table)@, r) == joined_by(
            old(table)@,
            ProcView { preempt_frame: frame, ..new@ },
            old(p).scheduler_open(),
        ),
        *final(p) == if r {
            Preempt { need_resched: false, ..*old(p) }
        } else {
            *old(p)
        },
{
    let ghost t = table@;
    let mut fresh: Process = new;
    fresh.preempt_frame = frame;
    let ghost born = fresh@;
    let current: u16 = table.current;
    append(table, fresh);
    let ghost ps = t.procs.push(born);
    proof {
        lemma_position(ps, current);
    }
    let last: usize = table.proc_list.len() - 1;
    let i: usize = match table.find_process_index(current) {
        Some(i) => i,
        None => last - 1,
    };
    if i == last {
        return false;
    }
    match SchedulerGuard::try_enter(p) {
        Some(guard) => {
            park(table, i, ProcessState::Waiting, 0);
            park(table, last, ProcessState::Running, frame);
            p.need_resched = false;
            guard.release_before_switch(p);
            true
        },
        None => {
            park(table, i, ProcessState::Running, 0);
            table.current = current;
            false
        },
    }
}

/// The clock has ticked: another task is asked for.
pub fn on_timer_tick(p: &mut Preempt)
    ensures
        *final(p) == (Preempt { need_resched: true, ..*old(p) }),
{
    set_need_resched(p);
}

/// Chooses another task, where that was asked for and is possible now.
pub fn maybe_schedule(p: &mut Preempt, table: &mut ProcessTable)
    ensures
        (*final(p), final(table)@) == resched_result(*old(p), old(table)@),
{
    crate::preempt::cond_resched(p, table);
}

/// What a timer interrupt does once its own work is done: a program that it
/// interrupted loses the processor at once, the kernel only where that is permitted.
pub fn timer_preempt_common(p: &mut Preempt, table: &mut ProcessTable, from_user: u64)
    ensures
        if (from_user != 0 || (ENABLE_KERNEL_PREEMPTION && old(p).resched_due() && old(p).held_locks
            == 0 && !old(p).in_section())) && old(p).scheduler_open() {
            &&& final(table)@ == scheduled(old(table)@)
            &&& *final(p) == (Preempt { need_resched: false, ..*old(p) })
        } else {
            final(table)@ == old(table)@ && *final(p) == *old(p)
        },
{
    if from_user != 0 {
        let _ = schedule_now(p, table);
        return ;
    }
    if ENABLE_KERNEL_PREEMPTION {
        if can_preempt_kernel(p) {
            let _ = schedule_now(p, table);
        }
    }
}

/// Waits for a chance to run; each time the processor wakes up, the next task is
/// looked for. Says whether one was found.
pub fn idle_until_runnable(p: &mut Preempt, table: &mut ProcessTable) -> (r: bool)
    ensures
        if old(p).scheduler_open() {
            &&& r == crate::preempt::can_schedule(old(table)@)
            &&& final(table)@ == scheduled(old(table)@)
            &&& *final(p) == (Preempt { need_resched: false, ..*old(p) })
        } else {
            !r && final(table)@ == old(table)@ && *final(p) == *old(p)
        },
{
    schedule_now(p, table)
}

/// A process that waits for a device and is woken finds its wait over, whichever comes
/// first.
pub proof fn lemma_wake_not_lost(p: ProcView)
    requires
        p.state == ProcessState::AwaitingIo || p.state == ProcessState::Running,
    ensures
        wait_over(woken(p)),
{
}

/// Waits of which the deadline has passed, and processes that were woken before, are
/// left alone by an old deadline.
pub proof fn lemma_stale_deadline(p: ProcView, token: u64)
    requires
        p.wait_token != Some(token),
    ensures
        timed_out(p, token) == p,
{
}

} // verus!
