//! When the processor may be taken away: nested sections in which it may not, the
//! request for it, and the time a task may keep it.

use crate::proc::sched::{await_begun, await_io_begin, AwaitStep};
use crate::proc::table::{
    can_switch, ended_by_signal, exited, group_exited, handed_over, known, next_runnable, position,
    Departure, ProcessTable, TableView,
};
use vstd::prelude::*;

verus! {

/// How long a task keeps the processor.
pub const QUANTUM_NS: u64 = 10_000_000;

/// Whether tasks inside the kernel may lose the processor.
pub const ENABLE_KERNEL_PREEMPTION: bool = false;

/// Sections of the kernel that must not be left half done.
#[derive(Debug, Clone, Copy, PartialEq, Eq, Structural)]
pub enum Section {
    Fault,
    Allocator,
    ProcessTable,
    Vfs,
    Pagetable,
}

/// Whether, and why not, the processor may be taken away.
#[derive(Debug, Clone, Copy, PartialEq, Eq, Structural)]
pub struct Preempt {
    pub preempt_count: usize,
    pub irq_depth: usize,
    pub in_scheduler: bool,
    pub irq_disable_depth: usize,
    pub need_resched: bool,
    pub quantum_deadline: u64,
    pub held_locks: usize,
    pub fault: usize,
    pub allocator: usize,
    pub process_table: usize,
    pub vfs: usize,
    pub pagetable: usize,
}

/// One more; after the largest number comes 0.
pub open spec fn bumped(n: usize) -> usize {
    if n == usize::MAX {
        0
    } else {
        (n + 1) as usize
    }
}

/// One less, but not below 0.
pub open spec fn lowered(n: usize) -> usize {
    if n == 0 {
        0
    } else {
        (n - 1) as usize
    }
}

fn bump(n: usize) -> (r: usize)
    ensures
        r == bumped(n),
{
    if n == usize::MAX {
        0
    } else {
        n + 1
    }
}

/// Lowers a counter, and hands out its new value; a counter at 0 stays there.
pub fn decrement(counter: &mut usize) -> (r: Option<usize>)
    ensures
        *final(counter) == lowered(*old(counter)),
        r == if *old(counter) == 0 {
            None::<usize>
        } else {
            Some(*final(counter))
        },
{
    if *counter == 0 {
        return None;
    }
    *counter = *counter - 1;
    Some(*counter)
}

impl Preempt {
    pub fn new() -> (r: Self)
        ensures
            r == (Preempt {
                preempt_count: 0,
                irq_depth: 0,
                in_scheduler: false,
                irq_disable_depth: 0,
                need_resched: false,
                quantum_deadline: 0,
                held_locks: 0,
                fault: 0,
                allocator: 0,
                process_table: 0,
                vfs: 0,
                pagetable: 0,
            }),
    {
        Preempt {
            preempt_count: 0,
            irq_depth: 0,
            in_scheduler: false,
            irq_disable_depth: 0,
            need_resched: false,
            quantum_deadline: 0,
            held_locks: 0,
            fault: 0,
            allocator: 0,
            process_table: 0,
            vfs: 0,
            pagetable: 0,
        }
    }

    /// How often section `s` was entered and not left.
    pub open spec fn depth(self, s: Section) -> usize {
        match s {
            Section::Fault => self.fault,
            Section::Allocator => self.allocator,
            Section::ProcessTable => self.process_table,
            Section::Vfs => self.vfs,
            Section::Pagetable => self.pagetable,
        }
    }

    pub open spec fn with_depth(self, s: Section, n: usize) -> Preempt {
        match s {
            Section::Fault => Preempt { fault: n, ..self },
            Section::Allocator => Preempt { allocator: n, ..self },
            Section::ProcessTable => Preempt { process_table: n, ..self },
            Section::Vfs => Preempt { vfs: n, ..self },
            Section::Pagetable => Preempt { pagetable: n, ..self },
        }
    }

    /// Whether the task runs inside a section that must not be left half done.
    pub open spec fn in_section(self) -> bool {
        self.fault != 0 || self.allocator != 0 || self.process_table != 0 || self.vfs != 0
            || self.pagetable != 0
    }

    /// Whether another task may be chosen now.
    pub open spec fn resched_due(self) -> bool {
        self.need_resched && self.preempt_count == 0 && self.irq_depth == 0 && !self.in_scheduler
    }

    /// Whether the scheduler can be entered.
    pub open spec fn scheduler_open(self) -> bool {
        !self.in_scheduler && self.preempt_count == 0
    }
}

pub fn preempt_disable(p: &mut Preempt)
    ensures
        *final(p) == (Preempt { preempt_count: bumped(old(p).preempt_count), ..*old(p) }),
{
    p.preempt_count = bump(p.preempt_count);
}

/// Ends a section in which the processor may not be taken away. The outermost one
/// gives it up at once, where that was asked for.
pub fn preempt_enable(p: &mut Preempt, table: &mut ProcessTable)
    ensures
        ({
            let q = Preempt { preempt_count: lowered(old(p).preempt_count), ..*old(p) };
            if old(p).preempt_count == 1 {
                (*final(p), final(table)@) == resched_result(q, old(table)@)
            } else {
                *final(p) == q && final(table)@ == old(table)@
            }
        }),
{
    let mut n: usize = p.preempt_count;
    let left: Option<usize> = decrement(&mut n);
    p.preempt_count = n;
    match left {
        Some(k) => {
            if k == 0 {
                cond_resched(p, table);
            }
        },
        None => {},
    }
}

pub fn preempt_enable_no_resched(p: &mut Preempt)
    ensures
        *final(p) == (Preempt { preempt_count: lowered(old(p).preempt_count), ..*old(p) }),
{
    let mut n: usize = p.preempt_count;
    let _ = decrement(&mut n);
    p.preempt_count = n;
}

pub fn preempt_count(p: &Preempt) -> (r: usize)
    ensures
        r == p.preempt_count,
{
    p.preempt_count
}

/// A section in which the processor may not be taken away.
pub struct PreemptGuard {
    pub active: bool,
    pub resched_on_drop: bool,
}

impl PreemptGuard {
    pub fn new(p: &mut Preempt) -> (r: Self)
        ensures
            r.active && r.resched_on_drop,
            *final(p) == (Preempt { preempt_count: bumped(old(p).preempt_count), ..*old(p) }),
    {
        preempt_disable(p);
        PreemptGuard { active: true, resched_on_drop: true }
    }

    pub fn new_no_resched(p: &mut Preempt) -> (r: Self)
        ensures
            r.active && !r.resched_on_drop,
            *final(p) == (Preempt { preempt_count: bumped(old(p).preempt_count), ..*old(p) }),
    {
        preempt_disable(p);
        PreemptGuard { active: true, resched_on_drop: false }
    }

    /// Ends the section.
    pub fn release(self, p: &mut Preempt, table: &mut ProcessTable)
        ensures
            ({
                let q = Preempt { preempt_count: lowered(old(p).preempt_count), ..*old(p) };
                if self.active && self.resched_on_drop && old(p).preempt_count == 1 {
                    (*final(p), final(table)@) == resched_result(q, old(table)@)
                } else if self.active {
                    *final(p) == q && final(table)@ == old(table)@
                } else {
                    *final(p) == *old(p) && final(table)@ == old(table)@
                }
            }),
    {
        if self.active {
            if self.resched_on_drop {
                preempt_enable(p, table);
            } else {
                preempt_enable_no_resched(p);
            }
        }
    }
}

pub fn irq_enter(p: &mut Preempt)
    ensures
        *final(p) == (Preempt { irq_depth: bumped(old(p).irq_depth), ..*old(p) }),
{
    p.irq_depth = bump(p.irq_depth);
}

pub fn irq_exit(p: &mut Preempt)
    ensures
        *final(p) == (Preempt { irq_depth: lowered(old(p).irq_depth), ..*old(p) }),
{
    let mut n: usize = p.irq_depth;
    let _ = decrement(&mut n);
    p.irq_depth = n;
}

pub fn irq_depth(p: &Preempt) -> (r: usize)
    ensures
        r == p.irq_depth,
{
    p.irq_depth
}

/// Counts a section in which interrupts are off; `enabled` says whether they were on
/// before, and is handed back for `irq_restore`.
pub fn irq_save(p: &mut Preempt, enabled: bool) -> (r: bool)
    ensures
        r == enabled,
        *final(p) == (Preempt { irq_disable_depth: bumped(old(p).irq_disable_depth), ..*old(p) }),
{
    p.irq_disable_depth = bump(p.irq_disable_depth);
    enabled
}

/// Ends such a section, and says whether interrupts are to be switched on again.
pub fn irq_restore(p: &mut Preempt, was_enabled: bool) -> (r: bool)
    ensures
        r == (old(p).irq_disable_depth == 1 && was_enabled),
        *final(p) == (Preempt { irq_disable_depth: lowered(old(p).irq_disable_depth), ..*old(p) }),
{
    let mut n: usize = p.irq_disable_depth;
    let left: Option<usize> = decrement(&mut n);
    p.irq_disable_depth = n;
    match left {
        Some(k) => k == 0 && was_enabled,
        None => false,
    }
}

pub fn set_need_resched(p: &mut Preempt)
    ensures
        *final(p) == (Preempt { need_resched: true, ..*old(p) }),
{
    p.need_resched = true;
}

pub fn clear_need_resched(p: &mut Preempt)
    ensures
        *final(p) == (Preempt { need_resched: false, ..*old(p) }),
{
    p.need_resched = false;
}

pub fn need_resched(p: &Preempt) -> (r: bool)
    ensures
        r == p.need_resched,
{
    p.need_resched
}

/// When the task is to lose the processor; 0 stands for never.
pub fn quantum_deadline_ns(p: &Preempt) -> (r: Option<u64>)
    ensures
        r == if p.quantum_deadline != 0 {
            Some(p.quantum_deadline)
        } else {
            None::<u64>
        },
{
    if p.quantum_deadline != 0 {
        Some(p.quantum_deadline)
    } else {
        None
    }
}

/// The end of a quantum that starts at `now`.
pub open spec fn quantum_end(now: u64) -> u64 {
    if now + QUANTUM_NS > u64::MAX {
        u64::MAX
    } else {
        (now + QUANTUM_NS) as u64
    }
}

pub fn reset_quantum(p: &mut Preempt, now_ns: u64)
    ensures
        *final(p) == (Preempt { quantum_deadline: quantum_end(now_ns), ..*old(p) }),
{
    p.quantum_deadline =
    if now_ns > u64::MAX - QUANTUM_NS {
        u64::MAX
    } else {
        now_ns + QUANTUM_NS
    };
}

pub fn clear_quantum(p: &mut Preempt)
    ensures
        *final(p) == (Preempt { quantum_deadline: 0, ..*old(p) }),
{
    p.quantum_deadline = 0;
}

/// What the clock does to a quantum: at its end another task is asked for, once.
pub open spec fn accounted(p: Preempt, now: u64) -> Preempt {
    if p.quantum_deadline != 0 && now >= p.quantum_deadline {
        Preempt { need_resched: true, quantum_deadline: 0, ..p }
    } else {
        p
    }
}

pub fn account_quantum(p: &mut Preempt, now_ns: u64)
    ensures
        *final(p) == accounted(*old(p), now_ns),
{
    if p.quantum_deadline != 0 && now_ns >= p.quantum_deadline {
        set_need_resched(p);
        p.quantum_deadline = 0;
    }
}

pub fn in_scheduler(p: &Preempt) -> (r: bool)
    ensures
        r == p.in_scheduler,
{
    p.in_scheduler
}

pub fn lock_count_inc(p: &mut Preempt)
    ensures
        *final(p) == (Preempt { held_locks: bumped(old(p).held_locks), ..*old(p) }),
{
    p.held_locks = bump(p.held_locks);
}

pub fn lock_count_dec(p: &mut Preempt)
    ensures
        *final(p) == (Preempt { held_locks: lowered(old(p).held_locks), ..*old(p) }),
{
    let mut n: usize = p.held_locks;
    let _ = decrement(&mut n);
    p.held_locks = n;
}

pub fn held_lock_count(p: &Preempt) -> (r: usize)
    ensures
        r == p.held_locks,
{
    p.held_locks
}

pub fn locks_held(p: &Preempt) -> (r: bool)
    ensures
        r == (p.held_locks != 0),
{
    held_lock_count(p) != 0
}

/// A section that must not be left half done.
pub struct ContextGuard {
    pub section: Section,
    pub active: bool,
}

impl ContextGuard {
    pub fn enter(p: &mut Preempt, section: Section) -> (r: Self)
        ensures
            r.section == section && r.active,
            *final(p) == old(p).with_depth(section, bumped(old(p).depth(section))),
    {
        match section {
            Section::Fault => {
                p.fault = bump(p.fault);
            },
            Section::Allocator => {
                p.allocator = bump(p.allocator);
            },
            Section::ProcessTable => {
                p.process_table = bump(p.process_table);
            },
            Section::Vfs => {
                p.vfs = bump(p.vfs);
            },
            Section::Pagetable => {
                p.pagetable = bump(p.pagetable);
            },
        }
        ContextGuard { section, active: true }
    }

    /// Leaves the section.
    pub fn leave(self, p: &mut Preempt)
        ensures
            *final(p) == if self.active {
                old(p).with_depth(self.section, lowered(old(p).depth(self.section)))
            } else {
                *old(p)
            },
    {
        if !self.active {
            return ;
        }
        let mut n: usize = match self.section {
            Section::Fault => p.fault,
            Section::Allocator => p.allocator,
            Section::ProcessTable => p.process_table,
            Section::Vfs => p.vfs,
            Section::Pagetable => p.pagetable,
        };
        let _ = decrement(&mut n);
        match self.section {
            Section::Fault => {
                p.fault = n;
            },
            Section::Allocator => {
                p.allocator = n;
            },
            Section::ProcessTable => {
                p.process_table = n;
            },
            Section::Vfs => {
                p.vfs = n;
            },
            Section::Pagetable => {
                p.pagetable = n;
            },
        }
    }
}

pub fn enter_fault_context(p: &mut Preempt) -> (r: ContextGuard)
    ensures
        r.section == Section::Fault && r.active,
        *final(p) == (Preempt { fault: bumped(old(p).fault), ..*old(p) }),
{
    ContextGuard::enter(p, Section::Fault)
}

pub fn enter_allocator_context(p: &mut Preempt) -> (r: ContextGuard)
    ensures
        r.section == Section::Allocator && r.active,
        *final(p) == (Preempt { allocator: bumped(old(p).allocator), ..*old(p) }),
{
    ContextGuard::enter(p, Section::Allocator)
}

pub fn enter_process_table_context(p: &mut Preempt) -> (r: ContextGuard)
    ensures
        r.section == Section::ProcessTable && r.active,
        *final(p) == (Preempt { process_table: bumped(old(p).process_table), ..*old(p) }),
{
    ContextGuard::enter(p, Section::ProcessTable)
}

pub fn enter_vfs_context(p: &mut Preempt) -> (r: ContextGuard)
    ensures
        r.section == Section::Vfs && r.active,
        *final(p) == (Preempt { vfs: bumped(old(p).vfs), ..*old(p) }),
{
    ContextGuard::enter(p, Section::Vfs)
}

pub fn enter_pagetable_context(p: &mut Preempt) -> (r: ContextGuard)
    ensures
        r.section == Section::Pagetable && r.active,
        *final(p) == (Preempt { pagetable: bumped(old(p).pagetable), ..*old(p) }),
{
    ContextGuard::enter(p, Section::Pagetable)
}

pub fn in_fault_context(p: &Preempt) -> (r: bool)
    ensures
        r == (p.fault != 0),
{
    p.fault != 0
}

pub fn in_allocator_context(p: &Preempt) -> (r: bool)
    ensures
        r == (p.allocator != 0),
{
    p.allocator != 0
}

pub fn in_process_table_context(p: &Preempt) -> (r: bool)
    ensures
        r == (p.process_table != 0),
{
    p.process_table != 0
}

pub fn in_vfs_context(p: &Preempt) -> (r: bool)
    ensures
        r == (p.vfs != 0),
{
    p.vfs != 0
}

pub fn in_pagetable_context(p: &Preempt) -> (r: bool)
    ensures
        r == (p.pagetable != 0),
{
    p.pagetable != 0
}

/// Whether a task inside the kernel may lose the processor where that is permitted
/// at all: it was asked for, and nothing is half done.
pub fn kernel_preemptible(p: &Preempt) -> (r: bool)
    ensures
        r == (p.resched_due() && p.held_locks == 0 && !p.in_section()),
{
    if !need_resched(p) {
        return false;
    }
    if preempt_count(p) != 0 {
        return false;
    }
    if irq_depth(p) != 0 {
        return false;
    }
    if in_scheduler(p) {
        return false;
    }
    if locks_held(p) {
        return false;
    }
    if in_fault_context(p) {
        return false;
    }
    if in_allocator_context(p) {
        return false;
    }
    if in_process_table_context(p) {
        return false;
    }
    if in_vfs_context(p) {
        return false;
    }
    !in_pagetable_context(p)
}

/// Whether a task inside the kernel may lose the processor.
pub fn can_preempt_kernel(p: &Preempt) -> (r: bool)
    ensures
        r == (ENABLE_KERNEL_PREEMPTION && p.resched_due() && p.held_locks == 0 && !p.in_section()),
{
    if !ENABLE_KERNEL_PREEMPTION {
        return false;
    }
    kernel_preemptible(p)
}

/// What is unsafe about choosing another task.
#[derive(Debug, Clone, Copy, PartialEq, Eq, Structural)]
pub enum Hazard {
    Interrupt,
    Locks,
    Inside(Section),
}

pub open spec fn hazard_if(c: bool, h: Hazard) -> Seq<Hazard> {
    if c {
        seq![h]
    } else {
        Seq::<Hazard>::empty()
    }
}

pub open spec fn hazards(p: Preempt) -> Seq<Hazard> {
    hazard_if(p.irq_depth != 0, Hazard::Interrupt) + hazard_if(p.held_locks != 0, Hazard::Locks)
        + hazard_if(p.fault != 0, Hazard::Inside(Section::Fault)) + hazard_if(
        p.allocator != 0,
        Hazard::Inside(Section::Allocator),
    ) + hazard_if(p.process_table != 0, Hazard::Inside(Section::ProcessTable)) + hazard_if(
        p.vfs != 0,
        Hazard::Inside(Section::Vfs),
    ) + hazard_if(p.pagetable != 0, Hazard::Inside(Section::Pagetable))
}

fn note_if(v: &mut Vec<Hazard>, c: bool, h: Hazard)
    ensures
        final(v)@ == old(v)@ + hazard_if(c, h),
{
    let ghost before = v@;
    if c {
        v.push(h);
    }
    proof {
        assert(v@ =~= before + hazard_if(c, h));
    }
}

/// All that is unsafe about choosing another task now.
pub fn warn_if_schedule_unsafe(p: &Preempt) -> (r: Vec<Hazard>)
    ensures
        r@ == hazards(*p),
{
    let mut v: Vec<Hazard> = Vec::new();
    note_if(&mut v, irq_depth(p) != 0, Hazard::Interrupt);
    proof {
        assert(v@ =~= hazard_if(p.irq_depth != 0, Hazard::Interrupt));
    }
    note_if(&mut v, locks_held(p), Hazard::Locks);
    note_if(&mut v, in_fault_context(p), Hazard::Inside(Section::Fault));
    note_if(&mut v, in_allocator_context(p), Hazard::Inside(Section::Allocator));
    note_if(&mut v, in_process_table_context(p), Hazard::Inside(Section::ProcessTable));
    note_if(&mut v, in_vfs_context(p), Hazard::Inside(Section::Vfs));
    note_if(&mut v, in_pagetable_context(p), Hazard::Inside(Section::Pagetable));
    v
}

/// Whether another task may be chosen now.
pub fn can_resched_now(p: &Preempt) -> (r: bool)
    ensures
        r == p.resched_due(),
{
    need_resched(p) && preempt_count(p) == 0 && irq_depth(p) == 0 && !in_scheduler(p)
}

/// The scheduler, while a task is being chosen.
pub struct SchedulerGuard {
    pub active: bool,
}

impl SchedulerGuard {
    /// Enters the scheduler, where it is not entered already and the processor may be
    /// taken away.
    pub fn try_enter(p: &mut Preempt) -> (r: Option<Self>)
        ensures
            match r {
                Some(g) => g.active && old(p).scheduler_open() && *final(p) == (Preempt {
                    preempt_count: 1,
                    in_scheduler: true,
                    ..*old(p)
                }),
                None => !old(p).scheduler_open() && *final(p) == *old(p),
            },
    {
        if in_scheduler(p) {
            return None;
        }
        if preempt_count(p) != 0 {
            return None;
        }
        preempt_disable(p);
        p.in_scheduler = true;
        Some(SchedulerGuard { active: true })
    }

    /// Leaves the scheduler.
    pub fn release_before_switch(self, p: &mut Preempt)
        ensures
            *final(p) == if self.active {
                Preempt {
                    preempt_count: lowered(old(p).preempt_count),
                    in_scheduler: false,
                    ..*old(p)
                }
            } else {
                *old(p)
            },
    {
        if self.active {
            p.in_scheduler = false;
            preempt_enable_no_resched(p);
        }
    }
}

/// The table after the next task in turn got the processor.
pub open spec fn scheduled(t: TableView) -> TableView {
    if known(t.procs, t.current) {
        let i = position(t.procs, t.current);
        handed_over(t, i, next_runnable(t.procs, i))
    } else {
        t
    }
}

/// Whether there is a next task that can get the processor.
pub open spec fn can_schedule(t: TableView) -> bool {
    let i = position(t.procs, t.current);
    let next = next_runnable(t.procs, i);
    known(t.procs, t.current) && next is Some && can_switch(t.procs, i, next->0)
}

/// Chooses the next task, and says whether there was one. The request is met even
/// where there was none.
pub fn schedule_now(p: &mut Preempt, table: &mut ProcessTable) -> (r: bool)
    ensures
        if old(p).scheduler_open() {
            &&& r == can_schedule(old(table)@)
            &&& final(table)@ == scheduled(old(table)@)
            &&& *final(p) == (Preempt { need_resched: false, ..*old(p) })
        } else {
            !r && final(table)@ == old(table)@ && *final(p) == *old(p)
        },
{
    let guard: SchedulerGuard = match SchedulerGuard::try_enter(p) {
        Some(g) => g,
        None => return false,
    };
    clear_need_resched(p);
    let r: bool = table.schedule_now();
    guard.release_before_switch(p);
    r
}

/// Ends the process that has the processor, under the guard of the scheduler. None where the scheduler cannot be entered.
pub fn exit(p: &mut Preempt, table: &mut ProcessTable, code: i32) -> (r: Option<Departure>)
    ensures
        *final(p) == *old(p),
        match r {
            Some(d) => old(p).scheduler_open() && exited(old(table)@, final(table)@, code, d),
            None => !old(p).scheduler_open() && final(table)@ == old(table)@,
        },
{
    let guard: SchedulerGuard = match SchedulerGuard::try_enter(p) {
        Some(g) => g,
        None => return None,
    };
    let d: Departure = table.exit(code);
    guard.release_before_switch(p);
    Some(d)
}

/// Ends the group of the process that has the processor, under the guard of the scheduler. None where the scheduler cannot be entered.
pub fn exit_group(p: &mut Preempt, table: &mut ProcessTable, code: i32) -> (r: Option<Departure>)
    ensures
        *final(p) == *old(p),
        match r {
            Some(d) => old(p).scheduler_open() && group_exited(old(table)@, final(table)@, code, d),
            None => !old(p).scheduler_open() && final(table)@ == old(table)@,
        },
{
    let guard: SchedulerGuard = match SchedulerGuard::try_enter(p) {
        Some(g) => g,
        None => return None,
    };
    let d: Departure = table.exit_group(code);
    guard.release_before_switch(p);
    Some(d)
}

/// Ends the process that has the processor by a signal, under the guard of the scheduler. None where the scheduler cannot be entered.
pub fn terminate_current_by_signal(p: &mut Preempt, table: &mut ProcessTable, sig: i32) -> (r: Option<Departure>)
    requires
        sig <= i32::MAX - 128,
    ensures
        *final(p) == *old(p),
        match r {
            Some(d) => old(p).scheduler_open() && ended_by_signal(old(table)@, final(table)@, sig, d),
            None => !old(p).scheduler_open() && final(table)@ == old(table)@,
        },
{
    let guard: SchedulerGuard = match SchedulerGuard::try_enter(p) {
        Some(g) => g,
        None => return None,
    };
    let d: Departure = table.terminate_current_by_signal(sig);
    guard.release_before_switch(p);
    Some(d)
}

/// Starts to wait for a device, or goes on waiting, under the guard of the scheduler. None where the scheduler cannot be entered.
pub fn await_io(p: &mut Preempt, table: &mut ProcessTable, pid: u16) -> (r: Option<AwaitStep>)
    ensures
        *final(p) == *old(p),
        match r {
            Some(d) => old(p).scheduler_open() && await_begun(old(table)@, final(table)@, pid, d),
            None => !old(p).scheduler_open() && final(table)@ == old(table)@,
        },
{
    let guard: SchedulerGuard = match SchedulerGuard::try_enter(p) {
        Some(g) => g,
        None => return None,
    };
    let d: AwaitStep = await_io_begin(table, pid);
    guard.release_before_switch(p);
    Some(d)
}

/// What comes of a point at which another task may be chosen.
pub open spec fn resched_result(p: Preempt, t: TableView) -> (Preempt, TableView) {
    if p.resched_due() {
        (Preempt { need_resched: false, ..p }, scheduled(t))
    } else {
        (p, t)
    }
}

/// Chooses another task, where that was asked for and is possible now.
pub fn cond_resched(p: &mut Preempt, table: &mut ProcessTable)
    ensures
        (*final(p), final(table)@) == resched_result(*old(p), old(table)@),
{
    if preempt_count(p) != 0 {
        return ;
    }
    if can_resched_now(p) {
        let _ = schedule_now(p, table);
    }
}

/// Ending a section undoes its start, where no other task was asked for.
pub proof fn lemma_disable_enable(p: Preempt)
    requires
        p.preempt_count < usize::MAX,
    ensures
        lowered(bumped(p.preempt_count)) == p.preempt_count,
        !(Preempt { preempt_count: bumped(p.preempt_count), ..p }).resched_due(),
{
}

/// Leaving a section undoes entering it.
pub proof fn lemma_enter_leave(p: Preempt, s: Section)
    requires
        p.depth(s) < usize::MAX,
    ensures
        ({
            let q = p.with_depth(s, bumped(p.depth(s)));
            &&& q.in_section()
            &&& q.with_depth(s, lowered(q.depth(s))) == p
        }),
{
}

/// A quantum ends after its length and not before, and its end is noticed once.
pub proof fn lemma_quantum(p: Preempt, start: u64, now: u64)
    requires
        start + QUANTUM_NS <= u64::MAX,
    ensures
        ({
            let armed = Preempt { quantum_deadline: quantum_end(start), need_resched: false, ..p };
            let seen = accounted(armed, now);
            &&& seen.need_resched == (now >= start + QUANTUM_NS)
            &&& now >= start + QUANTUM_NS ==> seen.quantum_deadline == 0
            &&& now < start + QUANTUM_NS ==> seen == armed
            &&& accounted(seen, now) == seen
        }),
{
}

} // verus!
