//! Sending signals, and running their handlers.

use crate::bytes::{le_value, push_repeat, read_u64, to_vec};
use crate::errno::{fail, failed, EINTR, EINVAL, ESRCH};
use crate::proc::process::{signalled, unblocked, ProcView, Process, ProcessState};
use crate::proc::regs::{InterruptStack, IretRegisters, PreservedRegisters, ScratchRegisters};
use crate::proc::sched::{process, with_process};
use crate::proc::signals::{
    bit_of, has_signal, lemma_taken, no_alt_stack, signal_bit, SignalAction, SignalAltStack, SignalSet,
    SIGCHLD, SIGCONT, SIGKILL, SIGPIPE, SIGSTOP,
};
use crate::proc::table::{child_signalled, known, lemma_position, position, ProcessTable, TableView};
use vstd::prelude::*;

verus! {

pub const SIG_IGN: u64 = 1;

pub const SA_NODEFER: u64 = 0x4000_0000;

pub const SS_DISABLE: i32 = 2;

/// Marks a frame that was laid down for a handler.
pub const SIGNAL_FRAME_MAGIC: u64 = 0x5457_5349_4746_524d;

/// Bytes of such a frame.
pub const SIGNAL_FRAME_SIZE: u64 = 168;

/// The flags of the processor that have a meaning.
pub const KNOWN_RFLAGS: u64 = 0x3F_7FD5;

pub open spec fn valid_number(sig: i32) -> bool {
    0 <= sig <= 64
}

pub fn valid_signal(sig: i32) -> (r: bool)
    ensures
        r == valid_number(sig),
{
    0 <= sig && sig <= 64
}

/// Signals that end a process that does nothing about them.
pub open spec fn fatal(sig: int) -> bool {
    sig == 1 || sig == 2 || sig == 3 || sig == 9 || sig == 13 || sig == 14 || sig == 15
}

/// Signals that stop a process that does nothing about them.
pub open spec fn stopping(sig: int) -> bool {
    sig == 19 || sig == 20 || sig == 21 || sig == 22
}

pub fn is_fatal_default(sig: usize) -> (r: bool)
    ensures
        r == fatal(sig as int),
{
    sig == 1 || sig == 2 || sig == 3 || sig == SIGKILL || sig == SIGPIPE || sig == 14 || sig == 15
}

pub fn is_stop_default(sig: usize) -> (r: bool)
    ensures
        r == stopping(sig as int),
{
    sig == SIGSTOP || sig == 20 || sig == 21 || sig == 22
}

/// A set of signals without those that can be neither held back nor caught.
pub open spec fn maskable(word: u64) -> u64 {
    (word & !bit_of(9)) & !bit_of(19)
}

fn without_unmaskable(word: u64) -> (r: u64)
    ensures
        r == maskable(word),
{
    (word & !signal_bit(SIGKILL)) & !signal_bit(SIGSTOP)
}

/// What a program passes as the action of a signal.
#[derive(Debug, Clone, Copy, PartialEq, Eq, Structural)]
pub struct LinuxSigAction {
    pub handler: u64,
    pub flags: u64,
    pub restorer: u64,
    pub mask: u64,
}

pub open spec fn user_action(a: SignalAction) -> LinuxSigAction {
    LinuxSigAction { handler: a.handler, flags: a.flags, restorer: a.restorer, mask: a.mask.low }
}

pub open spec fn kernel_action(a: LinuxSigAction) -> SignalAction {
    SignalAction {
        handler: a.handler,
        mask: SignalSet { low: maskable(a.mask), high: 0 },
        flags: a.flags,
        restorer: a.restorer,
    }
}

pub fn linux_sigaction_from(action: SignalAction) -> (r: LinuxSigAction)
    ensures
        r == user_action(action),
{
    LinuxSigAction {
        handler: action.handler,
        flags: action.flags,
        restorer: action.restorer,
        mask: action.mask.low,
    }
}

pub fn signal_action_from(action: LinuxSigAction) -> (r: SignalAction)
    ensures
        r == kernel_action(action),
{
    SignalAction {
        handler: action.handler,
        mask: SignalSet { low: without_unmaskable(action.mask), high: 0 },
        flags: action.flags,
        restorer: action.restorer,
    }
}

/// What a program passes as the stack of its handlers.
#[derive(Debug, Clone, Copy, PartialEq, Eq, Structural)]
pub struct LinuxSigAltStack {
    pub ss_sp: u64,
    pub ss_flags: i32,
    pub ss_size: u64,
}

pub open spec fn kernel_alt_stack(s: LinuxSigAltStack) -> SignalAltStack {
    if s.ss_flags & SS_DISABLE != 0 {
        no_alt_stack()
    } else {
        SignalAltStack { sp: s.ss_sp, flags: 0, size: s.ss_size }
    }
}

pub fn linux_sigaltstack_from(stack: SignalAltStack) -> (r: LinuxSigAltStack)
    ensures
        r == (LinuxSigAltStack { ss_sp: stack.sp, ss_flags: stack.flags, ss_size: stack.size }),
{
    LinuxSigAltStack { ss_sp: stack.sp, ss_flags: stack.flags, ss_size: stack.size }
}

pub fn signal_altstack_from(stack: LinuxSigAltStack) -> (r: SignalAltStack)
    ensures
        r == kernel_alt_stack(stack),
{
    if stack.ss_flags & SS_DISABLE != 0 {
        SignalAltStack::default()
    } else {
        SignalAltStack { sp: stack.ss_sp, flags: 0, size: stack.ss_size }
    }
}

/// Sets the stack of the handlers, where one is given, and hands out the one from
/// before.
pub fn sigaltstack(p: &mut Process, new_stack: Option<LinuxSigAltStack>) -> (r: (i64, LinuxSigAltStack))
    ensures
        r.1 == (LinuxSigAltStack {
            ss_sp: old(p)@.signal_alt_stack.sp,
            ss_flags: old(p)@.signal_alt_stack.flags,
            ss_size: old(p)@.signal_alt_stack.size,
        }),
        match new_stack {
            None => r.0 == 0 && final(p)@ == old(p)@,
            Some(s) => if s.ss_flags & !SS_DISABLE != 0 {
                r.0 == failed(EINVAL) && final(p)@ == old(p)@
            } else {
                r.0 == 0 && final(p)@ == (ProcView {
                    signal_alt_stack: kernel_alt_stack(s),
                    ..old(p)@
                })
            },
        },
{
    let before: LinuxSigAltStack = linux_sigaltstack_from(p.signal_alt_stack);
    match new_stack {
        None => {},
        Some(s) => {
            if s.ss_flags & !SS_DISABLE != 0 {
                return (fail(EINVAL), before);
            }
            p.signal_alt_stack = signal_altstack_from(s);
        },
    }
    (0, before)
}

/// Whether the action of a signal can be set.
pub open spec fn settable(signum: i32) -> bool {
    1 <= signum <= 64 && signum != 9 && signum != 19
}

/// Sets the action of a signal, where one is given, and hands out the one from before.
pub fn rt_sigaction(p: &mut Process, signum: i32, act: Option<LinuxSigAction>) -> (r: Result<
    LinuxSigAction,
    i64,
>)
    requires
        old(p)@.signal_actions.len() == 65,
    ensures
        if !settable(signum) {
            r == Err::<LinuxSigAction, i64>(failed(EINVAL)) && final(p)@ == old(p)@
        } else {
            &&& r == Ok::<LinuxSigAction, i64>(user_action(old(p)@.signal_actions[signum as int]))
            &&& final(p)@ == match act {
                Some(a) => ProcView {
                    signal_actions: old(p)@.signal_actions.update(signum as int, kernel_action(a)),
                    ..old(p)@
                },
                None => old(p)@,
            }
        },
{
    if signum < 1 || signum > 64 || signum == 9 || signum == 19 {
        return Err(fail(EINVAL));
    }
    let i: usize = signum as usize;
    let before: LinuxSigAction = linux_sigaction_from(p.signal_actions[i]);
    match act {
        Some(a) => {
            p.signal_actions.set(i, signal_action_from(a));
        },
        None => {},
    }
    Ok(before)
}

/// Bytes filled up with zeros to sixteen.
pub open spec fn padded(bytes: Seq<u8>) -> Seq<u8> {
    bytes + Seq::new((16 - bytes.len()) as nat, |i: int| 0u8)
}

/// The set of signals that a program passes, in as many bytes as it likes.
pub fn mask_from(bytes: &[u8]) -> (r: SignalSet)
    requires
        bytes@.len() <= 16,
    ensures
        r.low == le_value(padded(bytes@).subrange(0, 8)),
        r.high == le_value(padded(bytes@).subrange(8, 16)),
{
    let mut v: Vec<u8> = to_vec(bytes);
    let n: usize = bytes.len();
    push_repeat(&mut v, 0, 16 - n);
    proof {
        assert(v@ =~= padded(bytes@));
    }
    SignalSet { low: read_u64(&v, 0), high: read_u64(&v, 8) }
}

/// The signals held back after `how` was done with the set `m`.
pub open spec fn masked_set(s: SignalSet, how: i32, m: SignalSet) -> Option<SignalSet> {
    let low = maskable(m.low);
    if how == 0 {
        Some(SignalSet { low: s.low | low, high: s.high })
    } else if how == 1 {
        Some(SignalSet { low: s.low & !low, high: s.high })
    } else if how == 2 {
        Some(SignalSet { low, high: m.high })
    } else {
        None
    }
}

/// Changes the signals that a process holds back, where a set is given, and hands out
/// those from before.
pub fn rt_sigprocmask(p: &mut Process, how: i32, set: Option<SignalSet>) -> (r: (i64, SignalSet))
    ensures
        r.1 == old(p)@.signal_mask,
        match set {
            None => r.0 == 0 && final(p)@ == old(p)@,
            Some(m) => match masked_set(old(p)@.signal_mask, how, m) {
                Some(s) => r.0 == 0 && final(p)@ == (ProcView { signal_mask: s, ..old(p)@ }),
                None => r.0 == failed(EINVAL) && final(p)@ == old(p)@,
            },
        },
{
    let before: SignalSet = p.signal_mask;
    match set {
        None => {},
        Some(m) => {
            let low: u64 = without_unmaskable(m.low);
            if how == 0 {
                p.signal_mask = SignalSet { low: before.low | low, high: before.high };
            } else if how == 1 {
                p.signal_mask = SignalSet { low: before.low & !low, high: before.high };
            } else if how == 2 {
                p.signal_mask = SignalSet { low, high: m.high };
            } else {
                return (fail(EINVAL), before);
            }
        },
    }
    (0, before)
}

/// A process that waits for a signal with the mask `m`.
pub open spec fn suspended(p: ProcView, m: SignalSet) -> ProcView {
    let q = ProcView {
        sigsuspend_saved_mask: p.signal_mask,
        signal_mask: SignalSet { low: maskable(m.low), high: m.high },
        in_sigsuspend: true,
        ..p
    };
    if unblocked(q) != 0 {
        q
    } else {
        ProcView { state: ProcessState::SignalWait, ..q }
    }
}

/// Waits for a signal with the mask `m`; the result says whether the processor is to be
/// given up.
pub fn rt_sigsuspend(p: &mut Process, m: SignalSet) -> (r: (i64, bool))
    ensures
        r.0 == failed(EINTR),
        final(p)@ == suspended(old(p)@, m),
        r.1 == (final(p)@.pending_signals & !final(p)@.signal_mask.low == 0),
{
    p.sigsuspend_saved_mask = p.signal_mask;
    p.signal_mask = SignalSet { low: without_unmaskable(m.low), high: m.high };
    p.in_sigsuspend = true;
    if !p.has_unblocked_signal() {
        p.state = ProcessState::SignalWait;
        return (fail(EINTR), true);
    }
    (fail(EINTR), false)
}

/// What signal `sig` does to a process; the second part is whom it concerns besides.
pub open spec fn applied(p: ProcView, sig: int) -> (ProcView, Option<u16>) {
    let action = p.signal_actions[sig];
    if sig == 0 {
        (p, None)
    } else if sig == 18 {
        let q = if p.state == ProcessState::Stopped {
            ProcView {
                state: ProcessState::Running,
                wait_status: 0xffff,
                wait_reported: false,
                ..p
            }
        } else {
            p
        };
        (signalled(q, sig), Some(p.parent_pid))
    } else if action.handler == SIG_IGN && sig != 9 && sig != 19 {
        (p, None)
    } else if action.handler > SIG_IGN {
        (signalled(p, sig), None)
    } else if stopping(sig) {
        (
            ProcView {
                state: ProcessState::Stopped,
                wait_status: ((sig as i32) << 8) | 0x7f,
                wait_reported: false,
                ..p
            },
            Some(p.parent_pid),
        )
    } else if fatal(sig) {
        (
            ProcView {
                fd_table: Seq::empty(),
                state: ProcessState::Dead,
                wait_status: (sig as i32) & 0x7f,
                wait_reported: false,
                ..p
            },
            Some(p.parent_pid),
        )
    } else {
        (signalled(p, sig), None)
    }
}

pub fn apply_signal_to_process(p: &mut Process, sig: usize) -> (r: Option<u16>)
    requires
        sig <= 64,
        old(p)@.signal_actions.len() == 65,
    ensures
        (final(p)@, r) == applied(old(p)@, sig as int),
        final(p)@.pid == old(p)@.pid,
        final(p)@.signal_actions == old(p)@.signal_actions,
{
    if sig == 0 {
        return None;
    }
    if sig == SIGCONT {
        if p.state == ProcessState::Stopped {
            p.state = ProcessState::Running;
            p.wait_status = 0xffff;
            p.wait_reported = false;
        }
        p.queue_signal(sig);
        return Some(p.parent_pid);
    }
    let action: SignalAction = p.signal_actions[sig];
    if action.handler == SIG_IGN && sig != SIGKILL && sig != SIGSTOP {
        return None;
    }
    if action.handler > SIG_IGN {
        p.queue_signal(sig);
        return None;
    }
    if is_stop_default(sig) {
        p.state = ProcessState::Stopped;
        p.wait_status = ((sig as i32) << 8) | 0x7f;
        p.wait_reported = false;
        return Some(p.parent_pid);
    }
    if is_fatal_default(sig) {
        p.close_all_fds();
        p.state = ProcessState::Dead;
        p.wait_status = (sig as i32) & 0x7f;
        p.wait_reported = false;
        return Some(p.parent_pid);
    }
    p.queue_signal(sig);
    None
}

/// Whether process `p` is meant by `pid`, for a process of group `pgid`.
pub open spec fn meant(p: ProcView, pid: i32, pgid: u16) -> bool {
    if pid > 0 {
        p.pid == pid
    } else if pid == 0 {
        p.pgid == pgid
    } else if pid == -1 {
        p.pid > 1
    } else {
        p.pgid == -pid
    }
}

/// The numbers of the processes that are meant.
pub open spec fn targets(ps: Seq<ProcView>, pid: i32, pgid: u16) -> Seq<u16>
    decreases ps.len(),
{
    if ps.len() == 0 {
        Seq::<u16>::empty()
    } else {
        let rest = targets(ps.drop_last(), pid, pgid);
        if meant(ps.last(), pid, pgid) {
            rest.push(ps.last().pid)
        } else {
            rest
        }
    }
}

/// The processes after signal `sig` came to `pids`, one after the other, and whom it
/// concerns besides.
pub open spec fn applied_to(ps: Seq<ProcView>, pids: Seq<u16>, sig: int) -> (Seq<ProcView>, Seq<u16>)
    decreases pids.len(),
{
    if pids.len() == 0 {
        (ps, Seq::<u16>::empty())
    } else {
        let (qs, parents) = applied_to(ps, pids.drop_last(), sig);
        let k = position(qs, pids.last());
        if k < qs.len() {
            let (q, parent) = applied(qs[k], sig);
            (
                qs.update(k, q),
                match parent {
                    Some(x) => parents.push(x),
                    None => parents,
                },
            )
        } else {
            (qs, parents)
        }
    }
}

/// The processes after those with the numbers `pids` heard of a child.
pub open spec fn all_signalled(ps: Seq<ProcView>, pids: Seq<u16>) -> Seq<ProcView>
    decreases pids.len(),
{
    if pids.len() == 0 {
        ps
    } else {
        child_signalled(all_signalled(ps, pids.drop_last()), pids.last())
    }
}

/// Whether every process has an action for every signal.
pub open spec fn actions_complete(ps: Seq<ProcView>) -> bool {
    forall|i: int| 0 <= i < ps.len() ==> (#[trigger] ps[i]).signal_actions.len() == 65
}

/// The group of the process that has the processor.
pub open spec fn own_group(t: TableView) -> u16 {
    if known(t.procs, t.current) {
        process(t, t.current).pgid
    } else {
        t.current
    }
}

fn find_targets(table: &ProcessTable, pid: i32, pgid: u16) -> (r: Vec<u16>)
    requires
        pid > i32::MIN,
    ensures
        r@ == targets(table@.procs, pid, pgid),
{
    let ghost ps = table@.procs;
    let mut out: Vec<u16> = Vec::new();
    let mut i: usize = 0;
    proof {
        assert(out@ =~= targets(ps.take(0), pid, pgid));
    }
    while i < table.proc_list.len()
        invariant
            ps == table@.procs,
            i <= ps.len(),
            pid > i32::MIN,
            out@ == targets(ps.take(i as int), pid, pgid),
        decreases ps.len() - i,
    {
        let p_pid: u16 = table.proc_list[i].pid;
        let p_pgid: u16 = table.proc_list[i].pgid;
        proof {
            assert(ps.take(i + 1).drop_last() =~= ps.take(i as int));
            assert(ps.take(i + 1).last() == table.proc_list@[i as int]@);
        }
        let hit: bool = if pid > 0 {
            p_pid as i32 == pid
        } else if pid == 0 {
            p_pgid == pgid
        } else if pid == -1 {
            p_pid > 1
        } else {
            p_pgid as i32 == -pid
        };
        if hit {
            out.push(p_pid);
        }
        i = i + 1;
    }
    proof {
        assert(ps.take(i as int) =~= ps);
    }
    out
}

proof fn lemma_applied_shape(ps: Seq<ProcView>, pids: Seq<u16>, sig: int)
    requires
        actions_complete(ps),
    ensures
        applied_to(ps, pids, sig).0.len() == ps.len(),
        actions_complete(applied_to(ps, pids, sig).0),
    decreases pids.len(),
{
    if pids.len() > 0 {
        lemma_applied_shape(ps, pids.drop_last(), sig);
        lemma_position(applied_to(ps, pids.drop_last(), sig).0, pids.last());
    }
}

fn apply_to(table: &mut ProcessTable, pids: &Vec<u16>, sig: usize) -> (parents: Vec<u16>)
    requires
        sig <= 64,
        actions_complete(old(table)@.procs),
    ensures
        (final(table)@.procs, parents@) == applied_to(old(table)@.procs, pids@, sig as int),
        final(table)@.current == old(table)@.current,
{
    let ghost start = table@.procs;
    let mut parents: Vec<u16> = Vec::new();
    let mut i: usize = 0;
    proof {
        assert(pids@.take(0).len() == 0);
        assert(parents@ =~= Seq::<u16>::empty());
    }
    while i < pids.len()
        invariant
            i <= pids@.len(),
            sig <= 64,
            actions_complete(start),
            table@.current == old(table)@.current,
            (table@.procs, parents@) == applied_to(start, pids@.take(i as int), sig as int),
        decreases pids@.len() - i,
    {
        let pid: u16 = pids[i];
        let ghost t = table@;
        let ghost before = parents@;
        proof {
            assert(pids@.take(i + 1).drop_last() =~= pids@.take(i as int));
            assert(pids@.take(i + 1).last() == pid);
            lemma_applied_shape(start, pids@.take(i as int), sig as int);
            lemma_position(t.procs, pid);
        }
        match table.find_process_index(pid) {
            Some(k) => {
                proof {
                    assert(t.procs[k as int] == table.proc_list@[k as int]@);
                }
                let parent: Option<u16> = apply_signal_to_process(&mut table.proc_list[k], sig);
                proof {
                    assert(table@.procs =~= t.procs.update(
                        k as int,
                        applied(t.procs[k as int], sig as int).0,
                    ));
                }
                match parent {
                    Some(x) => {
                        parents.push(x);
                    },
                    None => {},
                }
            },
            None => {},
        }
        i = i + 1;
    }
    proof {
        assert(pids@.take(i as int) =~= pids@);
    }
    parents
}

fn notify_parents(table: &mut ProcessTable, pids: &Vec<u16>)
    ensures
        final(table)@ == (TableView { procs: all_signalled(old(table)@.procs, pids@), ..old(table)@ }),
{
    let ghost start = table@.procs;
    let mut i: usize = 0;
    proof {
        assert(pids@.take(0).len() == 0);
    }
    while i < pids.len()
        invariant
            i <= pids@.len(),
            table@ == (TableView {
                procs: all_signalled(start, pids@.take(i as int)),
                ..old(table)@
            }),
        decreases pids@.len() - i,
    {
        let pid: u16 = pids[i];
        let ghost ps = table@.procs;
        proof {
            assert(pids@.take(i + 1).drop_last() =~= pids@.take(i as int));
            lemma_position(ps, pid);
        }
        match table.find_process_index(pid) {
            Some(k) => {
                proof {
                    assert(ps[k as int] == table.proc_list@[k as int]@);
                }
                table.proc_list[k].queue_signal(SIGCHLD);
                proof {
                    assert(table@.procs =~= child_signalled(ps, pid));
                }
            },
            None => {},
        }
        i = i + 1;
    }
    proof {
        assert(pids@.take(i as int) =~= pids@);
    }
}

/// The table after signal `sig` was sent to those that `pid` means.
pub open spec fn killed(t: TableView, pid: i32, sig: i32) -> TableView {
    let (ps, parents) = applied_to(t.procs, targets(t.procs, pid, own_group(t)), sig as int);
    TableView { procs: all_signalled(ps, parents), ..t }
}

/// What a kill does: the processes afterwards, what is answered, and whether the process that called
/// has to let another run because it ended or was stopped itself.
pub open spec fn kill_result(t: TableView, pid: i32, sig: i32) -> (TableView, i64, bool) {
    if !valid_number(sig) || (pid < -1 && pid < -65535) {
        (t, failed(EINVAL), false)
    } else if targets(t.procs, pid, own_group(t)).len() == 0 {
        (t, failed(ESRCH), false)
    } else if sig == 0 {
        (t, 0, false)
    } else {
        let after = killed(t, pid, sig);
        (
            after,
            0,
            known(after.procs, t.current) && (process(after, t.current).state == ProcessState::Dead
                || process(after, t.current).state == ProcessState::Stopped),
        )
    }
}

/// Sends a signal; signal 0 only asks whether there is anybody to send one to. The
/// second result says that the processor is to be given up.
pub fn kill(table: &mut ProcessTable, pid: i32, sig: i32) -> (r: (i64, bool))
    requires
        actions_complete(old(table)@.procs),
    ensures
        (final(table)@, r.0, r.1) == kill_result(old(table)@, pid, sig),
{
    if !valid_signal(sig) {
        return (fail(EINVAL), false);
    }
    if pid < -65535 {
        return (fail(EINVAL), false);
    }
    let pgid: u16 = crate::proc::sched::current_process_group_id(table);
    let ts: Vec<u16> = find_targets(table, pid, pgid);
    if ts.len() == 0 {
        return (fail(ESRCH), false);
    }
    if sig == 0 {
        return (0, false);
    }
    let parents: Vec<u16> = apply_to(table, &ts, sig as usize);
    notify_parents(table, &parents);
    let yields: bool = match table.get_process(table.current) {
        Some(p) => p.state == ProcessState::Dead || p.state == ProcessState::Stopped,
        None => false,
    };
    (0, yields)
}

pub fn getppid(table: &ProcessTable) -> (r: i64)
    ensures
        r == if known(table@.procs, table@.current) {
            process(table@, table@.current).parent_pid as i64
        } else {
            failed(ESRCH)
        },
{
    match table.get_process(table.current) {
        Some(p) => p.parent_pid as i64,
        None => fail(ESRCH),
    }
}

/// The process that `pid` names; 0 names the one with the processor.
pub open spec fn named(t: TableView, pid: i32) -> u16 {
    if pid == 0 {
        t.current
    } else {
        pid as u16
    }
}

pub fn getpgid(table: &ProcessTable, pid: i32) -> (r: i64)
    ensures
        r == if pid < 0 || pid > 65535 {
            failed(EINVAL)
        } else if known(table@.procs, named(table@, pid)) {
            process(table@, named(table@, pid)).pgid as i64
        } else {
            failed(ESRCH)
        },
{
    if pid < 0 || pid > 65535 {
        return fail(EINVAL);
    }
    let target: u16 = if pid == 0 {
        table.current
    } else {
        pid as u16
    };
    match table.get_process(target) {
        Some(p) => p.pgid as i64,
        None => fail(ESRCH),
    }
}

pub fn getsid(table: &ProcessTable, pid: i32) -> (r: i64)
    ensures
        r == if pid < 0 || pid > 65535 {
            failed(EINVAL)
        } else if known(table@.procs, named(table@, pid)) {
            process(table@, named(table@, pid)).sid as i64
        } else {
            failed(ESRCH)
        },
{
    if pid < 0 || pid > 65535 {
        return fail(EINVAL);
    }
    let target: u16 = if pid == 0 {
        table.current
    } else {
        pid as u16
    };
    match table.get_process(target) {
        Some(p) => p.sid as i64,
        None => fail(ESRCH),
    }
}

pub fn setpgid(table: &mut ProcessTable, pid: i32, pgid: i32) -> (r: i64)
    ensures
        ({
            let t = old(table)@;
            let target = named(t, pid);
            let group = if pgid == 0 {
                target
            } else {
                pgid as u16
            };
            if pid < 0 || pgid < 0 || pid > 65535 || pgid > 65535 {
                r == failed(EINVAL) && final(table)@ == t
            } else if !known(t.procs, target) {
                r == failed(ESRCH) && final(table)@ == t
            } else {
                &&& r == 0
                &&& final(table)@ == with_process(
                    t,
                    target,
                    ProcView { pgid: group, ..process(t, target) },
                )
            }
        }),
{
    if pid < 0 || pgid < 0 || pid > 65535 || pgid > 65535 {
        return fail(EINVAL);
    }
    let target: u16 = if pid == 0 {
        table.current
    } else {
        pid as u16
    };
    let group: u16 = if pgid == 0 {
        target
    } else {
        pgid as u16
    };
    let ghost t = table@;
    proof {
        lemma_position(t.procs, target);
    }
    match table.find_process_index(target) {
        Some(i) => {
            proof {
                assert(t.procs[i as int] == table.proc_list@[i as int]@);
            }
            table.proc_list[i].pgid = group;
            proof {
                assert(table@.procs =~= t.procs.update(
                    i as int,
                    ProcView { pgid: group, ..t.procs[i as int] },
                ));
            }
            0
        },
        None => fail(ESRCH),
    }
}

/// A thread can be signalled this way by itself alone, and then nothing comes of it.
pub fn tgkill(current: u16, tgid: i32, tid: i32) -> (r: i64)
    ensures
        r == if tgid == current && tid == current {
            0i64
        } else {
            failed(ESRCH)
        },
{
    if tgid != current as i32 || tid != current as i32 {
        return fail(ESRCH);
    }
    0
}

/// What is laid down on the stack of a program while a handler runs.
#[derive(Debug, Clone, Copy, PartialEq, Eq, Structural)]
pub struct UserSignalFrame {
    pub magic: u64,
    pub old_mask: SignalSet,
    pub preserved: PreservedRegisters,
    pub scratch: ScratchRegisters,
    pub rip: u64,
    pub rsp: u64,
    pub rflags: u64,
}

/// How a handler is started.
#[derive(Debug, Clone, Copy, PartialEq, Eq, Structural)]
pub struct Delivery {
    /// Where the address of the code lies that runs after the handler.
    pub ret_slot: u64,
    pub restorer: u64,
    /// Where the frame lies.
    pub frame_addr: u64,
    pub frame: UserSignalFrame,
    /// The registers with which the handler starts.
    pub regs: InterruptStack,
}

/// Where the frame of a handler lies, for a program with the stack pointer `rsp`.
pub open spec fn frame_place(rsp: u64) -> int {
    (rsp - 168) - (rsp - 168) % 16
}

/// The frame of a handler.
pub open spec fn frame_for(p: ProcView, regs: InterruptStack) -> UserSignalFrame {
    UserSignalFrame {
        magic: SIGNAL_FRAME_MAGIC,
        old_mask: if p.in_sigsuspend {
            p.sigsuspend_saved_mask
        } else {
            p.signal_mask
        },
        preserved: regs.preserved,
        scratch: regs.scratch,
        rip: regs.iret.rip,
        rsp: regs.iret.rsp,
        rflags: regs.iret.rflags,
    }
}

/// The signals held back while the handler of signal `sig` runs.
pub open spec fn handler_mask(p: ProcView, sig: int) -> SignalSet {
    let a = p.signal_actions[sig];
    let low = p.signal_mask.low | a.mask.low;
    SignalSet {
        low: maskable(
            if a.flags & SA_NODEFER == 0 {
                low | bit_of(sig)
            } else {
                low
            },
        ),
        high: p.signal_mask.high | a.mask.high,
    }
}

/// The registers with which the handler of signal `sig` starts.
pub open spec fn handler_regs(p: ProcView, sig: int, regs: InterruptStack) -> InterruptStack {
    InterruptStack {
        scratch: ScratchRegisters { rdi: sig as u64, rsi: 0, rdx: 0, ..regs.scratch },
        iret: IretRegisters {
            rip: p.signal_actions[sig].handler,
            rsp: (frame_place(regs.iret.rsp) - 8) as u64,
            ..regs.iret
        },
        ..regs
    }
}

/// A process after a signal without a handler was taken.
pub open spec fn signal_dropped(p: ProcView, sig: int) -> ProcView {
    let q = ProcView { pending_signals: p.pending_signals & !bit_of(sig), ..p };
    if p.in_sigsuspend {
        ProcView { signal_mask: p.sigsuspend_saved_mask, in_sigsuspend: false, ..q }
    } else {
        q
    }
}

/// Whether signal `sig` has a handler that can be run.
pub open spec fn has_handler(p: ProcView, sig: int) -> bool {
    p.signal_actions[sig].handler > SIG_IGN && p.signal_actions[sig].restorer != 0
}

/// Whether `sig` is the lowest signal that is not held back.
pub open spec fn is_next_signal(p: ProcView, sig: int) -> bool {
    &&& 1 <= sig <= 64
    &&& has_signal(unblocked(p), sig)
    &&& forall|t: int| 1 <= t < sig ==> !#[trigger] has_signal(unblocked(p), t)
}

/// How signal `sig` is delivered.
pub open spec fn delivered(before: ProcView, after: ProcView, sig: int, regs: InterruptStack, d: Delivery) -> bool {
    &&& has_handler(before, sig)
    &&& after == (ProcView {
        pending_signals: before.pending_signals & !bit_of(sig),
        in_sigsuspend: false,
        signal_mask: handler_mask(before, sig),
        ..before
    })
    &&& d == (Delivery {
        ret_slot: (frame_place(regs.iret.rsp) - 8) as u64,
        restorer: before.signal_actions[sig].restorer,
        frame_addr: frame_place(regs.iret.rsp) as u64,
        frame: frame_for(before, regs),
        regs: handler_regs(before, sig, regs),
    })
}

/// What becomes of a process when it goes back to its program: the lowest signal that is not
/// held back goes to its handler, or is dropped where there is none.
pub open spec fn signal_handled(before: ProcView, after: ProcView, regs: InterruptStack, r: Option<Delivery>) -> bool {
    match r {
        Some(d) => exists|sig: int| #[trigger]
            is_next_signal(before, sig) && delivered(before, after, sig, regs, d),
        None => {
            ||| unblocked(before) == 0 && after == before
            ||| exists|sig: int| #[trigger]
                is_next_signal(before, sig) && !has_handler(before, sig) && after == signal_dropped(
                    before,
                    sig,
                )
        },
    }
}

/// Starts the handler of the lowest pending signal, where there is one.
pub fn deliver_pending_signal(p: &mut Process, regs: &InterruptStack) -> (r: Option<Delivery>)
    requires
        old(p)@.signal_actions.len() == 65,
        forall|sig: int| #[trigger]
            is_next_signal(old(p)@, sig) && has_handler(old(p)@, sig) ==> regs.iret.rsp >= 192,
    ensures
        signal_handled(old(p)@, final(p)@, *regs, r),
{
    let ghost before = p@;
    let sig: usize = match p.next_unblocked_signal() {
        Some(s) => s,
        None => return None,
    };
    proof {
        assert(is_next_signal(before, sig as int));
    }
    let action: SignalAction = p.signal_actions[sig];
    if action.handler <= SIG_IGN || action.restorer == 0 {
        p.dequeue_signal(sig);
        if p.in_sigsuspend {
            p.signal_mask = p.sigsuspend_saved_mask;
            p.in_sigsuspend = false;
        }
        return None;
    }
    p.dequeue_signal(sig);
    let mask: SignalSet = p.signal_mask;
    let old_mask: SignalSet = if p.in_sigsuspend {
        p.in_sigsuspend = false;
        p.sigsuspend_saved_mask
    } else {
        p.signal_mask
    };
    let rsp: u64 = regs.iret.rsp;
    let low: u64 = rsp - SIGNAL_FRAME_SIZE;
    let frame_addr: u64 = low - low % 16;
    let ret_slot: u64 = frame_addr - 8;
    let frame: UserSignalFrame = UserSignalFrame {
        magic: SIGNAL_FRAME_MAGIC,
        old_mask,
        preserved: regs.preserved,
        scratch: regs.scratch,
        rip: regs.iret.rip,
        rsp,
        rflags: regs.iret.rflags,
    };
    let mut held: u64 = mask.low | action.mask.low;
    if action.flags & SA_NODEFER == 0 {
        held = held | signal_bit(sig);
    }
    p.signal_mask = SignalSet { low: without_unmaskable(held), high: mask.high | action.mask.high };
    let mut next: InterruptStack = *regs;
    next.scratch.rdi = sig as u64;
    next.scratch.rsi = 0;
    next.scratch.rdx = 0;
    next.iret.rip = action.handler;
    next.iret.rsp = ret_slot;
    let d: Delivery = Delivery {
        ret_slot,
        restorer: action.restorer,
        frame_addr,
        frame,
        regs: next,
    };
    proof {
        assert(delivered(before, p@, sig as int, *regs, d));
    }
    Some(d)
}

/// The flags of the processor that have a meaning, by
/// `x86_64::registers::rflags::RFlags::from_bits_truncate`, which drops all bits but
/// those of the flags that the type names.
#[verifier::external_body]
fn meaningful_rflags(bits: u64) -> (r: u64)
    ensures
        r == bits & KNOWN_RFLAGS,
{
    x86_64::registers::rflags::RFlags::from_bits_truncate(bits).bits()
}

/// The registers that a frame brings back.
pub open spec fn restored(regs: InterruptStack, f: UserSignalFrame) -> InterruptStack {
    InterruptStack {
        preserved: f.preserved,
        scratch: f.scratch,
        iret: IretRegisters {
            rip: f.rip,
            rsp: f.rsp,
            rflags: f.rflags & KNOWN_RFLAGS,
            ..regs.iret
        },
    }
}

/// A process once a handler has returned: what it held back before is held back again.
pub open spec fn handler_left(p: ProcView, f: UserSignalFrame) -> ProcView {
    ProcView {
        signal_mask: SignalSet { low: maskable(f.old_mask.low), high: f.old_mask.high },
        ..p
    }
}

/// Ends a handler, with the frame that lies on the stack. None where it is no frame.
pub fn rt_sigreturn(p: &mut Process, frame: &UserSignalFrame, regs: &InterruptStack) -> (r: Option<
    InterruptStack,
>)
    ensures
        if frame.magic != SIGNAL_FRAME_MAGIC {
            r is None && final(p)@ == old(p)@
        } else {
            &&& r == Some(restored(*regs, *frame))
            &&& final(p)@ == handler_left(old(p)@, *frame)
        },
{
    if frame.magic != SIGNAL_FRAME_MAGIC {
        return None;
    }
    p.signal_mask = SignalSet {
        low: without_unmaskable(frame.old_mask.low),
        high: frame.old_mask.high,
    };
    let mut next: InterruptStack = *regs;
    next.preserved = frame.preserved;
    next.scratch = frame.scratch;
    next.iret.rip = frame.rip;
    next.iret.rsp = frame.rsp;
    next.iret.rflags = meaningful_rflags(frame.rflags);
    Some(next)
}

/// A program that was interrupted by a signal goes on, after the handler, with the
/// registers and the mask that it had; `back` are the registers with which the handler
/// ended.
pub proof fn lemma_handler_returns(p: ProcView, q: ProcView, sig: int, regs: InterruptStack, d: Delivery, back: InterruptStack)
    requires
        delivered(p, q, sig, regs, d),
        back.iret.cs == regs.iret.cs,
        back.iret.ss == regs.iret.ss,
        regs.iret.rflags & KNOWN_RFLAGS == regs.iret.rflags,
        !p.in_sigsuspend,
    ensures
        d.frame.magic == SIGNAL_FRAME_MAGIC,
        d.frame.old_mask == p.signal_mask,
        restored(back, d.frame) == regs,
{
}

/// The frame of a handler starts at a multiple of sixteen, below the stack of the
/// program.
pub proof fn lemma_frame_place(rsp: u64)
    requires
        rsp >= 192,
    ensures
        frame_place(rsp) % 16 == 0,
        8 <= frame_place(rsp),
        frame_place(rsp) + 168 <= rsp,
{
}

/// Two signals can never be held back, whatever a program asks for.
pub proof fn lemma_never_masked(word: u64)
    ensures
        !has_signal(maskable(word), 9),
        !has_signal(maskable(word), 19),
{
    lemma_taken(word, 9, 9);
    lemma_taken(word & !bit_of(9), 19, 9);
    lemma_taken(word & !bit_of(9), 19, 19);
}

/// The masks that a process can come by hold neither of the two back.
pub proof fn lemma_handler_mask(p: ProcView, sig: int)
    ensures
        !has_signal(handler_mask(p, sig).low, 9),
        !has_signal(handler_mask(p, sig).low, 19),
{
    let a = p.signal_actions[sig];
    let low = p.signal_mask.low | a.mask.low;
    lemma_never_masked(
        if a.flags & SA_NODEFER == 0 {
            low | bit_of(sig)
        } else {
            low
        },
    );
}

} // verus!
