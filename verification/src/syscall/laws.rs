//! What holds of the system calls together: what a signal does to those that it is sent to,
//! and what their parents hear of it.

use crate::errno::{failed, EINVAL, ESRCH};
use crate::proc::process::{ProcView, ProcessState};
use crate::proc::sched::process;
use crate::proc::signals::{has_signal, lemma_added};
use crate::proc::table::{known, lemma_position, position, TableView};
use crate::syscall::signal::{
    all_signalled, applied, applied_to, kill_result, killed, meant, own_group, targets,
};
use crate::syscall::wait::{awaited, first_reportable, lemma_first_reportable, numbers_differ, reportable};
use vstd::prelude::*;

verus! {

/// Signals that end a process unless it says otherwise: SIGHUP, SIGINT, SIGQUIT, SIGKILL,
/// SIGPIPE, SIGALRM and SIGTERM.
pub open spec fn ends_by_default(sig: int) -> bool {
    sig == 1 || sig == 2 || sig == 3 || sig == 9 || sig == 13 || sig == 14 || sig == 15
}

/// Signals that stop a process unless it says otherwise: SIGSTOP, SIGTSTP, SIGTTIN and
/// SIGTTOU.
pub open spec fn stops_by_default(sig: int) -> bool {
    19 <= sig <= 22
}

/// Whether the action of a process for a signal is left to the system: neither a handler,
/// nor to ignore it, which SIGKILL and SIGSTOP cannot be.
pub open spec fn left_to_system(p: ProcView, sig: int) -> bool {
    p.signal_actions[sig].handler == 0 || (p.signal_actions[sig].handler == 1 && (sig == 9 || sig
        == 19))
}

/// A signal that ends a process by default ends it, unless the process has a handler for it
/// or ignores it: it holds no file any more, and its parent hears of it, with the signal in
/// the low seven bits of the status.
pub proof fn lemma_fatal_ends(p: ProcView, sig: int)
    requires
        ends_by_default(sig),
        left_to_system(p, sig),
    ensures
        ({
            let (q, parent) = applied(p, sig);
            &&& q.state == ProcessState::Dead
            &&& q.wait_status & 0x7f == sig
            &&& q.wait_status >> 7 == 0
            &&& !q.wait_reported
            &&& q.fd_table.len() == 0
            &&& parent == Some(p.parent_pid)
            &&& q.pid == p.pid
            &&& q.parent_pid == p.parent_pid
        }),
{
    let s = sig as i32;
    assert((s & 0x7f) & 0x7f == s && (s & 0x7f) >> 7 == 0) by (bit_vector)
        requires
            0 <= s < 64,
    ;
}

/// A signal that stops a process by default stops it, unless the process has a handler for
/// it or ignores it: its parent hears of it, with 127 in the low byte of the status and the
/// signal in the next. Nothing that the process holds is lost.
pub proof fn lemma_stop_stops(p: ProcView, sig: int)
    requires
        stops_by_default(sig),
        left_to_system(p, sig),
    ensures
        ({
            let (q, parent) = applied(p, sig);
            &&& q.state == ProcessState::Stopped
            &&& q.wait_status & 0xff == 0x7f
            &&& q.wait_status >> 8 == sig
            &&& !q.wait_reported
            &&& parent == Some(p.parent_pid)
            &&& q == (ProcView {
                state: q.state,
                wait_status: q.wait_status,
                wait_reported: q.wait_reported,
                ..p
            })
        }),
{
    let s = sig as i32;
    assert(((s << 8) | 0x7f) & 0xff == 0x7f && ((s << 8) | 0x7f) >> 8 == s) by (bit_vector)
        requires
            0 <= s < 64,
    ;
}

/// A process that ignores a signal, but for SIGKILL, SIGSTOP and SIGCONT, does not notice
/// it, and neither does its parent.
pub proof fn lemma_ignored_does_nothing(p: ProcView, sig: int)
    requires
        1 <= sig <= 64,
        sig != 9,
        sig != 18,
        sig != 19,
        p.signal_actions[sig].handler == 1,
    ensures
        applied(p, sig) == (p, None::<u16>),
{
}

/// A signal for which a process has a handler, or that does nothing by default, waits for
/// it, beside those that wait already; a process that waits can run again. No one else
/// hears of it, and nothing else changes.
pub proof fn lemma_handled_waits(p: ProcView, sig: int, t: int)
    requires
        1 <= sig <= 64,
        1 <= t <= 64,
        sig != 18,
        p.signal_actions[sig].handler > 1 || (p.signal_actions[sig].handler == 0
            && !ends_by_default(sig) && !stops_by_default(sig)),
    ensures
        ({
            let (q, parent) = applied(p, sig);
            &&& parent is None
            &&& has_signal(q.pending_signals, t) == (t == sig || has_signal(p.pending_signals, t))
            &&& q == (ProcView {
                pending_signals: q.pending_signals,
                state: q.state,
                pending_io: q.pending_io,
                ..p
            })
            &&& if p.state == ProcessState::Waiting || p.state == ProcessState::SignalWait
                || p.state == ProcessState::AwaitingIo {
                q.state == ProcessState::Runnable && !q.pending_io
            } else {
                q.state == p.state && q.pending_io == p.pending_io
            }
        }),
{
    lemma_added(p.pending_signals, sig, t);
}

/// SIGCONT lets a process that was stopped go on, and its parent hears of it; whether it
/// was stopped or not, the signal waits for it.
pub proof fn lemma_continue_resumes(p: ProcView)
    ensures
        ({
            let (q, parent) = applied(p, 18);
            &&& parent == Some(p.parent_pid)
            &&& has_signal(q.pending_signals, 18)
            &&& q.state != ProcessState::Stopped
            &&& p.state == ProcessState::Stopped ==> {
                &&& q.state == ProcessState::Running
                &&& q.wait_status == 0xffff
                &&& !q.wait_reported
            }
            &&& p.state == ProcessState::Running || p.state == ProcessState::Runnable || p.state
                == ProcessState::Sleeping || p.state == ProcessState::Dead ==> q.state == p.state
            &&& q.fd_table == p.fd_table
            &&& q.signal_actions == p.signal_actions
            &&& q.signal_mask == p.signal_mask
        }),
{
    lemma_added(p.pending_signals, 18, 18);
}

/// Signal 0 does nothing.
pub proof fn lemma_signal_zero(p: ProcView)
    ensures
        applied(p, 0) == (p, None::<u16>),
{
}

/// Those that are meant are named once each, where no two processes have the same number,
/// and no one else is.
proof fn lemma_targets(ps: Seq<ProcView>, pid: i32, pgid: u16)
    requires
        numbers_differ(ps),
    ensures
        targets(ps, pid, pgid).no_duplicates(),
        forall|i: int|
            0 <= i < ps.len() ==> (targets(ps, pid, pgid).contains((#[trigger] ps[i]).pid) == meant(
                ps[i],
                pid,
                pgid,
            )),
        forall|k: int|
            0 <= k < targets(ps, pid, pgid).len() ==> exists|i: int|
                0 <= i < ps.len() && (#[trigger] ps[i]).pid == #[trigger] targets(ps, pid, pgid)[k],
    decreases ps.len(),
{
    let ts = targets(ps, pid, pgid);
    if ps.len() > 0 {
        let front = ps.drop_last();
        let last = ps.last();
        let rest = targets(front, pid, pgid);
        assert(ps[ps.len() - 1] == last);
        assert forall|i: int, j: int| 0 <= i < j < front.len() implies (#[trigger] front[i]).pid != (
        #[trigger] front[j]).pid by {
            assert(ps[i].pid != ps[j].pid);
        }
        lemma_targets(front, pid, pgid);
        if rest.contains(last.pid) {
            let k = choose|k: int| 0 <= k < rest.len() && rest[k] == last.pid;
            let i = choose|i: int| 0 <= i < front.len() && (#[trigger] front[i]).pid == rest[k];
            assert(ps[i].pid != ps[ps.len() - 1].pid);
        }
        assert forall|i: int| 0 <= i < ps.len() implies (ts.contains((#[trigger] ps[i]).pid)
            == meant(ps[i], pid, pgid)) by {
            if i < front.len() {
                assert(front[i] == ps[i]);
                assert(ps[i].pid != ps[ps.len() - 1].pid);
                if rest.contains(ps[i].pid) {
                    let k = choose|k: int| 0 <= k < rest.len() && rest[k] == ps[i].pid;
                    assert(ts[k] == ps[i].pid);
                }
                if ts.contains(ps[i].pid) {
                    let k = choose|k: int| 0 <= k < ts.len() && ts[k] == ps[i].pid;
                    if k == rest.len() {
                        assert(ts[k] == last.pid);
                    }
                    assert(rest[k] == ps[i].pid);
                }
            } else {
                if meant(last, pid, pgid) {
                    assert(ts[ts.len() - 1] == last.pid);
                }
            }
        }
        assert forall|k: int| 0 <= k < ts.len() implies exists|i: int|
            0 <= i < ps.len() && (#[trigger] ps[i]).pid == #[trigger] ts[k] by {
            if k < rest.len() {
                let i = choose|i: int| 0 <= i < front.len() && (#[trigger] front[i]).pid == rest[k];
                assert(ps[i] == front[i]);
            } else {
                assert(ps[ps.len() - 1].pid == ts[k]);
            }
        }
    }
}

/// A signal that is sent to several processes does to each what it does to it alone.
proof fn lemma_applied_to(ps: Seq<ProcView>, pids: Seq<u16>, sig: int)
    requires
        numbers_differ(ps),
        pids.no_duplicates(),
    ensures
        applied_to(ps, pids, sig).0.len() == ps.len(),
        forall|i: int|
            0 <= i < ps.len() ==> #[trigger] applied_to(ps, pids, sig).0[i] == if pids.contains(
                ps[i].pid,
            ) {
                applied(ps[i], sig).0
            } else {
                ps[i]
            },
    decreases pids.len(),
{
    if pids.len() > 0 {
        let front = pids.drop_last();
        let last = pids.last();
        assert(front.no_duplicates());
        lemma_applied_to(ps, front, sig);
        let qs = applied_to(ps, front, sig).0;
        let k = position(qs, last);
        lemma_position(qs, last);
        let after = applied_to(ps, pids, sig).0;
        assert(!front.contains(last)) by {
            if front.contains(last) {
                let j = choose|j: int| 0 <= j < front.len() && front[j] == last;
                assert(pids[j] == pids[pids.len() - 1]);
            }
        }
        assert forall|i: int| 0 <= i < ps.len() implies (#[trigger] qs[i]).pid == ps[i].pid by {}
        assert forall|i: int| 0 <= i < ps.len() implies #[trigger] after[i] == if pids.contains(
            ps[i].pid,
        ) {
            applied(ps[i], sig).0
        } else {
            ps[i]
        } by {
            assert(qs[i].pid == ps[i].pid);
            assert(pids.contains(ps[i].pid) == (front.contains(ps[i].pid) || ps[i].pid == last)) by {
                if front.contains(ps[i].pid) {
                    let j = choose|j: int| 0 <= j < front.len() && front[j] == ps[i].pid;
                    assert(pids[j] == ps[i].pid);
                }
                if pids.contains(ps[i].pid) {
                    let j = choose|j: int| 0 <= j < pids.len() && pids[j] == ps[i].pid;
                    if j < front.len() {
                        assert(front[j] == ps[i].pid);
                    }
                }
                assert(pids[pids.len() - 1] == last);
            }
            if ps[i].pid == last {
                if k < i {
                    assert(qs[k].pid == ps[k].pid);
                    assert(ps[k].pid != ps[i].pid);
                }
                assert(k == i);
            } else if k < qs.len() {
                assert(qs[k].pid == last);
                assert(k != i);
            }
        }
    }
}

/// Hearing of a child changes nothing of a process but that a signal waits for it, and that
/// it can run where it waited.
proof fn lemma_all_signalled(ps: Seq<ProcView>, pids: Seq<u16>)
    ensures
        all_signalled(ps, pids).len() == ps.len(),
        forall|i: int|
            0 <= i < ps.len() ==> {
                let q = #[trigger] all_signalled(ps, pids)[i];
                &&& q == (ProcView {
                    pending_signals: q.pending_signals,
                    state: q.state,
                    pending_io: q.pending_io,
                    ..ps[i]
                })
                &&& q.state == ps[i].state || q.state == ProcessState::Runnable
                &&& ps[i].state == ProcessState::Dead || ps[i].state == ProcessState::Stopped
                    ==> q.state == ps[i].state
            },
    decreases pids.len(),
{
    if pids.len() > 0 {
        lemma_all_signalled(ps, pids.drop_last());
        lemma_position(all_signalled(ps, pids.drop_last()), pids.last());
    }
}

/// A signal reaches all that it is meant for: each of them that leaves it to the system to
/// end it is ended, with the signal as its status, whatever number or group it was sent to.
pub proof fn lemma_kill_ends(t: TableView, pid: i32, sig: i32, i: int)
    requires
        numbers_differ(t.procs),
        ends_by_default(sig as int),
        0 <= i < t.procs.len(),
        meant(t.procs[i], pid, own_group(t)),
        left_to_system(t.procs[i], sig as int),
    ensures
        ({
            let q = killed(t, pid, sig).procs[i];
            &&& killed(t, pid, sig).procs.len() == t.procs.len()
            &&& q.pid == t.procs[i].pid
            &&& q.state == ProcessState::Dead
            &&& q.wait_status & 0x7f == sig
            &&& q.fd_table.len() == 0
        }),
{
    let ts = targets(t.procs, pid, own_group(t));
    lemma_targets(t.procs, pid, own_group(t));
    lemma_applied_to(t.procs, ts, sig as int);
    lemma_fatal_ends(t.procs[i], sig as int);
    let (ps, parents) = applied_to(t.procs, ts, sig as int);
    lemma_all_signalled(ps, parents);
    assert(ps[i] == applied(t.procs[i], sig as int).0);
}

/// A signal reaches no one else: a process that it is not meant for stays as it is, but that
/// it may hear of a child.
pub proof fn lemma_kill_spares(t: TableView, pid: i32, sig: i32, i: int)
    requires
        numbers_differ(t.procs),
        0 <= i < t.procs.len(),
        !meant(t.procs[i], pid, own_group(t)),
    ensures
        ({
            let p = t.procs[i];
            let q = killed(t, pid, sig).procs[i];
            &&& q == (ProcView {
                pending_signals: q.pending_signals,
                state: q.state,
                pending_io: q.pending_io,
                ..p
            })
            &&& q.state == p.state || q.state == ProcessState::Runnable
            &&& p.state == ProcessState::Dead || p.state == ProcessState::Stopped ==> q.state
                == p.state
        }),
{
    let ts = targets(t.procs, pid, own_group(t));
    lemma_targets(t.procs, pid, own_group(t));
    lemma_applied_to(t.procs, ts, sig as int);
    let (ps, parents) = applied_to(t.procs, ts, sig as int);
    lemma_all_signalled(ps, parents);
    assert(ps[i] == t.procs[i]);
}

/// Who is meant: a number above 0 means the process with that number, 0 the group of the
/// sender, -1 all but process 1, and any other the group with that number.
pub proof fn lemma_who_is_meant(p: ProcView, pid: i32, pgid: u16)
    requires
        pid >= -65535,
    ensures
        pid > 0 ==> meant(p, pid, pgid) == (p.pid == pid),
        pid == 0 ==> meant(p, pid, pgid) == (p.pgid == pgid),
        pid == -1 ==> meant(p, pid, pgid) == (p.pid > 1),
        pid < -1 ==> meant(p, pid, pgid) == (p.pgid + pid == 0),
{
}

/// A parent that waits for a child after the child was sent a signal that ended it finds
/// it, ended, with a status whose low seven bits are the signal.
pub proof fn lemma_killed_is_reported(t: TableView, sig: i32, i: int, options: i32)
    requires
        numbers_differ(t.procs),
        ends_by_default(sig as int),
        0 <= i < t.procs.len(),
        t.procs[i].pid > 0,
        !t.procs[i].is_thread,
        left_to_system(t.procs[i], sig as int),
    ensures
        ({
            let child = t.procs[i];
            let after = killed(t, child.pid as i32, sig);
            let k = first_reportable(after.procs, child.parent_pid, child.pid as i32, options);
            &&& k < after.procs.len()
            &&& after.procs[k].pid == child.pid
            &&& after.procs[k].state == ProcessState::Dead
            &&& after.procs[k].wait_status & 0x7f == sig
        }),
{
    let child = t.procs[i];
    let pid = child.pid as i32;
    let after = killed(t, pid, sig);
    lemma_kill_ends(t, pid, sig, i);
    assert forall|k: int| 0 <= k < t.procs.len() implies (#[trigger] after.procs[k]).pid
        == t.procs[k].pid by {
        if meant(t.procs[k], pid, own_group(t)) {
            if k < i {
                assert(t.procs[k].pid != t.procs[i].pid);
            } else if k > i {
                assert(t.procs[i].pid != t.procs[k].pid);
            }
        } else {
            lemma_kill_spares(t, pid, sig, k);
        }
    }
    let ts = targets(t.procs, pid, own_group(t));
    lemma_targets(t.procs, pid, own_group(t));
    lemma_applied_to(t.procs, ts, sig as int);
    lemma_fatal_ends(child, sig as int);
    let (ps, parents) = applied_to(t.procs, ts, sig as int);
    lemma_all_signalled(ps, parents);
    assert(ps[i] == applied(child, sig as int).0);
    assert forall|k: int| 0 <= k < i implies !(awaited(
        #[trigger] after.procs[k],
        child.parent_pid,
        pid,
    ) && reportable(after.procs[k], options)) by {
        assert(t.procs[k].pid != t.procs[i].pid);
        assert(after.procs[k].pid == t.procs[k].pid);
    }
    lemma_first_reportable(after.procs, child.parent_pid, pid, options, i);
}

/// A kill is answered with a failure where nobody is meant, and where the signal is none; the signal
/// zero only asks whether somebody is there. Else it is done, and succeeds.
pub proof fn lemma_kill_answered(t: TableView, pid: i32, sig: i32)
    ensures
        ({
            let (after, n, gone) = kill_result(t, pid, sig);
            &&& sig < 0 || sig > 64 ==> after == t && n == failed(EINVAL) && !gone
            &&& n < 0 ==> after == t && !gone
            &&& sig == 0 ==> after == t && !gone
            &&& 0 <= sig <= 64 && pid >= -65535 && targets(t.procs, pid, own_group(t)).len() == 0 ==> n == failed(
                ESRCH,
            )
            &&& 0 <= sig <= 64 && pid >= -65535 && targets(t.procs, pid, own_group(t)).len() > 0 ==> n == 0
            &&& 0 < sig <= 64 && n == 0 ==> after == killed(t, pid, sig)
            &&& gone ==> known(after.procs, t.current) && (process(after, t.current).state
                == ProcessState::Dead || process(after, t.current).state == ProcessState::Stopped)
        }),
{
}

} // verus!
