//! Sleeping and reading the clocks.

use crate::bytes::{le_digits, le_value, lemma_le_digits_len, push_le, read_u64};
use crate::errno::{fail, failed, EFAULT, EINTR, EINVAL};
use crate::proc::process::WakeReason;
use crate::syscall::utils::{
    accessible, copied, copy_from_user, copy_to_user, text_bytes, UserMemory,
};
use vstd::prelude::*;

verus! {

pub const NSEC_PER_SEC: u64 = 1_000_000_000;

pub const CLOCK_REALTIME: i32 = 0;

pub const CLOCK_MONOTONIC: i32 = 1;

/// Flag: the time is a point in time, not a span.
pub const TIMER_ABSTIME: i32 = 1;

/// A time in seconds and nanoseconds.
#[derive(Debug, Clone, Copy, PartialEq, Eq, Structural)]
pub struct Timespec {
    pub tv_sec: i64,
    pub tv_nsec: i64,
}

/// What the clocks show. The realtime clock is ahead of the monotonic one by `offset`.
#[derive(Debug, Clone, Copy, PartialEq, Eq, Structural)]
pub struct Clocks {
    pub monotonic: u64,
    pub realtime: u64,
    pub offset: u64,
}

/// Why a sleep ended.
#[derive(Debug, Clone, Copy, PartialEq, Eq, Structural)]
pub enum SleepOutcome {
    /// The time has come.
    DeadlineReached,
    /// Something else ended the sleep; so much was left of it.
    Interrupted { remaining_ns: u64 },
}

/// What a sleeping call does next.
#[derive(Debug, Clone, Copy, PartialEq, Eq, Structural)]
pub enum SleepPlan {
    Return(i64),
    /// Sleeps until the monotonic clock shows this.
    Until(u64),
}

impl Timespec {
    pub open spec fn valid(self) -> bool {
        self.tv_sec >= 0 && 0 <= self.tv_nsec < 1_000_000_000
    }

    /// The nanoseconds that a time stands for.
    pub open spec fn nanos(self) -> int {
        self.tv_sec * 1_000_000_000 + self.tv_nsec
    }
}

/// Sums and products that do not grow beyond what a word can hold.
pub open spec fn capped(n: int) -> u64 {
    if n > u64::MAX {
        u64::MAX
    } else {
        n as u64
    }
}

/// Differences that do not fall below 0.
pub open spec fn floored(n: int) -> u64 {
    if n < 0 {
        0
    } else {
        n as u64
    }
}

pub fn validate_timespec(req: &Timespec) -> (r: Result<(), i64>)
    ensures
        match r {
            Ok(_) => req.valid(),
            Err(e) => !req.valid() && e == failed(EINVAL),
        },
{
    if req.tv_sec < 0 || req.tv_nsec < 0 || req.tv_nsec >= NSEC_PER_SEC as i64 {
        return Err(fail(EINVAL));
    }
    Ok(())
}

/// The nanoseconds that a time stands for, as far as a word can hold them. A negative
/// part counts as endless.
pub fn timespec_to_ns(req: &Timespec) -> (r: u64)
    ensures
        r == if req.tv_sec < 0 || req.tv_nsec < 0 {
            u64::MAX
        } else {
            capped(req.nanos())
        },
{
    if req.tv_sec < 0 || req.tv_nsec < 0 {
        return u64::MAX;
    }
    let total: u128 = req.tv_sec as u128 * 1_000_000_000u128 + req.tv_nsec as u128;
    if total > u64::MAX as u128 {
        u64::MAX
    } else {
        total as u64
    }
}

/// Splits nanoseconds.
pub fn ns_to_timespec(ns: u64) -> (r: Timespec)
    ensures
        r == split_ns(ns),
        r.valid(),
{
    Timespec { tv_sec: (ns / NSEC_PER_SEC) as i64, tv_nsec: (ns % NSEC_PER_SEC) as i64 }
}

pub open spec fn split_ns(ns: u64) -> Timespec {
    Timespec { tv_sec: (ns / 1_000_000_000) as i64, tv_nsec: (ns % 1_000_000_000) as i64 }
}

/// What a clock shows.
pub fn clock_now_ns(clockid: i32, clocks: &Clocks) -> (r: Result<u64, i64>)
    ensures
        match r {
            Ok(n) => (clockid == CLOCK_MONOTONIC && n == clocks.monotonic) || (clockid
                == CLOCK_REALTIME && n == clocks.realtime),
            Err(e) => clockid != CLOCK_MONOTONIC && clockid != CLOCK_REALTIME && e == failed(
                EINVAL,
            ),
        },
{
    if clockid == CLOCK_MONOTONIC {
        Ok(clocks.monotonic)
    } else if clockid == CLOCK_REALTIME {
        Ok(clocks.realtime)
    } else {
        Err(fail(EINVAL))
    }
}

/// The point on the monotonic clock that a point on clock `clockid` is.
pub fn absolute_to_monotonic_deadline(clockid: i32, abs_ns: u64, offset: u64) -> (r: Result<u64, i64>)
    ensures
        match r {
            Ok(n) => (clockid == CLOCK_MONOTONIC && n == abs_ns) || (clockid == CLOCK_REALTIME && n
                == floored(abs_ns - offset)),
            Err(e) => clockid != CLOCK_MONOTONIC && clockid != CLOCK_REALTIME && e == failed(
                EINVAL,
            ),
        },
{
    if clockid == CLOCK_MONOTONIC {
        Ok(abs_ns)
    } else if clockid == CLOCK_REALTIME {
        if abs_ns < offset {
            Ok(0)
        } else {
            Ok(abs_ns - offset)
        }
    } else {
        Err(fail(EINVAL))
    }
}

/// How a sleep goes on after the task was woken for `reason` at `now`; None says that
/// it sleeps on. A wake-up before its time is no reason to stop.
pub fn sleep_until_deadline(deadline_ns: u64, reason: WakeReason, now: u64) -> (r: Option<SleepOutcome>)
    ensures
        r == sleep_step(deadline_ns, reason, now),
{
    match reason {
        WakeReason::Deadline | WakeReason::Event => {
            if now >= deadline_ns {
                Some(SleepOutcome::DeadlineReached)
            } else {
                None
            }
        },
        WakeReason::Signal | WakeReason::Cancelled => {
            let remaining_ns: u64 = if deadline_ns < now {
                0
            } else {
                deadline_ns - now
            };
            Some(SleepOutcome::Interrupted { remaining_ns })
        },
    }
}

pub open spec fn sleep_step(deadline: u64, reason: WakeReason, now: u64) -> Option<SleepOutcome> {
    if reason == WakeReason::Deadline || reason == WakeReason::Event {
        if now >= deadline {
            Some(SleepOutcome::DeadlineReached)
        } else {
            None
        }
    } else {
        Some(SleepOutcome::Interrupted { remaining_ns: floored(deadline - now) })
    }
}

/// The time that sixteen bytes hold.
pub open spec fn timespec_in(s: Seq<u8>) -> Timespec {
    Timespec {
        tv_sec: (le_value(s.subrange(0, 8)) as u64) as i64,
        tv_nsec: (le_value(s.subrange(8, 16)) as u64) as i64,
    }
}

/// The bytes of a time.
pub open spec fn timespec_bytes(t: Timespec) -> Seq<u8> {
    le_digits((t.tv_sec as u64) as nat, 8) + le_digits((t.tv_nsec as u64) as nat, 8)
}

fn read_timespec<M: UserMemory>(mem: &M, addr: u64) -> (r: Result<Timespec, i64>)
    ensures
        match r {
            Ok(t) => accessible(mem, addr, 16) && t == timespec_in(text_bytes(mem, addr, 16)),
            Err(e) => !accessible(mem, addr, 16) && e == failed(EFAULT),
        },
{
    match copy_from_user(mem, addr, 16) {
        Ok(v) => {
            let sec: u64 = read_u64(&v, 0);
            let nsec: u64 = read_u64(&v, 8);
            Ok(Timespec { tv_sec: sec as i64, tv_nsec: nsec as i64 })
        },
        Err(_) => Err(fail(EFAULT)),
    }
}

/// What memory holds after a time was to be written.
pub open spec fn timespec_written<M: UserMemory>(before: &M, after: &M, addr: u64, t: Timespec) -> bool {
    copied(before, after, addr, timespec_bytes(t))
}

fn write_timespec<M: UserMemory>(mem: &mut M, addr: u64, t: Timespec) -> (r: Result<(), i64>)
    ensures
        timespec_written(old(mem), final(mem), addr, t),
        match r {
            Ok(_) => accessible(old(mem), addr, 16),
            Err(e) => !accessible(old(mem), addr, 16) && e == failed(EFAULT),
        },
{
    let mut v: Vec<u8> = Vec::new();
    proof {
        lemma_le_digits_len((t.tv_sec as u64) as nat, 8);
    }
    push_le(&mut v, t.tv_sec as u64, 8);
    push_le(&mut v, t.tv_nsec as u64, 8);
    proof {
        lemma_le_digits_len((t.tv_nsec as u64) as nat, 8);
        assert(v@ =~= timespec_bytes(t));
    }
    match copy_to_user(mem, addr, &v) {
        Ok(_) => Ok(()),
        Err(_) => Err(fail(EFAULT)),
    }
}

/// How a relative sleep of time `t` starts at `now`.
pub open spec fn relative_plan(t: Timespec, now: u64) -> SleepPlan {
    if !t.valid() {
        SleepPlan::Return(failed(EINVAL))
    } else if capped(t.nanos()) == 0 {
        SleepPlan::Return(0)
    } else {
        SleepPlan::Until(capped(now + capped(t.nanos())))
    }
}

fn plan_relative(t: &Timespec, now: u64) -> (r: SleepPlan)
    ensures
        r == relative_plan(*t, now),
{
    match validate_timespec(t) {
        Err(e) => return SleepPlan::Return(e),
        Ok(_) => {},
    }
    let d: u64 = timespec_to_ns(t);
    if d == 0 {
        return SleepPlan::Return(0);
    }
    if now > u64::MAX - d {
        SleepPlan::Until(u64::MAX)
    } else {
        SleepPlan::Until(now + d)
    }
}

/// Starts `nanosleep`.
pub fn sys_nanosleep<M: UserMemory>(mem: &M, req_ptr: u64, now: u64) -> (r: SleepPlan)
    ensures
        r == if accessible(mem, req_ptr, 16) {
            relative_plan(timespec_in(text_bytes(mem, req_ptr, 16)), now)
        } else {
            SleepPlan::Return(failed(EFAULT))
        },
{
    match read_timespec(mem, req_ptr) {
        Ok(t) => plan_relative(&t, now),
        Err(e) => SleepPlan::Return(e),
    }
}

/// How an absolute sleep until time `t` on clock `clockid` starts.
pub open spec fn absolute_plan(clockid: i32, t: Timespec, clocks: Clocks) -> SleepPlan {
    let at = if clockid == CLOCK_MONOTONIC {
        capped(t.nanos())
    } else {
        floored(capped(t.nanos()) - clocks.offset)
    };
    if at <= clocks.monotonic {
        SleepPlan::Return(0)
    } else {
        SleepPlan::Until(at)
    }
}

/// Starts `clock_nanosleep`. A span is the same on every clock.
pub fn sys_clock_nanosleep<M: UserMemory>(
    mem: &M,
    clockid: i32,
    flags: i32,
    req_ptr: u64,
    clocks: &Clocks,
) -> (r: SleepPlan)
    ensures
        ({
            let t = timespec_in(text_bytes(mem, req_ptr, 16));
            r == if flags & !TIMER_ABSTIME != 0 {
                SleepPlan::Return(failed(EINVAL))
            } else if !accessible(mem, req_ptr, 16) {
                SleepPlan::Return(failed(EFAULT))
            } else if !t.valid() || (clockid != CLOCK_MONOTONIC && clockid != CLOCK_REALTIME) {
                SleepPlan::Return(failed(EINVAL))
            } else if flags & TIMER_ABSTIME != 0 {
                absolute_plan(clockid, t, *clocks)
            } else {
                relative_plan(t, clocks.monotonic)
            }
        }),
{
    if flags & !TIMER_ABSTIME != 0 {
        return SleepPlan::Return(fail(EINVAL));
    }
    let t: Timespec = match read_timespec(mem, req_ptr) {
        Ok(t) => t,
        Err(e) => return SleepPlan::Return(e),
    };
    match validate_timespec(&t) {
        Err(e) => return SleepPlan::Return(e),
        Ok(_) => {},
    }
    if clockid != CLOCK_MONOTONIC && clockid != CLOCK_REALTIME {
        return SleepPlan::Return(fail(EINVAL));
    }
    if flags & TIMER_ABSTIME != 0 {
        let abs_ns: u64 = timespec_to_ns(&t);
        match absolute_to_monotonic_deadline(clockid, abs_ns, clocks.offset) {
            Ok(at) => {
                if at <= clocks.monotonic {
                    SleepPlan::Return(0)
                } else {
                    SleepPlan::Until(at)
                }
            },
            Err(e) => SleepPlan::Return(e),
        }
    } else {
        plan_relative(&t, clocks.monotonic)
    }
}

/// Ends a sleep, and returns what the call returns. A span that was cut short leaves
/// what was left of it at `rem_ptr`, where that can be written; an absolute sleep
/// leaves nothing.
pub fn finish_sleep<M: UserMemory>(mem: &mut M, absolute: bool, rem_ptr: u64, outcome: SleepOutcome) -> (r:
    i64)
    ensures
        match outcome {
            SleepOutcome::DeadlineReached => r == 0 && *final(mem) == *old(mem),
            SleepOutcome::Interrupted { remaining_ns } => {
                &&& r == failed(EINTR)
                &&& if absolute || rem_ptr == 0 {
                    *final(mem) == *old(mem)
                } else {
                    timespec_written(old(mem), final(mem), rem_ptr, split_ns(remaining_ns))
                }
            },
        },
{
    match outcome {
        SleepOutcome::DeadlineReached => 0,
        SleepOutcome::Interrupted { remaining_ns } => {
            if !absolute && rem_ptr != 0 {
                let rem: Timespec = ns_to_timespec(remaining_ns);
                let _ = write_timespec(mem, rem_ptr, rem);
            }
            fail(EINTR)
        },
    }
}

/// What a clock shows, where there is such a clock.
pub open spec fn clock_shows(clockid: i32, clocks: Clocks) -> Option<u64> {
    if clockid == CLOCK_MONOTONIC {
        Some(clocks.monotonic)
    } else if clockid == CLOCK_REALTIME {
        Some(clocks.realtime)
    } else {
        None
    }
}

/// Writes what a clock shows.
pub fn sys_clock_gettime<M: UserMemory>(mem: &mut M, clockid: i32, tp_ptr: u64, clocks: &Clocks) -> (r:
    i64)
    ensures
        ({
            if tp_ptr == 0 {
                r == failed(EFAULT) && *final(mem) == *old(mem)
            } else {
                match clock_shows(clockid, *clocks) {
                    None => r == failed(EINVAL) && *final(mem) == *old(mem),
                    Some(ns) => {
                        &&& timespec_written(old(mem), final(mem), tp_ptr, split_ns(ns))
                        &&& r == if accessible(old(mem), tp_ptr, 16) {
                            0
                        } else {
                            failed(EFAULT)
                        }
                    },
                }
            }
        }),
{
    if tp_ptr == 0 {
        return fail(EFAULT);
    }
    let ns: u64 = match clock_now_ns(clockid, clocks) {
        Ok(n) => n,
        Err(e) => return e,
    };
    let ts: Timespec = ns_to_timespec(ns);
    match write_timespec(mem, tp_ptr, ts) {
        Ok(_) => 0,
        Err(e) => e,
    }
}

/// Nanoseconds that were split and joined again are what they were.
pub proof fn lemma_split_join(ns: u64)
    ensures
        split_ns(ns).valid(),
        capped(split_ns(ns).nanos()) == ns,
{
}

/// A sleep never ends before its time unless it is interrupted.
pub proof fn lemma_no_early_end(deadline: u64, reason: WakeReason, now: u64)
    requires
        now < deadline,
    ensures
        match sleep_step(deadline, reason, now) {
            None => true,
            Some(SleepOutcome::DeadlineReached) => false,
            Some(SleepOutcome::Interrupted { remaining_ns }) => remaining_ns == deadline - now,
        },
{
}

} // verus!
