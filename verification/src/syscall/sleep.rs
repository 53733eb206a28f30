//! How the sleeping calls of a program begin, and how long they sleep.

use crate::errno::{fail, failed, EFAULT, EINVAL};
use crate::syscall::time::{capped, Timespec, TIMER_ABSTIME};
use vstd::prelude::*;

verus! {

/// What a sleeping call needs next.
#[derive(Debug, Clone, Copy, PartialEq, Eq, Structural)]
pub enum Nap {
    Return(i64),
    /// Sleeps for as long as the program says, and returns what comes of it.
    Span(Timespec),
    /// The clock is to be read.
    AskClock,
    /// Sleeps for so many nanoseconds, and returns 0.
    Nanos(u64),
}

/// How `nanosleep` goes on, and whether the time that is left is given as none. Sleeps are
/// not cut short, so nothing is ever left.
pub fn nanosleep(req_ptr: u64, rem_ptr: u64, req: Timespec) -> (r: (Nap, bool))
    ensures
        r == if req_ptr == 0 {
            (Nap::Return(failed(EFAULT)), false)
        } else {
            (Nap::Span(req), rem_ptr != 0)
        },
{
    if req_ptr == 0 {
        return (Nap::Return(fail(EFAULT)), false);
    }
    (Nap::Span(req), rem_ptr != 0)
}

/// Why `clock_nanosleep` does not sleep at all, if it does not.
pub open spec fn nap_refused(req_ptr: u64, flags: i32, req: Timespec) -> Option<i64> {
    if req_ptr == 0 {
        Some(failed(EFAULT))
    } else if flags & !TIMER_ABSTIME != 0 || !req.valid() {
        Some(failed(EINVAL))
    } else {
        None
    }
}

/// How long it is from `now` to `req`.
pub open spec fn nap_until(req: Timespec, now: Timespec) -> Nap {
    if req.nanos() <= now.nanos() {
        Nap::Return(0)
    } else {
        Nap::Nanos(capped(req.nanos() - now.nanos()))
    }
}

/// How `clock_nanosleep` goes on, and whether the time that is left is given as none. `now` is
/// what reading the clock gave, None where it was not read yet.
pub fn clock_nanosleep(
    req_ptr: u64,
    rem_ptr: u64,
    flags: i32,
    req: Timespec,
    now: Option<Result<Timespec, i64>>,
) -> (r: (Nap, bool))
    ensures
        match nap_refused(req_ptr, flags, req) {
            Some(e) => r == (Nap::Return(e), false),
            None => {
                &&& r.1 == (rem_ptr != 0)
                &&& r.0 == if flags & TIMER_ABSTIME == 0 {
                    Nap::Span(req)
                } else {
                    match now {
                        None => Nap::AskClock,
                        Some(Err(e)) => Nap::Return(e),
                        Some(Ok(t)) => nap_until(req, t),
                    }
                }
            },
        },
{
    if req_ptr == 0 {
        return (Nap::Return(fail(EFAULT)), false);
    }
    if flags & !TIMER_ABSTIME != 0 || req.tv_sec < 0 || req.tv_nsec < 0 || req.tv_nsec
        >= 1_000_000_000 {
        return (Nap::Return(fail(EINVAL)), false);
    }
    let clear: bool = rem_ptr != 0;
    if flags & TIMER_ABSTIME == 0 {
        return (Nap::Span(req), clear);
    }
    let told: Result<Timespec, i64> = match now {
        None => {
            return (Nap::AskClock, clear);
        },
        Some(told) => told,
    };
    let t: Timespec = match told {
        Err(e) => {
            return (Nap::Return(e), clear);
        },
        Ok(t) => t,
    };
    let until: i128 = req.tv_sec as i128 * 1_000_000_000 + req.tv_nsec as i128;
    let at: i128 = t.tv_sec as i128 * 1_000_000_000 + t.tv_nsec as i128;
    if until <= at {
        return (Nap::Return(0), clear);
    }
    let left: i128 = until - at;
    if left > u64::MAX as i128 {
        (Nap::Nanos(u64::MAX), clear)
    } else {
        (Nap::Nanos(left as u64), clear)
    }
}

/// What `time` returns at `now`, and whether that is written to the program too.
pub fn time(out_ptr: u64, now: u64) -> (r: (i64, bool))
    ensures
        r == (now as i64, out_ptr != 0),
{
    (
        #[verifier::truncate]
        (now as i64),
        out_ptr != 0,
    )
}

} // verus!
