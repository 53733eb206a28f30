//! Waiting for several descriptors at once.

use crate::errno::{fail, failed, EFAULT, EINTR, EINVAL};
use crate::proc::process::WakeReason;
use crate::proc::signals::{bit_of, has_signal, lemma_added, lemma_taken, signal_bit};
use crate::syscall::time::{capped, timespec_to_ns, validate_timespec, Timespec};
use vstd::prelude::*;

verus! {

pub const POLLIN: i16 = 0x001;

pub const POLLPRI: i16 = 0x002;

pub const POLLOUT: i16 = 0x004;

pub const POLLERR: i16 = 0x008;

pub const POLLHUP: i16 = 0x010;

pub const POLLNVAL: i16 = 0x020;

pub const O_ACCMODE: i32 = 3;

pub const O_RDONLY: i32 = 0;

/// How many descriptors a set can hold.
pub const FD_SETSIZE: usize = 1024;

/// A descriptor that is asked about, and what was found of it.
#[derive(Debug, Clone, Copy, PartialEq, Eq, Structural)]
pub struct PollFd {
    pub fd: i32,
    pub events: i16,
    pub revents: i16,
}

/// The state of one end of a connection.
#[derive(Debug, Clone, Copy, PartialEq, Eq, Structural)]
pub struct EndState {
    pub readable: bool,
    pub writable: bool,
    pub hangup: bool,
    pub error: bool,
}

/// What an open file says when it is asked whether it is ready.
#[derive(Debug, Clone, Copy, PartialEq, Eq, Structural)]
pub enum Readiness {
    /// The descriptor is not open.
    Closed,
    /// A file: whether it can be read, where it knows, and how it was opened.
    Node { input: Option<bool>, status_flags: i32 },
    /// A pipe or a local socket.
    End(EndState),
    /// A network socket.
    Net { readable: bool, writable: bool },
    /// Memory that is a file.
    Memory { status_flags: i32 },
}

/// Whether a file may be written.
pub open spec fn opened_for_writing(status_flags: i32) -> bool {
    status_flags & O_ACCMODE != O_RDONLY
}

pub open spec fn flag_if(c: bool, f: i16) -> i16 {
    if c {
        f
    } else {
        0
    }
}

/// What is found of a descriptor that is asked about for `events`.
pub open spec fn found(events: i16, r: Readiness) -> i16 {
    let want_in = events & POLLIN != 0;
    let want_out = events & POLLOUT != 0;
    match r {
        Readiness::Closed => POLLNVAL,
        Readiness::Node { input, status_flags } => {
            (if !want_in {
                0
            } else {
                match input {
                    Some(true) => POLLIN,
                    Some(false) => 0,
                    None => POLLERR,
                }
            }) | flag_if(want_out && opened_for_writing(status_flags), POLLOUT)
        },
        Readiness::End(s) => {
            ((flag_if(want_in && s.readable, POLLIN) | flag_if(want_out && s.writable, POLLOUT))
                | flag_if(s.hangup, POLLHUP)) | flag_if(s.error, POLLERR)
        },
        Readiness::Net { readable, writable } => {
            flag_if(want_in && readable, POLLIN) | flag_if(want_out && writable, POLLOUT)
        },
        Readiness::Memory { status_flags } => {
            flag_if(want_in, POLLIN) | flag_if(
                want_out && opened_for_writing(status_flags),
                POLLOUT,
            )
        },
    }
}

fn pick(c: bool, f: i16) -> (r: i16)
    ensures
        r == flag_if(c, f),
{
    if c {
        f
    } else {
        0
    }
}

fn find_events(events: i16, r: Readiness) -> (f: i16)
    ensures
        f == found(events, r),
{
    let want_in: bool = events & POLLIN != 0;
    let want_out: bool = events & POLLOUT != 0;
    match r {
        Readiness::Closed => POLLNVAL,
        Readiness::Node { input, status_flags } => {
            let found_in: i16 = if !want_in {
                0
            } else {
                match input {
                    Some(b) => if b {
                        POLLIN
                    } else {
                        0
                    },
                    None => POLLERR,
                }
            };
            found_in | pick(want_out && status_flags & O_ACCMODE != O_RDONLY, POLLOUT)
        },
        Readiness::End(s) => {
            ((pick(want_in && s.readable, POLLIN) | pick(want_out && s.writable, POLLOUT)) | pick(
                s.hangup,
                POLLHUP,
            )) | pick(s.error, POLLERR)
        },
        Readiness::Net { readable, writable } => {
            pick(want_in && readable, POLLIN) | pick(want_out && writable, POLLOUT)
        },
        Readiness::Memory { status_flags } => {
            pick(want_in, POLLIN) | pick(
                want_out && status_flags & O_ACCMODE != O_RDONLY,
                POLLOUT,
            )
        },
    }
}

/// A descriptor with what was found of it; a negative one is passed over.
pub open spec fn answered(p: PollFd, r: Readiness) -> PollFd {
    PollFd {
        revents: if p.fd < 0 {
            0
        } else {
            found(p.events, r)
        },
        ..p
    }
}

pub open spec fn answers(fds: Seq<PollFd>, rs: Seq<Readiness>) -> Seq<PollFd> {
    Seq::new(fds.len(), |i: int| answered(fds[i], rs[i]))
}

/// How many descriptors something was found of.
pub open spec fn ready_count(fds: Seq<PollFd>) -> int
    decreases fds.len(),
{
    if fds.len() == 0 {
        0
    } else {
        ready_count(fds.drop_last()) + if fds.last().revents != 0 {
            1int
        } else {
            0
        }
    }
}

/// Asks about descriptors, with what their files say, and counts those that are ready.
pub fn poll_fd_set(fds: &mut Vec<PollFd>, states: &Vec<Readiness>) -> (n: usize)
    requires
        states@.len() == old(fds)@.len(),
    ensures
        final(fds)@ == answers(old(fds)@, states@),
        n == ready_count(final(fds)@),
{
    let ghost before = fds@;
    let ghost all = answers(before, states@);
    let mut n: usize = 0;
    let mut i: usize = 0;
    proof {
        assert(all.take(0).len() == 0);
        assert(fds@ =~= all.take(0) + before.skip(0));
    }
    while i < fds.len()
        invariant
            i <= before.len(),
            n <= i,
            before.len() == fds@.len(),
            states@.len() == before.len(),
            all == answers(before, states@),
            fds@ == all.take(i as int) + before.skip(i as int),
            n == ready_count(all.take(i as int)),
        decreases before.len() - i,
    {
        let p: PollFd = fds[i];
        proof {
            assert(p == before[i as int]);
        }
        let revents: i16 = if p.fd < 0 {
            0
        } else {
            find_events(p.events, states[i])
        };
        fds.set(i, PollFd { fd: p.fd, events: p.events, revents });
        if revents != 0 {
            n = n + 1;
        }
        proof {
            assert(all[i as int] == fds@[i as int]);
            assert(all.take(i + 1).drop_last() =~= all.take(i as int));
            assert(fds@ =~= all.take(i + 1) + before.skip(i + 1));
        }
        i = i + 1;
    }
    proof {
        assert(fds@ =~= all);
        assert(all.take(i as int) =~= all);
    }
    n
}

/// The end of a wait of `timeout_ms`; a negative time is endless.
pub fn poll_timeout_to_deadline(timeout_ms: isize, now_ns: u64) -> (r: Option<u64>)
    ensures
        r == if timeout_ms < 0 {
            None::<u64>
        } else {
            Some(capped(now_ns + capped(timeout_ms * 1_000_000)))
        },
{
    if timeout_ms < 0 {
        None
    } else {
        let ms: u64 = timeout_ms as u64;
        let delta: u64 = if ms > u64::MAX / 1_000_000 {
            u64::MAX
        } else {
            ms * 1_000_000
        };
        if now_ns > u64::MAX - delta {
            Some(u64::MAX)
        } else {
            Some(now_ns + delta)
        }
    }
}

/// A time in seconds and microseconds.
#[derive(Debug, Clone, Copy, PartialEq, Eq, Structural)]
pub struct Timeval {
    pub tv_sec: i64,
    pub tv_usec: i64,
}

impl Timeval {
    pub open spec fn valid(self) -> bool {
        self.tv_sec >= 0 && 0 <= self.tv_usec < 1_000_000
    }
}

pub fn valid_timeval(value: Timeval) -> (r: bool)
    ensures
        r == value.valid(),
{
    value.tv_sec >= 0 && 0 <= value.tv_usec && value.tv_usec < 1_000_000
}

/// The nanoseconds of a valid time, as far as a word can hold them.
pub fn timeval_to_ns(tv: Timeval) -> (r: u64)
    requires
        tv.valid(),
    ensures
        r == capped(tv.tv_sec * 1_000_000_000 + tv.tv_usec * 1000),
{
    let total: u128 = tv.tv_sec as u128 * 1_000_000_000u128 + tv.tv_usec as u128 * 1000u128;
    if total > u64::MAX as u128 {
        u64::MAX
    } else {
        total as u64
    }
}

/// Whether the time of a wait is up.
pub open spec fn expired(deadline: Option<u64>, now: u64) -> bool {
    deadline matches Some(d) && now >= d
}

fn is_expired(deadline: Option<u64>, now: u64) -> (r: bool)
    ensures
        r == expired(deadline, now),
{
    match deadline {
        Some(d) => now >= d,
        None => false,
    }
}

/// The start of a round of waiting: a signal ends the wait, and so does its time. None
/// says that the descriptors are to be asked.
pub fn wait_begin(signal_pending: bool, deadline: Option<u64>, now: u64) -> (r: Option<i64>)
    ensures
        r == if signal_pending {
            Some(failed(EINTR))
        } else if expired(deadline, now) {
            Some(0i64)
        } else {
            None::<i64>
        },
{
    if signal_pending {
        return Some(fail(EINTR));
    }
    if is_expired(deadline, now) {
        return Some(0);
    }
    None
}

/// What a wait for descriptors is answered, if it is over.
pub open spec fn poll_over(ready: usize, deadline: Option<u64>, now: u64) -> Option<i64> {
    if ready > 0 {
        Some(ready as i64)
    } else if expired(deadline, now) {
        Some(0i64)
    } else {
        None
    }
}

/// What the answer of the descriptors means before the task sleeps. None says that it
/// sleeps.
pub fn wait_checked(ready: usize, deadline: Option<u64>, now: u64) -> (r: Option<i64>)
    requires
        ready <= i64::MAX,
    ensures
        r == poll_over(ready, deadline, now),
{
    if ready > 0 {
        return Some(ready as i64);
    }
    if is_expired(deadline, now) {
        return Some(0);
    }
    None
}

/// What a wake-up means; `ready` is what the descriptors said after it. None says that
/// the wait goes on. What is ready when the time is up still counts.
pub fn wait_woken(reason: WakeReason, ready: usize) -> (r: Option<i64>)
    requires
        ready <= i64::MAX,
    ensures
        r == match reason {
            WakeReason::Signal => Some(failed(EINTR)),
            WakeReason::Cancelled => Some(failed(EINTR)),
            WakeReason::Deadline => Some(ready as i64),
            WakeReason::Event => if ready > 0 {
                Some(ready as i64)
            } else {
                None::<i64>
            },
        },
{
    match reason {
        WakeReason::Signal | WakeReason::Cancelled => Some(fail(EINTR)),
        WakeReason::Deadline => Some(ready as i64),
        WakeReason::Event => if ready > 0 {
            Some(ready as i64)
        } else {
            None
        },
    }
}

/// How a call goes on after the descriptors were asked for the first time.
#[derive(Debug, Clone, Copy, PartialEq, Eq, Structural)]
pub enum PollPlan {
    Return(i64),
    /// Waits until the monotonic clock shows this, or without end.
    Wait(Option<u64>),
}

/// Whether `poll` and `ppoll` fail before any descriptor is asked. Without descriptors they
/// only wait.
pub fn poll_refused(fds_ptr: u64, count: u64) -> (r: Option<i64>)
    ensures
        r == if count != 0 && fds_ptr == 0 {
            Some(failed(EFAULT))
        } else {
            None::<i64>
        },
{
    if count != 0 && fds_ptr == 0 {
        Some(fail(EFAULT))
    } else {
        None
    }
}

/// `poll`, once the descriptors were asked.
pub fn poll(ready: usize, timeout_ms: isize, now: u64) -> (r: PollPlan)
    requires
        ready <= i64::MAX,
    ensures
        r == if ready > 0 {
            PollPlan::Return(ready as i64)
        } else if timeout_ms == 0 {
            PollPlan::Return(0)
        } else if timeout_ms < 0 {
            PollPlan::Wait(None)
        } else {
            PollPlan::Wait(Some(capped(now + capped(timeout_ms * 1_000_000))))
        },
{
    if ready > 0 {
        return PollPlan::Return(ready as i64);
    }
    if timeout_ms == 0 {
        return PollPlan::Return(0);
    }
    PollPlan::Wait(poll_timeout_to_deadline(timeout_ms, now))
}

/// The end of the wait of a `ppoll` with the time `timeout`.
pub fn ppoll_deadline(timeout: Option<Timespec>, now: u64) -> (r: Result<Option<u64>, i64>)
    ensures
        match timeout {
            None => r == Ok::<Option<u64>, i64>(None),
            Some(t) => if t.valid() {
                r == Ok::<Option<u64>, i64>(Some(capped(now + capped(t.nanos()))))
            } else {
                r == Err::<Option<u64>, i64>(failed(EINVAL))
            },
        },
{
    match timeout {
        None => Ok(None),
        Some(t) => match validate_timespec(&t) {
            Err(e) => Err(e),
            Ok(_) => {
                let delta: u64 = timespec_to_ns(&t);
                if now > u64::MAX - delta {
                    Ok(Some(u64::MAX))
                } else {
                    Ok(Some(now + delta))
                }
            },
        },
    }
}

/// `ppoll`, once the descriptors were asked.
pub fn ppoll(ready: usize, timeout: Option<Timespec>, deadline: Option<u64>) -> (r: PollPlan)
    requires
        ready <= i64::MAX,
    ensures
        r == if ready > 0 {
            PollPlan::Return(ready as i64)
        } else if timeout matches Some(t) && t.tv_sec == 0 && t.tv_nsec == 0 {
            PollPlan::Return(0)
        } else {
            PollPlan::Wait(deadline)
        },
{
    if ready > 0 {
        return PollPlan::Return(ready as i64);
    }
    match timeout {
        Some(t) => {
            if t.tv_sec == 0 && t.tv_nsec == 0 {
                return PollPlan::Return(0);
            }
        },
        None => {},
    }
    PollPlan::Wait(deadline)
}

/// A set of descriptors: bit `fd % 64` of word `fd / 64`.
pub struct FdSet {
    pub words: Vec<u64>,
}

impl FdSet {
    pub open spec fn wf(&self) -> bool {
        self.words@.len() == 16
    }

    pub open spec fn has(&self, fd: int) -> bool {
        0 <= fd < 1024 && has_signal(self.words@[fd / 64], fd % 64 + 1)
    }

    /// The set without descriptors.
    pub fn empty() -> (r: Self)
        ensures
            r.wf(),
            forall|fd: int| !#[trigger] r.has(fd),
    {
        let mut words: Vec<u64> = Vec::new();
        let mut i: usize = 0;
        while i < 16
            invariant
                i <= 16,
                words@.len() == i,
                forall|k: int| 0 <= k < i ==> words@[k] == 0,
            decreases 16 - i,
        {
            words.push(0);
            i = i + 1;
        }
        proof {
            assert forall|fd: int| 0 <= fd < 1024 implies !has_signal(
                #[trigger] words@[fd / 64],
                fd % 64 + 1,
            ) by {
                let b = bit_of(fd % 64 + 1);
                assert(0u64 & b == 0) by (bit_vector);
            }
        }
        FdSet { words }
    }

    pub fn isset(&self, fd: usize) -> (r: bool)
        requires
            self.wf(),
            fd < FD_SETSIZE,
        ensures
            r == self.has(fd as int),
    {
        self.words[fd / 64] & signal_bit(fd % 64 + 1) != 0
    }

    pub fn set(&mut self, fd: usize)
        requires
            old(self).wf(),
            fd < FD_SETSIZE,
        ensures
            final(self).wf(),
            forall|k: int| #[trigger] final(self).has(k) == (k == fd || old(self).has(k)),
    {
        let w: u64 = self.words[fd / 64];
        self.words.set(fd / 64, w | signal_bit(fd % 64 + 1));
        proof {
            let now = *self;
            assert forall|k: int| #[trigger] now.has(k) == (k == fd || old(self).has(k)) by {
                if 0 <= k < 1024 {
                    lemma_added(w, fd % 64 + 1, k % 64 + 1);
                    if k / 64 == fd / 64 && k % 64 == fd % 64 {
                        assert(k == fd);
                    }
                }
            }
        }
    }

    pub fn clr(&mut self, fd: usize)
        requires
            old(self).wf(),
            fd < FD_SETSIZE,
        ensures
            final(self).wf(),
            forall|k: int| #[trigger] final(self).has(k) == (k != fd && old(self).has(k)),
    {
        let w: u64 = self.words[fd / 64];
        self.words.set(fd / 64, w & !signal_bit(fd % 64 + 1));
        proof {
            let now = *self;
            assert forall|k: int| #[trigger] now.has(k) == (k != fd && old(self).has(k)) by {
                if 0 <= k < 1024 {
                    lemma_taken(w, fd % 64 + 1, k % 64 + 1);
                    if k / 64 == fd / 64 && k % 64 == fd % 64 {
                        assert(k == fd);
                    }
                }
            }
        }
    }
}

/// The three sets of a `select`.
pub struct SelectSets {
    pub read: FdSet,
    pub write: FdSet,
    pub except: FdSet,
}

impl SelectSets {
    pub open spec fn wf(&self) -> bool {
        self.read.wf() && self.write.wf() && self.except.wf()
    }
}

/// What is asked of descriptor `fd`.
pub open spec fn asked(s: &SelectSets, fd: int) -> i16 {
    (flag_if(s.read.has(fd), POLLIN) | flag_if(s.write.has(fd), POLLOUT)) | flag_if(
        s.except.has(fd),
        POLLPRI,
    )
}

/// The descriptors below `n` that something is asked of.
pub open spec fn select_fds(s: &SelectSets, n: int) -> Seq<PollFd>
    decreases n,
{
    if n <= 0 {
        Seq::<PollFd>::empty()
    } else {
        let rest = select_fds(s, n - 1);
        if asked(s, n - 1) != 0 {
            rest.push(PollFd { fd: (n - 1) as i32, events: asked(s, n - 1), revents: 0 })
        } else {
            rest
        }
    }
}

proof fn lemma_select_fds(s: &SelectSets, n: int)
    requires
        0 <= n <= 1024,
    ensures
        select_fds(s, n).len() <= n,
        forall|i: int| 0 <= i < select_fds(s, n).len() ==> 0 <= (#[trigger] select_fds(s, n)[i]).fd < n,
    decreases n,
{
    if n > 0 {
        lemma_select_fds(s, n - 1);
    }
}

/// How a `select` waits.
#[derive(Debug, Clone, Copy, PartialEq, Eq, Structural)]
pub enum SelectWait {
    /// Asks once.
    Once,
    Until(u64),
    Forever,
}

/// How a `select` with the time `timeout` waits.
pub open spec fn select_wait(timeout: Option<Timeval>, now: u64) -> Result<SelectWait, i64> {
    match timeout {
        None => Ok(SelectWait::Forever),
        Some(tv) => if tv.tv_sec == 0 && tv.tv_usec == 0 {
            Ok(SelectWait::Once)
        } else if tv.valid() {
            Ok(
                SelectWait::Until(
                    capped(now + capped(tv.tv_sec * 1_000_000_000 + tv.tv_usec * 1000)),
                ),
            )
        } else {
            Err(failed(EINVAL))
        },
    }
}

/// Starts `select`: which descriptors are asked, and how it waits.
pub fn select_begin(nfds: i32, sets: &SelectSets, timeout: Option<Timeval>, now: u64) -> (r: Result<
    (Vec<PollFd>, SelectWait),
    i64,
>)
    requires
        sets.wf(),
    ensures
        match r {
            Ok((fds, wait)) => {
                &&& 0 <= nfds <= 1024
                &&& fds@ == select_fds(sets, nfds as int)
                &&& fds@.len() <= 1024
                &&& select_wait(timeout, now) == Ok::<SelectWait, i64>(wait)
            },
            Err(e) => {
                &&& e == failed(EINVAL)
                &&& nfds < 0 || nfds > 1024 || select_wait(timeout, now) is Err
            },
        },
{
    if nfds < 0 || nfds > FD_SETSIZE as i32 {
        return Err(fail(EINVAL));
    }
    let n: usize = nfds as usize;
    let mut fds: Vec<PollFd> = Vec::new();
    let mut fd: usize = 0;
    while fd < n
        invariant
            fd <= n <= 1024,
            sets.wf(),
            fds@ == select_fds(sets, fd as int),
        decreases n - fd,
    {
        let events: i16 = (pick(sets.read.isset(fd), POLLIN) | pick(sets.write.isset(fd), POLLOUT))
            | pick(sets.except.isset(fd), POLLPRI);
        if events != 0 {
            fds.push(PollFd { fd: fd as i32, events, revents: 0 });
        }
        fd = fd + 1;
    }
    proof {
        lemma_select_fds(sets, nfds as int);
    }
    let wait: SelectWait = match timeout {
        None => SelectWait::Forever,
        Some(tv) => {
            if tv.tv_sec == 0 && tv.tv_usec == 0 {
                SelectWait::Once
            } else {
                if !valid_timeval(tv) {
                    return Err(fail(EINVAL));
                }
                let delta: u64 = timeval_to_ns(tv);
                if now > u64::MAX - delta {
                    SelectWait::Until(u64::MAX)
                } else {
                    SelectWait::Until(now + delta)
                }
            }
        },
    };
    Ok((fds, wait))
}

/// Whether one of the descriptors is `fd` and was found in one of the states `mask`.
pub open spec fn reported_in(fds: Seq<PollFd>, fd: int, mask: i16) -> bool {
    exists|i: int| 0 <= i < fds.len() && (#[trigger] fds[i]).fd == fd && fds[i].revents & mask != 0
}

/// A set after a `select`: below `n` it holds what was found, from there on what it
/// held before.
pub open spec fn select_result(
    before: &FdSet,
    after: &FdSet,
    fds: Seq<PollFd>,
    n: int,
    mask: i16,
) -> bool {
    forall|k: int| #[trigger]
        after.has(k) == if 0 <= k < n {
            reported_in(fds, k, mask)
        } else {
            before.has(k)
        }
}

fn report_set(set: &mut FdSet, fds: &Vec<PollFd>, n: usize, mask: i16)
    requires
        old(set).wf(),
        n <= 1024,
        forall|i: int| 0 <= i < fds@.len() ==> 0 <= (#[trigger] fds@[i]).fd,
    ensures
        final(set).wf(),
        select_result(old(set), final(set), fds@, n as int, mask),
{
    let ghost before = *set;
    let mut k: usize = 0;
    while k < n
        invariant
            set.wf(),
            k <= n <= 1024,
            forall|j: int| #[trigger] set.has(j) == (!(0 <= j < k) && before.has(j)),
        decreases n - k,
    {
        set.clr(k);
        k = k + 1;
    }
    let mut i: usize = 0;
    proof {
        assert forall|j: int| #[trigger]
            set.has(j) == if 0 <= j < n {
                reported_in(fds@.take(0), j, mask)
            } else {
                before.has(j)
            } by {}
    }
    while i < fds.len()
        invariant
            set.wf(),
            n <= 1024,
            i <= fds@.len(),
            forall|i: int| 0 <= i < fds@.len() ==> 0 <= (#[trigger] fds@[i]).fd,
            forall|j: int| #[trigger]
                set.has(j) == if 0 <= j < n {
                    reported_in(fds@.take(i as int), j, mask)
                } else {
                    before.has(j)
                },
        decreases fds@.len() - i,
    {
        let p: PollFd = fds[i];
        let ghost prior = *set;
        let fd: usize = p.fd as usize;
        if fd < n && p.revents & mask != 0 {
            set.set(fd);
        }
        proof {
            let now = fds@.take(i + 1);
            let was = fds@.take(i as int);
            assert forall|j: int| #[trigger]
                set.has(j) == if 0 <= j < n {
                    reported_in(now, j, mask)
                } else {
                    before.has(j)
                } by {
                assert(prior.has(j) == if 0 <= j < n {
                    reported_in(was, j, mask)
                } else {
                    before.has(j)
                });
                if reported_in(was, j, mask) {
                    let q = choose|q: int|
                        0 <= q < was.len() && (#[trigger] was[q]).fd == j && was[q].revents & mask != 0;
                    assert(now[q] == was[q]);
                }
                if p.fd == j && p.revents & mask != 0 {
                    assert(now[i as int] == p);
                }
                if reported_in(now, j, mask) && !(p.fd == j && p.revents & mask != 0) {
                    let q = choose|q: int|
                        0 <= q < now.len() && (#[trigger] now[q]).fd == j && now[q].revents & mask != 0;
                    assert(q < i);
                    assert(was[q] == now[q]);
                }
            }
        }
        i = i + 1;
    }
    proof {
        assert(fds@.take(i as int) =~= fds@);
    }
}

/// Ends `select`: the sets say what was found. Where the time ran out they are empty
/// throughout, and else they keep what they hold from `nfds` on.
pub fn select_end(sets: SelectSets, fds: &Vec<PollFd>, nfds: i32, timed_out: bool) -> (r: SelectSets)
    requires
        sets.wf(),
        0 <= nfds <= 1024,
        forall|i: int| 0 <= i < fds@.len() ==> 0 <= (#[trigger] fds@[i]).fd,
    ensures
        r.wf(),
        !timed_out ==> {
            &&& select_result(&sets.read, &r.read, fds@, nfds as int, POLLIN | POLLHUP | POLLERR)
            &&& select_result(&sets.write, &r.write, fds@, nfds as int, POLLOUT)
            &&& select_result(&sets.except, &r.except, fds@, nfds as int, POLLERR | POLLNVAL)
        },
        timed_out ==> forall|k: int|
            {
                &&& #[trigger] r.read.has(k) == (0 <= k < nfds && reported_in(
                    fds@,
                    k,
                    POLLIN | POLLHUP | POLLERR,
                ))
                &&& #[trigger] r.write.has(k) == (0 <= k < nfds && reported_in(fds@, k, POLLOUT))
                &&& #[trigger] r.except.has(k) == (0 <= k < nfds && reported_in(
                    fds@,
                    k,
                    POLLERR | POLLNVAL,
                ))
            },
{
    let n: usize = nfds as usize;
    let mut read: FdSet = sets.read;
    let mut write: FdSet = sets.write;
    let mut except: FdSet = sets.except;
    if timed_out {
        read = FdSet::empty();
        write = FdSet::empty();
        except = FdSet::empty();
    }
    report_set(&mut read, fds, n, POLLIN | POLLHUP | POLLERR);
    report_set(&mut write, fds, n, POLLOUT);
    report_set(&mut except, fds, n, POLLERR | POLLNVAL);
    SelectSets { read, write, except }
}

/// A descriptor that is closed counts as ready, and one that is negative does not.
pub proof fn lemma_closed_is_ready(p: PollFd)
    ensures
        p.fd >= 0 ==> answered(p, Readiness::Closed).revents == POLLNVAL,
        p.fd < 0 ==> forall|r: Readiness| (#[trigger] answered(p, r)).revents == 0,
{
}

} // verus!
