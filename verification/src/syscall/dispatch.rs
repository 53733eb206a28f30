//! From a system call to what is done for it.

use crate::errno::{fail, failed, EBADF, EINVAL, ENOSYS, ESRCH};
use crate::proc::process::{slot_of, with_fd, FdEntry, ProcView, Process};
use crate::proc::regs::{InterruptStack, ScratchRegisters};
use crate::proc::sched::{process, with_process};
use crate::proc::table::{known, lemma_position, ProcessTable, TableView};
use crate::syscall::files::{close, dup, dup2, install_result, installed, umask};
use crate::preempt::{cond_resched, resched_result, Preempt};
use crate::syscall::route::{route, routed, Service};
use crate::syscall::signal::{
    deliver_pending_signal, getpgid, getppid, getsid, has_handler, is_next_signal, named, setpgid,
    signal_handled, tgkill, Delivery,
};
use vstd::prelude::*;

verus! {

/// The system calls.
#[derive(Debug, Clone, Copy, PartialEq, Eq, Structural)]
pub enum Call {
    Read,
    Write,
    Open,
    Close,
    Stat,
    Fstat,
    Lstat,
    Poll,
    Lseek,
    Mmap,
    Mprotect,
    Munmap,
    Brk,
    RtSigaction,
    RtSigprocmask,
    RtSigreturn,
    Ioctl,
    Pread64,
    Readv,
    Writev,
    Access,
    Pipe,
    Select,
    SchedYield,
    Msync,
    Madvise,
    Dup,
    Dup2,
    Pause,
    Nanosleep,
    Setitimer,
    Getpid,
    Socket,
    Connect,
    Accept,
    Sendto,
    Recvfrom,
    Sendmsg,
    Recvmsg,
    Shutdown,
    Bind,
    Listen,
    Getsockname,
    Getpeername,
    Socketpair,
    Setsockopt,
    Getsockopt,
    Clone,
    Fork,
    Execve,
    Exit,
    Wait4,
    Kill,
    Uname,
    Fcntl,
    Ftruncate,
    Getcwd,
    Chdir,
    Fchdir,
    Rename,
    Mkdir,
    Rmdir,
    Unlink,
    Readlink,
    Chmod,
    Umask,
    Getrusage,
    Sysinfo,
    Getuid,
    Getgid,
    Setuid,
    Setgid,
    Geteuid,
    Getegid,
    Setpgid,
    Getppid,
    Getpgrp,
    Setsid,
    Getpgid,
    Getsid,
    Capget,
    RtSigsuspend,
    Sigaltstack,
    Statfs,
    Fstatfs,
    Prctl,
    ArchPrctl,
    Reboot,
    Gettid,
    Listxattr,
    Llistxattr,
    Flistxattr,
    Time,
    Futex,
    SchedGetaffinity,
    Getdents64,
    SetTidAddress,
    ClockGettime,
    ClockNanosleep,
    ExitGroup,
    Tgkill,
    Openat,
    Mkdirat,
    Newfstatat,
    Readlinkat,
    Ppoll,
    SetRobustList,
    Utimensat,
    Accept4,
    Dup3,
    Pipe2,
    Preadv,
    Pwritev,
    Prlimit64,
    Getrandom,
    MemfdCreate,
    Rseq,
    Clone3,
    AddUserKey,
    SetFileAttr,
    Install,
}

/// The number of a call.
pub open spec fn number_of(c: Call) -> u64 {
    match c {
        Call::Read => 0,
        Call::Write => 1,
        Call::Open => 2,
        Call::Close => 3,
        Call::Stat => 4,
        Call::Fstat => 5,
        Call::Lstat => 6,
        Call::Poll => 7,
        Call::Lseek => 8,
        Call::Mmap => 9,
        Call::Mprotect => 10,
        Call::Munmap => 11,
        Call::Brk => 12,
        Call::RtSigaction => 13,
        Call::RtSigprocmask => 14,
        Call::RtSigreturn => 15,
        Call::Ioctl => 16,
        Call::Pread64 => 17,
        Call::Readv => 19,
        Call::Writev => 20,
        Call::Access => 21,
        Call::Pipe => 22,
        Call::Select => 23,
        Call::SchedYield => 24,
        Call::Msync => 26,
        Call::Madvise => 28,
        Call::Dup => 32,
        Call::Dup2 => 33,
        Call::Pause => 34,
        Call::Nanosleep => 35,
        Call::Setitimer => 38,
        Call::Getpid => 39,
        Call::Socket => 41,
        Call::Connect => 42,
        Call::Accept => 43,
        Call::Sendto => 44,
        Call::Recvfrom => 45,
        Call::Sendmsg => 46,
        Call::Recvmsg => 47,
        Call::Shutdown => 48,
        Call::Bind => 49,
        Call::Listen => 50,
        Call::Getsockname => 51,
        Call::Getpeername => 52,
        Call::Socketpair => 53,
        Call::Setsockopt => 54,
        Call::Getsockopt => 55,
        Call::Clone => 56,
        Call::Fork => 57,
        Call::Execve => 59,
        Call::Exit => 60,
        Call::Wait4 => 61,
        Call::Kill => 62,
        Call::Uname => 63,
        Call::Fcntl => 72,
        Call::Ftruncate => 77,
        Call::Getcwd => 79,
        Call::Chdir => 80,
        Call::Fchdir => 81,
        Call::Rename => 82,
        Call::Mkdir => 83,
        Call::Rmdir => 84,
        Call::Unlink => 87,
        Call::Readlink => 89,
        Call::Chmod => 90,
        Call::Umask => 95,
        Call::Getrusage => 98,
        Call::Sysinfo => 99,
        Call::Getuid => 102,
        Call::Getgid => 104,
        Call::Setuid => 105,
        Call::Setgid => 106,
        Call::Geteuid => 107,
        Call::Getegid => 108,
        Call::Setpgid => 109,
        Call::Getppid => 110,
        Call::Getpgrp => 111,
        Call::Setsid => 112,
        Call::Getpgid => 121,
        Call::Getsid => 124,
        Call::Capget => 125,
        Call::RtSigsuspend => 130,
        Call::Sigaltstack => 131,
        Call::Statfs => 137,
        Call::Fstatfs => 138,
        Call::Prctl => 157,
        Call::ArchPrctl => 158,
        Call::Reboot => 169,
        Call::Gettid => 186,
        Call::Listxattr => 194,
        Call::Llistxattr => 195,
        Call::Flistxattr => 196,
        Call::Time => 201,
        Call::Futex => 202,
        Call::SchedGetaffinity => 204,
        Call::Getdents64 => 217,
        Call::SetTidAddress => 218,
        Call::ClockGettime => 228,
        Call::ClockNanosleep => 230,
        Call::ExitGroup => 231,
        Call::Tgkill => 234,
        Call::Openat => 257,
        Call::Mkdirat => 258,
        Call::Newfstatat => 262,
        Call::Readlinkat => 267,
        Call::Ppoll => 271,
        Call::SetRobustList => 273,
        Call::Utimensat => 280,
        Call::Accept4 => 288,
        Call::Dup3 => 292,
        Call::Pipe2 => 293,
        Call::Preadv => 295,
        Call::Pwritev => 296,
        Call::Prlimit64 => 302,
        Call::Getrandom => 318,
        Call::MemfdCreate => 319,
        Call::Rseq => 334,
        Call::Clone3 => 435,
        Call::AddUserKey => 448,
        Call::SetFileAttr => 449,
        Call::Install => 700,
    }
}

pub fn call_number(c: Call) -> (r: u64)
    ensures
        r == number_of(c),
{
    match c {
        Call::Read => 0,
        Call::Write => 1,
        Call::Open => 2,
        Call::Close => 3,
        Call::Stat => 4,
        Call::Fstat => 5,
        Call::Lstat => 6,
        Call::Poll => 7,
        Call::Lseek => 8,
        Call::Mmap => 9,
        Call::Mprotect => 10,
        Call::Munmap => 11,
        Call::Brk => 12,
        Call::RtSigaction => 13,
        Call::RtSigprocmask => 14,
        Call::RtSigreturn => 15,
        Call::Ioctl => 16,
        Call::Pread64 => 17,
        Call::Readv => 19,
        Call::Writev => 20,
        Call::Access => 21,
        Call::Pipe => 22,
        Call::Select => 23,
        Call::SchedYield => 24,
        Call::Msync => 26,
        Call::Madvise => 28,
        Call::Dup => 32,
        Call::Dup2 => 33,
        Call::Pause => 34,
        Call::Nanosleep => 35,
        Call::Setitimer => 38,
        Call::Getpid => 39,
        Call::Socket => 41,
        Call::Connect => 42,
        Call::Accept => 43,
        Call::Sendto => 44,
        Call::Recvfrom => 45,
        Call::Sendmsg => 46,
        Call::Recvmsg => 47,
        Call::Shutdown => 48,
        Call::Bind => 49,
        Call::Listen => 50,
        Call::Getsockname => 51,
        Call::Getpeername => 52,
        Call::Socketpair => 53,
        Call::Setsockopt => 54,
        Call::Getsockopt => 55,
        Call::Clone => 56,
        Call::Fork => 57,
        Call::Execve => 59,
        Call::Exit => 60,
        Call::Wait4 => 61,
        Call::Kill => 62,
        Call::Uname => 63,
        Call::Fcntl => 72,
        Call::Ftruncate => 77,
        Call::Getcwd => 79,
        Call::Chdir => 80,
        Call::Fchdir => 81,
        Call::Rename => 82,
        Call::Mkdir => 83,
        Call::Rmdir => 84,
        Call::Unlink => 87,
        Call::Readlink => 89,
        Call::Chmod => 90,
        Call::Umask => 95,
        Call::Getrusage => 98,
        Call::Sysinfo => 99,
        Call::Getuid => 102,
        Call::Getgid => 104,
        Call::Setuid => 105,
        Call::Setgid => 106,
        Call::Geteuid => 107,
        Call::Getegid => 108,
        Call::Setpgid => 109,
        Call::Getppid => 110,
        Call::Getpgrp => 111,
        Call::Setsid => 112,
        Call::Getpgid => 121,
        Call::Getsid => 124,
        Call::Capget => 125,
        Call::RtSigsuspend => 130,
        Call::Sigaltstack => 131,
        Call::Statfs => 137,
        Call::Fstatfs => 138,
        Call::Prctl => 157,
        Call::ArchPrctl => 158,
        Call::Reboot => 169,
        Call::Gettid => 186,
        Call::Listxattr => 194,
        Call::Llistxattr => 195,
        Call::Flistxattr => 196,
        Call::Time => 201,
        Call::Futex => 202,
        Call::SchedGetaffinity => 204,
        Call::Getdents64 => 217,
        Call::SetTidAddress => 218,
        Call::ClockGettime => 228,
        Call::ClockNanosleep => 230,
        Call::ExitGroup => 231,
        Call::Tgkill => 234,
        Call::Openat => 257,
        Call::Mkdirat => 258,
        Call::Newfstatat => 262,
        Call::Readlinkat => 267,
        Call::Ppoll => 271,
        Call::SetRobustList => 273,
        Call::Utimensat => 280,
        Call::Accept4 => 288,
        Call::Dup3 => 292,
        Call::Pipe2 => 293,
        Call::Preadv => 295,
        Call::Pwritev => 296,
        Call::Prlimit64 => 302,
        Call::Getrandom => 318,
        Call::MemfdCreate => 319,
        Call::Rseq => 334,
        Call::Clone3 => 435,
        Call::AddUserKey => 448,
        Call::SetFileAttr => 449,
        Call::Install => 700,
    }
}

/// The call with number `n`.
pub fn decode(n: u64) -> (r: Option<Call>)
    ensures
        match r {
            Some(c) => number_of(c) == n,
            None => forall|c: Call| #[trigger] number_of(c) != n,
        },
{
    match n {
        0 => Some(Call::Read),
        1 => Some(Call::Write),
        2 => Some(Call::Open),
        3 => Some(Call::Close),
        4 => Some(Call::Stat),
        5 => Some(Call::Fstat),
        6 => Some(Call::Lstat),
        7 => Some(Call::Poll),
        8 => Some(Call::Lseek),
        9 => Some(Call::Mmap),
        10 => Some(Call::Mprotect),
        11 => Some(Call::Munmap),
        12 => Some(Call::Brk),
        13 => Some(Call::RtSigaction),
        14 => Some(Call::RtSigprocmask),
        15 => Some(Call::RtSigreturn),
        16 => Some(Call::Ioctl),
        17 => Some(Call::Pread64),
        19 => Some(Call::Readv),
        20 => Some(Call::Writev),
        21 => Some(Call::Access),
        22 => Some(Call::Pipe),
        23 => Some(Call::Select),
        24 => Some(Call::SchedYield),
        26 => Some(Call::Msync),
        28 => Some(Call::Madvise),
        32 => Some(Call::Dup),
        33 => Some(Call::Dup2),
        34 => Some(Call::Pause),
        35 => Some(Call::Nanosleep),
        38 => Some(Call::Setitimer),
        39 => Some(Call::Getpid),
        41 => Some(Call::Socket),
        42 => Some(Call::Connect),
        43 => Some(Call::Accept),
        44 => Some(Call::Sendto),
        45 => Some(Call::Recvfrom),
        46 => Some(Call::Sendmsg),
        47 => Some(Call::Recvmsg),
        48 => Some(Call::Shutdown),
        49 => Some(Call::Bind),
        50 => Some(Call::Listen),
        51 => Some(Call::Getsockname),
        52 => Some(Call::Getpeername),
        53 => Some(Call::Socketpair),
        54 => Some(Call::Setsockopt),
        55 => Some(Call::Getsockopt),
        56 => Some(Call::Clone),
        57 => Some(Call::Fork),
        59 => Some(Call::Execve),
        60 => Some(Call::Exit),
        61 => Some(Call::Wait4),
        62 => Some(Call::Kill),
        63 => Some(Call::Uname),
        72 => Some(Call::Fcntl),
        77 => Some(Call::Ftruncate),
        79 => Some(Call::Getcwd),
        80 => Some(Call::Chdir),
        81 => Some(Call::Fchdir),
        82 => Some(Call::Rename),
        83 => Some(Call::Mkdir),
        84 => Some(Call::Rmdir),
        87 => Some(Call::Unlink),
        89 => Some(Call::Readlink),
        90 => Some(Call::Chmod),
        95 => Some(Call::Umask),
        98 => Some(Call::Getrusage),
        99 => Some(Call::Sysinfo),
        102 => Some(Call::Getuid),
        104 => Some(Call::Getgid),
        105 => Some(Call::Setuid),
        106 => Some(Call::Setgid),
        107 => Some(Call::Geteuid),
        108 => Some(Call::Getegid),
        109 => Some(Call::Setpgid),
        110 => Some(Call::Getppid),
        111 => Some(Call::Getpgrp),
        112 => Some(Call::Setsid),
        121 => Some(Call::Getpgid),
        124 => Some(Call::Getsid),
        125 => Some(Call::Capget),
        130 => Some(Call::RtSigsuspend),
        131 => Some(Call::Sigaltstack),
        137 => Some(Call::Statfs),
        138 => Some(Call::Fstatfs),
        157 => Some(Call::Prctl),
        158 => Some(Call::ArchPrctl),
        169 => Some(Call::Reboot),
        186 => Some(Call::Gettid),
        194 => Some(Call::Listxattr),
        195 => Some(Call::Llistxattr),
        196 => Some(Call::Flistxattr),
        201 => Some(Call::Time),
        202 => Some(Call::Futex),
        204 => Some(Call::SchedGetaffinity),
        217 => Some(Call::Getdents64),
        218 => Some(Call::SetTidAddress),
        228 => Some(Call::ClockGettime),
        230 => Some(Call::ClockNanosleep),
        231 => Some(Call::ExitGroup),
        234 => Some(Call::Tgkill),
        257 => Some(Call::Openat),
        258 => Some(Call::Mkdirat),
        262 => Some(Call::Newfstatat),
        267 => Some(Call::Readlinkat),
        271 => Some(Call::Ppoll),
        273 => Some(Call::SetRobustList),
        280 => Some(Call::Utimensat),
        288 => Some(Call::Accept4),
        292 => Some(Call::Dup3),
        293 => Some(Call::Pipe2),
        295 => Some(Call::Preadv),
        296 => Some(Call::Pwritev),
        302 => Some(Call::Prlimit64),
        318 => Some(Call::Getrandom),
        319 => Some(Call::MemfdCreate),
        334 => Some(Call::Rseq),
        435 => Some(Call::Clone3),
        448 => Some(Call::AddUserKey),
        449 => Some(Call::SetFileAttr),
        700 => Some(Call::Install),
        _ => None,
    }
}

/// A call is known by its number.
pub proof fn lemma_numbers_differ(a: Call, b: Call)
    requires
        number_of(a) == number_of(b),
    ensures
        a == b,
{
}

/// The arguments of a call.
#[derive(Debug, Clone, Copy, PartialEq, Eq, Structural)]
pub struct Args {
    pub a1: u64,
    pub a2: u64,
    pub a3: u64,
    pub a4: u64,
    pub a5: u64,
    pub a6: u64,
}

pub open spec fn args_in(regs: InterruptStack) -> Args {
    Args {
        a1: regs.scratch.rdi,
        a2: regs.scratch.rsi,
        a3: regs.scratch.rdx,
        a4: regs.scratch.r10,
        a5: regs.scratch.r8,
        a6: regs.scratch.r9,
    }
}

pub fn arguments(regs: &InterruptStack) -> (r: Args)
    ensures
        r == args_in(*regs),
{
    Args {
        a1: regs.scratch.rdi,
        a2: regs.scratch.rsi,
        a3: regs.scratch.rdx,
        a4: regs.scratch.r10,
        a5: regs.scratch.r8,
        a6: regs.scratch.r9,
    }
}

/// What becomes of a call.
#[derive(Debug, Clone, Copy, PartialEq, Eq, Structural)]
pub enum Dispatch {
    /// It returns this.
    Done(i64),
    /// The machine, memory of the program or a file is needed for it.
    Outside(Service),
}

/// Calls that are answered without regard to anything.
pub open spec fn fixed_answer(c: Option<Call>) -> Option<i64> {
    match c {
        None => Some(failed(ENOSYS)),
        Some(Call::Rseq) => Some(failed(ENOSYS)),
        Some(Call::Clone3) => Some(failed(ENOSYS)),
        Some(Call::SetRobustList) => Some(0i64),
        Some(_) => None,
    }
}

/// Calls that ask for a number of the process.
pub open spec fn number_answer(c: Call, a: Args, t: TableView) -> Option<i64> {
    match c {
        Call::Getpid => Some(t.current as i64),
        Call::Gettid => Some(t.current as i64),
        Call::SetTidAddress => Some(t.current as i64),
        Call::Getppid => Some(
            if known(t.procs, t.current) {
                process(t, t.current).parent_pid as i64
            } else {
                failed(ESRCH)
            },
        ),
        Call::Getpgrp => Some(group_answer(t, 0)),
        Call::Getpgid => Some(group_answer(t, a.a1 as i32)),
        Call::Getsid => Some(session_answer(t, a.a1 as i32)),
        Call::Tgkill => Some(
            if a.a1 as i32 == t.current && a.a2 as i32 == t.current {
                0i64
            } else {
                failed(ESRCH)
            },
        ),
        _ => None,
    }
}

pub open spec fn group_answer(t: TableView, pid: i32) -> i64 {
    if pid < 0 || pid > 65535 {
        failed(EINVAL)
    } else if known(t.procs, named(t, pid)) {
        process(t, named(t, pid)).pgid as i64
    } else {
        failed(ESRCH)
    }
}

pub open spec fn session_answer(t: TableView, pid: i32) -> i64 {
    if pid < 0 || pid > 65535 {
        failed(EINVAL)
    } else if known(t.procs, named(t, pid)) {
        process(t, named(t, pid)).sid as i64
    } else {
        failed(ESRCH)
    }
}

/// Calls that change the descriptors or the mask of the process: what they return, and
/// what the process is afterwards.
pub open spec fn process_answer(c: Call, a: Args, p: ProcView) -> Option<(i64, ProcView)> {
    let t = p.fd_table;
    let fd = a.a1 as i32;
    let slot = slot_of(t, fd as int);
    match c {
        Call::Close => Some(
            match slot {
                Some(_) => (0i64, ProcView { fd_table: t.update(fd as int, None), ..p }),
                None => (failed(EBADF), p),
            },
        ),
        Call::Dup => Some(
            match slot {
                Some(e) => (
                    install_result(t, 0),
                    ProcView {
                        fd_table: installed(t, 0, FdEntry { file: e.file, fd_flags: 0 }),
                        ..p
                    },
                ),
                None => (failed(EBADF), p),
            },
        ),
        Call::Dup2 => Some(
            match slot {
                Some(e) => {
                    let newfd = a.a2 as i32;
                    if newfd < 0 {
                        (failed(EBADF), p)
                    } else if fd == newfd {
                        (newfd as i64, p)
                    } else {
                        (
                            newfd as i64,
                            ProcView {
                                fd_table: with_fd(
                                    t,
                                    newfd as int,
                                    FdEntry { file: e.file, fd_flags: 0 },
                                ),
                                ..p
                            },
                        )
                    }
                },
                None => (failed(EBADF), p),
            },
        ),
        Call::Umask => Some(
            (p.umask as i64, ProcView { umask: ((a.a1 as u32) as u16) & 0o777u16, ..p }),
        ),
        _ => None,
    }
}

/// Whether a call that copies a descriptor names a negative one, which is told before the
/// process is looked for.
pub open spec fn negative_fd(c: Call, a: Args) -> bool {
    match c {
        Call::Dup => (a.a1 as i32) < 0,
        Call::Dup2 => (a.a1 as i32) < 0 || (a.a2 as i32) < 0,
        _ => false,
    }
}

fn answer_number(c: Call, a: &Args, table: &ProcessTable) -> (r: Option<i64>)
    ensures
        r == number_answer(c, *a, table@),
{
    match c {
        Call::Getpid => Some(table.current as i64),
        Call::Gettid => Some(table.current as i64),
        Call::SetTidAddress => Some(table.current as i64),
        Call::Getppid => Some(getppid(table)),
        Call::Getpgrp => Some(getpgid(table, 0)),
        Call::Getpgid => Some(getpgid(table, #[verifier::truncate]
        (a.a1 as i32))),
        Call::Getsid => Some(getsid(table, #[verifier::truncate]
        (a.a1 as i32))),
        Call::Tgkill => Some(tgkill(table.current, #[verifier::truncate]
        (a.a1 as i32), #[verifier::truncate]
        (a.a2 as i32))),
        _ => None,
    }
}

fn answer_process(c: Call, a: &Args, p: &mut Process) -> (r: Option<i64>)
    requires
        old(p)@.fd_table.len() < usize::MAX,
    ensures
        match process_answer(c, *a, old(p)@) {
            Some((n, q)) => r == Some(n) && final(p)@ == q,
            None => r is None && final(p)@ == old(p)@,
        },
{
    let fd: i32 = #[verifier::truncate]
    (a.a1 as i32);
    match c {
        Call::Close => Some(close(p, fd)),
        Call::Dup => Some(dup(p, fd)),
        Call::Dup2 => Some(dup2(p, fd, #[verifier::truncate]
        (a.a2 as i32))),
        Call::Umask => Some(umask(p, #[verifier::truncate]
        (a.a1 as u32))),
        _ => None,
    }
}

/// The call that the registers ask for.
pub open spec fn called(regs: InterruptStack) -> Option<Call> {
    if exists|c: Call| number_of(c) == regs.scratch.rax {
        Some(choose|c: Call| number_of(c) == regs.scratch.rax)
    } else {
        None
    }
}

/// Answers a call, as far as that can be done with the table of processes alone.
pub fn syscall_handler(table: &mut ProcessTable, regs: &InterruptStack) -> (r: Dispatch)
    requires
        forall|i: int|
            0 <= i < old(table)@.procs.len() ==> (#[trigger] old(table)@.procs[i]).fd_table.len()
                < usize::MAX,
    ensures
        ({
            let t = old(table)@;
            let c = called(*regs);
            let a = args_in(*regs);
            match fixed_answer(c) {
                Some(n) => r == Dispatch::Done(n) && final(table)@ == t,
                None => match number_answer(c->0, a, t) {
                    Some(n) => r == Dispatch::Done(n) && final(table)@ == t,
                    None => if process_answer(c->0, a, process(t, t.current)) is Some {
                        if known(t.procs, t.current) {
                            let (n, q) = process_answer(c->0, a, process(t, t.current))->0;
                            &&& r == Dispatch::Done(n)
                            &&& final(table)@ == with_process(t, t.current, q)
                        } else {
                            &&& r == Dispatch::Done(
                                failed(
                                    if negative_fd(c->0, a) {
                                        EBADF
                                    } else {
                                        ESRCH
                                    },
                                ),
                            )
                            &&& final(table)@ == t
                        }
                    } else if c == Some(Call::Setpgid) {
                        &&& r matches Dispatch::Done(n)
                        &&& setpgid_answer(t, final(table)@, a.a1 as i32, a.a2 as i32, n)
                    } else {
                        &&& routed(c->0, a) is Some
                        &&& r == Dispatch::Outside(routed(c->0, a)->0)
                        &&& final(table)@ == t
                    },
                },
            }
        }),
{
    let ghost t = table@;
    let a: Args = arguments(regs);
    let c: Call = match decode(regs.scratch.rax) {
        Some(c) => c,
        None => {
            return Dispatch::Done(fail(ENOSYS));
        },
    };
    proof {
        assert(number_of(c) == regs.scratch.rax);
        lemma_numbers_differ(called(*regs)->0, c);
    }
    match c {
        Call::Rseq | Call::Clone3 => return Dispatch::Done(fail(ENOSYS)),
        Call::SetRobustList => return Dispatch::Done(0),
        _ => {},
    }
    match answer_number(c, &a, table) {
        Some(n) => return Dispatch::Done(n),
        None => {},
    }
    match c {
        Call::Setpgid => {
            let n: i64 = setpgid(table, #[verifier::truncate]
            (a.a1 as i32), #[verifier::truncate]
            (a.a2 as i32));
            return Dispatch::Done(n);
        },
        Call::Close | Call::Dup | Call::Dup2 | Call::Umask => {},
        _ => match route(c, &a) {
            Some(s) => return Dispatch::Outside(s),
            None => return Dispatch::Done(fail(ENOSYS)),
        },
    }
    proof {
        lemma_position(t.procs, t.current);
    }
    match table.find_process_index(table.current) {
        Some(i) => {
            proof {
                assert(t.procs[i as int] == table.proc_list@[i as int]@);
            }
            let n: Option<i64> = answer_process(c, &a, &mut table.proc_list[i]);
            proof {
                let (k, q) = process_answer(c, a, t.procs[i as int])->0;
                assert(table@.procs =~= t.procs.update(i as int, q));
            }
            match n {
                Some(k) => Dispatch::Done(k),
                None => Dispatch::Done(fail(ENOSYS)),
            }
        },
        None => {
            let first: i32 = #[verifier::truncate]
            (a.a1 as i32);
            let second: i32 = #[verifier::truncate]
            (a.a2 as i32);
            let negative: bool = match c {
                Call::Dup => first < 0,
                Call::Dup2 => first < 0 || second < 0,
                _ => false,
            };
            if negative {
                Dispatch::Done(fail(EBADF))
            } else {
                Dispatch::Done(fail(ESRCH))
            }
        },
    }
}

/// What putting a process into a group returns and changes.
pub open spec fn setpgid_answer(t: TableView, after: TableView, pid: i32, pgid: i32, n: i64) -> bool {
    let target = named(t, pid);
    let group = if pgid == 0 {
        target
    } else {
        pgid as u16
    };
    if pid < 0 || pgid < 0 || pid > 65535 || pgid > 65535 {
        n == failed(EINVAL) && after == t
    } else if !known(t.procs, target) {
        n == failed(ESRCH) && after == t
    } else {
        n == 0 && after == with_process(t, target, ProcView { pgid: group, ..process(t, target) })
    }
}

/// What a request to switch the machine off, or on anew, comes to.
#[derive(Debug, Clone, Copy, PartialEq, Eq, Structural)]
pub enum PowerRequest {
    Restart,
    PowerOff,
    Fail(i64),
}

pub fn reboot(magic1: u32, magic2: u32, cmd: u32) -> (r: PowerRequest)
    ensures
        r == if magic1 == 0xfee1_dead && magic2 == 672_274_793 && cmd == 0x0123_4567 {
            PowerRequest::Restart
        } else if magic1 == 0xfee1_dead && magic2 == 672_274_793 && cmd == 0x4321_fedc {
            PowerRequest::PowerOff
        } else {
            PowerRequest::Fail(failed(EINVAL))
        },
{
    if magic1 == 0xfee1_dead && magic2 == 672_274_793 {
        if cmd == 0x0123_4567 {
            return PowerRequest::Restart;
        }
        if cmd == 0x4321_fedc {
            return PowerRequest::PowerOff;
        }
    }
    PowerRequest::Fail(fail(EINVAL))
}

/// The registers with the result of a call.
pub open spec fn with_result(regs: InterruptStack, result: i64) -> InterruptStack {
    InterruptStack {
        scratch: ScratchRegisters { rax: result as u64, ..regs.scratch },
        ..regs
    }
}

/// How the process that has the processor goes on from a call: with a handler, where a signal
/// waits for one.
pub open spec fn signal_taken(t: TableView, after: TableView, regs: InterruptStack, d: Option<Delivery>) -> bool {
    if known(t.procs, t.current) {
        &&& signal_handled(process(t, t.current), process(after, t.current), regs, d)
        &&& after == with_process(t, t.current, process(after, t.current))
    } else {
        after == t && d is None
    }
}

/// Ends a call: its result goes into the registers and a signal that waits is delivered,
/// unless the registers were brought back from a handler; then another task is chosen, where
/// that was asked for. The result is what the stack of the program gets for a handler.
pub fn finish_call(
    p: &mut Preempt,
    table: &mut ProcessTable,
    regs: &mut InterruptStack,
    result: i64,
    restored_from_signal: bool,
) -> (r: Option<Delivery>)
    requires
        !restored_from_signal && known(old(table)@.procs, old(table)@.current) ==> ({
            let q = process(old(table)@, old(table)@.current);
            &&& q.signal_actions.len() == 65
            &&& forall|sig: int| #[trigger]
                is_next_signal(q, sig) && has_handler(q, sig) ==> old(regs).iret.rsp >= 192
        }),
    ensures
        if restored_from_signal {
            &&& r is None
            &&& *final(regs) == *old(regs)
            &&& (*final(p), final(table)@) == resched_result(*old(p), old(table)@)
        } else {
            &&& *final(regs) == match r {
                Some(d) => d.regs,
                None => with_result(*old(regs), result),
            }
            &&& exists|mid: TableView| #[trigger]
                signal_taken(old(table)@, mid, with_result(*old(regs), result), r) && (
                *final(p),
                final(table)@,
                ) == resched_result(*old(p), mid)
        },
{
    let ghost t = table@;
    let mut r: Option<Delivery> = None;
    if !restored_from_signal {
        regs.scratch.rax = #[verifier::truncate]
        (result as u64);
        let ghost told = *regs;
        proof {
            lemma_position(t.procs, t.current);
        }
        match table.find_process_index(table.current) {
            Some(i) => {
                proof {
                    assert(t.procs[i as int] == table.proc_list@[i as int]@);
                }
                r = deliver_pending_signal(&mut table.proc_list[i], regs);
                match &r {
                    Some(d) => {
                        *regs = d.regs;
                    },
                    None => {},
                }
                proof {
                    assert(table@.procs =~= t.procs.update(i as int, table@.procs[i as int]));
                    lemma_position(table@.procs, t.current);
                    assert(process(table@, t.current) == table@.procs[i as int]);
                }
            },
            None => {},
        }
        proof {
            assert(told == with_result(*old(regs), result));
            assert(signal_taken(t, table@, told, r));
        }
    }
    let ghost mid = table@;
    cond_resched(p, table);
    proof {
        if !restored_from_signal {
            assert(signal_taken(t, mid, with_result(*old(regs), result), r));
            assert((*p, table@) == resched_result(*old(p), mid));
        }
    }
    r
}

} // verus!
