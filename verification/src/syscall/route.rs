//! What a system call asks for, and with which arguments.

use crate::syscall::dispatch::{Args, Call};
use vstd::prelude::*;

verus! {

/// A call for which the machine, memory of the program or a file is needed, with its
/// arguments. Addresses and lengths are as wide as a register; other arguments are what is
/// left of their register in the low bits.
#[derive(Debug, Clone, Copy, PartialEq, Eq, Structural)]
#[allow(inconsistent_fields)]
pub enum Service {
    Read { fd: u64, buf: u64, len: u64 },
    Write { fd: i32, buf: u64, len: u64 },
    Open { path: u64, flags: i32, mode: u32 },
    Stat { path: u64, stat: u64 },
    Fstat { fd: u64, stat: u64 },
    Lstat { path: u64, stat: u64 },
    Poll { fds: u64, count: u64, timeout: i64 },
    Lseek { fd: u64, offset: u64, whence: u8 },
    Mmap { addr: u64, len: u64, prot: u64, flags: u64, fd: u64, offset: u64 },
    Mprotect { addr: u64, len: u64, prot: u64 },
    Munmap { addr: u64, len: u64 },
    Brk { addr: u64 },
    RtSigaction { sig: i32, act: u64, oldact: u64, size: u64 },
    RtSigprocmask { how: i32, set: u64, oldset: u64, size: u64 },
    RtSigreturn,
    Ioctl { fd: u64, request: u64, arg: u64 },
    Pread64 { fd: i32, buf: u64, len: u64, offset: u64 },
    Readv { fd: u64, iov: u64, count: u64 },
    Writev { fd: i32, iov: u64, count: i32 },
    Access { path: u64, mode: i32 },
    Pipe { fds: u64 },
    Select { count: i32, read: u64, write: u64, except: u64, timeout: u64 },
    SchedYield,
    Msync { addr: u64, len: u64, flags: i32 },
    Madvise { addr: u64, len: u64, advice: i32 },
    Pause,
    Nanosleep { req: u64, rem: u64 },
    Setitimer { which: i32, new: u64, old_value: u64 },
    Socket { domain: i32, kind: i32, protocol: i32 },
    Connect { fd: i32, addr: u64, len: u64 },
    Accept { fd: i32, addr: u64, len: u64 },
    Sendto { fd: i32, buf: u64, len: u64, flags: i32, addr: u64, addr_len: u64 },
    Recvfrom { fd: i32, buf: u64, len: u64, flags: i32, addr: u64, addr_len: u64 },
    Sendmsg { fd: i32, msg: u64, flags: i32 },
    Recvmsg { fd: i32, msg: u64, flags: i32 },
    Shutdown { fd: i32, how: i32 },
    Bind { fd: i32, addr: u64, len: u64 },
    Listen { fd: i32, backlog: i32 },
    Getsockname { fd: i32, addr: u64, len: u64 },
    Getpeername { fd: i32, addr: u64, len: u64 },
    Socketpair { domain: i32, kind: i32, protocol: i32, fds: u64 },
    Setsockopt { fd: i32, level: i32, name: i32, value: u64, len: u64 },
    Getsockopt { fd: i32, level: i32, name: i32, value: u64, len: u64 },
    Clone { flags: u64, stack: u64, parent_tid: u64, child_tid: u64, tls: u64 },
    Fork,
    Execve { path: u64, argv: u64, envp: u64 },
    Exit { code: i32 },
    Wait4 { pid: i32, status: u64, options: i32, rusage: u64 },
    Kill { pid: i32, sig: i32 },
    Uname { out: u64 },
    Fcntl { fd: i32, cmd: i32, arg: u64 },
    Ftruncate { fd: i32, len: i64 },
    Getcwd { buf: u64, len: u64 },
    Chdir { path: u64 },
    Fchdir { fd: i32 },
    Rename { old_path: u64, new_path: u64 },
    Mkdir { path: u64, mode: u64 },
    Rmdir { path: u64 },
    Unlink { path: u64 },
    Readlink { path: u64, buf: u64, len: u64 },
    Chmod { path: u64, mode: u32 },
    Getrusage { who: i32, out: u64 },
    Sysinfo { out: u64 },
    Setuid { uid: u64 },
    Setgid { gid: u64 },
    Geteuid,
    Getegid,
    Setsid,
    Capget { header: u64, data: u64 },
    RtSigsuspend { mask: u64, size: u64 },
    Sigaltstack { new: u64, old_value: u64 },
    Statfs { path: u64, out: u64 },
    Fstatfs { fd: i32, out: u64 },
    Prctl { option: i32, arg2: u64, arg3: u64, arg4: u64, arg5: u64 },
    ArchPrctl { code: u64, addr: u64 },
    Reboot { magic1: u32, magic2: u32, cmd: u32 },
    Listxattr { path: u64, buf: u64, len: u64 },
    Llistxattr { path: u64, buf: u64, len: u64 },
    Flistxattr { fd: i32, buf: u64, len: u64 },
    Time { out: u64 },
    Futex { addr: u64, op: i32, value: u32, timeout: u64, addr2: u64, value3: u32 },
    SchedGetaffinity { pid: i32, size: u64, mask: u64 },
    Getdents64 { fd: i32, buf: u64, len: u64 },
    ClockGettime { clock: i32, out: u64 },
    ClockNanosleep { clock: i32, flags: i32, req: u64, rem: u64 },
    ExitGroup { code: i32 },
    Openat { dirfd: i32, path: u64, flags: i32, mode: u32 },
    Mkdirat { dirfd: i32, path: u64, mode: u64 },
    Newfstatat { dirfd: i32, path: u64, stat: u64, flags: i32 },
    Readlinkat { dirfd: i32, path: u64, buf: u64, len: u64 },
    Ppoll { fds: u64, count: u64, timeout: u64, mask: u64, size: u64 },
    Utimensat { dirfd: i32, path: u64, times: u64, flags: u64 },
    Accept4 { fd: i32, addr: u64, len: u64, flags: i32 },
    Dup3 { old_fd: i32, new_fd: i32, flags: i32 },
    Pipe2 { fds: u64, flags: i32 },
    Preadv { fd: i32, iov: u64, count: u64, offset: u64 },
    Pwritev { fd: i32, iov: u64, count: u64, offset: u64 },
    Prlimit64 { pid: i32, resource: u32, new_limit: u64, old_limit: u64 },
    Getrandom { buf: u64, len: u64, flags: u32 },
    MemfdCreate { name: u64, flags: u32 },
    AddUserKey { uid: u32, key: u64, len: u64 },
    SetFileAttr { path: u64, attr: u32, value: u32 },
    Install,
}

fn low_i32(a: u64) -> (r: i32)
    ensures
        r == a as i32,
{
    #[verifier::truncate]
    (a as i32)
}

fn low_u32(a: u64) -> (r: u32)
    ensures
        r == a as u32,
{
    #[verifier::truncate]
    (a as u32)
}

fn low_u8(a: u64) -> (r: u8)
    ensures
        r == a as u8,
{
    #[verifier::truncate]
    (a as u8)
}

fn signed(a: u64) -> (r: i64)
    ensures
        r == a as i64,
{
    #[verifier::truncate]
    (a as i64)
}

fn mode_in(a: u64) -> (r: u32)
    ensures
        r == (a as i32) as u32,
{
    #[verifier::truncate]
    (low_i32(a) as u32)
}

/// Which service answers a call; none for the calls that the table of processes is enough
/// for. The real and the effective user are one, and so are the groups.
pub open spec fn routed(c: Call, a: Args) -> Option<Service> {
    match c {
        Call::Read => Some(Service::Read { fd: a.a1, buf: a.a2, len: a.a3 }),
        Call::Write => Some(Service::Write { fd: a.a1 as i32, buf: a.a2, len: a.a3 }),
        Call::Open => Some(Service::Open { path: a.a1, flags: a.a2 as i32, mode: (a.a3 as i32) as u32 }),
        Call::Stat => Some(Service::Stat { path: a.a1, stat: a.a2 }),
        Call::Fstat => Some(Service::Fstat { fd: a.a1, stat: a.a2 }),
        Call::Lstat => Some(Service::Lstat { path: a.a1, stat: a.a2 }),
        Call::Poll => Some(Service::Poll { fds: a.a1, count: a.a2, timeout: a.a3 as i64 }),
        Call::Lseek => Some(Service::Lseek { fd: a.a1, offset: a.a2, whence: a.a3 as u8 }),
        Call::Mmap => Some(Service::Mmap { addr: a.a1, len: a.a2, prot: a.a3, flags: a.a4, fd: a.a5, offset: a.a6 }),
        Call::Mprotect => Some(Service::Mprotect { addr: a.a1, len: a.a2, prot: a.a3 }),
        Call::Munmap => Some(Service::Munmap { addr: a.a1, len: a.a2 }),
        Call::Brk => Some(Service::Brk { addr: a.a1 }),
        Call::RtSigaction => Some(Service::RtSigaction { sig: a.a1 as i32, act: a.a2, oldact: a.a3, size: a.a4 }),
        Call::RtSigprocmask => Some(Service::RtSigprocmask { how: a.a1 as i32, set: a.a2, oldset: a.a3, size: a.a4 }),
        Call::RtSigreturn => Some(Service::RtSigreturn),
        Call::Ioctl => Some(Service::Ioctl { fd: a.a1, request: a.a2, arg: a.a3 }),
        Call::Pread64 => Some(Service::Pread64 { fd: a.a1 as i32, buf: a.a2, len: a.a3, offset: a.a4 }),
        Call::Readv => Some(Service::Readv { fd: a.a1, iov: a.a2, count: a.a3 }),
        Call::Writev => Some(Service::Writev { fd: a.a1 as i32, iov: a.a2, count: a.a3 as i32 }),
        Call::Access => Some(Service::Access { path: a.a1, mode: a.a2 as i32 }),
        Call::Pipe => Some(Service::Pipe { fds: a.a1 }),
        Call::Select => Some(Service::Select { count: a.a1 as i32, read: a.a2, write: a.a3, except: a.a4, timeout: a.a5 }),
        Call::SchedYield => Some(Service::SchedYield),
        Call::Msync => Some(Service::Msync { addr: a.a1, len: a.a2, flags: a.a3 as i32 }),
        Call::Madvise => Some(Service::Madvise { addr: a.a1, len: a.a2, advice: a.a3 as i32 }),
        Call::Pause => Some(Service::Pause),
        Call::Nanosleep => Some(Service::Nanosleep { req: a.a1, rem: a.a2 }),
        Call::Setitimer => Some(Service::Setitimer { which: a.a1 as i32, new: a.a2, old_value: a.a3 }),
        Call::Socket => Some(Service::Socket { domain: a.a1 as i32, kind: a.a2 as i32, protocol: a.a3 as i32 }),
        Call::Connect => Some(Service::Connect { fd: a.a1 as i32, addr: a.a2, len: a.a3 }),
        Call::Accept => Some(Service::Accept { fd: a.a1 as i32, addr: a.a2, len: a.a3 }),
        Call::Sendto => Some(Service::Sendto { fd: a.a1 as i32, buf: a.a2, len: a.a3, flags: a.a4 as i32, addr: a.a5, addr_len: a.a6 }),
        Call::Recvfrom => Some(Service::Recvfrom { fd: a.a1 as i32, buf: a.a2, len: a.a3, flags: a.a4 as i32, addr: a.a5, addr_len: a.a6 }),
        Call::Sendmsg => Some(Service::Sendmsg { fd: a.a1 as i32, msg: a.a2, flags: a.a3 as i32 }),
        Call::Recvmsg => Some(Service::Recvmsg { fd: a.a1 as i32, msg: a.a2, flags: a.a3 as i32 }),
        Call::Shutdown => Some(Service::Shutdown { fd: a.a1 as i32, how: a.a2 as i32 }),
        Call::Bind => Some(Service::Bind { fd: a.a1 as i32, addr: a.a2, len: a.a3 }),
        Call::Listen => Some(Service::Listen { fd: a.a1 as i32, backlog: a.a2 as i32 }),
        Call::Getsockname => Some(Service::Getsockname { fd: a.a1 as i32, addr: a.a2, len: a.a3 }),
        Call::Getpeername => Some(Service::Getpeername { fd: a.a1 as i32, addr: a.a2, len: a.a3 }),
        Call::Socketpair => Some(Service::Socketpair { domain: a.a1 as i32, kind: a.a2 as i32, protocol: a.a3 as i32, fds: a.a4 }),
        Call::Setsockopt => Some(Service::Setsockopt { fd: a.a1 as i32, level: a.a2 as i32, name: a.a3 as i32, value: a.a4, len: a.a5 }),
        Call::Getsockopt => Some(Service::Getsockopt { fd: a.a1 as i32, level: a.a2 as i32, name: a.a3 as i32, value: a.a4, len: a.a5 }),
        Call::Clone => Some(Service::Clone { flags: a.a1, stack: a.a2, parent_tid: a.a3, child_tid: a.a4, tls: a.a5 }),
        Call::Fork => Some(Service::Fork),
        Call::Execve => Some(Service::Execve { path: a.a1, argv: a.a2, envp: a.a3 }),
        Call::Exit => Some(Service::Exit { code: a.a1 as i32 }),
        Call::Wait4 => Some(Service::Wait4 { pid: a.a1 as i32, status: a.a2, options: a.a3 as i32, rusage: a.a4 }),
        Call::Kill => Some(Service::Kill { pid: a.a1 as i32, sig: a.a2 as i32 }),
        Call::Uname => Some(Service::Uname { out: a.a1 }),
        Call::Fcntl => Some(Service::Fcntl { fd: a.a1 as i32, cmd: a.a2 as i32, arg: a.a3 }),
        Call::Ftruncate => Some(Service::Ftruncate { fd: a.a1 as i32, len: a.a2 as i64 }),
        Call::Getcwd => Some(Service::Getcwd { buf: a.a1, len: a.a2 }),
        Call::Chdir => Some(Service::Chdir { path: a.a1 }),
        Call::Fchdir => Some(Service::Fchdir { fd: a.a1 as i32 }),
        Call::Rename => Some(Service::Rename { old_path: a.a1, new_path: a.a2 }),
        Call::Mkdir => Some(Service::Mkdir { path: a.a1, mode: a.a2 }),
        Call::Rmdir => Some(Service::Rmdir { path: a.a1 }),
        Call::Unlink => Some(Service::Unlink { path: a.a1 }),
        Call::Readlink => Some(Service::Readlink { path: a.a1, buf: a.a2, len: a.a3 }),
        Call::Chmod => Some(Service::Chmod { path: a.a1, mode: a.a2 as u32 }),
        Call::Getrusage => Some(Service::Getrusage { who: a.a1 as i32, out: a.a2 }),
        Call::Sysinfo => Some(Service::Sysinfo { out: a.a1 }),
        Call::Setuid => Some(Service::Setuid { uid: a.a1 }),
        Call::Setgid => Some(Service::Setgid { gid: a.a1 }),
        Call::Getuid => Some(Service::Geteuid),
        Call::Geteuid => Some(Service::Geteuid),
        Call::Getgid => Some(Service::Getegid),
        Call::Getegid => Some(Service::Getegid),
        Call::Setsid => Some(Service::Setsid),
        Call::Capget => Some(Service::Capget { header: a.a1, data: a.a2 }),
        Call::RtSigsuspend => Some(Service::RtSigsuspend { mask: a.a1, size: a.a2 }),
        Call::Sigaltstack => Some(Service::Sigaltstack { new: a.a1, old_value: a.a2 }),
        Call::Statfs => Some(Service::Statfs { path: a.a1, out: a.a2 }),
        Call::Fstatfs => Some(Service::Fstatfs { fd: a.a1 as i32, out: a.a2 }),
        Call::Prctl => Some(Service::Prctl { option: a.a1 as i32, arg2: a.a2, arg3: a.a3, arg4: a.a4, arg5: a.a5 }),
        Call::ArchPrctl => Some(Service::ArchPrctl { code: a.a1, addr: a.a2 }),
        Call::Reboot => Some(Service::Reboot { magic1: a.a1 as u32, magic2: a.a2 as u32, cmd: a.a3 as u32 }),
        Call::Listxattr => Some(Service::Listxattr { path: a.a1, buf: a.a2, len: a.a3 }),
        Call::Llistxattr => Some(Service::Llistxattr { path: a.a1, buf: a.a2, len: a.a3 }),
        Call::Flistxattr => Some(Service::Flistxattr { fd: a.a1 as i32, buf: a.a2, len: a.a3 }),
        Call::Time => Some(Service::Time { out: a.a1 }),
        Call::Futex => Some(Service::Futex { addr: a.a1, op: a.a2 as i32, value: a.a3 as u32, timeout: a.a4, addr2: a.a5, value3: a.a6 as u32 }),
        Call::SchedGetaffinity => Some(Service::SchedGetaffinity { pid: a.a1 as i32, size: a.a2, mask: a.a3 }),
        Call::Getdents64 => Some(Service::Getdents64 { fd: a.a1 as i32, buf: a.a2, len: a.a3 }),
        Call::ClockGettime => Some(Service::ClockGettime { clock: a.a1 as i32, out: a.a2 }),
        Call::ClockNanosleep => Some(Service::ClockNanosleep { clock: a.a1 as i32, flags: a.a2 as i32, req: a.a3, rem: a.a4 }),
        Call::ExitGroup => Some(Service::ExitGroup { code: a.a1 as i32 }),
        Call::Openat => Some(Service::Openat { dirfd: a.a1 as i32, path: a.a2, flags: a.a3 as i32, mode: (a.a4 as i32) as u32 }),
        Call::Mkdirat => Some(Service::Mkdirat { dirfd: a.a1 as i32, path: a.a2, mode: a.a3 }),
        Call::Newfstatat => Some(Service::Newfstatat { dirfd: a.a1 as i32, path: a.a2, stat: a.a3, flags: a.a4 as i32 }),
        Call::Readlinkat => Some(Service::Readlinkat { dirfd: a.a1 as i32, path: a.a2, buf: a.a3, len: a.a4 }),
        Call::Ppoll => Some(Service::Ppoll { fds: a.a1, count: a.a2, timeout: a.a3, mask: a.a4, size: a.a5 }),
        Call::Utimensat => Some(Service::Utimensat { dirfd: a.a1 as i32, path: a.a2, times: a.a3, flags: a.a4 }),
        Call::Accept4 => Some(Service::Accept4 { fd: a.a1 as i32, addr: a.a2, len: a.a3, flags: a.a4 as i32 }),
        Call::Dup3 => Some(Service::Dup3 { old_fd: a.a1 as i32, new_fd: a.a2 as i32, flags: a.a3 as i32 }),
        Call::Pipe2 => Some(Service::Pipe2 { fds: a.a1, flags: a.a2 as i32 }),
        Call::Preadv => Some(Service::Preadv { fd: a.a1 as i32, iov: a.a2, count: a.a3, offset: a.a4 }),
        Call::Pwritev => Some(Service::Pwritev { fd: a.a1 as i32, iov: a.a2, count: a.a3, offset: a.a4 }),
        Call::Prlimit64 => Some(Service::Prlimit64 { pid: a.a1 as i32, resource: a.a2 as u32, new_limit: a.a3, old_limit: a.a4 }),
        Call::Getrandom => Some(Service::Getrandom { buf: a.a1, len: a.a2, flags: a.a3 as u32 }),
        Call::MemfdCreate => Some(Service::MemfdCreate { name: a.a1, flags: a.a2 as u32 }),
        Call::AddUserKey => Some(Service::AddUserKey { uid: a.a1 as u32, key: a.a2, len: a.a3 }),
        Call::SetFileAttr => Some(Service::SetFileAttr { path: a.a1, attr: a.a2 as u32, value: a.a3 as u32 }),
        Call::Install => Some(Service::Install),
        Call::Getpid | Call::Gettid | Call::SetTidAddress | Call::Getppid | Call::Getpgrp | Call::Getpgid | Call::Getsid | Call::Tgkill | Call::Setpgid | Call::Close | Call::Dup | Call::Dup2 | Call::Umask | Call::Rseq | Call::Clone3 | Call::SetRobustList => None,
    }
}

pub fn route(c: Call, a: &Args) -> (r: Option<Service>)
    ensures
        r == routed(c, *a),
{
    match c {
        Call::Read => Some(Service::Read { fd: a.a1, buf: a.a2, len: a.a3 }),
        Call::Write => Some(Service::Write { fd: low_i32(a.a1), buf: a.a2, len: a.a3 }),
        Call::Open => Some(Service::Open { path: a.a1, flags: low_i32(a.a2), mode: mode_in(a.a3) }),
        Call::Stat => Some(Service::Stat { path: a.a1, stat: a.a2 }),
        Call::Fstat => Some(Service::Fstat { fd: a.a1, stat: a.a2 }),
        Call::Lstat => Some(Service::Lstat { path: a.a1, stat: a.a2 }),
        Call::Poll => Some(Service::Poll { fds: a.a1, count: a.a2, timeout: signed(a.a3) }),
        Call::Lseek => Some(Service::Lseek { fd: a.a1, offset: a.a2, whence: low_u8(a.a3) }),
        Call::Mmap => Some(Service::Mmap { addr: a.a1, len: a.a2, prot: a.a3, flags: a.a4, fd: a.a5, offset: a.a6 }),
        Call::Mprotect => Some(Service::Mprotect { addr: a.a1, len: a.a2, prot: a.a3 }),
        Call::Munmap => Some(Service::Munmap { addr: a.a1, len: a.a2 }),
        Call::Brk => Some(Service::Brk { addr: a.a1 }),
        Call::RtSigaction => Some(Service::RtSigaction { sig: low_i32(a.a1), act: a.a2, oldact: a.a3, size: a.a4 }),
        Call::RtSigprocmask => Some(Service::RtSigprocmask { how: low_i32(a.a1), set: a.a2, oldset: a.a3, size: a.a4 }),
        Call::RtSigreturn => Some(Service::RtSigreturn),
        Call::Ioctl => Some(Service::Ioctl { fd: a.a1, request: a.a2, arg: a.a3 }),
        Call::Pread64 => Some(Service::Pread64 { fd: low_i32(a.a1), buf: a.a2, len: a.a3, offset: a.a4 }),
        Call::Readv => Some(Service::Readv { fd: a.a1, iov: a.a2, count: a.a3 }),
        Call::Writev => Some(Service::Writev { fd: low_i32(a.a1), iov: a.a2, count: low_i32(a.a3) }),
        Call::Access => Some(Service::Access { path: a.a1, mode: low_i32(a.a2) }),
        Call::Pipe => Some(Service::Pipe { fds: a.a1 }),
        Call::Select => Some(Service::Select { count: low_i32(a.a1), read: a.a2, write: a.a3, except: a.a4, timeout: a.a5 }),
        Call::SchedYield => Some(Service::SchedYield),
        Call::Msync => Some(Service::Msync { addr: a.a1, len: a.a2, flags: low_i32(a.a3) }),
        Call::Madvise => Some(Service::Madvise { addr: a.a1, len: a.a2, advice: low_i32(a.a3) }),
        Call::Pause => Some(Service::Pause),
        Call::Nanosleep => Some(Service::Nanosleep { req: a.a1, rem: a.a2 }),
        Call::Setitimer => Some(Service::Setitimer { which: low_i32(a.a1), new: a.a2, old_value: a.a3 }),
        Call::Socket => Some(Service::Socket { domain: low_i32(a.a1), kind: low_i32(a.a2), protocol: low_i32(a.a3) }),
        Call::Connect => Some(Service::Connect { fd: low_i32(a.a1), addr: a.a2, len: a.a3 }),
        Call::Accept => Some(Service::Accept { fd: low_i32(a.a1), addr: a.a2, len: a.a3 }),
        Call::Sendto => Some(Service::Sendto { fd: low_i32(a.a1), buf: a.a2, len: a.a3, flags: low_i32(a.a4), addr: a.a5, addr_len: a.a6 }),
        Call::Recvfrom => Some(Service::Recvfrom { fd: low_i32(a.a1), buf: a.a2, len: a.a3, flags: low_i32(a.a4), addr: a.a5, addr_len: a.a6 }),
        Call::Sendmsg => Some(Service::Sendmsg { fd: low_i32(a.a1), msg: a.a2, flags: low_i32(a.a3) }),
        Call::Recvmsg => Some(Service::Recvmsg { fd: low_i32(a.a1), msg: a.a2, flags: low_i32(a.a3) }),
        Call::Shutdown => Some(Service::Shutdown { fd: low_i32(a.a1), how: low_i32(a.a2) }),
        Call::Bind => Some(Service::Bind { fd: low_i32(a.a1), addr: a.a2, len: a.a3 }),
        Call::Listen => Some(Service::Listen { fd: low_i32(a.a1), backlog: low_i32(a.a2) }),
        Call::Getsockname => Some(Service::Getsockname { fd: low_i32(a.a1), addr: a.a2, len: a.a3 }),
        Call::Getpeername => Some(Service::Getpeername { fd: low_i32(a.a1), addr: a.a2, len: a.a3 }),
        Call::Socketpair => Some(Service::Socketpair { domain: low_i32(a.a1), kind: low_i32(a.a2), protocol: low_i32(a.a3), fds: a.a4 }),
        Call::Setsockopt => Some(Service::Setsockopt { fd: low_i32(a.a1), level: low_i32(a.a2), name: low_i32(a.a3), value: a.a4, len: a.a5 }),
        Call::Getsockopt => Some(Service::Getsockopt { fd: low_i32(a.a1), level: low_i32(a.a2), name: low_i32(a.a3), value: a.a4, len: a.a5 }),
        Call::Clone => Some(Service::Clone { flags: a.a1, stack: a.a2, parent_tid: a.a3, child_tid: a.a4, tls: a.a5 }),
        Call::Fork => Some(Service::Fork),
        Call::Execve => Some(Service::Execve { path: a.a1, argv: a.a2, envp: a.a3 }),
        Call::Exit => Some(Service::Exit { code: low_i32(a.a1) }),
        Call::Wait4 => Some(Service::Wait4 { pid: low_i32(a.a1), status: a.a2, options: low_i32(a.a3), rusage: a.a4 }),
        Call::Kill => Some(Service::Kill { pid: low_i32(a.a1), sig: low_i32(a.a2) }),
        Call::Uname => Some(Service::Uname { out: a.a1 }),
        Call::Fcntl => Some(Service::Fcntl { fd: low_i32(a.a1), cmd: low_i32(a.a2), arg: a.a3 }),
        Call::Ftruncate => Some(Service::Ftruncate { fd: low_i32(a.a1), len: signed(a.a2) }),
        Call::Getcwd => Some(Service::Getcwd { buf: a.a1, len: a.a2 }),
        Call::Chdir => Some(Service::Chdir { path: a.a1 }),
        Call::Fchdir => Some(Service::Fchdir { fd: low_i32(a.a1) }),
        Call::Rename => Some(Service::Rename { old_path: a.a1, new_path: a.a2 }),
        Call::Mkdir => Some(Service::Mkdir { path: a.a1, mode: a.a2 }),
        Call::Rmdir => Some(Service::Rmdir { path: a.a1 }),
        Call::Unlink => Some(Service::Unlink { path: a.a1 }),
        Call::Readlink => Some(Service::Readlink { path: a.a1, buf: a.a2, len: a.a3 }),
        Call::Chmod => Some(Service::Chmod { path: a.a1, mode: low_u32(a.a2) }),
        Call::Getrusage => Some(Service::Getrusage { who: low_i32(a.a1), out: a.a2 }),
        Call::Sysinfo => Some(Service::Sysinfo { out: a.a1 }),
        Call::Setuid => Some(Service::Setuid { uid: a.a1 }),
        Call::Setgid => Some(Service::Setgid { gid: a.a1 }),
        Call::Getuid => Some(Service::Geteuid),
        Call::Geteuid => Some(Service::Geteuid),
        Call::Getgid => Some(Service::Getegid),
        Call::Getegid => Some(Service::Getegid),
        Call::Setsid => Some(Service::Setsid),
        Call::Capget => Some(Service::Capget { header: a.a1, data: a.a2 }),
        Call::RtSigsuspend => Some(Service::RtSigsuspend { mask: a.a1, size: a.a2 }),
        Call::Sigaltstack => Some(Service::Sigaltstack { new: a.a1, old_value: a.a2 }),
        Call::Statfs => Some(Service::Statfs { path: a.a1, out: a.a2 }),
        Call::Fstatfs => Some(Service::Fstatfs { fd: low_i32(a.a1), out: a.a2 }),
        Call::Prctl => Some(Service::Prctl { option: low_i32(a.a1), arg2: a.a2, arg3: a.a3, arg4: a.a4, arg5: a.a5 }),
        Call::ArchPrctl => Some(Service::ArchPrctl { code: a.a1, addr: a.a2 }),
        Call::Reboot => Some(Service::Reboot { magic1: low_u32(a.a1), magic2: low_u32(a.a2), cmd: low_u32(a.a3) }),
        Call::Listxattr => Some(Service::Listxattr { path: a.a1, buf: a.a2, len: a.a3 }),
        Call::Llistxattr => Some(Service::Llistxattr { path: a.a1, buf: a.a2, len: a.a3 }),
        Call::Flistxattr => Some(Service::Flistxattr { fd: low_i32(a.a1), buf: a.a2, len: a.a3 }),
        Call::Time => Some(Service::Time { out: a.a1 }),
        Call::Futex => Some(Service::Futex { addr: a.a1, op: low_i32(a.a2), value: low_u32(a.a3), timeout: a.a4, addr2: a.a5, value3: low_u32(a.a6) }),
        Call::SchedGetaffinity => Some(Service::SchedGetaffinity { pid: low_i32(a.a1), size: a.a2, mask: a.a3 }),
        Call::Getdents64 => Some(Service::Getdents64 { fd: low_i32(a.a1), buf: a.a2, len: a.a3 }),
        Call::ClockGettime => Some(Service::ClockGettime { clock: low_i32(a.a1), out: a.a2 }),
        Call::ClockNanosleep => Some(Service::ClockNanosleep { clock: low_i32(a.a1), flags: low_i32(a.a2), req: a.a3, rem: a.a4 }),
        Call::ExitGroup => Some(Service::ExitGroup { code: low_i32(a.a1) }),
        Call::Openat => Some(Service::Openat { dirfd: low_i32(a.a1), path: a.a2, flags: low_i32(a.a3), mode: mode_in(a.a4) }),
        Call::Mkdirat => Some(Service::Mkdirat { dirfd: low_i32(a.a1), path: a.a2, mode: a.a3 }),
        Call::Newfstatat => Some(Service::Newfstatat { dirfd: low_i32(a.a1), path: a.a2, stat: a.a3, flags: low_i32(a.a4) }),
        Call::Readlinkat => Some(Service::Readlinkat { dirfd: low_i32(a.a1), path: a.a2, buf: a.a3, len: a.a4 }),
        Call::Ppoll => Some(Service::Ppoll { fds: a.a1, count: a.a2, timeout: a.a3, mask: a.a4, size: a.a5 }),
        Call::Utimensat => Some(Service::Utimensat { dirfd: low_i32(a.a1), path: a.a2, times: a.a3, flags: a.a4 }),
        Call::Accept4 => Some(Service::Accept4 { fd: low_i32(a.a1), addr: a.a2, len: a.a3, flags: low_i32(a.a4) }),
        Call::Dup3 => Some(Service::Dup3 { old_fd: low_i32(a.a1), new_fd: low_i32(a.a2), flags: low_i32(a.a3) }),
        Call::Pipe2 => Some(Service::Pipe2 { fds: a.a1, flags: low_i32(a.a2) }),
        Call::Preadv => Some(Service::Preadv { fd: low_i32(a.a1), iov: a.a2, count: a.a3, offset: a.a4 }),
        Call::Pwritev => Some(Service::Pwritev { fd: low_i32(a.a1), iov: a.a2, count: a.a3, offset: a.a4 }),
        Call::Prlimit64 => Some(Service::Prlimit64 { pid: low_i32(a.a1), resource: low_u32(a.a2), new_limit: a.a3, old_limit: a.a4 }),
        Call::Getrandom => Some(Service::Getrandom { buf: a.a1, len: a.a2, flags: low_u32(a.a3) }),
        Call::MemfdCreate => Some(Service::MemfdCreate { name: a.a1, flags: low_u32(a.a2) }),
        Call::AddUserKey => Some(Service::AddUserKey { uid: low_u32(a.a1), key: a.a2, len: a.a3 }),
        Call::SetFileAttr => Some(Service::SetFileAttr { path: a.a1, attr: low_u32(a.a2), value: low_u32(a.a3) }),
        Call::Install => Some(Service::Install),
        Call::Getpid | Call::Gettid | Call::SetTidAddress | Call::Getppid | Call::Getpgrp | Call::Getpgid | Call::Getsid | Call::Tgkill | Call::Setpgid | Call::Close | Call::Dup | Call::Dup2 | Call::Umask | Call::Rseq | Call::Clone3 | Call::SetRobustList => None,
    }
}

} // verus!
