//! What holds of the way from the registers of a program to a call and back, and of the calls
//! that the table of processes is enough for.

use crate::errno::{failed, EBADF, ESRCH};
use crate::proc::process::{slot_of, FdEntry, ProcView, ProcessState};
use crate::proc::regs::InterruptStack;
use crate::proc::sched::process;
use crate::proc::signals::{has_signal, lemma_added, lemma_taken, SignalSet};
use crate::proc::table::{known, lemma_position, position, TableView};
use crate::syscall::dispatch::{
    args_in, called, group_answer, number_answer, number_of, process_answer, session_answer,
    setpgid_answer, with_result, Args, Call,
};
use crate::syscall::file_laws::lemma_descriptor_opened;
use crate::syscall::route::{routed, Service};
use crate::syscall::signal::{
    delivered, handler_left, kernel_action, kernel_alt_stack, masked_set, maskable, named, restored,
    settable, signal_dropped, suspended, user_action, Delivery, LinuxSigAction, LinuxSigAltStack,
    UserSignalFrame,
};
use vstd::prelude::*;

verus! {

/// The call with a number.
pub open spec fn call_numbered(n: u64) -> Option<Call> {
    match n {
        0 => Some(Call::Read),
        1 => Some(Call::Write),
        2 => Some(Call::Open),
        3 => Some(Call::Close),
        4 => Some(Call::Stat),
        5 => Some(Call::Fstat),
        6 => Some(Call::Lstat),
        7 => Some(Call::Poll),
        8 => Some(Call::Lseek),
        9 => Some(Call::Mmap),
        10 => Some(Call::Mprotect),
        11 => Some(Call::Munmap),
        12 => Some(Call::Brk),
        13 => Some(Call::RtSigaction),
        14 => Some(Call::RtSigprocmask),
        15 => Some(Call::RtSigreturn),
        16 => Some(Call::Ioctl),
        17 => Some(Call::Pread64),
        19 => Some(Call::Readv),
        20 => Some(Call::Writev),
        21 => Some(Call::Access),
        22 => Some(Call::Pipe),
        23 => Some(Call::Select),
        24 => Some(Call::SchedYield),
        26 => Some(Call::Msync),
        28 => Some(Call::Madvise),
        32 => Some(Call::Dup),
        33 => Some(Call::Dup2),
        34 => Some(Call::Pause),
        35 => Some(Call::Nanosleep),
        38 => Some(Call::Setitimer),
        39 => Some(Call::Getpid),
        41 => Some(Call::Socket),
        42 => Some(Call::Connect),
        43 => Some(Call::Accept),
        44 => Some(Call::Sendto),
        45 => Some(Call::Recvfrom),
        46 => Some(Call::Sendmsg),
        47 => Some(Call::Recvmsg),
        48 => Some(Call::Shutdown),
        49 => Some(Call::Bind),
        50 => Some(Call::Listen),
        51 => Some(Call::Getsockname),
        52 => Some(Call::Getpeername),
        53 => Some(Call::Socketpair),
        54 => Some(Call::Setsockopt),
        55 => Some(Call::Getsockopt),
        56 => Some(Call::Clone),
        57 => Some(Call::Fork),
        59 => Some(Call::Execve),
        60 => Some(Call::Exit),
        61 => Some(Call::Wait4),
        62 => Some(Call::Kill),
        63 => Some(Call::Uname),
        72 => Some(Call::Fcntl),
        77 => Some(Call::Ftruncate),
        79 => Some(Call::Getcwd),
        80 => Some(Call::Chdir),
        81 => Some(Call::Fchdir),
        82 => Some(Call::Rename),
        83 => Some(Call::Mkdir),
        84 => Some(Call::Rmdir),
        87 => Some(Call::Unlink),
        89 => Some(Call::Readlink),
        90 => Some(Call::Chmod),
        95 => Some(Call::Umask),
        98 => Some(Call::Getrusage),
        99 => Some(Call::Sysinfo),
        102 => Some(Call::Getuid),
        104 => Some(Call::Getgid),
        105 => Some(Call::Setuid),
        106 => Some(Call::Setgid),
        107 => Some(Call::Geteuid),
        108 => Some(Call::Getegid),
        109 => Some(Call::Setpgid),
        110 => Some(Call::Getppid),
        111 => Some(Call::Getpgrp),
        112 => Some(Call::Setsid),
        121 => Some(Call::Getpgid),
        124 => Some(Call::Getsid),
        125 => Some(Call::Capget),
        130 => Some(Call::RtSigsuspend),
        131 => Some(Call::Sigaltstack),
        137 => Some(Call::Statfs),
        138 => Some(Call::Fstatfs),
        157 => Some(Call::Prctl),
        158 => Some(Call::ArchPrctl),
        169 => Some(Call::Reboot),
        186 => Some(Call::Gettid),
        194 => Some(Call::Listxattr),
        195 => Some(Call::Llistxattr),
        196 => Some(Call::Flistxattr),
        201 => Some(Call::Time),
        202 => Some(Call::Futex),
        204 => Some(Call::SchedGetaffinity),
        217 => Some(Call::Getdents64),
        218 => Some(Call::SetTidAddress),
        228 => Some(Call::ClockGettime),
        230 => Some(Call::ClockNanosleep),
        231 => Some(Call::ExitGroup),
        234 => Some(Call::Tgkill),
        257 => Some(Call::Openat),
        258 => Some(Call::Mkdirat),
        262 => Some(Call::Newfstatat),
        267 => Some(Call::Readlinkat),
        271 => Some(Call::Ppoll),
        273 => Some(Call::SetRobustList),
        280 => Some(Call::Utimensat),
        288 => Some(Call::Accept4),
        292 => Some(Call::Dup3),
        293 => Some(Call::Pipe2),
        295 => Some(Call::Preadv),
        296 => Some(Call::Pwritev),
        302 => Some(Call::Prlimit64),
        318 => Some(Call::Getrandom),
        319 => Some(Call::MemfdCreate),
        334 => Some(Call::Rseq),
        435 => Some(Call::Clone3),
        448 => Some(Call::AddUserKey),
        449 => Some(Call::SetFileAttr),
        700 => Some(Call::Install),
        _ => None,
    }
}

/// A number asks for one call, and no other number asks for it.
pub proof fn lemma_numbers_of_calls(c: Call, n: u64)
    ensures
        call_numbered(number_of(c)) == Some(c),
        call_numbered(n) matches Some(d) ==> number_of(d) == n,
{
}

/// The call that the registers ask for is the one with the number in `rax`.
pub proof fn lemma_call_found(regs: InterruptStack)
    ensures
        called(regs) == call_numbered(regs.scratch.rax),
{
    match call_numbered(regs.scratch.rax) {
        Some(c) => {
            lemma_numbers_of_calls(c, regs.scratch.rax);
            assert(number_of(c) == regs.scratch.rax);
            let d = choose|d: Call| number_of(d) == regs.scratch.rax;
            lemma_numbers_of_calls(d, regs.scratch.rax);
        },
        None => {
            if exists|d: Call| number_of(d) == regs.scratch.rax {
                let d = choose|d: Call| number_of(d) == regs.scratch.rax;
                lemma_numbers_of_calls(d, regs.scratch.rax);
            }
        },
    }
}

/// The arguments of a service, in the order of its declaration.
pub open spec fn arguments_of(s: Service) -> Seq<int> {
    match s {
        Service::Read { fd, buf, len } => seq![fd as int, buf as int, len as int],
        Service::Write { fd, buf, len } => seq![fd as int, buf as int, len as int],
        Service::Open { path, flags, mode } => seq![path as int, flags as int, mode as int],
        Service::Stat { path, stat } => seq![path as int, stat as int],
        Service::Fstat { fd, stat } => seq![fd as int, stat as int],
        Service::Lstat { path, stat } => seq![path as int, stat as int],
        Service::Poll { fds, count, timeout } => seq![fds as int, count as int, timeout as int],
        Service::Lseek { fd, offset, whence } => seq![fd as int, offset as int, whence as int],
        Service::Mmap { addr, len, prot, flags, fd, offset } => seq![addr as int, len as int, prot as int, flags as int, fd as int, offset as int],
        Service::Mprotect { addr, len, prot } => seq![addr as int, len as int, prot as int],
        Service::Munmap { addr, len } => seq![addr as int, len as int],
        Service::Brk { addr } => seq![addr as int],
        Service::RtSigaction { sig, act, oldact, size } => seq![sig as int, act as int, oldact as int, size as int],
        Service::RtSigprocmask { how, set, oldset, size } => seq![how as int, set as int, oldset as int, size as int],
        Service::RtSigreturn => Seq::<int>::empty(),
        Service::Ioctl { fd, request, arg } => seq![fd as int, request as int, arg as int],
        Service::Pread64 { fd, buf, len, offset } => seq![fd as int, buf as int, len as int, offset as int],
        Service::Readv { fd, iov, count } => seq![fd as int, iov as int, count as int],
        Service::Writev { fd, iov, count } => seq![fd as int, iov as int, count as int],
        Service::Access { path, mode } => seq![path as int, mode as int],
        Service::Pipe { fds } => seq![fds as int],
        Service::Select { count, read, write, except, timeout } => seq![count as int, read as int, write as int, except as int, timeout as int],
        Service::SchedYield => Seq::<int>::empty(),
        Service::Msync { addr, len, flags } => seq![addr as int, len as int, flags as int],
        Service::Madvise { addr, len, advice } => seq![addr as int, len as int, advice as int],
        Service::Pause => Seq::<int>::empty(),
        Service::Nanosleep { req, rem } => seq![req as int, rem as int],
        Service::Setitimer { which, new, old_value } => seq![which as int, new as int, old_value as int],
        Service::Socket { domain, kind, protocol } => seq![domain as int, kind as int, protocol as int],
        Service::Connect { fd, addr, len } => seq![fd as int, addr as int, len as int],
        Service::Accept { fd, addr, len } => seq![fd as int, addr as int, len as int],
        Service::Sendto { fd, buf, len, flags, addr, addr_len } => seq![fd as int, buf as int, len as int, flags as int, addr as int, addr_len as int],
        Service::Recvfrom { fd, buf, len, flags, addr, addr_len } => seq![fd as int, buf as int, len as int, flags as int, addr as int, addr_len as int],
        Service::Sendmsg { fd, msg, flags } => seq![fd as int, msg as int, flags as int],
        Service::Recvmsg { fd, msg, flags } => seq![fd as int, msg as int, flags as int],
        Service::Shutdown { fd, how } => seq![fd as int, how as int],
        Service::Bind { fd, addr, len } => seq![fd as int, addr as int, len as int],
        Service::Listen { fd, backlog } => seq![fd as int, backlog as int],
        Service::Getsockname { fd, addr, len } => seq![fd as int, addr as int, len as int],
        Service::Getpeername { fd, addr, len } => seq![fd as int, addr as int, len as int],
        Service::Socketpair { domain, kind, protocol, fds } => seq![domain as int, kind as int, protocol as int, fds as int],
        Service::Setsockopt { fd, level, name, value, len } => seq![fd as int, level as int, name as int, value as int, len as int],
        Service::Getsockopt { fd, level, name, value, len } => seq![fd as int, level as int, name as int, value as int, len as int],
        Service::Clone { flags, stack, parent_tid, child_tid, tls } => seq![flags as int, stack as int, parent_tid as int, child_tid as int, tls as int],
        Service::Fork => Seq::<int>::empty(),
        Service::Execve { path, argv, envp } => seq![path as int, argv as int, envp as int],
        Service::Exit { code } => seq![code as int],
        Service::Wait4 { pid, status, options, rusage } => seq![pid as int, status as int, options as int, rusage as int],
        Service::Kill { pid, sig } => seq![pid as int, sig as int],
        Service::Uname { out } => seq![out as int],
        Service::Fcntl { fd, cmd, arg } => seq![fd as int, cmd as int, arg as int],
        Service::Ftruncate { fd, len } => seq![fd as int, len as int],
        Service::Getcwd { buf, len } => seq![buf as int, len as int],
        Service::Chdir { path } => seq![path as int],
        Service::Fchdir { fd } => seq![fd as int],
        Service::Rename { old_path, new_path } => seq![old_path as int, new_path as int],
        Service::Mkdir { path, mode } => seq![path as int, mode as int],
        Service::Rmdir { path } => seq![path as int],
        Service::Unlink { path } => seq![path as int],
        Service::Readlink { path, buf, len } => seq![path as int, buf as int, len as int],
        Service::Chmod { path, mode } => seq![path as int, mode as int],
        Service::Getrusage { who, out } => seq![who as int, out as int],
        Service::Sysinfo { out } => seq![out as int],
        Service::Setuid { uid } => seq![uid as int],
        Service::Setgid { gid } => seq![gid as int],
        Service::Geteuid => Seq::<int>::empty(),
        Service::Getegid => Seq::<int>::empty(),
        Service::Setsid => Seq::<int>::empty(),
        Service::Capget { header, data } => seq![header as int, data as int],
        Service::RtSigsuspend { mask, size } => seq![mask as int, size as int],
        Service::Sigaltstack { new, old_value } => seq![new as int, old_value as int],
        Service::Statfs { path, out } => seq![path as int, out as int],
        Service::Fstatfs { fd, out } => seq![fd as int, out as int],
        Service::Prctl { option, arg2, arg3, arg4, arg5 } => seq![option as int, arg2 as int, arg3 as int, arg4 as int, arg5 as int],
        Service::ArchPrctl { code, addr } => seq![code as int, addr as int],
        Service::Reboot { magic1, magic2, cmd } => seq![magic1 as int, magic2 as int, cmd as int],
        Service::Listxattr { path, buf, len } => seq![path as int, buf as int, len as int],
        Service::Llistxattr { path, buf, len } => seq![path as int, buf as int, len as int],
        Service::Flistxattr { fd, buf, len } => seq![fd as int, buf as int, len as int],
        Service::Time { out } => seq![out as int],
        Service::Futex { addr, op, value, timeout, addr2, value3 } => seq![addr as int, op as int, value as int, timeout as int, addr2 as int, value3 as int],
        Service::SchedGetaffinity { pid, size, mask } => seq![pid as int, size as int, mask as int],
        Service::Getdents64 { fd, buf, len } => seq![fd as int, buf as int, len as int],
        Service::ClockGettime { clock, out } => seq![clock as int, out as int],
        Service::ClockNanosleep { clock, flags, req, rem } => seq![clock as int, flags as int, req as int, rem as int],
        Service::ExitGroup { code } => seq![code as int],
        Service::Openat { dirfd, path, flags, mode } => seq![dirfd as int, path as int, flags as int, mode as int],
        Service::Mkdirat { dirfd, path, mode } => seq![dirfd as int, path as int, mode as int],
        Service::Newfstatat { dirfd, path, stat, flags } => seq![dirfd as int, path as int, stat as int, flags as int],
        Service::Readlinkat { dirfd, path, buf, len } => seq![dirfd as int, path as int, buf as int, len as int],
        Service::Ppoll { fds, count, timeout, mask, size } => seq![fds as int, count as int, timeout as int, mask as int, size as int],
        Service::Utimensat { dirfd, path, times, flags } => seq![dirfd as int, path as int, times as int, flags as int],
        Service::Accept4 { fd, addr, len, flags } => seq![fd as int, addr as int, len as int, flags as int],
        Service::Dup3 { old_fd, new_fd, flags } => seq![old_fd as int, new_fd as int, flags as int],
        Service::Pipe2 { fds, flags } => seq![fds as int, flags as int],
        Service::Preadv { fd, iov, count, offset } => seq![fd as int, iov as int, count as int, offset as int],
        Service::Pwritev { fd, iov, count, offset } => seq![fd as int, iov as int, count as int, offset as int],
        Service::Prlimit64 { pid, resource, new_limit, old_limit } => seq![pid as int, resource as int, new_limit as int, old_limit as int],
        Service::Getrandom { buf, len, flags } => seq![buf as int, len as int, flags as int],
        Service::MemfdCreate { name, flags } => seq![name as int, flags as int],
        Service::AddUserKey { uid, key, len } => seq![uid as int, key as int, len as int],
        Service::SetFileAttr { path, attr, value } => seq![path as int, attr as int, value as int],
        Service::Install => Seq::<int>::empty(),
    }
}

/// The call that a service answers.
pub open spec fn call_of(s: Service) -> Call {
    match s {
        Service::Read { .. } => Call::Read,
        Service::Write { .. } => Call::Write,
        Service::Open { .. } => Call::Open,
        Service::Stat { .. } => Call::Stat,
        Service::Fstat { .. } => Call::Fstat,
        Service::Lstat { .. } => Call::Lstat,
        Service::Poll { .. } => Call::Poll,
        Service::Lseek { .. } => Call::Lseek,
        Service::Mmap { .. } => Call::Mmap,
        Service::Mprotect { .. } => Call::Mprotect,
        Service::Munmap { .. } => Call::Munmap,
        Service::Brk { .. } => Call::Brk,
        Service::RtSigaction { .. } => Call::RtSigaction,
        Service::RtSigprocmask { .. } => Call::RtSigprocmask,
        Service::RtSigreturn => Call::RtSigreturn,
        Service::Ioctl { .. } => Call::Ioctl,
        Service::Pread64 { .. } => Call::Pread64,
        Service::Readv { .. } => Call::Readv,
        Service::Writev { .. } => Call::Writev,
        Service::Access { .. } => Call::Access,
        Service::Pipe { .. } => Call::Pipe,
        Service::Select { .. } => Call::Select,
        Service::SchedYield => Call::SchedYield,
        Service::Msync { .. } => Call::Msync,
        Service::Madvise { .. } => Call::Madvise,
        Service::Pause => Call::Pause,
        Service::Nanosleep { .. } => Call::Nanosleep,
        Service::Setitimer { .. } => Call::Setitimer,
        Service::Socket { .. } => Call::Socket,
        Service::Connect { .. } => Call::Connect,
        Service::Accept { .. } => Call::Accept,
        Service::Sendto { .. } => Call::Sendto,
        Service::Recvfrom { .. } => Call::Recvfrom,
        Service::Sendmsg { .. } => Call::Sendmsg,
        Service::Recvmsg { .. } => Call::Recvmsg,
        Service::Shutdown { .. } => Call::Shutdown,
        Service::Bind { .. } => Call::Bind,
        Service::Listen { .. } => Call::Listen,
        Service::Getsockname { .. } => Call::Getsockname,
        Service::Getpeername { .. } => Call::Getpeername,
        Service::Socketpair { .. } => Call::Socketpair,
        Service::Setsockopt { .. } => Call::Setsockopt,
        Service::Getsockopt { .. } => Call::Getsockopt,
        Service::Clone { .. } => Call::Clone,
        Service::Fork => Call::Fork,
        Service::Execve { .. } => Call::Execve,
        Service::Exit { .. } => Call::Exit,
        Service::Wait4 { .. } => Call::Wait4,
        Service::Kill { .. } => Call::Kill,
        Service::Uname { .. } => Call::Uname,
        Service::Fcntl { .. } => Call::Fcntl,
        Service::Ftruncate { .. } => Call::Ftruncate,
        Service::Getcwd { .. } => Call::Getcwd,
        Service::Chdir { .. } => Call::Chdir,
        Service::Fchdir { .. } => Call::Fchdir,
        Service::Rename { .. } => Call::Rename,
        Service::Mkdir { .. } => Call::Mkdir,
        Service::Rmdir { .. } => Call::Rmdir,
        Service::Unlink { .. } => Call::Unlink,
        Service::Readlink { .. } => Call::Readlink,
        Service::Chmod { .. } => Call::Chmod,
        Service::Getrusage { .. } => Call::Getrusage,
        Service::Sysinfo { .. } => Call::Sysinfo,
        Service::Setuid { .. } => Call::Setuid,
        Service::Setgid { .. } => Call::Setgid,
        Service::Geteuid => Call::Geteuid,
        Service::Getegid => Call::Getegid,
        Service::Setsid => Call::Setsid,
        Service::Capget { .. } => Call::Capget,
        Service::RtSigsuspend { .. } => Call::RtSigsuspend,
        Service::Sigaltstack { .. } => Call::Sigaltstack,
        Service::Statfs { .. } => Call::Statfs,
        Service::Fstatfs { .. } => Call::Fstatfs,
        Service::Prctl { .. } => Call::Prctl,
        Service::ArchPrctl { .. } => Call::ArchPrctl,
        Service::Reboot { .. } => Call::Reboot,
        Service::Listxattr { .. } => Call::Listxattr,
        Service::Llistxattr { .. } => Call::Llistxattr,
        Service::Flistxattr { .. } => Call::Flistxattr,
        Service::Time { .. } => Call::Time,
        Service::Futex { .. } => Call::Futex,
        Service::SchedGetaffinity { .. } => Call::SchedGetaffinity,
        Service::Getdents64 { .. } => Call::Getdents64,
        Service::ClockGettime { .. } => Call::ClockGettime,
        Service::ClockNanosleep { .. } => Call::ClockNanosleep,
        Service::ExitGroup { .. } => Call::ExitGroup,
        Service::Openat { .. } => Call::Openat,
        Service::Mkdirat { .. } => Call::Mkdirat,
        Service::Newfstatat { .. } => Call::Newfstatat,
        Service::Readlinkat { .. } => Call::Readlinkat,
        Service::Ppoll { .. } => Call::Ppoll,
        Service::Utimensat { .. } => Call::Utimensat,
        Service::Accept4 { .. } => Call::Accept4,
        Service::Dup3 { .. } => Call::Dup3,
        Service::Pipe2 { .. } => Call::Pipe2,
        Service::Preadv { .. } => Call::Preadv,
        Service::Pwritev { .. } => Call::Pwritev,
        Service::Prlimit64 { .. } => Call::Prlimit64,
        Service::Getrandom { .. } => Call::Getrandom,
        Service::MemfdCreate { .. } => Call::MemfdCreate,
        Service::AddUserKey { .. } => Call::AddUserKey,
        Service::SetFileAttr { .. } => Call::SetFileAttr,
        Service::Install => Call::Install,
    }
}

/// What is left of a register where an argument is narrower.
pub open spec fn left_of(x: int, r: u64) -> bool {
    x == r || x == r as i64 || x == r as i32 || x == r as u32 || x == (r as i32) as u32 || x
        == r as u8
}

/// Every argument of a call is what is left of the register in its place.
pub proof fn lemma_arguments_from_registers(c: Call, a: Args, k: int)
    ensures
        routed(c, a) matches Some(s) ==> {
            let xs = arguments_of(s);
            &&& xs.len() <= 6
            &&& 0 <= k < xs.len() ==> left_of(
                xs[k],
                seq![a.a1, a.a2, a.a3, a.a4, a.a5, a.a6][k],
            )
        },
{
}

/// The arguments of a call are in the registers in their order, and a call is answered by its
/// own service; the real user is the effective one, and so is the group.
pub proof fn lemma_arguments_in_order(c: Call, a: Args, k: int)
    requires
        a.a1 < 0x80,
        a.a2 < 0x80,
        a.a3 < 0x80,
        a.a4 < 0x80,
        a.a5 < 0x80,
        a.a6 < 0x80,
    ensures
        routed(c, a) matches Some(s) ==> {
            let xs = arguments_of(s);
            let all = seq![a.a1 as int, a.a2 as int, a.a3 as int, a.a4 as int, a.a5 as int, a.a6 as int];
            &&& xs.len() <= 6
            &&& 0 <= k < xs.len() ==> xs[k] == all[k]
            &&& call_of(s) == match c {
                Call::Getuid => Call::Geteuid,
                Call::Getgid => Call::Getegid,
                _ => c,
            }
        },
{
}

/// The arguments are in the registers that the system call interface names for them, and the
/// result goes where the number was; no other register changes.
pub proof fn lemma_registers(regs: InterruptStack, result: i64)
    ensures
        args_in(regs).a1 == regs.scratch.rdi,
        args_in(regs).a2 == regs.scratch.rsi,
        args_in(regs).a3 == regs.scratch.rdx,
        args_in(regs).a4 == regs.scratch.r10,
        args_in(regs).a5 == regs.scratch.r8,
        args_in(regs).a6 == regs.scratch.r9,
        with_result(regs, result).scratch.rax as i64 == result,
        with_result(regs, result).preserved == regs.preserved,
        with_result(regs, result).iret == regs.iret,
        args_in(with_result(regs, result)) == args_in(regs),
{
    let r = result;
    assert((r as u64) as i64 == r) by (bit_vector);
}

/// A descriptor that was closed is closed, and closing it again fails; the others are as they
/// were.
pub proof fn lemma_close_closes(a: Args, p: ProcView, k: int)
    requires
        a.a1 < 0x8000_0000,
    ensures
        ({
            let fd = a.a1 as int;
            let (n, q) = process_answer(Call::Close, a, p)->0;
            &&& process_answer(Call::Close, a, p) is Some
            &&& slot_of(p.fd_table, fd) is Some ==> n == 0 && slot_of(q.fd_table, fd) is None
            &&& slot_of(p.fd_table, fd) is None ==> n == failed(EBADF) && q == p
            &&& k != fd ==> slot_of(q.fd_table, k) == slot_of(p.fd_table, k)
            &&& process_answer(Call::Close, a, q) == Some((failed(EBADF), q))
            &&& q == (ProcView { fd_table: q.fd_table, ..p })
        }),
{
}

/// A copy of a descriptor stands for the same file, is the lowest that is free, and outlives an
/// exec; the others are as they were.
pub proof fn lemma_dup_copies(a: Args, p: ProcView, k: int)
    requires
        a.a1 < 0x8000_0000,
        p.fd_table.len() < i32::MAX,
        slot_of(p.fd_table, a.a1 as int) is Some,
    ensures
        ({
            let fd = a.a1 as int;
            let e = slot_of(p.fd_table, fd)->0;
            let (n, q) = process_answer(Call::Dup, a, p)->0;
            &&& process_answer(Call::Dup, a, p) is Some
            &&& n >= 0
            &&& slot_of(p.fd_table, n as int) is None
            &&& 0 <= k < n ==> slot_of(p.fd_table, k) is Some
            &&& slot_of(q.fd_table, n as int) == Some(FdEntry { file: e.file, fd_flags: 0 })
            &&& k != n ==> slot_of(q.fd_table, k) == slot_of(p.fd_table, k)
            &&& q == (ProcView { fd_table: q.fd_table, ..p })
        }),
{
    let e = slot_of(p.fd_table, a.a1 as int)->0;
    lemma_descriptor_opened(p.fd_table, 0, FdEntry { file: e.file, fd_flags: 0 }, k);
}

/// A descriptor that another is copied to stands for the file of that one; copied to itself it
/// is as it was. A descriptor that is not open cannot be copied.
pub proof fn lemma_dup2_copies(a: Args, p: ProcView, k: int)
    requires
        a.a1 < 0x8000_0000,
        a.a2 < 0x8000_0000,
    ensures
        ({
            let (from, to) = (a.a1 as int, a.a2 as int);
            let (n, q) = process_answer(Call::Dup2, a, p)->0;
            &&& process_answer(Call::Dup2, a, p) is Some
            &&& slot_of(p.fd_table, from) is None ==> n == failed(EBADF) && q == p
            &&& slot_of(p.fd_table, from) matches Some(e) ==> {
                &&& n == to
                &&& from == to ==> q == p
                &&& from != to ==> slot_of(q.fd_table, to) == Some(
                    FdEntry { file: e.file, fd_flags: 0 },
                )
                &&& k != to ==> slot_of(q.fd_table, k) == slot_of(p.fd_table, k)
            }
            &&& q == (ProcView { fd_table: q.fd_table, ..p })
        }),
{
}

/// A mask that was set is told when the next one is set, and holds back no more than the nine
/// permissions.
pub proof fn lemma_umask_set(a: Args, b: Args, p: ProcView)
    requires
        a.a1 < 0x1_0000,
    ensures
        ({
            let (n, q) = process_answer(Call::Umask, a, p)->0;
            let (m, r) = process_answer(Call::Umask, b, q)->0;
            &&& n == p.umask
            &&& m == q.umask
            &&& a.a1 <= 0o777 ==> m == a.a1
            &&& q.umask <= 0o777
            &&& q == (ProcView { umask: q.umask, ..p })
        }),
{
    let x = a.a1;
    assert(((x as u32) as u16) & 0o777u16 <= 0o777 && (x <= 0o777 ==> ((x as u32) as u16) & 0o777u16
        == x)) by (bit_vector);
}

/// A process is told its own number, that of its parent, and the numbers of its group and its
/// session.
pub proof fn lemma_own_numbers(a: Args, t: TableView)
    requires
        known(t.procs, t.current),
    ensures
        number_answer(Call::Getpid, a, t) == Some(t.current as i64),
        number_answer(Call::Gettid, a, t) == Some(t.current as i64),
        number_answer(Call::Getppid, a, t) == Some(process(t, t.current).parent_pid as i64),
        number_answer(Call::Getpgrp, a, t) == Some(process(t, t.current).pgid as i64),
        a.a1 == 0 ==> number_answer(Call::Getpgid, a, t) == Some(process(t, t.current).pgid as i64),
        a.a1 == 0 ==> number_answer(Call::Getsid, a, t) == Some(process(t, t.current).sid as i64),
{
}

/// The group and the session of another process are told where there is one with that number.
pub proof fn lemma_numbers_of_others(t: TableView, pid: u16)
    requires
        pid != 0,
    ensures
        known(t.procs, pid) ==> group_answer(t, pid as i32) == process(t, pid).pgid,
        known(t.procs, pid) ==> session_answer(t, pid as i32) == process(t, pid).sid,
        !known(t.procs, pid) ==> group_answer(t, pid as i32) == failed(ESRCH),
        !known(t.procs, pid) ==> session_answer(t, pid as i32) == failed(ESRCH),
{
}

/// A process that was put into a group is in it; no other process has moved, and nothing else
/// of it has changed.
pub proof fn lemma_group_joined(t: TableView, after: TableView, pid: i32, pgid: i32, n: i64, k: int)
    requires
        setpgid_answer(t, after, pid, pgid, n),
        0 <= pid <= 65535,
        0 <= pgid <= 65535,
        known(t.procs, named(t, pid)),
        0 <= k < t.procs.len(),
    ensures
        ({
            let i = position(t.procs, named(t, pid));
            &&& n == 0
            &&& after.procs.len() == t.procs.len()
            &&& after.procs[i].pgid == if pgid == 0 {
                named(t, pid) as int
            } else {
                pgid as int
            }
            &&& after.procs[i] == (ProcView { pgid: after.procs[i].pgid, ..t.procs[i] })
            &&& k != i ==> after.procs[k] == t.procs[k]
            &&& after.current == t.current
        }),
{
    lemma_position(t.procs, named(t, pid));
}

/// The signals that are held back after a change: those before and those of the set, those
/// before without those of the set, or those of the set; but never the two that cannot be.
pub proof fn lemma_mask_changed(s: SignalSet, m: SignalSet, sig: int)
    requires
        1 <= sig <= 64,
    ensures
        ({
            let free = sig == 9 || sig == 19;
            &&& masked_set(s, 0, m) matches Some(x) && (has_signal(x.low, sig) == (has_signal(
                s.low,
                sig,
            ) || (has_signal(m.low, sig) && !free)))
            &&& masked_set(s, 1, m) matches Some(x) && (has_signal(x.low, sig) == (has_signal(
                s.low,
                sig,
            ) && (!has_signal(m.low, sig) || free)))
            &&& masked_set(s, 2, m) matches Some(x) && (has_signal(x.low, sig) == (has_signal(
                m.low,
                sig,
            ) && !free))
            &&& masked_set(s, 3, m) is None
        }),
{
    lemma_maskable(m.low, sig);
    lemma_bits(s.low, maskable(m.low), sig);
}

proof fn lemma_maskable(word: u64, sig: int)
    requires
        1 <= sig <= 64,
    ensures
        has_signal(maskable(word), sig) == (has_signal(word, sig) && sig != 9 && sig != 19),
{
    lemma_taken(word, 9, sig);
    lemma_taken(word & !crate::proc::signals::bit_of(9), 19, sig);
}

proof fn lemma_bits(a: u64, b: u64, sig: int)
    requires
        1 <= sig <= 64,
    ensures
        has_signal(a | b, sig) == (has_signal(a, sig) || has_signal(b, sig)),
        has_signal(a & !b, sig) == (has_signal(a, sig) && !has_signal(b, sig)),
        has_signal(a & b, sig) == (has_signal(a, sig) && has_signal(b, sig)),
{
    let k = (sig - 1) as u64;
    assert((((a | b) & (1u64 << k) != 0) == ((a & (1u64 << k) != 0) || (b & (1u64 << k) != 0))) && (((a
        & !b) & (1u64 << k) != 0) == ((a & (1u64 << k) != 0) && !(b & (1u64 << k) != 0))) && (((a & b)
        & (1u64 << k) != 0) == ((a & (1u64 << k) != 0) && (b & (1u64 << k) != 0)))) by (bit_vector)
        requires
            k < 64,
    ;
}

/// An action that was set is told when it is asked for, but that it holds back neither of the
/// two signals that cannot be.
pub proof fn lemma_action_kept(a: LinuxSigAction, sig: int)
    requires
        1 <= sig <= 64,
    ensures
        ({
            let b = user_action(kernel_action(a));
            &&& b.handler == a.handler
            &&& b.flags == a.flags
            &&& b.restorer == a.restorer
            &&& has_signal(b.mask, sig) == (has_signal(a.mask, sig) && sig != 9 && sig != 19)
        }),
{
    lemma_maskable(a.mask, sig);
}

/// The action of every signal can be set but those of SIGKILL and SIGSTOP.
pub proof fn lemma_which_settable(sig: i32)
    ensures
        !settable(9),
        !settable(19),
        sig < 1 || sig > 64 ==> !settable(sig),
        1 <= sig <= 64 && sig != 9 && sig != 19 ==> settable(sig),
{
}

/// A stack for handlers that was set is the one that was given; one that is switched off is
/// none.
pub proof fn lemma_alt_stack_kept(s: LinuxSigAltStack)
    ensures
        s.ss_flags & 2 == 0 ==> kernel_alt_stack(s).sp == s.ss_sp && kernel_alt_stack(s).size
            == s.ss_size && kernel_alt_stack(s).flags == 0,
        s.ss_flags & 2 != 0 ==> kernel_alt_stack(s).sp == 0 && kernel_alt_stack(s).size == 0
            && kernel_alt_stack(s).flags == 2,
{
}

/// A process that waits for a signal holds back what it was told to meanwhile, keeps what it
/// held back before, and waits only where no signal is there for it.
pub proof fn lemma_waits_for_signal(p: ProcView, m: SignalSet, sig: int)
    requires
        1 <= sig <= 64,
    ensures
        ({
            let q = suspended(p, m);
            &&& q.in_sigsuspend
            &&& q.sigsuspend_saved_mask == p.signal_mask
            &&& has_signal(q.signal_mask.low, sig) == (has_signal(m.low, sig) && sig != 9 && sig
                != 19)
            &&& q.pending_signals == p.pending_signals
            &&& has_signal(p.pending_signals, sig) && !has_signal(q.signal_mask.low, sig) ==> q.state
                == p.state
            &&& q.state == p.state || q.state == ProcessState::SignalWait
            &&& q.fd_table == p.fd_table
        }),
{
    lemma_maskable(m.low, sig);
    let q = suspended(p, m);
    lemma_bits(p.pending_signals, q.signal_mask.low, sig);
    let k = (sig - 1) as u64;
    assert(0u64 & (1u64 << k) == 0) by (bit_vector);
}

/// A handler starts with the number of its signal, on the stack of the program, with the signal
/// held back unless it asked for it not to be; it returns to where the program was, with what
/// was held back before.
pub proof fn lemma_handler_starts(p: ProcView, q: ProcView, sig: int, regs: InterruptStack, d: Delivery, t: int)
    requires
        delivered(p, q, sig, regs, d),
        1 <= sig <= 64,
        1 <= t <= 64,
        regs.iret.rsp >= 192,
    ensures
        d.regs.iret.rip == p.signal_actions[sig].handler,
        d.regs.scratch.rdi == sig,
        d.regs.scratch.rsi == 0,
        d.regs.scratch.rdx == 0,
        d.regs.preserved == regs.preserved,
        d.regs.iret.cs == regs.iret.cs,
        d.regs.iret.ss == regs.iret.ss,
        d.regs.iret.rflags == regs.iret.rflags,
        d.regs.iret.rsp == d.ret_slot,
        d.ret_slot + 8 == d.frame_addr,
        d.frame_addr + 168 <= regs.iret.rsp,
        d.restorer == p.signal_actions[sig].restorer,
        d.frame.rip == regs.iret.rip,
        d.frame.rsp == regs.iret.rsp,
        d.frame.rflags == regs.iret.rflags,
        d.frame.scratch == regs.scratch,
        d.frame.preserved == regs.preserved,
        !p.in_sigsuspend ==> d.frame.old_mask == p.signal_mask,
        p.in_sigsuspend ==> d.frame.old_mask == p.sigsuspend_saved_mask,
        !q.in_sigsuspend,
        has_signal(q.pending_signals, t) == (t != sig && has_signal(p.pending_signals, t)),
        t == sig && sig != 9 && sig != 19 && p.signal_actions[sig].flags & 0x4000_0000 == 0
            ==> has_signal(q.signal_mask.low, t),
        t != 9 && t != 19 && (has_signal(p.signal_mask.low, t) || has_signal(
            p.signal_actions[sig].mask.low,
            t,
        )) ==> has_signal(q.signal_mask.low, t),
        q.state == p.state,
        q.fd_table == p.fd_table,
{
    lemma_taken(p.pending_signals, sig, t);
    let a = p.signal_actions[sig];
    let low = p.signal_mask.low | a.mask.low;
    lemma_bits(p.signal_mask.low, a.mask.low, t);
    lemma_added(low, sig, t);
    lemma_maskable(
        if a.flags & 0x4000_0000 == 0 {
            low | crate::proc::signals::bit_of(sig)
        } else {
            low
        },
        t,
    );
}

/// A signal without a handler is gone once it was looked at, and the others wait on.
pub proof fn lemma_signal_dropped(p: ProcView, sig: int, t: int)
    requires
        1 <= sig <= 64,
        1 <= t <= 64,
    ensures
        has_signal(signal_dropped(p, sig).pending_signals, t) == (t != sig && has_signal(
            p.pending_signals,
            t,
        )),
        !signal_dropped(p, sig).in_sigsuspend,
        p.in_sigsuspend ==> signal_dropped(p, sig).signal_mask == p.sigsuspend_saved_mask,
        !p.in_sigsuspend ==> signal_dropped(p, sig).signal_mask == p.signal_mask,
        signal_dropped(p, sig).state == p.state,
{
    lemma_taken(p.pending_signals, sig, t);
}

/// The registers that a frame brings back are those that it holds; what the program may not set
/// is not taken from it.
pub proof fn lemma_frame_restores(regs: InterruptStack, f: UserSignalFrame)
    ensures
        restored(regs, f).preserved == f.preserved,
        restored(regs, f).scratch == f.scratch,
        restored(regs, f).iret.rip == f.rip,
        restored(regs, f).iret.rsp == f.rsp,
        restored(regs, f).iret.cs == regs.iret.cs,
        restored(regs, f).iret.ss == regs.iret.ss,
{
}

/// When a handler returns, its process goes on as if nothing had happened: with the registers it
/// had, where it was, and with the same signals held back as before.
pub proof fn lemma_handler_returns(p: ProcView, q: ProcView, sig: int, regs: InterruptStack, d: Delivery, t: int)
    requires
        delivered(p, q, sig, regs, d),
        1 <= sig <= 64,
        1 <= t <= 64,
        t != 9,
        t != 19,
    ensures
        ({
            let back = restored(d.regs, d.frame);
            let after = handler_left(q, d.frame);
            &&& back.preserved == regs.preserved
            &&& back.scratch == regs.scratch
            &&& back.iret.rip == regs.iret.rip
            &&& back.iret.rsp == regs.iret.rsp
            &&& back.iret.cs == regs.iret.cs
            &&& back.iret.ss == regs.iret.ss
            &&& !p.in_sigsuspend ==> has_signal(after.signal_mask.low, t) == has_signal(p.signal_mask.low, t)
            &&& p.in_sigsuspend ==> has_signal(after.signal_mask.low, t) == has_signal(
                p.sigsuspend_saved_mask.low,
                t,
            )
            &&& after == (ProcView { signal_mask: after.signal_mask, ..q })
        }),
{
    lemma_maskable(d.frame.old_mask.low, t);
}

} // verus!
