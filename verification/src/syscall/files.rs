//! Descriptors and open files: opening, duplicating, reading, writing, seeking.

use crate::errno::{
    fail, failed, EACCES, EAGAIN, EBADF, EEXIST, EFAULT, EINVAL, EIO, EISDIR, EMFILE, ENOENT, ENOTDIR, EPIPE,
    ESPIPE, ESRCH,
};
use crate::paths::SLASH;
use crate::proc::process::{
    free_fd, grown, slot_of, with_fd, FdEntry, OpenFile, OpenFileKind, ProcView, Process, FD_CLOEXEC,
};
use crate::proc::sched::{process, with_process};
use crate::proc::table::{known, lemma_position, ProcessTable};
use crate::syscall::pathname::{join_paths, joined, normalize_path, normalized};
use crate::syscall::poll::{O_ACCMODE, O_RDONLY};
use crate::syscall::queries::{enter, may_enter, opt_view, same_result, HomeKnown};
use crate::vfs::FileType;
use vstd::prelude::*;

verus! {

pub const O_WRONLY: i32 = 1;

pub const O_RDWR: i32 = 2;

pub const O_CREAT: i32 = 0x40;

pub const O_EXCL: i32 = 0x80;

pub const O_TRUNC: i32 = 0x200;

pub const O_APPEND: i32 = 0x400;

pub const O_NONBLOCK: i32 = 0x800;

pub const O_DIRECTORY: i32 = 0x1_0000;

pub const O_CLOEXEC: i32 = 0x8_0000;

pub const O_PATH: i32 = 0x20_0000;

/// Stands for the directory of the process, in place of a descriptor.
pub const AT_FDCWD: i32 = -100;

/// The flags of an open file that can be changed later.
pub const STATUS_FLAG_MUTABLE: i32 = 0xC00;

pub const F_DUPFD: i32 = 0;

pub const F_GETFD: i32 = 1;

pub const F_SETFD: i32 = 2;

pub const F_GETFL: i32 = 3;

pub const F_SETFL: i32 = 4;

pub const F_DUPFD_CLOEXEC: i32 = 1030;

/// The flags of an open file that was opened with `flags`.
pub open spec fn status_of(flags: i32) -> i32 {
    (flags & O_ACCMODE) | (flags & (O_APPEND | O_NONBLOCK | O_DIRECTORY | O_PATH))
}

pub fn status_flags_from_open(flags: i32) -> (r: i32)
    ensures
        r == status_of(flags),
{
    (flags & O_ACCMODE) | (flags & (O_APPEND | O_NONBLOCK | O_DIRECTORY | O_PATH))
}

/// The permissions of a new file.
pub open spec fn masked(mode: u32, umask: u16) -> u16 {
    ((mode as u16) & 0o7777u16) & !(umask & 0o777u16)
}

pub fn apply_umask(mode: u32, umask: u16) -> (r: u16)
    ensures
        r == masked(mode, umask),
{
    ((#[verifier::truncate]
    (mode as u16)) & 0o7777u16) & !(umask & 0o777u16)
}

/// Sets the permissions that the process takes away, and returns those from before.
pub fn umask(p: &mut Process, mask: u32) -> (r: i64)
    ensures
        r == old(p)@.umask,
        final(p)@ == (ProcView { umask: (mask as u16) & 0o777u16, ..old(p)@ }),
{
    let before: u16 = p.umask;
    p.umask = (#[verifier::truncate]
    (mask as u16)) & 0o777u16;
    before as i64
}

/// The number of the file that descriptor `fd` stands for.
pub fn clone_open_file(p: &Process, fd: i32) -> (r: Result<usize, i64>)
    ensures
        match slot_of(p@.fd_table, fd as int) {
            Some(e) => r == Ok::<usize, i64>(e.file),
            None => r == Err::<usize, i64>(failed(EBADF)),
        },
{
    match p.fd_entry(fd) {
        Some(e) => Ok(e.file),
        None => Err(fail(EBADF)),
    }
}

/// What opening the lowest free descriptor from `min_fd` on returns.
pub open spec fn install_result(table: Seq<Option<FdEntry>>, min_fd: int) -> i64 {
    let fd = free_fd(grown(table, min_fd), min_fd);
    if fd <= i32::MAX {
        fd as i64
    } else {
        failed(EMFILE)
    }
}

/// The table after the lowest free descriptor from `min_fd` on was opened.
pub open spec fn installed(table: Seq<Option<FdEntry>>, min_fd: int, e: FdEntry) -> Seq<
    Option<FdEntry>,
> {
    let t = grown(table, min_fd);
    with_fd(t, free_fd(t, min_fd), e)
}

fn install(p: &mut Process, e: FdEntry, min_fd: i32) -> (r: i64)
    requires
        min_fd >= 0,
        old(p)@.fd_table.len() < usize::MAX,
    ensures
        r == install_result(old(p)@.fd_table, min_fd as int),
        final(p)@ == (ProcView {
            fd_table: installed(old(p)@.fd_table, min_fd as int, e),
            ..old(p)@
        }),
{
    proof {
        lemma_free_bounds(grown(p@.fd_table, min_fd as int), min_fd as int);
    }
    match p.install_fd(e, min_fd) {
        Ok(fd) => fd as i64,
        Err(errno) => fail(errno),
    }
}

/// Opens another descriptor for the file of `oldfd`.
pub fn duplicate_fd(p: &mut Process, oldfd: i32, min_fd: i32, fd_flags: i32) -> (r: i64)
    requires
        min_fd >= 0,
        old(p)@.fd_table.len() < usize::MAX,
    ensures
        match slot_of(old(p)@.fd_table, oldfd as int) {
            Some(e) => {
                &&& r == install_result(old(p)@.fd_table, min_fd as int)
                &&& final(p)@ == (ProcView {
                    fd_table: installed(
                        old(p)@.fd_table,
                        min_fd as int,
                        FdEntry { file: e.file, fd_flags },
                    ),
                    ..old(p)@
                })
            },
            None => r == failed(EBADF) && final(p)@ == old(p)@,
        },
{
    match p.fd_entry(oldfd) {
        Some(e) => install(p, FdEntry { file: e.file, fd_flags }, min_fd),
        None => fail(EBADF),
    }
}

pub fn dup(p: &mut Process, oldfd: i32) -> (r: i64)
    requires
        old(p)@.fd_table.len() < usize::MAX,
    ensures
        match slot_of(old(p)@.fd_table, oldfd as int) {
            Some(e) => {
                &&& r == install_result(old(p)@.fd_table, 0)
                &&& final(p)@ == (ProcView {
                    fd_table: installed(
                        old(p)@.fd_table,
                        0,
                        FdEntry { file: e.file, fd_flags: 0 },
                    ),
                    ..old(p)@
                })
            },
            None => r == failed(EBADF) && final(p)@ == old(p)@,
        },
{
    if oldfd < 0 {
        return fail(EBADF);
    }
    duplicate_fd(p, oldfd, 0, 0)
}

pub fn dup2(p: &mut Process, oldfd: i32, newfd: i32) -> (r: i64)
    ensures
        match slot_of(old(p)@.fd_table, oldfd as int) {
            Some(e) => if newfd < 0 {
                r == failed(EBADF) && final(p)@ == old(p)@
            } else if oldfd == newfd {
                r == newfd && final(p)@ == old(p)@
            } else {
                &&& r == newfd
                &&& final(p)@ == (ProcView {
                    fd_table: with_fd(
                        old(p)@.fd_table,
                        newfd as int,
                        FdEntry { file: e.file, fd_flags: 0 },
                    ),
                    ..old(p)@
                })
            },
            None => r == failed(EBADF) && final(p)@ == old(p)@,
        },
{
    if oldfd < 0 || newfd < 0 {
        return fail(EBADF);
    }
    let e: FdEntry = match p.fd_entry(oldfd) {
        Some(e) => e,
        None => return fail(EBADF),
    };
    if oldfd == newfd {
        return newfd as i64;
    }
    match p.replace_fd(newfd, FdEntry { file: e.file, fd_flags: 0 }) {
        Ok(_) => newfd as i64,
        Err(errno) => fail(errno),
    }
}

pub fn close(p: &mut Process, fd: i32) -> (r: i64)
    ensures
        match slot_of(old(p)@.fd_table, fd as int) {
            Some(_) => r == 0 && final(p)@ == (ProcView {
                fd_table: old(p)@.fd_table.update(fd as int, None),
                ..old(p)@
            }),
            None => r == failed(EBADF) && final(p)@ == old(p)@,
        },
{
    match p.close_fd(fd) {
        Ok(_) => 0,
        Err(errno) => fail(errno),
    }
}

/// Whether a pipe can be made with `flags`.
pub open spec fn pipe_flags_valid(flags: i32) -> bool {
    flags & !(O_CLOEXEC | O_NONBLOCK) == 0
}

/// The descriptors of a process once it has opened the two ends of a pipe, and what the call
/// returns. Where the second one cannot be had, the first is closed again.
pub open spec fn pipe_opened(p: ProcView, read_file: usize, write_file: usize, flags: i32) -> (
    Result<(i32, i32), i64>,
    ProcView,
) {
    let t = p.fd_table;
    let fd_flags = if flags & O_CLOEXEC != 0 {
        FD_CLOEXEC
    } else {
        0
    };
    let t1 = installed(t, 0, FdEntry { file: read_file, fd_flags });
    let t2 = installed(t1, 0, FdEntry { file: write_file, fd_flags });
    if install_result(t, 0) < 0 {
        (Err(failed(EMFILE)), ProcView { fd_table: t1, ..p })
    } else if install_result(t1, 0) < 0 {
        (
            Err(failed(EMFILE)),
            ProcView { fd_table: t2.update(install_result(t, 0) as int, None), ..p },
        )
    } else {
        (
            Ok((install_result(t, 0) as i32, install_result(t1, 0) as i32)),
            ProcView { fd_table: t2, ..p },
        )
    }
}

fn open_pipe(p: &mut Process, read_file: usize, write_file: usize, flags: i32) -> (r: Result<(i32, i32), i64>)
    requires
        old(p)@.fd_table.len() < usize::MAX - 1,
    ensures
        (r, final(p)@) == pipe_opened(old(p)@, read_file, write_file, flags),
{
    let ghost t = p@.fd_table;
    let fd_flags: i32 = if flags & O_CLOEXEC != 0 {
        FD_CLOEXEC
    } else {
        0
    };
    proof {
        crate::proc::process::lemma_lowest_free(t, 0, 0);
        lemma_installed_len(t, FdEntry { file: read_file, fd_flags });
    }
    let rfd: i64 = install(p, FdEntry { file: read_file, fd_flags }, 0);
    if rfd < 0 {
        return Err(rfd);
    }
    let ghost t1 = p@.fd_table;
    proof {
        lemma_installed_len(t1, FdEntry { file: write_file, fd_flags });
    }
    let wfd: i64 = install(p, FdEntry { file: write_file, fd_flags }, 0);
    if wfd < 0 {
        proof {
            lemma_still_open(t, FdEntry { file: read_file, fd_flags }, FdEntry { file: write_file, fd_flags });
        }
        let _ = p.close_fd(rfd as i32);
        return Err(wfd);
    }
    Ok((rfd as i32, wfd as i32))
}

/// Makes a pipe, whose ends are the files `read_file` and `write_file`. The result is what is
/// to be written at `pipefd_ptr`.
pub fn pipe2(
    table: &mut ProcessTable,
    pipefd_ptr: u64,
    flags: i32,
    read_file: usize,
    write_file: usize,
) -> (r: Result<(i32, i32), i64>)
    requires
        known(old(table)@.procs, old(table)@.current) ==> process(
            old(table)@,
            old(table)@.current,
        ).fd_table.len() < usize::MAX - 1,
    ensures
        ({
            let t = old(table)@;
            if pipefd_ptr == 0 {
                r == Err::<(i32, i32), i64>(failed(EFAULT)) && final(table)@ == t
            } else if !pipe_flags_valid(flags) {
                r == Err::<(i32, i32), i64>(failed(EINVAL)) && final(table)@ == t
            } else if !known(t.procs, t.current) {
                r == Err::<(i32, i32), i64>(failed(ESRCH)) && final(table)@ == t
            } else {
                let (n, p) = pipe_opened(process(t, t.current), read_file, write_file, flags);
                r == n && final(table)@ == with_process(t, t.current, p)
            }
        }),
{
    if pipefd_ptr == 0 {
        return Err(fail(EFAULT));
    }
    if flags & !(O_CLOEXEC | O_NONBLOCK) != 0 {
        return Err(fail(EINVAL));
    }
    let ghost t = table@;
    proof {
        lemma_position(t.procs, t.current);
    }
    let i: usize = match table.find_process_index(table.current) {
        Some(i) => i,
        None => return Err(fail(ESRCH)),
    };
    proof {
        assert(t.procs[i as int] == table.proc_list@[i as int]@);
    }
    let r: Result<(i32, i32), i64> = open_pipe(&mut table.proc_list[i], read_file, write_file, flags);
    proof {
        let p = pipe_opened(t.procs[i as int], read_file, write_file, flags).1;
        assert(table@.procs =~= t.procs.update(i as int, p));
    }
    r
}

/// Makes a pipe whose ends wait and are handed on to programs.
pub fn pipe(table: &mut ProcessTable, pipefd_ptr: u64, read_file: usize, write_file: usize) -> (r: Result<
    (i32, i32),
    i64,
>)
    requires
        known(old(table)@.procs, old(table)@.current) ==> process(
            old(table)@,
            old(table)@.current,
        ).fd_table.len() < usize::MAX - 1,
    ensures
        ({
            let t = old(table)@;
            if pipefd_ptr == 0 {
                r == Err::<(i32, i32), i64>(failed(EFAULT)) && final(table)@ == t
            } else if !known(t.procs, t.current) {
                r == Err::<(i32, i32), i64>(failed(ESRCH)) && final(table)@ == t
            } else {
                let (n, p) = pipe_opened(process(t, t.current), read_file, write_file, 0);
                r == n && final(table)@ == with_process(t, t.current, p)
            }
        }),
{
    proof {
        assert(0i32 & !(O_CLOEXEC | O_NONBLOCK) == 0) by (bit_vector);
    }
    pipe2(table, pipefd_ptr, 0, read_file, write_file)
}

/// The open file of an end of pipe `end`.
pub fn pipe_file(end: usize, writing: bool, flags: i32) -> (r: OpenFile)
    ensures
        r.kind == OpenFileKind::Pipe(end),
        r.seek == 0,
        r.path@ == seq![112u8, 105, 112, 101],
        r.status_flags == status_of((if writing {
            O_WRONLY
        } else {
            O_RDONLY
        }) | (flags & O_NONBLOCK)),
{
    let word: [u8; 4] = [112u8, 105, 112, 101];
    let path: Vec<u8> = crate::bytes::to_vec(&word);
    proof {
        assert(word@ =~= seq![112u8, 105, 112, 101]);
    }
    let access: i32 = if writing {
        O_WRONLY
    } else {
        O_RDONLY
    };
    OpenFile {
        kind: OpenFileKind::Pipe(end),
        seek: 0,
        path,
        status_flags: status_flags_from_open(access | (flags & O_NONBLOCK)),
    }
}

pub proof fn lemma_free_bounds(t: Seq<Option<FdEntry>>, k: int)
    requires
        0 <= k <= t.len(),
    ensures
        k <= free_fd(t, k) <= t.len(),
        free_fd(t, k) < t.len() ==> t[free_fd(t, k)] is None,
    decreases t.len() - k,
{
    if k < t.len() && t[k] is Some {
        lemma_free_bounds(t, k + 1);
    }
}

proof fn lemma_installed_len(t: Seq<Option<FdEntry>>, e: FdEntry)
    ensures
        t.len() <= installed(t, 0, e).len() <= t.len() + 1,
        0 <= free_fd(t, 0) <= t.len(),
{
    lemma_free_bounds(t, 0);
    assert(grown(t, 0) =~= t);
}

proof fn lemma_still_open(t: Seq<Option<FdEntry>>, a: FdEntry, b: FdEntry)
    ensures
        slot_of(installed(installed(t, 0, a), 0, b), free_fd(t, 0)) is Some,
{
    lemma_free_bounds(t, 0);
    assert(grown(t, 0) =~= t);
    let t1 = installed(t, 0, a);
    lemma_free_bounds(t1, 0);
    assert(grown(t1, 0) =~= t1);
    crate::proc::process::lemma_installed(t, free_fd(t, 0), a, free_fd(t, 0));
    crate::proc::process::lemma_installed(t1, free_fd(t1, 0), b, free_fd(t, 0));
}

/// What `fcntl` does: the process and the status flags of the file afterwards, and the answer.
pub open spec fn controlled(p: ProcView, status_flags: i32, fd: i32, cmd: i32, arg: u64) -> (ProcView, i32, i64) {
    let t = p.fd_table;
    let slot = slot_of(t, fd as int);
    if fd < 0 {
        (p, status_flags, failed(EBADF))
    } else if cmd == F_GETFD || cmd == F_SETFD || cmd == F_GETFL || cmd == F_SETFL {
        match slot {
            None => (p, status_flags, failed(EBADF)),
            Some(e) => if cmd == F_GETFD {
                (p, status_flags, e.fd_flags as i64)
            } else if cmd == F_SETFD {
                let fd_flags = (e.fd_flags & !FD_CLOEXEC) | ((arg as i32) & FD_CLOEXEC);
                (
                    ProcView {
                        fd_table: t.update(fd as int, Some(FdEntry { file: e.file, fd_flags })),
                        ..p
                    },
                    status_flags,
                    0,
                )
            } else if cmd == F_GETFL {
                (p, status_flags, status_flags as i64)
            } else {
                (
                    p,
                    (status_flags & !STATUS_FLAG_MUTABLE) | ((arg as i32) & STATUS_FLAG_MUTABLE),
                    0,
                )
            },
        }
    } else if cmd == F_DUPFD || cmd == F_DUPFD_CLOEXEC {
        let fd_flags = if cmd == F_DUPFD_CLOEXEC {
            FD_CLOEXEC
        } else {
            0
        };
        if arg > i32::MAX {
            (p, status_flags, failed(EINVAL))
        } else {
            match slot {
                Some(e) => (
                    ProcView {
                        fd_table: installed(t, arg as int, FdEntry { file: e.file, fd_flags }),
                        ..p
                    },
                    status_flags,
                    install_result(t, arg as int),
                ),
                None => (p, status_flags, failed(EBADF)),
            }
        }
    } else {
        (p, status_flags, failed(EINVAL))
    }
}

/// What `fcntl` does to the open file; `status_flags` are those of the file.
pub fn fcntl(p: &mut Process, status_flags: &mut i32, fd: i32, cmd: i32, arg: u64) -> (r: i64)
    requires
        old(p)@.fd_table.len() < usize::MAX,
    ensures
        (final(p)@, *final(status_flags), r) == controlled(
            old(p)@,
            *old(status_flags),
            fd,
            cmd,
            arg,
        ),
{
    if fd < 0 {
        return fail(EBADF);
    }
    if cmd == F_GETFD {
        return match p.fd_entry(fd) {
            Some(e) => e.fd_flags as i64,
            None => fail(EBADF),
        };
    }
    if cmd == F_SETFD {
        let bits: i32 = (#[verifier::truncate]
        (arg as i32)) & FD_CLOEXEC;
        return match p.fd_entry(fd) {
            Some(e) => {
                let _ = p.set_fd_flags(fd, (e.fd_flags & !FD_CLOEXEC) | bits);
                0
            },
            None => fail(EBADF),
        };
    }
    if cmd == F_GETFL {
        return match p.fd_entry(fd) {
            Some(_) => *status_flags as i64,
            None => fail(EBADF),
        };
    }
    if cmd == F_SETFL {
        return match p.fd_entry(fd) {
            Some(_) => {
                let bits: i32 = (#[verifier::truncate]
                (arg as i32)) & STATUS_FLAG_MUTABLE;
                *status_flags = (*status_flags & !STATUS_FLAG_MUTABLE) | bits;
                0
            },
            None => fail(EBADF),
        };
    }
    if cmd == F_DUPFD || cmd == F_DUPFD_CLOEXEC {
        if arg > i32::MAX as u64 {
            return fail(EINVAL);
        }
        let fd_flags: i32 = if cmd == F_DUPFD_CLOEXEC {
            FD_CLOEXEC
        } else {
            0
        };
        return duplicate_fd(p, fd, arg as i32, fd_flags);
    }
    fail(EINVAL)
}

/// What the descriptor of a directory stands for.
#[derive(Debug, Clone, Copy, PartialEq, Eq, Structural)]
pub enum DirKind {
    /// The descriptor is not open.
    Closed,
    Directory,
    Other,
}

/// The path that a path `path` in directory `base` is.
pub open spec fn path_from(base: Seq<u8>, path: Seq<u8>) -> Seq<u8> {
    if path.len() > 0 && path[0] == SLASH {
        normalized(path)
    } else {
        normalized(joined(base, path))
    }
}

/// Where a path lies that is given together with a directory: `pwd` is the directory of
/// the process, `dir` and `dir_path` what descriptor `dirfd` stands for.
pub open spec fn lies_at(dirfd: i32, pwd: Seq<u8>, dir: DirKind, dir_path: Seq<u8>, path: Seq<u8>) -> Result<
    Seq<u8>,
    i64,
> {
    if path.len() > 0 && path[0] == SLASH {
        Ok(normalized(path))
    } else if dirfd == AT_FDCWD {
        Ok(path_from(pwd, path))
    } else {
        match dir {
            DirKind::Closed => Err(failed(EBADF)),
            DirKind::Other => Err(failed(ENOTDIR)),
            DirKind::Directory => Ok(path_from(dir_path, path)),
        }
    }
}

pub fn resolve_at(dirfd: i32, pwd: &[u8], dir: DirKind, dir_path: &[u8], path: &[u8]) -> (r: Result<
    Vec<u8>,
    i64,
>)
    ensures
        same_result(r, lies_at(dirfd, pwd@, dir, dir_path@, path@)),
{
    if path.len() > 0 && path[0] == SLASH {
        return Ok(normalize_path(path));
    }
    if dirfd == AT_FDCWD {
        let full: Vec<u8> = join_paths(pwd, path);
        return Ok(normalize_path(&full));
    }
    match dir {
        DirKind::Closed => Err(fail(EBADF)),
        DirKind::Other => Err(fail(ENOTDIR)),
        DirKind::Directory => {
            let full: Vec<u8> = join_paths(dir_path, path);
            Ok(normalize_path(&full))
        },
    }
}

/// The path that `openat` means; `pwd` is the directory of the process, if there is one.
pub fn openat_path(dirfd: i32, pwd: Option<&[u8]>, dir: DirKind, dir_path: &[u8], path: &[u8]) -> (r: Result<
    Vec<u8>,
    i64,
>)
    ensures
        same_result(
            r,
            match opt_view(pwd) {
                None => Err(failed(ESRCH)),
                Some(w) => lies_at(dirfd, w, dir, dir_path@, path@),
            },
        ),
{
    match pwd {
        None => Err(fail(ESRCH)),
        Some(w) => resolve_at(dirfd, w, dir, dir_path, path),
    }
}

/// Whether what was found may be opened with `flags`, and whether it is to be emptied.
/// `existed` says that it was there before.
pub open spec fn open_check(existed: bool, kind: FileType, flags: i32) -> Result<bool, i64> {
    let accmode = flags & O_ACCMODE;
    if existed && flags & O_CREAT != 0 && flags & O_EXCL != 0 {
        Err(failed(EEXIST))
    } else if flags & O_DIRECTORY != 0 && kind != FileType::Dir {
        Err(failed(ENOTDIR))
    } else if kind == FileType::Dir && (accmode == O_WRONLY || accmode == O_RDWR) {
        Err(failed(EISDIR))
    } else {
        Ok(flags & O_TRUNC != 0 && kind == FileType::File && accmode != O_RDONLY)
    }
}

pub fn open_permitted(existed: bool, kind: FileType, flags: i32) -> (r: Result<bool, i64>)
    ensures
        r == open_check(existed, kind, flags),
{
    let accmode: i32 = flags & O_ACCMODE;
    if existed && flags & O_CREAT != 0 && flags & O_EXCL != 0 {
        return Err(fail(EEXIST));
    }
    if flags & O_DIRECTORY != 0 && kind != FileType::Dir {
        return Err(fail(ENOTDIR));
    }
    if kind == FileType::Dir && (accmode == O_WRONLY || accmode == O_RDWR) {
        return Err(fail(EISDIR));
    }
    Ok(flags & O_TRUNC != 0 && kind == FileType::File && accmode != O_RDONLY)
}

/// What has come of opening a path so far; None is a step that was not taken yet.
#[derive(Debug, Clone, Copy, PartialEq, Eq, Structural)]
pub struct OpenTold {
    /// What is at the path, if anything.
    pub looked: Option<Option<FileType>>,
    /// What is at the directory of the path, if anything.
    pub parent: Option<Option<FileType>>,
    /// Whether a file was made.
    pub made: Option<bool>,
    /// What is at the path then, if anything.
    pub again: Option<Option<FileType>>,
    /// What emptying the file returned, if it failed.
    pub emptied: Option<Option<i64>>,
}

/// What opening a path needs next.
#[derive(Debug, Clone, Copy, PartialEq, Eq, Structural)]
pub enum OpenStep {
    /// The path is to be looked up.
    Look,
    /// The directory of the path is to be looked up.
    Parent,
    /// A file is to be made at the path.
    Make,
    /// The path is to be looked up again.
    Again,
    /// The file is to be emptied.
    Empty,
    /// A descriptor is to be opened for the file.
    Install,
    Return(i64),
}

/// How opening goes on once a node of the given kind is there.
pub open spec fn opened_step(existed: bool, kind: FileType, flags: i32, emptied: Option<Option<i64>>) -> OpenStep {
    match open_check(existed, kind, flags) {
        Err(e) => OpenStep::Return(e),
        Ok(false) => OpenStep::Install,
        Ok(true) => match emptied {
            None => OpenStep::Empty,
            Some(None) => OpenStep::Install,
            Some(Some(e)) => OpenStep::Return(e),
        },
    }
}

/// What opening the path `full` with `flags` needs next, after what came of it so far. A home
/// that is closed is told before anything is looked up.
pub open spec fn open_next(full: Seq<u8>, home: HomeKnown, flags: i32, told: OpenTold) -> OpenStep {
    if !may_enter(full, home) {
        OpenStep::Return(failed(EACCES))
    } else {
        match told.looked {
            None => OpenStep::Look,
            Some(Some(kind)) => opened_step(true, kind, flags, told.emptied),
            Some(None) => if flags & O_CREAT == 0 {
                OpenStep::Return(failed(ENOENT))
            } else {
                match told.parent {
                    None => OpenStep::Parent,
                    Some(None) => OpenStep::Return(failed(ENOENT)),
                    Some(Some(kind)) => if kind != FileType::Dir {
                        OpenStep::Return(failed(ENOTDIR))
                    } else {
                        match told.made {
                            None => OpenStep::Make,
                            Some(false) => OpenStep::Return(failed(EIO)),
                            Some(true) => match told.again {
                                None => OpenStep::Again,
                                Some(None) => OpenStep::Return(failed(EIO)),
                                Some(Some(kind)) => opened_step(false, kind, flags, told.emptied),
                            },
                        }
                    },
                }
            },
        }
    }
}

fn step_opened(existed: bool, kind: FileType, flags: i32, emptied: Option<Option<i64>>) -> (r: OpenStep)
    ensures
        r == opened_step(existed, kind, flags, emptied),
{
    match open_permitted(existed, kind, flags) {
        Err(e) => OpenStep::Return(e),
        Ok(empty) => if !empty {
            OpenStep::Install
        } else {
            match emptied {
                None => OpenStep::Empty,
                Some(failure) => match failure {
                    None => OpenStep::Install,
                    Some(e) => OpenStep::Return(e),
                },
            }
        },
    }
}

/// The next step of opening a path.
pub fn open_step(full: &[u8], home: HomeKnown, flags: i32, told: OpenTold) -> (r: OpenStep)
    ensures
        r == open_next(full@, home, flags, told),
{
    if !enter(full, home) {
        return OpenStep::Return(fail(EACCES));
    }
    match told.looked {
        None => return OpenStep::Look,
        Some(found) => match found {
            Some(kind) => return step_opened(true, kind, flags, told.emptied),
            None => {},
        },
    }
    if flags & O_CREAT == 0 {
        return OpenStep::Return(fail(ENOENT));
    }
    match told.parent {
        None => return OpenStep::Parent,
        Some(parent) => match parent {
            None => return OpenStep::Return(fail(ENOENT)),
            Some(kind) => if kind != FileType::Dir {
                return OpenStep::Return(fail(ENOTDIR));
            },
        },
    }
    match told.made {
        None => return OpenStep::Make,
        Some(made) => if !made {
            return OpenStep::Return(fail(EIO));
        },
    }
    match told.again {
        None => OpenStep::Again,
        Some(found) => match found {
            None => OpenStep::Return(fail(EIO)),
            Some(kind) => step_opened(false, kind, flags, told.emptied),
        },
    }
}

/// The flags of the descriptor of a file that was opened with `flags`.
pub open spec fn descriptor_flags(flags: i32) -> i32 {
    if flags & O_CLOEXEC != 0 {
        FD_CLOEXEC
    } else {
        0
    }
}

/// Where a file that was opened is read and written first: at its end where it is appended to.
pub open spec fn first_place(kind: FileType, size: u64, flags: i32) -> u64 {
    if kind == FileType::File && flags & O_APPEND != 0 {
        size
    } else {
        0
    }
}

/// Opens a descriptor for node `node`, which is file number `file` from now on and
/// `size` bytes long. Returns what the call returns, and the open file.
pub fn openat(
    p: &mut Process,
    node: usize,
    file: usize,
    kind: FileType,
    size: u64,
    path: Vec<u8>,
    flags: i32,
) -> (r: (i64, OpenFile))
    requires
        old(p)@.fd_table.len() < usize::MAX,
    ensures
        r.0 == install_result(old(p)@.fd_table, 0),
        final(p)@ == (ProcView {
            fd_table: installed(
                old(p)@.fd_table,
                0,
                FdEntry { file, fd_flags: descriptor_flags(flags) },
            ),
            ..old(p)@
        }),
        r.1.kind == OpenFileKind::Vfs(node),
        r.1.path@ == path@,
        r.1.status_flags == status_of(flags),
        r.1.seek == first_place(kind, size, flags),
{
    let seek: u64 = if kind == FileType::File && flags & O_APPEND != 0 {
        size
    } else {
        0
    };
    let open: OpenFile = OpenFile {
        kind: OpenFileKind::Vfs(node),
        seek,
        path,
        status_flags: status_flags_from_open(flags),
    };
    let fd_flags: i32 = if flags & O_CLOEXEC != 0 {
        FD_CLOEXEC
    } else {
        0
    };
    let r: i64 = install(p, FdEntry { file, fd_flags }, 0);
    (r, open)
}

/// What is known of the node behind an open file.
#[derive(Debug, Clone, Copy, PartialEq, Eq, Structural)]
pub struct NodeInfo {
    pub file_type: FileType,
    pub size: u64,
}

/// Why a call on a descriptor fails before the file is looked at, if it does. `caller` says
/// whether there is a process that calls, `open` whether the descriptor is open.
pub open spec fn no_file(caller: bool, open: bool) -> Option<i64> {
    if !caller {
        Some(failed(ESRCH))
    } else if !open {
        Some(failed(EBADF))
    } else {
        None
    }
}

/// Whether `write` fails before the file is looked at.
pub fn write_refused(caller: bool, open: bool) -> (r: Option<i64>)
    ensures
        r == no_file(caller, open),
{
    if !caller {
        Some(fail(ESRCH))
    } else if !open {
        Some(fail(EBADF))
    } else {
        None
    }
}

/// Whether `ftruncate` fails before the file is looked at; a negative descriptor is told
/// before anything else.
pub fn ftruncate_refused(fd: i32, caller: bool, open: bool) -> (r: Option<i64>)
    ensures
        r == if fd < 0 {
            Some(failed(EBADF))
        } else {
            no_file(caller, open)
        },
{
    if fd < 0 {
        return Some(fail(EBADF));
    }
    write_refused(caller, open)
}

/// Whether `fcntl` fails before the descriptor is looked at.
pub fn fcntl_refused(fd: i32, caller: bool) -> (r: Option<i64>)
    ensures
        r == if fd < 0 {
            Some(failed(EBADF))
        } else if !caller {
            Some(failed(ESRCH))
        } else {
            None::<i64>
        },
{
    if fd < 0 {
        return Some(fail(EBADF));
    }
    write_refused(caller, true)
}

/// Whether `pread64` fails before the file is looked at.
pub fn pread_refused(buf_ptr: u64, open: bool) -> (r: Option<i64>)
    ensures
        r == if buf_ptr == 0 {
            Some(failed(EFAULT))
        } else if !open {
            Some(failed(EBADF))
        } else {
            None::<i64>
        },
{
    if buf_ptr == 0 {
        return Some(fail(EFAULT));
    }
    write_refused(true, open)
}

/// How bytes are written.
#[derive(Debug, Clone, Copy, PartialEq, Eq, Structural)]
pub enum WritePlan {
    Fail(i64),
    /// To a pipe.
    Pipe { nonblock: bool },
    /// To a socket.
    Socket { nonblock: bool },
    /// At this place of a node.
    At(u64),
}

/// Where a node is written.
pub open spec fn write_start(node: NodeInfo, status_flags: i32, seek: u64) -> u64 {
    match node.file_type {
        FileType::File => if status_flags & O_APPEND != 0 {
            node.size
        } else {
            seek
        },
        FileType::BlockDevice => seek,
        _ => 0,
    }
}

/// How bytes are written to an open file.
pub open spec fn write_way(kind: OpenFileKind, status_flags: i32, seek: u64, node: NodeInfo) -> WritePlan {
    let nonblock = status_flags & O_NONBLOCK != 0;
    if status_flags & O_ACCMODE == O_RDONLY {
        WritePlan::Fail(failed(EBADF))
    } else {
        match kind {
            OpenFileKind::Pipe(_) => WritePlan::Pipe { nonblock },
            OpenFileKind::Socket(_) => WritePlan::Socket { nonblock },
            OpenFileKind::Vfs(_) => WritePlan::At(write_start(node, status_flags, seek)),
            OpenFileKind::MemFd(_) => WritePlan::At(seek),
        }
    }
}

pub fn write_plan(file: &OpenFile, node: NodeInfo) -> (r: WritePlan)
    ensures
        r == write_way(file.kind, file.status_flags, file.seek, node),
{
    if file.status_flags & O_ACCMODE == O_RDONLY {
        return WritePlan::Fail(fail(EBADF));
    }
    let nonblock: bool = file.status_flags & O_NONBLOCK != 0;
    match file.kind {
        OpenFileKind::Pipe(_) => WritePlan::Pipe { nonblock },
        OpenFileKind::Socket(_) => WritePlan::Socket { nonblock },
        OpenFileKind::MemFd(_) => WritePlan::At(file.seek),
        OpenFileKind::Vfs(_) => {
            match node.file_type {
                FileType::File => if file.status_flags & O_APPEND != 0 {
                    WritePlan::At(node.size)
                } else {
                    WritePlan::At(file.seek)
                },
                FileType::BlockDevice => WritePlan::At(file.seek),
                _ => WritePlan::At(0),
            }
        },
    }
}

/// The end of `len` bytes from `start` on.
pub open spec fn span_end(start: u64, len: u64) -> u64 {
    if start + len > u64::MAX {
        u64::MAX
    } else {
        (start + len) as u64
    }
}

fn end_of_span(start: u64, len: u64) -> (r: u64)
    ensures
        r == span_end(start, len),
{
    if start > u64::MAX - len {
        u64::MAX
    } else {
        start + len
    }
}

/// What a write leaves behind: where the file is read and written next, what is known of the node,
/// and the answer.
pub open spec fn write_left(seek: u64, node: NodeInfo, start: u64, len: u64, ok: bool) -> (u64, NodeInfo, i64) {
    (
        if ok && (node.file_type == FileType::File || node.file_type == FileType::BlockDevice) {
            span_end(start, len)
        } else {
            seek
        },
        NodeInfo {
            size: if ok && node.file_type == FileType::File && span_end(start, len) > node.size {
                span_end(start, len)
            } else {
                node.size
            },
            ..node
        },
        if ok {
            len as i64
        } else {
            failed(EIO)
        },
    )
}

/// Finishes writing `len` bytes at `start` of a node: the place of the file moves behind
/// them, and a file grows to hold them.
pub fn write_done(file: &mut OpenFile, node: &mut NodeInfo, start: u64, len: u64, ok: bool) -> (r: i64)
    requires
        len <= i64::MAX,
    ensures
        final(file).kind == old(file).kind,
        final(file).path == old(file).path,
        final(file).status_flags == old(file).status_flags,
        (final(file).seek, *final(node), r) == write_left(old(file).seek, *old(node), start, len, ok),
{
    if !ok {
        return fail(EIO);
    }
    let end: u64 = end_of_span(start, len);
    if node.file_type == FileType::File && end > node.size {
        node.size = end;
    }
    if node.file_type == FileType::File || node.file_type == FileType::BlockDevice {
        file.seek = end;
    }
    len as i64
}

/// What writing to a pipe returns, and whether the process is sent the signal that
/// nobody reads.
pub fn write_pipe_done(result: Result<u64, i32>) -> (r: (i64, bool))
    requires
        result matches Ok(n) ==> n <= i64::MAX,
    ensures
        match result {
            Ok(n) => r == (n as i64, false),
            Err(e) => r == (failed(e), e == EPIPE),
        },
{
    match result {
        Ok(n) => (n as i64, false),
        Err(e) => (fail(e), e == EPIPE),
    }
}

/// What reading from, or writing to, a socket returns; `ready` says that it would not
/// have to wait, `result` what it did where it was asked.
pub fn socket_done(nonblock: bool, ready: bool, result: Option<u64>) -> (r: i64)
    requires
        result matches Some(n) ==> n <= i64::MAX,
    ensures
        r == if nonblock && !ready {
            failed(EAGAIN)
        } else {
            match result {
                Some(n) => n as i64,
                None => failed(EIO),
            }
        },
{
    if nonblock && !ready {
        return fail(EAGAIN);
    }
    match result {
        Some(n) => n as i64,
        None => fail(EIO),
    }
}

/// How bytes are read.
#[derive(Debug, Clone, Copy, PartialEq, Eq, Structural)]
pub enum ReadPlan {
    Fail(i64),
    Pipe { nonblock: bool },
    Socket { nonblock: bool },
    /// At this place of a node; one that must not wait is asked first whether it is
    /// ready.
    At { place: u64, ask: bool },
}

/// How bytes are read from an open file. `log_start` is where the kernel's log starts,
/// where that is what is read: older lines are gone.
pub open spec fn read_way(
    kind: OpenFileKind,
    status_flags: i32,
    seek: u64,
    file_type: FileType,
    log_start: Option<u64>,
) -> ReadPlan {
    let nonblock = status_flags & O_NONBLOCK != 0;
    if status_flags & O_ACCMODE == O_WRONLY {
        ReadPlan::Fail(failed(EBADF))
    } else {
        match kind {
            OpenFileKind::Pipe(_) => ReadPlan::Pipe { nonblock },
            OpenFileKind::Socket(_) => ReadPlan::Socket { nonblock },
            OpenFileKind::MemFd(_) => ReadPlan::At { place: seek, ask: false },
            OpenFileKind::Vfs(_) => match file_type {
                FileType::Dir => ReadPlan::Fail(failed(EISDIR)),
                FileType::CharDevice => ReadPlan::At {
                    place: match log_start {
                        Some(h) => if h > seek {
                            h
                        } else {
                            seek
                        },
                        None => seek,
                    },
                    ask: nonblock,
                },
                _ => ReadPlan::At { place: seek, ask: false },
            },
        }
    }
}

pub fn read_plan(file: &OpenFile, file_type: FileType, log_start: Option<u64>) -> (r: ReadPlan)
    ensures
        r == read_way(file.kind, file.status_flags, file.seek, file_type, log_start),
{
    if file.status_flags & O_ACCMODE == O_WRONLY {
        return ReadPlan::Fail(fail(EBADF));
    }
    let nonblock: bool = file.status_flags & O_NONBLOCK != 0;
    match file.kind {
        OpenFileKind::Pipe(_) => ReadPlan::Pipe { nonblock },
        OpenFileKind::Socket(_) => ReadPlan::Socket { nonblock },
        OpenFileKind::MemFd(_) => ReadPlan::At { place: file.seek, ask: false },
        OpenFileKind::Vfs(_) => match file_type {
            FileType::Dir => ReadPlan::Fail(fail(EISDIR)),
            FileType::CharDevice => {
                let place: u64 = match log_start {
                    Some(h) => if h > file.seek {
                        h
                    } else {
                        file.seek
                    },
                    None => file.seek,
                };
                ReadPlan::At { place, ask: nonblock }
            },
            _ => ReadPlan::At { place: file.seek, ask: false },
        },
    }
}

/// What a node that must not wait says: None where it is ready.
pub fn read_asked(ready: Option<bool>) -> (r: Option<i64>)
    ensures
        r == match ready {
            Some(true) => None::<i64>,
            Some(false) => Some(failed(EAGAIN)),
            None => Some(failed(EIO)),
        },
{
    match ready {
        Some(b) => if b {
            None
        } else {
            Some(fail(EAGAIN))
        },
        None => Some(fail(EIO)),
    }
}

/// Finishes reading at `place` of a node: the place of the file moves behind what was
/// read.
pub fn read_done(file: &mut OpenFile, place: u64, result: Option<u64>) -> (r: i64)
    requires
        place >= old(file).seek,
        result matches Some(n) ==> n <= i64::MAX,
    ensures
        r == match result {
            Some(n) => n as i64,
            None => failed(EIO),
        },
        final(file).kind == old(file).kind,
        final(file).path == old(file).path,
        final(file).status_flags == old(file).status_flags,
        final(file).seek == match result {
            Some(n) => span_end(place, n),
            None => old(file).seek,
        },
{
    match result {
        Some(n) => {
            file.seek = end_of_span(place, n);
            n as i64
        },
        None => fail(EIO),
    }
}

/// Whether the length of an open file can be set: None says that it can.
pub fn ftruncate_check(kind: OpenFileKind, status_flags: i32, file_type: FileType) -> (r: Option<i64>)
    ensures
        r == if status_flags & O_ACCMODE == O_RDONLY {
            Some(failed(EBADF))
        } else {
            match kind {
                OpenFileKind::Vfs(_) => if file_type == FileType::File {
                    None::<i64>
                } else {
                    Some(failed(EINVAL))
                },
                OpenFileKind::MemFd(_) => None::<i64>,
                _ => Some(failed(EINVAL)),
            }
        },
{
    if status_flags & O_ACCMODE == O_RDONLY {
        return Some(fail(EBADF));
    }
    match kind {
        OpenFileKind::Vfs(_) => if file_type == FileType::File {
            None
        } else {
            Some(fail(EINVAL))
        },
        OpenFileKind::MemFd(_) => None,
        _ => Some(fail(EINVAL)),
    }
}

/// Where a file that was cut is read and written next: not behind its end.
pub open spec fn place_after_cut(seek: u64, new_len: u64) -> u64 {
    if seek > new_len {
        new_len
    } else {
        seek
    }
}

/// Finishes setting the length; the place of the file does not lie behind its end.
pub fn ftruncate_done(file: &mut OpenFile, new_len: u64, result: Result<(), i64>) -> (r: i64)
    ensures
        match result {
            Ok(_) => r == 0 && final(file).seek == place_after_cut(old(file).seek, new_len),
            Err(e) => r == e && final(file).seek == old(file).seek,
        },
        final(file).kind == old(file).kind,
        final(file).path == old(file).path,
        final(file).status_flags == old(file).status_flags,
{
    match result {
        Ok(_) => {
            if file.seek > new_len {
                file.seek = new_len;
            }
            0
        },
        Err(e) => e,
    }
}

/// What can be set in place of the place of a file.
pub open spec fn seekable(kind: OpenFileKind, file_type: FileType) -> bool {
    match kind {
        OpenFileKind::Vfs(_) => file_type != FileType::CharDevice,
        OpenFileKind::MemFd(_) => true,
        _ => false,
    }
}

/// The place of a file after a seek. From the place it has, it does not move.
pub open spec fn seek_target(seek: u64, size: u64, offset: u64, whence: u8) -> Option<u64> {
    if whence == 0 {
        Some(offset)
    } else if whence == 1 {
        Some(seek)
    } else if whence == 2 {
        Some(size)
    } else {
        None
    }
}

/// Where a file is read and written next after a seek, and what is answered.
pub open spec fn sought(kind: OpenFileKind, seek: u64, node: NodeInfo, offset: u64, whence: u8) -> (u64, i64) {
    if !seekable(kind, node.file_type) {
        (seek, failed(ESPIPE))
    } else {
        match seek_target(seek, node.size, offset, whence) {
            Some(n) => (n, n as i64),
            None => (seek, failed(EINVAL)),
        }
    }
}

pub fn lseek(file: &mut OpenFile, node: NodeInfo, offset: u64, whence: u8) -> (r: i64)
    ensures
        final(file).kind == old(file).kind,
        final(file).path == old(file).path,
        final(file).status_flags == old(file).status_flags,
        (final(file).seek, r) == sought(old(file).kind, old(file).seek, node, offset, whence),
{
    match file.kind {
        OpenFileKind::Vfs(_) => {
            if node.file_type == FileType::CharDevice {
                return fail(ESPIPE);
            }
        },
        OpenFileKind::MemFd(_) => {},
        _ => return fail(ESPIPE),
    }
    if whence == 0 {
        file.seek = offset;
    } else if whence == 2 {
        file.seek = node.size;
    } else if whence != 1 {
        return fail(EINVAL);
    }
    #[verifier::truncate]
    (file.seek as i64)
}

/// Whether a file can be read at a place that is given: None says that it can.
pub fn pread_check(kind: OpenFileKind, status_flags: i32, file_type: FileType) -> (r: Option<i64>)
    ensures
        r == if status_flags & O_ACCMODE == O_WRONLY {
            Some(failed(EBADF))
        } else {
            match kind {
                OpenFileKind::Vfs(_) => if file_type == FileType::Dir {
                    Some(failed(EISDIR))
                } else {
                    None::<i64>
                },
                OpenFileKind::MemFd(_) => None::<i64>,
                _ => Some(failed(ESPIPE)),
            }
        },
{
    if status_flags & O_ACCMODE == O_WRONLY {
        return Some(fail(EBADF));
    }
    match kind {
        OpenFileKind::Vfs(_) => if file_type == FileType::Dir {
            Some(fail(EISDIR))
        } else {
            None
        },
        OpenFileKind::MemFd(_) => None,
        _ => Some(fail(ESPIPE)),
    }
}

/// Why several pieces cannot be read or written at a place that is given, if they cannot. A
/// device has no places.
pub open spec fn vector_refusal(
    kind: OpenFileKind,
    status_flags: i32,
    file_type: FileType,
    write: bool,
) -> Option<i64> {
    if status_flags & O_ACCMODE == if write {
        O_RDONLY
    } else {
        O_WRONLY
    } {
        Some(failed(EBADF))
    } else {
        match kind {
            OpenFileKind::Vfs(_) => if file_type == FileType::Dir {
                Some(failed(EISDIR))
            } else if file_type == FileType::CharDevice {
                Some(failed(ESPIPE))
            } else {
                None::<i64>
            },
            OpenFileKind::MemFd(_) => None::<i64>,
            _ => Some(failed(ESPIPE)),
        }
    }
}

/// Whether several pieces can be read or written at a place that is given.
pub fn vector_check(kind: OpenFileKind, status_flags: i32, file_type: FileType, write: bool) -> (r:
    Option<i64>)
    ensures
        r == vector_refusal(kind, status_flags, file_type, write),
{
    let closed: i32 = if write {
        O_RDONLY
    } else {
        O_WRONLY
    };
    if status_flags & O_ACCMODE == closed {
        return Some(fail(EBADF));
    }
    match kind {
        OpenFileKind::Vfs(_) => if file_type == FileType::Dir {
            Some(fail(EISDIR))
        } else if file_type == FileType::CharDevice {
            Some(fail(ESPIPE))
        } else {
            None
        },
        OpenFileKind::MemFd(_) => None,
        _ => Some(fail(ESPIPE)),
    }
}

} // verus!
