use twilight_kernel::errno::{
    EACCES, EAGAIN, EBADF, EFAULT, EINVAL, EIO, EISDIR, ENOENT, ENOEXEC, ENOTDIR, EROFS, ESPIPE, ESRCH,
};
use twilight_kernel::proc::launch::{kernel_process, standard_fd_table, Resources};
use twilight_kernel::proc::process::{FdEntry, OpenFileKind, Process, FD_CLOEXEC};
use twilight_kernel::proc::table::ProcessTable;
use twilight_kernel::syscall::crypto::{get_user_key, UserKeys};
use twilight_kernel::syscall::dirent::{dirent64_reclen, getdent64};
use twilight_kernel::syscall::dispatch::{call_number, decode, reboot, Call, PowerRequest};
use twilight_kernel::syscall::exec::{exec_interpreter, exec_plan, ExecPlan};
use twilight_kernel::syscall::files::{
    apply_umask, close, dup, dup2, fcntl_refused, ftruncate_refused, lseek, pipe, pipe2, pipe_file,
    pread_check, pread_refused, resolve_at, umask, vector_check, write_refused, DirKind, NodeInfo, AT_FDCWD,
};
use twilight_kernel::proc::process::OpenFile;
use twilight_kernel::syscall::misc::{
    arch_prctl, futex, getrandom, getrandom_refused, getrusage, pr_limit64, readlink_answer, readlinkat_path,
    sched_getaffinity, uname, BaseRequest, FutexStep, ARCH_SET_FS,
};
use twilight_kernel::syscall::pathname::{
    check_encrypted_home_access, home_root_for_path, join_paths, normalize_path, parent_path,
    parse_shebang, resolve_exec_path, split_parent_name, trim,
};
use twilight_kernel::syscall::pathops::{errno_of, mkdir_plan};
use twilight_kernel::syscall::poll::{
    poll_fd_set, select_begin, FdSet, PollFd, Readiness, SelectSets, SelectWait, POLLIN, POLLNVAL,
};
use twilight_kernel::syscall::queries::{
    access, flistxattr, fstatfs, listxattr_for_path, newfstatat, path_at, presence, stat, stat_path,
    statfs, statfs_path, utimenat, HomeKnown,
};
use twilight_kernel::syscall::sleep::{clock_nanosleep, nanosleep, time, Nap};
use twilight_kernel::syscall::stat::{fstat, fstat_node, fstat_pipe, Stat, StatOf};
use twilight_kernel::syscall::time::Timespec;
use twilight_kernel::syscall::users::Users;
use twilight_kernel::syscall::utils::{
    copy_cstr_from_user, copy_from_user, copy_to_user, copy_user_ptr_array, UserCopyError, UserImage,
    UserPtr,
};
use twilight_kernel::syscall::vectors::{
    preadv, pwritev, readv, writev, FileAt, Iovec, VectorPlan, VectorStep,
};
use twilight_kernel::vfs::{default_stats, FileType, Metadata, VfsError};

fn failed(e: i32) -> i64 {
    -(e as i64)
}

fn process() -> Process {
    let mut p = kernel_process(Resources { page_table: 1, kernel_rsp: 0x9000, proc_mm: 0 });
    p.pid = 7;
    p.pwd = b"/home/me".to_vec();
    p.fd_table = standard_fd_table(0, 1, 2);
    p
}

#[test]
fn paths_are_made_plain() {
    assert_eq!(normalize_path(b"/a/./b//../c/"), b"/a/c".to_vec());
    assert_eq!(normalize_path(b"/../.."), b"/".to_vec());
    assert_eq!(normalize_path(&normalize_path(b"x/../y")), normalize_path(b"x/../y"));
    assert_eq!(join_paths(b"/a", b"b"), b"/a/b".to_vec());
    assert_eq!(parent_path(b"/a/b"), b"/a".to_vec());
    assert_eq!(split_parent_name(b"/a/b"), (b"/a".to_vec(), b"b".to_vec()));
    assert_eq!(trim(b" \tx y\n"), b"x y".to_vec());
    assert_eq!(home_root_for_path(b"/home/me/x"), Some(b"/home/me".to_vec()));
    assert_eq!(home_root_for_path(b"/etc"), None);
    assert_eq!(resolve_exec_path(b"/d", b"prog").unwrap(), b"/d/prog".to_vec());
}

#[test]
fn homes_are_locked() {
    assert!(check_encrypted_home_access(b"/home/me/x", true, 5, Some(5)).is_ok());
    assert!(check_encrypted_home_access(b"/home/me/x", true, 0, Some(5)).is_ok());
    assert!(check_encrypted_home_access(b"/home/me/x", false, 6, Some(5)).is_ok());
    assert_eq!(check_encrypted_home_access(b"/home/me/x", true, 6, Some(5)), Err(failed(EACCES)));
}

#[test]
fn scripts_name_their_interpreter() {
    let s = parse_shebang(b"#!/bin/oksh -e\necho").unwrap().unwrap();
    assert_eq!(s.interpreter, b"/bin/oksh".to_vec());
    assert_eq!(parse_shebang(b"#!/bin/python\n").err(), Some(failed(ENOEXEC)));
    assert_eq!(s.arg, Some(b"-e".to_vec()));
    assert!(parse_shebang(b"no script").unwrap().is_none());
    match exec_plan(b"#!/bin/bash\n", b"/x", &vec![b"x".to_vec(), b"1".to_vec()]).unwrap() {
        ExecPlan::Script { interpreter, argv } => {
            assert_eq!(interpreter, b"/bin/oksh".to_vec());
            assert_eq!(argv, vec![b"/bin/oksh".to_vec(), b"/x".to_vec(), b"1".to_vec()]);
        }
        _ => panic!("it is a script"),
    }
    assert!(matches!(exec_plan(b"\x7fELFxxx", b"/x", &vec![]), Ok(ExecPlan::Program)));
    match exec_plan(b"text", b"/x", &vec![]) {
        Err(e) => assert_eq!(e, failed(ENOEXEC)),
        Ok(_) => panic!("it is no program"),
    }
    assert_eq!(exec_interpreter(b"#!/bin/sh"), Err(failed(ENOEXEC)));
    assert!(exec_interpreter(b"\x7fELF").is_ok());
}

#[test]
fn descriptors_are_copied() {
    let mut p = process();
    assert_eq!(dup(&mut p, 1), 3);
    assert_eq!(dup(&mut p, 99), failed(EBADF));
    assert_eq!(dup2(&mut p, 1, 10), 10);
    assert_eq!(dup2(&mut p, 1, 1), 1);
    assert_eq!(close(&mut p, 10), 0);
    assert_eq!(close(&mut p, 10), failed(EBADF));
    let mut table = ProcessTable::new();
    assert_eq!(pipe2(&mut table, 0, 1, 20, 21), Err(failed(EFAULT)));
    assert_eq!(pipe2(&mut table, 0x1000, 1, 20, 21), Err(failed(EINVAL)));
    assert_eq!(pipe(&mut table, 0x1000, 20, 21), Err(failed(ESRCH)));
    table.proc_list.push(p);
    table.current = 7;
    assert_eq!(pipe2(&mut table, 0x1000, 0x8_0000, 20, 21), Ok((4, 5)));
    assert_eq!(table.proc_list[0].fd_table[5], Some(FdEntry { file: 21, fd_flags: FD_CLOEXEC }));
    let end = pipe_file(3, true, 0x800);
    assert_eq!((end.kind, end.status_flags), (OpenFileKind::Pipe(3), 0x801));
    assert_eq!(end.path, b"pipe".to_vec());
    let mut p = table.proc_list.pop().unwrap();
    assert_eq!(umask(&mut p, 0o077), 0o022);
    assert_eq!(apply_umask(0o777, 0o022), 0o755);
}

#[test]
fn places_in_files() {
    let mut f = OpenFile { kind: OpenFileKind::Vfs(0), seek: 5, path: b"/x".to_vec(), status_flags: 2 };
    let node = NodeInfo { file_type: FileType::File, size: 100 };
    assert_eq!(lseek(&mut f, node, 7, 0), 7);
    assert_eq!(lseek(&mut f, node, 3, 1), 7);
    assert_eq!(lseek(&mut f, node, 0, 9), failed(EINVAL));
    assert_eq!(lseek(&mut f, node, 0, 2), 100);
    assert_eq!(pread_check(OpenFileKind::Pipe(1), 0, FileType::File), Some(failed(ESPIPE)));
    assert_eq!(pread_check(OpenFileKind::Vfs(1), 1, FileType::File), Some(failed(EBADF)));
    assert_eq!(pread_check(OpenFileKind::Vfs(1), 0, FileType::Dir), Some(failed(EISDIR)));
    assert_eq!(vector_check(OpenFileKind::Vfs(1), 0, FileType::File, false), None);
    assert_eq!(vector_check(OpenFileKind::Vfs(1), 0, FileType::File, true), Some(failed(EBADF)));
    assert_eq!(write_refused(false, true), Some(failed(ESRCH)));
    assert_eq!(write_refused(true, false), Some(failed(EBADF)));
    assert_eq!(write_refused(true, true), None);
    assert_eq!(ftruncate_refused(-1, false, false), Some(failed(EBADF)));
    assert_eq!(ftruncate_refused(3, false, false), Some(failed(ESRCH)));
    assert_eq!(ftruncate_refused(3, true, true), None);
    assert_eq!(fcntl_refused(-1, false), Some(failed(EBADF)));
    assert_eq!(fcntl_refused(3, false), Some(failed(ESRCH)));
    assert_eq!(fcntl_refused(3, true), None);
    assert_eq!(pread_refused(0, false), Some(failed(EFAULT)));
    assert_eq!(pread_refused(8, false), Some(failed(EBADF)));
    assert_eq!(pread_refused(8, true), None);
}

#[test]
fn paths_beside_directories() {
    assert_eq!(resolve_at(AT_FDCWD, b"/p", DirKind::Closed, b"", b"x").unwrap(), b"/p/x".to_vec());
    assert_eq!(resolve_at(3, b"/p", DirKind::Directory, b"/d", b"x").unwrap(), b"/d/x".to_vec());
    assert_eq!(resolve_at(3, b"/p", DirKind::Other, b"/d", b"x"), Err(failed(ENOTDIR)));
    assert_eq!(resolve_at(3, b"/p", DirKind::Closed, b"/d", b"x"), Err(failed(EBADF)));
    assert_eq!(resolve_at(3, b"/p", DirKind::Closed, b"/d", b"/x").unwrap(), b"/x".to_vec());
    assert_eq!(errno_of(VfsError::ReadOnly), failed(EROFS));
    assert_eq!(errno_of(VfsError::NotDir), failed(ENOTDIR));
    let m = mkdir_plan(b"/p", b"a".to_vec());
    assert_eq!((m.full, m.parent, m.name), (b"/p/a".to_vec(), b"/p".to_vec(), b"a".to_vec()));
}

#[test]
fn questions_about_files() {
    let home = HomeKnown { encrypted: true, uid: 6, owner: Some(5) };
    let open = HomeKnown { encrypted: false, uid: 6, owner: Some(5) };
    assert_eq!(
        path_at(AT_FDCWD, Some(b" x "), Some(b"/p"), DirKind::Closed, b"").unwrap(),
        b"/p/x".to_vec()
    );
    assert_eq!(path_at(AT_FDCWD, None, Some(b"/p"), DirKind::Closed, b""), Err(failed(EFAULT)));
    assert_eq!(path_at(AT_FDCWD, Some(b"x"), None, DirKind::Closed, b""), Err(failed(ESRCH)));
    assert_eq!(path_at(4, Some(b"x"), Some(b"/p"), DirKind::Other, b""), Err(failed(ENOTDIR)));
    assert_eq!(access(b"/home/me/x", home, true), failed(EACCES));
    assert_eq!(access(b"/home/me/x", open, true), 0);
    assert_eq!(access(b"/etc/x", home, false), failed(ENOENT));
    let m = Metadata::blk(3, b"b", 1000);
    let mut s = Stat::default();
    assert_eq!(newfstatat(b"/x", home, Some(&m), &mut s), 0);
    assert_eq!((s.st_size, s.st_ino), (1000, 3));
    assert_eq!(newfstatat(b"/x", home, None, &mut s), failed(ENOENT));
    assert_eq!(stat(b"/x", home, None, &mut s), -1);
    assert_eq!(stat(b"/home/me", home, Some(&m), &mut s), failed(EACCES));
    assert_eq!(stat_path(None, b"/p"), Err(-1));
    assert_eq!(stat_path(Some(b"a"), b"/p").unwrap(), b"/p/a".to_vec());
    assert_eq!(statfs_path(false, Some(b"a"), Some(b"/p")), Err(failed(EFAULT)));
    assert_eq!(statfs_path(true, Some(b""), Some(b"/p")), Err(failed(ENOENT)));
    assert_eq!(statfs_path(true, Some(b"a"), None), Err(failed(ESRCH)));
    assert_eq!(statfs_path(true, Some(b"a"), Some(b"/p")).unwrap(), b"/p/a".to_vec());
    assert_eq!(statfs(true, Some(&default_stats())).unwrap().f_bsize, 4096);
    assert_eq!(statfs(false, None).unwrap_err(), failed(ENOENT));
    assert_eq!(fstatfs(true, 3, true, Some(OpenFileKind::Pipe(1))), Some(failed(EBADF)));
    assert_eq!(fstatfs(true, 3, true, Some(OpenFileKind::Vfs(1))), None);
    assert_eq!(utimenat(3, Some(b"a".to_vec()), b"/p"), Err(-1));
    assert_eq!(utimenat(AT_FDCWD, Some(b"a".to_vec()), b"/p").unwrap(), b"/p/a".to_vec());
    assert_eq!(listxattr_for_path(Some(b"a"), None, false).unwrap(), normalize_path(b"a"));
    assert_eq!(listxattr_for_path(Some(b"a"), None, true), Err(failed(ESRCH)));
    assert_eq!(presence(true), 0);
    assert_eq!(presence(false), failed(ENOENT));
    assert_eq!(flistxattr(true, false), failed(EBADF));
    assert_eq!(fstat_node(&m).st_blocks, 2);
    assert_eq!(fstat_pipe(9, 4096, 77).st_ino, 9);
}

#[test]
fn texts_of_programs() {
    let mut bytes = vec![0u8; 64];
    bytes[..6].copy_from_slice(b"hello\0");
    bytes[16..24].copy_from_slice(&0x1000u64.to_le_bytes());
    bytes[32] = 0xFF;
    let mem = UserImage { base: 0x1000, bytes };
    assert_eq!(copy_cstr_from_user(&mem, UserPtr { addr: 0x1000 }, 10).unwrap(), b"hello".to_vec());
    assert_eq!(copy_cstr_from_user(&mem, UserPtr { addr: 0x1000 }, 3).unwrap_err(), UserCopyError::TooLong);
    assert_eq!(copy_cstr_from_user(&mem, UserPtr { addr: 0x5000 }, 3).unwrap_err(), UserCopyError::Fault);
    assert_eq!(copy_cstr_from_user(&mem, UserPtr { addr: 0x1020 }, 3).unwrap_err(), UserCopyError::Utf8);
    assert_eq!(
        copy_user_ptr_array(&mem, UserPtr { addr: 0x1010 }, 4, 10).unwrap(),
        vec![b"hello".to_vec()]
    );
}

#[test]
fn memory_of_programs() {
    let mut mem = UserImage { base: 0x1000, bytes: vec![1, 2, 3, 4, 5, 6, 7, 8] };
    assert_eq!(copy_from_user(&mem, 0x1002, 4).unwrap(), vec![3, 4, 5, 6]);
    assert_eq!(copy_from_user(&mem, 0x1006, 4).unwrap_err(), UserCopyError::Fault);
    assert_eq!(copy_from_user(&mem, 0xffff_ffff_ffff_fffc, 8).unwrap_err(), UserCopyError::Fault);
    assert_eq!(copy_to_user(&mut mem, 0xffff_ffff_ffff_fffc, &[9; 8]).unwrap_err(), UserCopyError::Fault);
    copy_to_user(&mut mem, 0x1001, &[9, 9]).unwrap();
    assert_eq!(mem.bytes, vec![1, 9, 9, 4, 5, 6, 7, 8]);
}

#[test]
fn several_buffers() {
    let iov = vec![Iovec { iov_base: 0x1000, iov_len: 3 }, Iovec { iov_base: 0x2000, iov_len: 5 }];
    assert!(matches!(writev(2, Some(&iov)), VectorPlan::Move(8)));
    assert!(matches!(readv(2, Some(&iov)), VectorPlan::Move(8)));
    assert_eq!(writev(-1, None), VectorPlan::Return(failed(EINVAL)));
    assert_eq!(writev(2, None), VectorPlan::Return(failed(EFAULT)));
    assert_eq!(writev(0, None), VectorPlan::Return(0));
    assert_eq!(readv(2, None), VectorPlan::Return(failed(EFAULT)));
    let hole = vec![Iovec { iov_base: 0, iov_len: 3 }];
    assert_eq!(writev(1, Some(&hole)), VectorPlan::Return(failed(EFAULT)));
    assert_eq!(readv(1, Some(&hole)), VectorPlan::Move(3));
    let f = FileAt { kind: OpenFileKind::Vfs(1), status_flags: 2, file_type: FileType::File };
    let step = |outs: Vec<Option<u64>>| preadv(2, Some(&iov), true, Some(f), &outs, 100);
    assert_eq!(step(vec![]), VectorStep::Move { index: 0, place: 100 });
    assert_eq!(step(vec![Some(3)]), VectorStep::Move { index: 1, place: 103 });
    assert_eq!(step(vec![Some(2)]), VectorStep::Return(2));
    assert_eq!(step(vec![Some(3), Some(5)]), VectorStep::Return(8));
    assert_eq!(step(vec![None]), VectorStep::Return(failed(EIO)));
    assert_eq!(pwritev(0, None, false, None, &vec![], 0), VectorStep::Return(0));
    assert_eq!(pwritev(2, None, false, None, &vec![], 0), VectorStep::Return(failed(EFAULT)));
    assert_eq!(pwritev(2, Some(&iov), false, None, &vec![], 0), VectorStep::Return(failed(ESRCH)));
    assert_eq!(pwritev(2, Some(&iov), true, None, &vec![], 0), VectorStep::Return(failed(EBADF)));
    let read_only = FileAt { status_flags: 0, ..f };
    assert_eq!(
        pwritev(2, Some(&iov), true, Some(read_only), &vec![], 0),
        VectorStep::Return(failed(EBADF))
    );
}

#[test]
fn lists_of_names() {
    assert_eq!(dirent64_reclen(1), 24);
    assert_eq!(dirent64_reclen(5), 32);
    let entries = vec![Metadata::dir(3, b"d"), Metadata::chr(4, b"tty")];
    let (bytes, next) = getdent64(&entries, 0, 24);
    assert_eq!((bytes.len(), next), (24, 1));
    assert_eq!(bytes[18], 4);
    assert_eq!(&bytes[19..21], b"d\0");
    let (bytes, next) = getdent64(&entries, 1, 1000);
    assert_eq!((bytes.len(), next), (24, 2));
    assert_eq!(bytes[18], 2);
}

#[test]
fn ready_descriptors() {
    let mut fds = vec![PollFd { fd: 3, events: POLLIN, revents: 0 }, PollFd { fd: 9, events: POLLIN, revents: 0 }];
    let states = vec![Readiness::Net { readable: true, writable: false }, Readiness::Closed];
    assert_eq!(poll_fd_set(&mut fds, &states), 2);
    assert_eq!(fds[0].revents, POLLIN);
    assert_eq!(fds[1].revents, POLLNVAL);
    let mut read = FdSet::empty();
    read.set(5);
    assert!(read.isset(5));
    read.clr(5);
    assert!(!read.isset(5));
    read.set(6);
    let sets = SelectSets { read, write: FdSet::empty(), except: FdSet::empty() };
    let (fds, wait) = select_begin(7, &sets, None, 0).unwrap();
    assert_eq!(fds.len(), 1);
    assert_eq!(fds[0].fd, 6);
    assert!(matches!(wait, SelectWait::Forever));
    assert!(select_begin(-1, &sets, None, 0).is_err());
}

#[test]
fn numbers_of_calls() {
    assert_eq!(call_number(Call::Read), 0);
    assert_eq!(call_number(Call::Getpid), 39);
    assert_eq!(decode(1), Some(Call::Write));
    assert_eq!(decode(100_000), None);
    assert!(matches!(reboot(1, 2, 3), PowerRequest::Fail(_)));
}

#[test]
fn small_calls() {
    let u = uname();
    assert!(u.sysname.len() == 65);
    let mut p = process();
    assert!(matches!(arch_prctl(&mut p, ARCH_SET_FS, 0x1234), BaseRequest::SetFs(0x1234)));
    assert_eq!(p.fs_base, 0x1234);
    assert!(pr_limit64(0, 3).is_ok());
    assert_eq!(getrusage(0, false), failed(EFAULT));
    assert_eq!(getrandom_refused(0, 1), Some(failed(EFAULT)));
    assert_eq!(getrandom_refused(0, 0), None);
    let mut seed = 5;
    assert_eq!(getrandom(&mut seed, 6, 7, 10).len(), 10);
    assert!(matches!(futex(0x1000, 0, 5, 6), FutexStep::Return(_)));
    let mut keys = UserKeys::new();
    assert_eq!(keys.sys_add_user_key(5, &[1; 31]), -1);
    assert_eq!(keys.sys_add_user_key(5, &[1; 32]), 0);
    assert_eq!(keys.sys_add_user_key(5, &[2; 32]), 0);
    assert_eq!(get_user_key(&keys, 5), Some([2; 32]));
    assert_eq!(get_user_key(&keys, 6), None);
}

#[test]
fn links_under_proc() {
    let at = |path_ptr, buf_ptr, len, path, pwd| {
        readlinkat_path(path_ptr, buf_ptr, len, path, AT_FDCWD, pwd, DirKind::Closed, b"")
    };
    let there: Option<&[u8]> = Some(b"/p");
    assert_eq!(at(0, 1, 1, Some(b"x"), there), Err(failed(EFAULT)));
    assert_eq!(at(1, 0, 1, Some(b"x"), there), Err(failed(EFAULT)));
    assert_eq!(at(1, 1, 0, Some(b"x"), None), Err(failed(EINVAL)));
    assert_eq!(at(1, 1, 1, None, None), Err(failed(ESRCH)));
    assert_eq!(at(1, 1, 1, None, there), Err(failed(EFAULT)));
    assert_eq!(at(1, 1, 1, Some(b"x"), there).unwrap(), b"/p/x".to_vec());
    let target = b"/bin/sh".to_vec();
    assert_eq!(readlink_answer(Some(&target), true, 0), Err(failed(EINVAL)));
    assert_eq!(readlink_answer(Some(&target), true, 4).unwrap(), b"/bin".to_vec());
    assert_eq!(readlink_answer(Some(&target), false, 99).unwrap(), target);
    assert_eq!(readlink_answer(None, true, 4), Err(failed(EINVAL)));
    assert_eq!(readlink_answer(None, false, 4), Err(failed(ENOENT)));
}

#[test]
fn attributes_of_open_files() {
    let m = Metadata::blk(3, b"b", 1000);
    assert!(matches!(fstat(0, true, 3, Some(StatOf::Socket), 4096, 7), (e, None) if e == failed(EFAULT)));
    assert!(matches!(fstat(1, false, 3, Some(StatOf::Socket), 4096, 7), (e, None) if e == failed(ESRCH)));
    let (n, blank) = fstat(1, true, 3, None, 4096, 7);
    assert_eq!((n, blank.unwrap().st_size), (failed(EBADF), 0));
    let (n, blank) = fstat(1, true, 1 << 31, Some(StatOf::Node(&m)), 4096, 7);
    assert_eq!((n, blank.unwrap().st_ino), (failed(EBADF), 0));
    let (n, told) = fstat(1, true, 3, Some(StatOf::Node(&m)), 4096, 7);
    assert_eq!((n, told.unwrap().st_blocks), (0, 2));
    assert_eq!(fstat(1, true, 3, Some(StatOf::Pipe(9)), 4096, 7).1.unwrap().st_ino, 9);
    assert_eq!(fstat(1, true, 5, Some(StatOf::Socket), 4096, 7).1.unwrap().st_ino, 5);
}

#[test]
fn users_of_programs() {
    let mut users = Users { uid: 0, gid: 0 };
    assert_eq!(users.setuid(1000), 0);
    assert_eq!((users.geteuid(), users.getegid()), (1000, 0));
    assert_eq!(users.setgid(50), 0);
    assert_eq!((users.geteuid(), users.getegid()), (1000, 50));
    users.setuid(u64::MAX);
    assert_eq!(users.geteuid(), -1);
}

#[test]
fn sleeps_begin() {
    let t = |tv_sec, tv_nsec| Timespec { tv_sec, tv_nsec };
    assert_eq!(nanosleep(0, 1, t(1, 0)), (Nap::Return(failed(EFAULT)), false));
    assert_eq!(nanosleep(1, 1, t(1, 0)), (Nap::Span(t(1, 0)), true));
    let nap = |req_ptr, flags, req, now| clock_nanosleep(req_ptr, 0, flags, req, now);
    assert_eq!(nap(0, 9, t(1, 0), None), (Nap::Return(failed(EFAULT)), false));
    assert_eq!(nap(1, 2, t(1, 0), None), (Nap::Return(failed(EINVAL)), false));
    assert_eq!(nap(1, 0, t(1, 1_000_000_000), None), (Nap::Return(failed(EINVAL)), false));
    assert_eq!(nap(1, 0, t(1, 5), None), (Nap::Span(t(1, 5)), false));
    assert_eq!(nap(1, 1, t(1, 5), None), (Nap::AskClock, false));
    assert_eq!(nap(1, 1, t(1, 5), Some(Err(-22))), (Nap::Return(-22), false));
    assert_eq!(nap(1, 1, t(1, 5), Some(Ok(t(1, 5)))), (Nap::Return(0), false));
    assert_eq!(nap(1, 1, t(2, 5), Some(Ok(t(1, 6)))), (Nap::Nanos(999_999_999), false));
    assert_eq!(nap(1, 1, t(i64::MAX, 0), Some(Ok(t(0, 0)))), (Nap::Nanos(u64::MAX), false));
    assert_eq!(clock_nanosleep(1, 8, 0, t(1, 0), None), (Nap::Span(t(1, 0)), true));
    assert_eq!(time(0, 77), (77, false));
    assert_eq!(time(8, 77), (77, true));
}

#[test]
fn processors_of_a_process() {
    let mut table = ProcessTable::new();
    table.proc_list.push(process());
    table.current = 7;
    assert_eq!(sched_getaffinity(&table, 0, 8, 4, true).unwrap().len(), 8);
    assert_eq!(sched_getaffinity(&table, 0, 8, 65, true), Err(failed(EINVAL)));
    assert_eq!(sched_getaffinity(&table, 0, 8, usize::MAX, true), Err(failed(EINVAL)));
}
