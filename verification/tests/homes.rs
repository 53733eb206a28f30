use twilight_kernel::errno::{
    EACCES, EBADF, EEXIST, EFAULT, EINVAL, EIO, EISDIR, ENOENT, ENOTDIR, EPERM, ESRCH,
};
use twilight_kernel::proc::launch::{kernel_process, Resources};
use twilight_kernel::proc::process::{OpenFile, OpenFileKind, Process};
use twilight_kernel::syscall::dirent::{getdent64_check, getdent64_done};
use twilight_kernel::syscall::files::{
    open_step, openat_path, DirKind, OpenStep, OpenTold, AT_FDCWD,
};
use twilight_kernel::syscall::pathops::{chdir, chmod_begin, chmod_path, rename_begin, RenameStep};
use twilight_kernel::syscall::queries::{access, enter, newfstatat, newfstatat_path, stat, HomeKnown};
use twilight_kernel::syscall::stat::Stat;
use twilight_kernel::vfs::{FileType, Metadata};

const CLOSED: HomeKnown = HomeKnown { encrypted: true, uid: 6, owner: Some(5) };
const OPEN: HomeKnown = HomeKnown { encrypted: true, uid: 5, owner: Some(5) };
const UNTOLD: OpenTold =
    OpenTold { looked: None, parent: None, made: None, again: None, emptied: None };

fn failed(e: i32) -> i64 {
    -(e as i64)
}

fn process() -> Process {
    let mut p = kernel_process(Resources { page_table: 1, kernel_rsp: 0x9000, proc_mm: 0 });
    p.pwd = b"/home/me".to_vec();
    p
}

#[test]
fn a_closed_home_is_refused_by_every_call() {
    let path = b"/home/me/x";
    assert!(!enter(path, CLOSED));
    assert!(enter(path, OPEN));
    assert!(enter(b"/etc/x", CLOSED));
    let no = failed(EACCES);
    let m = Metadata::dir(3, b"x");
    let mut s = Stat::default();
    assert_eq!(open_step(path, CLOSED, 0x40, UNTOLD), OpenStep::Return(no));
    assert_eq!(getdent64_check(1, 100, true, Some(true), path, CLOSED), Some(no));
    assert_eq!(stat(path, CLOSED, Some(&m), &mut s), no);
    assert_eq!(newfstatat(path, CLOSED, Some(&m), &mut s), no);
    assert_eq!(access(path, CLOSED, true), no);
    assert_eq!(chmod_begin(b"x", path, CLOSED, Some(6), 6), Some(no));
    let mut p = process();
    assert_eq!(chdir(&mut p, path.to_vec(), CLOSED, Some(FileType::Dir)), no);
    assert_eq!(p.pwd, b"/home/me".to_vec());
    let (here, there): (Option<&[u8]>, Option<&[u8]>) = (Some(path), Some(b"/tmp/y"));
    let pwd: Option<&[u8]> = Some(b"/");
    assert_eq!(rename_begin(pwd, here, there, CLOSED, OPEN), RenameStep::Return(no));
    assert_eq!(rename_begin(pwd, there, here, OPEN, CLOSED), RenameStep::Return(no));
}

#[test]
fn opening_goes_step_by_step() {
    let step = |flags, told| open_step(b"/home/me/x", OPEN, flags, told);
    assert_eq!(step(0, UNTOLD), OpenStep::Look);
    let missing = OpenTold { looked: Some(None), ..UNTOLD };
    assert_eq!(step(0, missing), OpenStep::Return(failed(ENOENT)));
    assert_eq!(step(0x40, missing), OpenStep::Parent);
    let parent = |p| OpenTold { parent: Some(p), ..missing };
    assert_eq!(step(0x40, parent(None)), OpenStep::Return(failed(ENOENT)));
    assert_eq!(step(0x40, parent(Some(FileType::File))), OpenStep::Return(failed(ENOTDIR)));
    let below = parent(Some(FileType::Dir));
    assert_eq!(step(0x40, below), OpenStep::Make);
    assert_eq!(step(0x40, OpenTold { made: Some(false), ..below }), OpenStep::Return(failed(EIO)));
    let made = OpenTold { made: Some(true), ..below };
    assert_eq!(step(0x40, made), OpenStep::Again);
    assert_eq!(step(0x40, OpenTold { again: Some(None), ..made }), OpenStep::Return(failed(EIO)));
    let fresh = OpenTold { again: Some(Some(FileType::File)), ..made };
    assert_eq!(step(0x40 | 0x80, fresh), OpenStep::Install);
    let found = |kind| OpenTold { looked: Some(Some(kind)), ..UNTOLD };
    assert_eq!(step(0x40 | 0x80, found(FileType::File)), OpenStep::Return(failed(EEXIST)));
    assert_eq!(step(1, found(FileType::Dir)), OpenStep::Return(failed(EISDIR)));
    let file = found(FileType::File);
    assert_eq!(step(0x200 | 1, file), OpenStep::Empty);
    assert_eq!(step(0x200 | 1, OpenTold { emptied: Some(None), ..file }), OpenStep::Install);
    assert_eq!(step(0x200 | 1, OpenTold { emptied: Some(Some(-5)), ..file }), OpenStep::Return(-5));
    assert_eq!(step(0x200, file), OpenStep::Install);
    assert_eq!(openat_path(AT_FDCWD, None, DirKind::Closed, b"", b"x"), Err(failed(ESRCH)));
    assert_eq!(
        openat_path(AT_FDCWD, Some(b"/p"), DirKind::Closed, b"", b"x").unwrap(),
        b"/p/x".to_vec()
    );
}

#[test]
fn directories_are_changed_and_listed() {
    let mut p = process();
    assert_eq!(chdir(&mut p, b"/tmp".to_vec(), OPEN, Some(FileType::Dir)), 0);
    assert_eq!(p.pwd, b"/tmp".to_vec());
    assert_eq!(chdir(&mut p, b"/f".to_vec(), OPEN, Some(FileType::File)), -1);
    assert_eq!(chdir(&mut p, b"/f".to_vec(), OPEN, None), -1);
    assert_eq!(p.pwd, b"/tmp".to_vec());
    let check = |ptr, len, caller, dir| getdent64_check(ptr, len, caller, dir, b"/d", OPEN);
    assert_eq!(check(0, 100, true, Some(true)), Some(failed(EFAULT)));
    assert_eq!(check(1, 20, true, Some(true)), Some(failed(EINVAL)));
    assert_eq!(check(1, 21, false, Some(true)), Some(failed(ESRCH)));
    assert_eq!(check(1, 21, true, None), Some(failed(EBADF)));
    assert_eq!(check(1, 21, true, Some(false)), Some(failed(ENOTDIR)));
    assert_eq!(check(1, 21, true, Some(true)), None);
    let mut f = OpenFile { kind: OpenFileKind::Vfs(0), seek: 0, path: b"/d".to_vec(), status_flags: 0 };
    assert_eq!(getdent64_done(&mut f, None, 100), (failed(EIO), vec![]));
    assert_eq!(f.seek, 0);
    let entries = vec![Metadata::dir(3, b"d"), Metadata::chr(4, b"tty")];
    let (n, bytes) = getdent64_done(&mut f, Some(&entries), 30);
    assert_eq!((n, bytes.len(), f.seek), (24, 24, 1));
    assert_eq!(getdent64_done(&mut f, Some(&entries), 30).0, 24);
    assert_eq!(getdent64_done(&mut f, Some(&entries), 30), (0, vec![]));
}

#[test]
fn permissions_and_names() {
    let pwd: Option<&[u8]> = Some(b"/p");
    assert_eq!(chmod_path(None, pwd), Err(failed(EFAULT)));
    assert_eq!(chmod_path(Some(b""), None), Err(failed(ENOENT)));
    assert_eq!(chmod_path(Some(b"x"), None), Err(failed(ESRCH)));
    assert_eq!(chmod_path(Some(b"x"), pwd).unwrap(), b"/p/x".to_vec());
    assert_eq!(chmod_begin(b"", b"/x", OPEN, Some(5), 6), Some(failed(ENOENT)));
    assert_eq!(chmod_begin(b"x", b"/x", OPEN, Some(5), 6), Some(failed(EPERM)));
    assert_eq!(chmod_begin(b"x", b"/x", OPEN, Some(5), 5), None);
    assert_eq!(chmod_begin(b"x", b"/x", OPEN, Some(5), 0), None);
    assert_eq!(chmod_begin(b"x", b"/x", OPEN, None, 0), Some(failed(ENOENT)));
    let rename = |a, b| rename_begin(pwd, a, b, OPEN, OPEN);
    let (a, b): (Option<&[u8]>, Option<&[u8]>) = (Some(b"a"), Some(b"b"));
    assert_eq!(rename(a, b), RenameStep::Go);
    assert_eq!(rename(a, Some(b"./a")), RenameStep::Return(0));
    assert_eq!(rename(None, b), RenameStep::Return(failed(EFAULT)));
    assert_eq!(newfstatat_path(0, AT_FDCWD, a, pwd, DirKind::Closed, b""), Err(failed(EFAULT)));
    assert_eq!(
        newfstatat_path(1, AT_FDCWD, a, pwd, DirKind::Closed, b"").unwrap(),
        b"/p/a".to_vec()
    );
}
