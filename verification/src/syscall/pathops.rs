//! Calls that name a file: which path they mean, and what they answer.

use crate::bytes::{same, to_vec};
use crate::errno::{
    fail, failed, EACCES, EEXIST, EFAULT, EINVAL, EIO, ENOENT, ENOSYS, ENOTDIR, EPERM, EROFS, ESRCH,
};
use crate::paths::{base_name, last_part, SLASH};
use crate::proc::process::{ProcView, Process};
use crate::syscall::files::{path_from, DirKind, AT_FDCWD};
use crate::syscall::pathname::{join_paths, normalize_path, normalized, parent_of, parent_path, trim, trimmed};
use crate::syscall::queries::{enter, may_enter, opt_view, same_result, HomeKnown};
use crate::syscall::utils::{format_path, full_path};
use crate::vfs::{FileType, VfsError};
use vstd::prelude::*;

verus! {

/// The path that a program means by `path`, seen from the directory `pwd`.
pub fn user_path(pwd: &[u8], path: &[u8]) -> (r: Vec<u8>)
    ensures
        r@ == path_from(pwd@, path@),
{
    if path.len() > 0 && path[0] == SLASH {
        normalize_path(path)
    } else {
        let full: Vec<u8> = join_paths(pwd, path);
        normalize_path(&full)
    }
}

/// The path that a call means which drops blank characters around a path. Whether the
/// path starts at the root is seen before they are dropped.
pub fn trimmed_path_at(dirfd: i32, pwd: &[u8], dir: DirKind, dir_path: &[u8], path: &[u8]) -> (r: Result<
    Vec<u8>,
    i64,
>)
    ensures
        ({
            let t = trimmed(path@);
            let absolute = path@.len() > 0 && path@[0] == SLASH;
            match r {
                Ok(v) => if absolute {
                    v@ == normalized(t)
                } else if dirfd == AT_FDCWD {
                    v@ == normalized(crate::syscall::pathname::joined(pwd@, t))
                } else {
                    dir == DirKind::Directory && v@ == normalized(
                        crate::syscall::pathname::joined(dir_path@, t),
                    )
                },
                Err(e) => !absolute && dirfd != AT_FDCWD && match dir {
                    DirKind::Closed => e == failed(crate::errno::EBADF),
                    DirKind::Other => e == failed(ENOTDIR),
                    DirKind::Directory => false,
                },
            }
        }),
{
    let t: Vec<u8> = trim(path);
    if path.len() > 0 && path[0] == SLASH {
        return Ok(normalize_path(&t));
    }
    if dirfd == AT_FDCWD {
        let full: Vec<u8> = join_paths(pwd, &t);
        return Ok(normalize_path(&full));
    }
    match dir {
        DirKind::Closed => Err(fail(crate::errno::EBADF)),
        DirKind::Other => Err(fail(ENOTDIR)),
        DirKind::Directory => {
            let full: Vec<u8> = join_paths(dir_path, &t);
            Ok(normalize_path(&full))
        },
    }
}

/// The error number of a failure of the file system.
pub open spec fn error_number(e: VfsError) -> i64 {
    match e {
        VfsError::NotFound => failed(ENOENT),
        VfsError::NotDir => failed(ENOTDIR),
        VfsError::ReadOnly => failed(EROFS),
        VfsError::Invalid => failed(EINVAL),
        VfsError::Io => failed(EIO),
        VfsError::AlreadyExists => failed(EEXIST),
    }
}

pub fn errno_of(e: VfsError) -> (r: i64)
    ensures
        r == error_number(e),
{
    match e {
        VfsError::NotFound => fail(ENOENT),
        VfsError::NotDir => fail(ENOTDIR),
        VfsError::ReadOnly => fail(EROFS),
        VfsError::Invalid => fail(EINVAL),
        VfsError::Io => fail(EIO),
        VfsError::AlreadyExists => fail(EEXIST),
    }
}

/// The path that `chmod` means. `path` is what the program gave, if it could be read, and
/// `pwd` the directory of the process, if there is one.
pub fn chmod_path(path: Option<&[u8]>, pwd: Option<&[u8]>) -> (r: Result<Vec<u8>, i64>)
    ensures
        same_result(
            r,
            match (opt_view(path), opt_view(pwd)) {
                (None, _) => Err(failed(EFAULT)),
                (Some(p), w) => if p.len() == 0 {
                    Err(failed(ENOENT))
                } else {
                    match w {
                        None => Err(failed(ESRCH)),
                        Some(w) => Ok(path_from(w, p)),
                    }
                },
            },
        ),
{
    let p: &[u8] = match path {
        Some(p) => p,
        None => {
            return Err(fail(EFAULT));
        },
    };
    if p.len() == 0 {
        return Err(fail(ENOENT));
    }
    match pwd {
        None => Err(fail(ESRCH)),
        Some(w) => Ok(user_path(w, p)),
    }
}

/// Why a user may not change the permissions of the file at `full`, which the program called
/// `path` and whose owner is `owner`, if they may not.
pub open spec fn chmod_refusal(
    path: Seq<u8>,
    full: Seq<u8>,
    home: HomeKnown,
    owner: Option<u32>,
    uid: u32,
) -> Option<i64> {
    if path.len() == 0 {
        Some(failed(ENOENT))
    } else if !may_enter(full, home) {
        Some(failed(EACCES))
    } else {
        match owner {
            None => Some(failed(ENOENT)),
            Some(o) => if uid != 0 && uid != o {
                Some(failed(EPERM))
            } else {
                None
            },
        }
    }
}

/// Whether a user may change the permissions of a file: None says that they may.
pub fn chmod_begin(path: &[u8], full: &[u8], home: HomeKnown, owner: Option<u32>, uid: u32) -> (r: Option<i64>)
    ensures
        r == chmod_refusal(path@, full@, home, owner, uid),
{
    if path.len() == 0 {
        return Some(fail(ENOENT));
    }
    if !enter(full, home) {
        return Some(fail(EACCES));
    }
    match owner {
        None => Some(fail(ENOENT)),
        Some(o) => if uid != 0 && uid != o {
            Some(fail(EPERM))
        } else {
            None
        },
    }
}

/// What changing permissions returns.
pub fn chmod_done(error: Option<VfsError>) -> (r: i64)
    ensures
        r == match error {
            None => 0i64,
            Some(e) => error_number(e),
        },
{
    match error {
        None => 0,
        Some(e) => errno_of(e),
    }
}

/// What `chdir` returns for the path `full`, where `found` is there.
pub open spec fn chdir_answer(full: Seq<u8>, home: HomeKnown, found: Option<FileType>) -> i64 {
    if !may_enter(full, home) {
        failed(EACCES)
    } else if found == Some(FileType::Dir) {
        0
    } else {
        -1i64
    }
}

/// Changes the directory of a process to `full`, where a directory is found there and the
/// home that it lies in is open.
pub fn chdir(p: &mut Process, full: Vec<u8>, home: HomeKnown, found: Option<FileType>) -> (r: i64)
    ensures
        r == chdir_answer(full@, home, found),
        final(p)@ == if r == 0 {
            ProcView { pwd: full@, ..old(p)@ }
        } else {
            old(p)@
        },
{
    if !enter(&full, home) {
        return fail(EACCES);
    }
    match found {
        Some(FileType::Dir) => {
            p.pwd = full;
            0
        },
        _ => -1,
    }
}

/// The directory of a process in `buf_len` bytes, filled up with zeros.
pub fn getcwd(p: &Process, buf_len: usize) -> (r: Vec<u8>)
    requires
        p@.pwd.len() <= buf_len,
    ensures
        r@ == p@.pwd + Seq::new((buf_len - p@.pwd.len()) as nat, |i: int| 0u8),
{
    let mut out: Vec<u8> = to_vec(&p.pwd);
    let n: usize = p.pwd.len();
    crate::bytes::push_repeat(&mut out, 0, buf_len - n);
    proof {
        assert(out@ =~= p@.pwd + Seq::new((buf_len - p@.pwd.len()) as nat, |i: int| 0u8));
    }
    out
}

/// How a rename goes on.
#[derive(Debug, Clone, Copy, PartialEq, Eq, Structural)]
pub enum RenameStep {
    Return(i64),
    /// The files are to be looked for and moved.
    Go,
}

/// How a rename of one path to another goes on, as the program gave them; None is a path
/// that could not be read. The homes are those that the two paths lie in.
pub open spec fn rename_step(
    pwd: Option<Seq<u8>>,
    old_path: Option<Seq<u8>>,
    new_path: Option<Seq<u8>>,
    home_old: HomeKnown,
    home_new: HomeKnown,
) -> RenameStep {
    match (old_path, new_path) {
        (Some(p), Some(q)) => if p.len() == 0 || q.len() == 0 {
            RenameStep::Return(failed(ENOENT))
        } else {
            match pwd {
                None => RenameStep::Return(failed(ESRCH)),
                Some(w) => {
                    let a = path_from(w, p);
                    let b = path_from(w, q);
                    if a == seq![SLASH] || b == seq![SLASH] {
                        RenameStep::Return(failed(EINVAL))
                    } else if a == b {
                        RenameStep::Return(0)
                    } else if !may_enter(a, home_old) || !may_enter(b, home_new) {
                        RenameStep::Return(failed(EACCES))
                    } else {
                        RenameStep::Go
                    }
                },
            }
        },
        _ => RenameStep::Return(failed(EFAULT)),
    }
}

/// Starts a rename.
pub fn rename_begin(
    pwd: Option<&[u8]>,
    old_path: Option<&[u8]>,
    new_path: Option<&[u8]>,
    home_old: HomeKnown,
    home_new: HomeKnown,
) -> (r: RenameStep)
    ensures
        r == rename_step(opt_view(pwd), opt_view(old_path), opt_view(new_path), home_old, home_new),
{
    let (p, q): (&[u8], &[u8]) = match (old_path, new_path) {
        (Some(p), Some(q)) => (p, q),
        _ => {
            return RenameStep::Return(fail(EFAULT));
        },
    };
    if p.len() == 0 || q.len() == 0 {
        return RenameStep::Return(fail(ENOENT));
    }
    let w: &[u8] = match pwd {
        Some(w) => w,
        None => {
            return RenameStep::Return(fail(ESRCH));
        },
    };
    let a: Vec<u8> = user_path(w, p);
    let b: Vec<u8> = user_path(w, q);
    if crate::paths::is_root(&a) || crate::paths::is_root(&b) {
        return RenameStep::Return(fail(EINVAL));
    }
    if same(&a, &b) {
        return RenameStep::Return(0);
    }
    if !enter(&a, home_old) {
        return RenameStep::Return(fail(EACCES));
    }
    if !enter(&b, home_new) {
        return RenameStep::Return(fail(EACCES));
    }
    RenameStep::Go
}

/// What a rename returns: whether the old path was there, and whether it was moved.
pub fn rename_done(found: bool, moved: bool) -> (r: i64)
    ensures
        r == if !found {
            failed(ENOENT)
        } else if moved {
            0
        } else {
            failed(EIO)
        },
{
    if !found {
        return fail(ENOENT);
    }
    if moved {
        0
    } else {
        fail(EIO)
    }
}

/// Where a directory is to be made.
pub struct MkdirPlan {
    pub full: Vec<u8>,
    pub parent: Vec<u8>,
    pub name: Vec<u8>,
}

/// The plain form of a path that a directory is to be made at.
pub open spec fn mkdir_path(pwd: Seq<u8>, path: Seq<u8>) -> Seq<u8> {
    normalized(full_path(pwd, path))
}

/// Where a directory is to be made for the path `path`.
pub fn mkdir_plan(pwd: &[u8], path: Vec<u8>) -> (r: MkdirPlan)
    ensures
        r.full@ == mkdir_path(pwd@, path@),
        r.parent@ == parent_of(r.full@),
        r.name@ == base_name(r.full@),
{
    let raw: Vec<u8> = format_path(pwd, path);
    let full: Vec<u8> = normalize_path(&raw);
    let parent: Vec<u8> = parent_path(&full);
    let name: Vec<u8> = last_part(&full);
    MkdirPlan { full, parent, name }
}

/// Whether a path can be used together with a descriptor to make a directory: None says
/// that it can.
pub fn mkdirat_check(dirfd: i32, path: &[u8]) -> (r: Option<i64>)
    ensures
        r == if path@.len() == 0 {
            Some(failed(ENOENT))
        } else if path@[0] != SLASH && dirfd != AT_FDCWD {
            Some(failed(ENOSYS))
        } else {
            None::<i64>
        },
{
    if path.len() == 0 {
        return Some(fail(ENOENT));
    }
    if path[0] != SLASH && dirfd != AT_FDCWD {
        return Some(fail(ENOSYS));
    }
    None
}

/// What making a directory returns; `made` is what came of it where it was tried.
pub fn mkdir_done(plan: &MkdirPlan, exists_already: bool, made: bool) -> (r: i64)
    ensures
        r == if exists_already {
            failed(EEXIST)
        } else if plan.name@.len() == 0 {
            failed(EINVAL)
        } else if made {
            0
        } else {
            failed(EIO)
        },
{
    if exists_already {
        return fail(EEXIST);
    }
    if plan.name.len() == 0 {
        return fail(EINVAL);
    }
    if made {
        0
    } else {
        fail(EIO)
    }
}

/// The path that is to be removed: only one that starts at the root is made plain.
pub open spec fn unlink_path(pwd: Seq<u8>, path: Seq<u8>) -> Seq<u8> {
    if path.len() > 0 && path[0] == SLASH {
        normalized(path)
    } else {
        pwd + seq![SLASH] + path
    }
}

pub fn unlink_target(pwd: &[u8], path: Vec<u8>) -> (r: Vec<u8>)
    ensures
        r@ == unlink_path(pwd@, path@),
{
    if path.len() > 0 && path[0] == SLASH {
        return normalize_path(&path);
    }
    format_path(pwd, path)
}

} // verus!
