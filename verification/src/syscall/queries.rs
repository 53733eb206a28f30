//! Calls that ask about files: in which order they are refused, and what they
//! answer.

use crate::errno::{fail, failed, EACCES, EBADF, EFAULT, EIO, ENOENT, ENOTDIR, ESRCH};
use crate::paths::SLASH;
use crate::proc::process::OpenFileKind;
use crate::syscall::files::{path_from, DirKind, AT_FDCWD};
use crate::syscall::pathname::{
    check_encrypted_home_access, home_open, joined, normalize_path, normalized, trimmed,
};
use crate::syscall::pathops::{trimmed_path_at, user_path};
use crate::syscall::stat::{fill_stat_from_meta, fill_statfs, filled, Stat, StatFs};
use crate::syscall::utils::{format_path, full_path};
use crate::vfs::{FsStats, Metadata};
use vstd::prelude::*;

verus! {

/// What is known of the home directory that a path lies in.
#[derive(Debug, Clone, Copy, PartialEq, Eq, Structural)]
pub struct HomeKnown {
    pub encrypted: bool,
    pub uid: u32,
    pub owner: Option<u32>,
}

/// Whether the home that a path lies in, if it lies in one, is open to the user.
pub open spec fn may_enter(path: Seq<u8>, home: HomeKnown) -> bool {
    home_open(path, home.encrypted, home.uid, home.owner)
}

/// Whether a program may go to a path; `home` is what is known of the home that it lies in.
pub fn enter(path: &[u8], home: HomeKnown) -> (r: bool)
    ensures
        r == may_enter(path@, home),
{
    match check_encrypted_home_access(path, home.encrypted, home.uid, home.owner) {
        Ok(_) => true,
        Err(_) => false,
    }
}

/// What path a call means that is given one beside a directory; or why it means none.
pub open spec fn meant_at(
    dirfd: i32,
    path: Option<Seq<u8>>,
    pwd: Option<Seq<u8>>,
    dir: DirKind,
    dir_path: Seq<u8>,
) -> Result<Seq<u8>, i64> {
    match (path, pwd) {
        (None, _) => Err(failed(EFAULT)),
        (Some(_), None) => Err(failed(ESRCH)),
        (Some(p), Some(w)) => if p.len() > 0 && p[0] == SLASH {
            Ok(normalized(trimmed(p)))
        } else if dirfd == AT_FDCWD {
            Ok(normalized(joined(w, trimmed(p))))
        } else {
            match dir {
                DirKind::Closed => Err(failed(EBADF)),
                DirKind::Other => Err(failed(ENOTDIR)),
                DirKind::Directory => Ok(normalized(joined(dir_path, trimmed(p)))),
            }
        },
    }
}

pub open spec fn opt_view(s: Option<&[u8]>) -> Option<Seq<u8>> {
    match s {
        Some(x) => Some(x@),
        None => None,
    }
}

pub open spec fn same_result(r: Result<Vec<u8>, i64>, s: Result<Seq<u8>, i64>) -> bool {
    match (r, s) {
        (Ok(a), Ok(b)) => a@ == b,
        (Err(a), Err(b)) => a == b,
        _ => false,
    }
}

/// The path that `access` and `newfstatat` mean. `path` is what the program gave, if it
/// could be read, and `pwd` the directory of the process, if there is one.
pub fn path_at(dirfd: i32, path: Option<&[u8]>, pwd: Option<&[u8]>, dir: DirKind, dir_path: &[u8]) -> (r:
    Result<Vec<u8>, i64>)
    ensures
        same_result(r, meant_at(dirfd, opt_view(path), opt_view(pwd), dir, dir_path@)),
{
    let p: &[u8] = match path {
        Some(p) => p,
        None => {
            return Err(fail(EFAULT));
        },
    };
    match pwd {
        None => Err(fail(ESRCH)),
        Some(w) => trimmed_path_at(dirfd, w, dir, dir_path, p),
    }
}

/// The path that `newfstatat` means; `stat_ptr` is where the attributes go.
pub fn newfstatat_path(
    stat_ptr: u64,
    dirfd: i32,
    path: Option<&[u8]>,
    pwd: Option<&[u8]>,
    dir: DirKind,
    dir_path: &[u8],
) -> (r: Result<Vec<u8>, i64>)
    ensures
        same_result(
            r,
            if stat_ptr == 0 {
                Err(failed(EFAULT))
            } else {
                meant_at(dirfd, opt_view(path), opt_view(pwd), dir, dir_path@)
            },
        ),
{
    if stat_ptr == 0 {
        return Err(fail(EFAULT));
    }
    path_at(dirfd, path, pwd, dir, dir_path)
}

/// What a call answers that needs a file at a path: `missing` where none is there.
pub open spec fn there_answer(full: Seq<u8>, home: HomeKnown, found: bool, missing: i64) -> i64 {
    if !may_enter(full, home) {
        failed(EACCES)
    } else if found {
        0
    } else {
        missing
    }
}

/// Whether a file is there.
pub fn access(full: &[u8], home: HomeKnown, found: bool) -> (r: i64)
    ensures
        r == there_answer(full@, home, found, failed(ENOENT)),
{
    if !enter(full, home) {
        fail(EACCES)
    } else if found {
        0
    } else {
        fail(ENOENT)
    }
}

/// The attributes of a file, filled in where it is there.
pub fn newfstatat(full: &[u8], home: HomeKnown, meta: Option<&Metadata>, out: &mut Stat) -> (r: i64)
    ensures
        r == there_answer(full@, home, meta is Some, failed(ENOENT)),
        *final(out) == if r == 0 {
            filled(*old(out), *meta->0)
        } else {
            *old(out)
        },
{
    if !enter(full, home) {
        return fail(EACCES);
    }
    match meta {
        Some(m) => {
            fill_stat_from_meta(out, m);
            0
        },
        None => fail(ENOENT),
    }
}

/// The path that `stat` means.
pub fn stat_path(path: Option<&[u8]>, pwd: &[u8]) -> (r: Result<Vec<u8>, i64>)
    ensures
        match path {
            Some(p) => r matches Ok(v) && v@ == path_from(pwd@, p@),
            None => r == Err::<Vec<u8>, i64>(-1i64),
        },
{
    match path {
        Some(p) => Ok(user_path(pwd, p)),
        None => Err(-1),
    }
}

/// The attributes of a file; one that is not there has no error number of its own.
pub fn stat(full: &[u8], home: HomeKnown, meta: Option<&Metadata>, out: &mut Stat) -> (r: i64)
    ensures
        r == there_answer(full@, home, meta is Some, -1i64),
        *final(out) == if r == 0 {
            filled(*old(out), *meta->0)
        } else {
            *old(out)
        },
{
    if !enter(full, home) {
        return fail(EACCES);
    }
    match meta {
        Some(m) => {
            fill_stat_from_meta(out, m);
            0
        },
        None => -1,
    }
}

/// The path that `statfs` means.
pub fn statfs_path(has_out: bool, path: Option<&[u8]>, pwd: Option<&[u8]>) -> (r: Result<
    Vec<u8>,
    i64,
>)
    ensures
        same_result(
            r,
            match (has_out, opt_view(path), opt_view(pwd)) {
                (true, Some(p), Some(w)) if p.len() > 0 => Ok(path_from(w, p)),
                (true, Some(p), None) if p.len() > 0 => Err(failed(ESRCH)),
                (true, Some(_), _) => Err(failed(ENOENT)),
                _ => Err(failed(EFAULT)),
            },
        ),
{
    if !has_out {
        return Err(fail(EFAULT));
    }
    let p: &[u8] = match path {
        Some(p) => p,
        None => {
            return Err(fail(EFAULT));
        },
    };
    if p.len() == 0 {
        return Err(fail(ENOENT));
    }
    match pwd {
        None => Err(fail(ESRCH)),
        Some(w) => Ok(user_path(w, p)),
    }
}

/// What is told about the file system of a path.
pub fn statfs(found: bool, stats: Option<&FsStats>) -> (r: Result<StatFs, i64>)
    ensures
        match (found, stats) {
            (false, _) => r == Err::<StatFs, i64>(failed(ENOENT)),
            (true, None) => r == Err::<StatFs, i64>(failed(EIO)),
            (true, Some(s)) => r matches Ok(x) && x.f_type == s.fs_type && x.f_bsize == s.block_size
                && x.f_blocks == s.blocks && x.f_bfree == s.blocks_free && x.f_bavail
                == s.blocks_available && x.f_files == s.files && x.f_ffree == s.files_free
                && x.f_namelen == s.name_length && x.f_frsize == s.fragment_size && x.f_flags
                == s.flags,
        },
{
    if !found {
        return Err(fail(ENOENT));
    }
    match stats {
        Some(s) => Ok(fill_statfs(s)),
        None => Err(fail(EIO)),
    }
}

/// Whether `fstatfs` is refused before the file system is asked: None says that it is not.
pub fn fstatfs(has_out: bool, fd: i32, known: bool, kind: Option<OpenFileKind>) -> (r: Option<i64>)
    ensures
        r == if !has_out {
            Some(failed(EFAULT))
        } else if fd < 0 {
            Some(failed(EBADF))
        } else if !known {
            Some(failed(ESRCH))
        } else {
            match kind {
                Some(OpenFileKind::Vfs(_)) => None::<i64>,
                _ => Some(failed(EBADF)),
            }
        },
{
    if !has_out {
        return Some(fail(EFAULT));
    }
    if fd < 0 {
        return Some(fail(EBADF));
    }
    if !known {
        return Some(fail(ESRCH));
    }
    match kind {
        Some(OpenFileKind::Vfs(_)) => None,
        _ => Some(fail(EBADF)),
    }
}

/// The path of which `utimenat` asks whether it can be opened.
pub fn utimenat(dirfd: i32, path: Option<Vec<u8>>, pwd: &[u8]) -> (r: Result<Vec<u8>, i64>)
    ensures
        match (dirfd == AT_FDCWD, path) {
            (false, _) => r == Err::<Vec<u8>, i64>(-1i64),
            (true, None) => r == Err::<Vec<u8>, i64>(failed(EFAULT)),
            (true, Some(p)) => r matches Ok(v) && v@ == full_path(pwd@, p@),
        },
{
    if dirfd != AT_FDCWD {
        return Err(-1);
    }
    match path {
        None => Err(fail(EFAULT)),
        Some(p) => Ok(format_path(pwd, p)),
    }
}

/// The path whose attributes are asked for. `listxattr` starts at the directory of the
/// process; `llistxattr` does not.
pub fn listxattr_for_path(path: Option<&[u8]>, pwd: Option<&[u8]>, relative: bool) -> (r: Result<
    Vec<u8>,
    i64,
>)
    ensures
        same_result(
            r,
            match (opt_view(path), opt_view(pwd)) {
                (None, _) => Err(failed(EFAULT)),
                (Some(p), w) => if p.len() > 0 && p[0] == SLASH || !relative {
                    Ok(normalized(p))
                } else {
                    match w {
                        Some(d) => Ok(normalized(joined(d, p))),
                        None => Err(failed(ESRCH)),
                    }
                },
            },
        ),
{
    let p: &[u8] = match path {
        Some(p) => p,
        None => {
            return Err(fail(EFAULT));
        },
    };
    if (p.len() > 0 && p[0] == SLASH) || !relative {
        return Ok(normalize_path(p));
    }
    match pwd {
        Some(w) => Ok(user_path(w, p)),
        None => Err(fail(ESRCH)),
    }
}

/// What a call says that only asks whether a file is there.
pub fn presence(found: bool) -> (r: i64)
    ensures
        r == if found {
            0
        } else {
            failed(ENOENT)
        },
{
    if found {
        0
    } else {
        fail(ENOENT)
    }
}

/// A descriptor that is open has no attributes of its own.
pub fn flistxattr(known: bool, open: bool) -> (r: i64)
    ensures
        r == if !known {
            failed(ESRCH)
        } else if open {
            0
        } else {
            failed(EBADF)
        },
{
    if !known {
        fail(ESRCH)
    } else if open {
        0
    } else {
        fail(EBADF)
    }
}

} // verus!
