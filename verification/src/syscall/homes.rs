//! Encrypted home directories are closed to all but their owner and the superuser.

use crate::errno::{failed, EACCES};
use crate::paths::SLASH;
use crate::syscall::dirent::getdent64_refusal;
use crate::syscall::files::{open_next, path_from, OpenStep, OpenTold};
use crate::syscall::pathname::home_of;
use crate::syscall::pathops::{chdir_answer, chmod_refusal, rename_step, RenameStep};
use crate::syscall::queries::{may_enter, there_answer, HomeKnown};
use crate::vfs::FileType;
use vstd::prelude::*;

verus! {

/// A path in an encrypted home is closed to a user who is neither the superuser nor the owner
/// of the home.
pub proof fn lemma_home_is_closed(full: Seq<u8>, home: HomeKnown)
    requires
        home_of(full) is Some,
        home.encrypted,
        home.uid != 0,
        home.owner is Some,
        home.owner != Some(home.uid),
    ensures
        !may_enter(full, home),
{
}

/// Every call that is given a path in a closed home answers that access is denied, whatever
/// is at the path: `access`, `newfstatat`, `stat`, `chmod`, `chdir`, `getdent64`, `openat`
/// and `rename`, the last one for either of its paths. Only arguments that are wrong in
/// themselves are told before.
pub proof fn lemma_closed_home_is_refused(full: Seq<u8>, home: HomeKnown)
    requires
        !may_enter(full, home),
    ensures
        forall|found: bool, missing: i64| #[trigger]
            there_answer(full, home, found, missing) == failed(EACCES),
        forall|path: Seq<u8>, owner: Option<u32>, uid: u32|
            path.len() > 0 ==> #[trigger] chmod_refusal(path, full, home, owner, uid) == Some(
                failed(EACCES),
            ),
        forall|found: Option<FileType>| #[trigger] chdir_answer(full, home, found) == failed(EACCES),
        forall|buf_ptr: u64, buf_len: usize|
            buf_ptr != 0 && buf_len >= 21 ==> #[trigger] getdent64_refusal(
                buf_ptr,
                buf_len,
                true,
                Some(true),
                full,
                home,
            ) == Some(failed(EACCES)),
        forall|flags: i32, told: OpenTold| #[trigger]
            open_next(full, home, flags, told) == OpenStep::Return(failed(EACCES)),
        forall|w: Seq<u8>, p: Seq<u8>, q: Seq<u8>, other: HomeKnown|
            p.len() > 0 && q.len() > 0 && path_from(w, p) == full && path_from(w, q) != full && full
                != seq![SLASH] && path_from(w, q) != seq![SLASH] ==> #[trigger] rename_step(
                Some(w),
                Some(p),
                Some(q),
                home,
                other,
            ) == RenameStep::Return(failed(EACCES)),
        forall|w: Seq<u8>, p: Seq<u8>, q: Seq<u8>, other: HomeKnown|
            p.len() > 0 && q.len() > 0 && path_from(w, q) == full && path_from(w, p) != full && full
                != seq![SLASH] && path_from(w, p) != seq![SLASH] ==> #[trigger] rename_step(
                Some(w),
                Some(p),
                Some(q),
                other,
                home,
            ) == RenameStep::Return(failed(EACCES)),
{
}

} // verus!
