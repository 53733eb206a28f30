//! Reading and writing several pieces of memory in one call.

use crate::errno::{fail, failed, EBADF, EFAULT, EINVAL, EIO, ESRCH};
use crate::proc::process::OpenFileKind;
use crate::syscall::files::{vector_check, vector_refusal};
use crate::vfs::FileType;
use vstd::prelude::*;

verus! {

/// A piece of memory.
#[derive(Debug, Clone, Copy, PartialEq, Eq, Structural)]
pub struct Iovec {
    pub iov_base: u64,
    pub iov_len: u64,
}

/// The bytes of all pieces.
pub open spec fn total_len(iov: Seq<Iovec>) -> int
    decreases iov.len(),
{
    if iov.len() == 0 {
        0
    } else {
        total_len(iov.drop_last()) + iov.last().iov_len
    }
}

/// Whether a piece that is not empty is nowhere.
pub open spec fn has_hole(iov: Seq<Iovec>) -> bool {
    exists|i: int| 0 <= i < iov.len() && (#[trigger] iov[i]).iov_len != 0 && iov[i].iov_base == 0
}

/// What becomes of a call on several pieces.
#[derive(Debug, Clone, Copy, PartialEq, Eq, Structural)]
pub enum VectorPlan {
    Return(i64),
    /// So many bytes are to be moved.
    Move(u64),
}

proof fn lemma_total(iov: Seq<Iovec>, i: int)
    requires
        0 <= i <= iov.len(),
    ensures
        0 <= total_len(iov.take(i)) <= total_len(iov),
        i < iov.len() ==> total_len(iov.take(i + 1)) == total_len(iov.take(i)) + iov[i].iov_len,
    decreases iov.len(),
{
    if i < iov.len() {
        assert(iov.take(i + 1).drop_last() =~= iov.take(i));
        lemma_total(iov.drop_last(), i);
        assert(iov.drop_last().take(i) =~= iov.take(i));
    } else {
        assert(iov.take(i) =~= iov);
        if iov.len() > 0 {
            lemma_total(iov.drop_last(), iov.len() - 1);
            assert(iov.drop_last().take(iov.len() - 1) =~= iov.drop_last());
        }
    }
}

fn sum(iov: &Vec<Iovec>) -> (r: Option<u64>)
    ensures
        match r {
            Some(n) => n == total_len(iov@),
            None => total_len(iov@) > u64::MAX,
        },
{
    let mut n: u64 = 0;
    let mut i: usize = 0;
    proof {
        assert(iov@.take(0).len() == 0);
    }
    while i < iov.len()
        invariant
            i <= iov@.len(),
            n == total_len(iov@.take(i as int)),
        decreases iov@.len() - i,
    {
        proof {
            lemma_total(iov@, i as int);
            lemma_total(iov@, i + 1);
        }
        if iov[i].iov_len > u64::MAX - n {
            return None;
        }
        n = n + iov[i].iov_len;
        i = i + 1;
    }
    proof {
        assert(iov@.take(i as int) =~= iov@);
    }
    Some(n)
}

/// The pieces that a call is given: `count` of them, None standing for a list that is
/// nowhere. Such a list is one of no pieces where none are asked for.
pub open spec fn given(count: int, iov: Option<&Vec<Iovec>>) -> Seq<Iovec> {
    match iov {
        Some(v) if count > 0 => v@,
        _ => Seq::<Iovec>::empty(),
    }
}

/// What becomes of a call that moves all pieces at once; where `whole` is said, no piece of
/// them may be nowhere.
pub open spec fn vector_plan(iov: Seq<Iovec>, whole: bool) -> VectorPlan {
    if total_len(iov) > u64::MAX {
        VectorPlan::Return(failed(EINVAL))
    } else if total_len(iov) == 0 {
        VectorPlan::Return(0)
    } else if whole && has_hole(iov) {
        VectorPlan::Return(failed(EFAULT))
    } else {
        VectorPlan::Move(total_len(iov) as u64)
    }
}

fn plan_pieces(iov: &Vec<Iovec>, whole: bool) -> (r: VectorPlan)
    ensures
        r == vector_plan(iov@, whole),
{
    let n: u64 = match sum(iov) {
        Some(n) => n,
        None => return VectorPlan::Return(fail(EINVAL)),
    };
    if n == 0 {
        return VectorPlan::Return(0);
    }
    if !whole {
        return VectorPlan::Move(n);
    }
    let mut i: usize = 0;
    while i < iov.len()
        invariant
            i <= iov@.len(),
            n == total_len(iov@),
            n > 0,
            whole,
            forall|k: int| 0 <= k < i ==> !((#[trigger] iov@[k]).iov_len != 0 && iov@[k].iov_base == 0),
        decreases iov@.len() - i,
    {
        if iov[i].iov_len != 0 && iov[i].iov_base == 0 {
            return VectorPlan::Return(fail(EFAULT));
        }
        i = i + 1;
    }
    VectorPlan::Move(n)
}

/// Starts `writev`: how much of the pieces, put together, is to be written.
pub fn writev(iovcnt: i32, iov: Option<&Vec<Iovec>>) -> (r: VectorPlan)
    requires
        iovcnt > 0 && iov is Some ==> iov->0@.len() == iovcnt,
    ensures
        r == if iovcnt < 0 {
            VectorPlan::Return(failed(EINVAL))
        } else if iovcnt > 0 && iov is None {
            VectorPlan::Return(failed(EFAULT))
        } else {
            vector_plan(given(iovcnt as int, iov), true)
        },
{
    if iovcnt < 0 {
        return VectorPlan::Return(fail(EINVAL));
    }
    if iovcnt == 0 {
        return VectorPlan::Return(0);
    }
    match iov {
        Some(v) => plan_pieces(v, true),
        None => VectorPlan::Return(fail(EFAULT)),
    }
}

/// Starts `readv`: how much is to be read for the pieces.
pub fn readv(iov_count: u64, iov: Option<&Vec<Iovec>>) -> (r: VectorPlan)
    requires
        iov_count > 0 && iov is Some ==> iov->0@.len() == iov_count,
    ensures
        r == if iov_count > 0 && iov is None {
            VectorPlan::Return(failed(EFAULT))
        } else {
            vector_plan(given(iov_count as int, iov), false)
        },
{
    if iov_count == 0 {
        return VectorPlan::Return(0);
    }
    match iov {
        Some(v) => plan_pieces(v, false),
        None => VectorPlan::Return(fail(EFAULT)),
    }
}

/// Bytes that go to one piece of memory.
#[derive(Debug, Clone, Copy, PartialEq, Eq, Structural)]
pub struct Part {
    pub base: u64,
    pub from: u64,
    pub count: u64,
}

/// How `n` bytes go to the pieces from `i` on, the first of them byte `from`. None where
/// a piece that bytes go to is nowhere.
pub open spec fn scattered(iov: Seq<Iovec>, i: int, from: u64, n: u64) -> Option<Seq<Part>>
    decreases iov.len() - i,
{
    if i < 0 || i >= iov.len() || from >= n {
        Some(Seq::<Part>::empty())
    } else if iov[i].iov_len == 0 {
        scattered(iov, i + 1, from, n)
    } else if iov[i].iov_base == 0 {
        None
    } else {
        let left = (n - from) as u64;
        let count = if iov[i].iov_len < left {
            iov[i].iov_len
        } else {
            left
        };
        match scattered(iov, i + 1, (from + count) as u64, n) {
            Some(rest) => Some(seq![Part { base: iov[i].iov_base, from, count }] + rest),
            None => None,
        }
    }
}

/// Finishes `readv`: where the `n` bytes that were read go.
pub fn readv_parts(iov: &Vec<Iovec>, n: u64) -> (r: Result<Vec<Part>, i64>)
    ensures
        match r {
            Ok(v) => scattered(iov@, 0, 0, n) == Some(v@),
            Err(e) => scattered(iov@, 0, 0, n) is None && e == failed(EFAULT),
        },
{
    let mut out: Vec<Part> = Vec::new();
    let mut i: usize = 0;
    let mut from: u64 = 0;
    let ghost all = scattered(iov@, 0, 0, n);
    while i < iov.len() && from < n
        invariant
            i <= iov@.len(),
            from <= n,
            all == scattered(iov@, 0, 0, n),
            match scattered(iov@, i as int, from, n) {
                Some(rest) => all == Some(out@ + rest),
                None => all is None,
            },
        decreases iov@.len() - i,
    {
        let item: Iovec = iov[i];
        if item.iov_len != 0 {
            if item.iov_base == 0 {
                return Err(fail(EFAULT));
            }
            let count: u64 = if item.iov_len < n - from {
                item.iov_len
            } else {
                n - from
            };
            let ghost before = out@;
            out.push(Part { base: item.iov_base, from, count });
            proof {
                match scattered(iov@, i + 1, (from + count) as u64, n) {
                    Some(rest) => {
                        assert(before + (seq![Part { base: item.iov_base, from, count }] + rest)
                            =~= out@ + rest);
                    },
                    None => {},
                }
            }
            from = from + count;
        }
        i = i + 1;
    }
    proof {
        assert(out@ + Seq::<Part>::empty() =~= out@);
    }
    Ok(out)
}

/// What a call at a given place does next.
#[derive(Debug, Clone, Copy, PartialEq, Eq, Structural)]
pub enum VectorStep {
    Return(i64),
    /// Piece `index` is to be moved at `place` of the file.
    Move { index: usize, place: u64 },
}

pub open spec fn no_more(n: int) -> u64 {
    if n > u64::MAX {
        u64::MAX
    } else {
        n as u64
    }
}

/// What a call at `offset` does after `outs` came of its moves: the pieces from `i` on
/// are left, with the outcomes from `k` on, and `total` bytes were moved before. A piece
/// that was not filled is the last one.
pub open spec fn vector_next(
    iov: Seq<Iovec>,
    outs: Seq<Option<u64>>,
    offset: u64,
    i: int,
    k: int,
    total: u64,
) -> VectorStep
    decreases iov.len() - i,
{
    if i < 0 || i >= iov.len() {
        VectorStep::Return(total as i64)
    } else if iov[i].iov_len == 0 {
        vector_next(iov, outs, offset, i + 1, k, total)
    } else if iov[i].iov_base == 0 {
        VectorStep::Return(failed(EFAULT))
    } else if k >= outs.len() {
        VectorStep::Move { index: i as usize, place: no_more(offset + total) }
    } else {
        match outs[k] {
            None => VectorStep::Return(failed(EIO)),
            Some(n) => if n < iov[i].iov_len {
                VectorStep::Return(no_more(total + n) as i64)
            } else {
                vector_next(iov, outs, offset, i + 1, k + 1, no_more(total + n))
            },
        }
    }
}

/// The next move of `preadv` or `pwritev`, after the outcomes `outs` of those before.
fn vector_step(iov: &Vec<Iovec>, outs: &Vec<Option<u64>>, offset: u64) -> (r: VectorStep)
    ensures
        r == vector_next(iov@, outs@, offset, 0, 0, 0),
{
    let mut i: usize = 0;
    let mut k: usize = 0;
    let mut total: u64 = 0;
    while i < iov.len()
        invariant
            i <= iov@.len(),
            k <= outs@.len(),
            vector_next(iov@, outs@, offset, 0, 0, 0) == vector_next(
                iov@,
                outs@,
                offset,
                i as int,
                k as int,
                total,
            ),
        decreases iov@.len() - i,
    {
        let item: Iovec = iov[i];
        if item.iov_len != 0 {
            if item.iov_base == 0 {
                return VectorStep::Return(fail(EFAULT));
            }
            if k >= outs.len() {
                let place: u64 = if offset > u64::MAX - total {
                    u64::MAX
                } else {
                    offset + total
                };
                return VectorStep::Move { index: i, place };
            }
            match outs[k] {
                None => return VectorStep::Return(fail(EIO)),
                Some(n) => {
                    total =
                    if total > u64::MAX - n {
                        u64::MAX
                    } else {
                        total + n
                    };
                    if n < item.iov_len {
                        return VectorStep::Return(#[verifier::truncate]
                        (total as i64));
                    }
                    k = k + 1;
                },
            }
        }
        i = i + 1;
    }
    VectorStep::Return(#[verifier::truncate]
    (total as i64))
}

/// What is known of the open file that a descriptor stands for.
#[derive(Debug, Clone, Copy, PartialEq, Eq, Structural)]
pub struct FileAt {
    pub kind: OpenFileKind,
    pub status_flags: i32,
    pub file_type: FileType,
}

/// What `preadv` and `pwritev` do next, after the outcomes `outs` of their moves. `caller`
/// says whether there is a process that calls, and `file` is what its descriptor stands for.
pub open spec fn vector_answer(
    iov_count: u64,
    iov: Option<&Vec<Iovec>>,
    caller: bool,
    file: Option<FileAt>,
    outs: Seq<Option<u64>>,
    offset: u64,
    write: bool,
) -> VectorStep {
    if iov_count == 0 {
        VectorStep::Return(0)
    } else if iov is None {
        VectorStep::Return(failed(EFAULT))
    } else if !caller {
        VectorStep::Return(failed(ESRCH))
    } else {
        match file {
            None => VectorStep::Return(failed(EBADF)),
            Some(f) => match vector_refusal(f.kind, f.status_flags, f.file_type, write) {
                Some(e) => VectorStep::Return(e),
                None => vector_next(given(iov_count as int, iov), outs, offset, 0, 0, 0),
            },
        }
    }
}

fn vector_call(
    iov_count: u64,
    iov: Option<&Vec<Iovec>>,
    caller: bool,
    file: Option<FileAt>,
    outs: &Vec<Option<u64>>,
    offset: u64,
    write: bool,
) -> (r: VectorStep)
    ensures
        r == vector_answer(iov_count, iov, caller, file, outs@, offset, write),
{
    if iov_count == 0 {
        return VectorStep::Return(0);
    }
    let v: &Vec<Iovec> = match iov {
        Some(v) => v,
        None => return VectorStep::Return(fail(EFAULT)),
    };
    if !caller {
        return VectorStep::Return(fail(ESRCH));
    }
    match file {
        None => VectorStep::Return(fail(EBADF)),
        Some(f) => match vector_check(f.kind, f.status_flags, f.file_type, write) {
            Some(e) => VectorStep::Return(e),
            None => vector_step(v, outs, offset),
        },
    }
}

/// The next step of `preadv`: each piece is read at its place of the file.
pub fn preadv(
    iov_count: u64,
    iov: Option<&Vec<Iovec>>,
    caller: bool,
    file: Option<FileAt>,
    outs: &Vec<Option<u64>>,
    offset: u64,
) -> (r: VectorStep)
    requires
        iov_count > 0 && iov is Some ==> iov->0@.len() == iov_count,
    ensures
        r == vector_answer(iov_count, iov, caller, file, outs@, offset, false),
{
    vector_call(iov_count, iov, caller, file, outs, offset, false)
}

/// The next step of `pwritev`: each piece is written at its place of the file.
pub fn pwritev(
    iov_count: u64,
    iov: Option<&Vec<Iovec>>,
    caller: bool,
    file: Option<FileAt>,
    outs: &Vec<Option<u64>>,
    offset: u64,
) -> (r: VectorStep)
    requires
        iov_count > 0 && iov is Some ==> iov->0@.len() == iov_count,
    ensures
        r == vector_answer(iov_count, iov, caller, file, outs@, offset, true),
{
    vector_call(iov_count, iov, caller, file, outs, offset, true)
}

} // verus!
