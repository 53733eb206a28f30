//! Directory entries as programs read them.

use crate::bytes::{le_digits, lemma_le_digits_len, push_all, push_le, push_repeat};
use crate::errno::{fail, failed, EACCES, EBADF, EFAULT, EINVAL, EIO, ENOTDIR, ESRCH};
use crate::proc::mem::up;
use crate::proc::process::OpenFile;
use crate::syscall::queries::{enter, may_enter, HomeKnown};
use crate::vfs::{FileType, MetaView, Metadata};
use vstd::prelude::*;

verus! {

/// Bytes of a record before the name.
pub const DIRENT_HEADER: usize = 19;

/// The longest name that a record can hold.
pub const MAX_NAME: usize = 65_508;

/// How a record says what an entry is.
pub open spec fn type_code(ft: FileType) -> u8 {
    match ft {
        FileType::Dir => 4,
        FileType::File => 8,
        FileType::CharDevice => 2,
        FileType::BlockDevice => 6,
        FileType::Socket => 12,
    }
}

pub fn dt_from_filetype(ft: FileType) -> (r: u8)
    ensures
        r == type_code(ft),
{
    match ft {
        FileType::Dir => 4,
        FileType::File => 8,
        FileType::CharDevice => 2,
        FileType::BlockDevice => 6,
        FileType::Socket => 12,
    }
}

/// The bytes of a record with a name of `n` bytes: with a zero behind the name, filled
/// up to a multiple of eight.
pub open spec fn record_len(n: int) -> int {
    up(20 + n, 8)
}

pub fn dirent64_reclen(name_len: usize) -> (r: u16)
    requires
        name_len <= MAX_NAME,
    ensures
        r == record_len(name_len as int),
{
    let need: usize = DIRENT_HEADER + name_len + 1;
    ((need + 7) / 8 * 8) as u16
}

/// The record of an entry; `next` is the place of the entry behind it.
pub open spec fn record(e: MetaView, next: int) -> Seq<u8> {
    le_digits(e.ino as nat, 8) + le_digits(next as nat, 8) + le_digits(
        record_len(e.name.len() as int) as nat,
        2,
    ) + seq![type_code(e.file_type)] + e.name + Seq::new(
        (record_len(e.name.len() as int) - 19 - e.name.len()) as nat,
        |i: int| 0u8,
    )
}

/// How many entries from `i` on fit into `room` bytes.
pub open spec fn fitting(es: Seq<MetaView>, i: int, room: int) -> int
    decreases es.len() - i,
{
    if i < 0 || i >= es.len() || record_len(es[i].name.len() as int) > room {
        0
    } else {
        1 + fitting(es, i + 1, room - record_len(es[i].name.len() as int))
    }
}

/// The records of `n` entries from `i` on.
pub open spec fn records(es: Seq<MetaView>, i: int, n: int) -> Seq<u8>
    decreases n,
{
    if n <= 0 {
        Seq::<u8>::empty()
    } else {
        records(es, i, n - 1) + record(es[i + n - 1], i + n)
    }
}

fn push_record(out: &mut Vec<u8>, e: &Metadata, next: u64)
    requires
        e.name@.len() <= MAX_NAME,
        old(out)@.len() + record_len(e.name@.len() as int) <= usize::MAX,
    ensures
        final(out)@ == old(out)@ + record(e@, next as int),
        final(out)@.len() == old(out)@.len() + record_len(e.name@.len() as int),
{
    let ghost start = out@;
    let len: usize = e.name.len();
    let reclen: u16 = dirent64_reclen(len);
    proof {
        lemma_le_digits_len(e.ino as nat, 8);
        lemma_le_digits_len(next as nat, 8);
        lemma_le_digits_len(reclen as nat, 2);
    }
    push_le(out, e.ino as u64, 8);
    push_le(out, next, 8);
    push_le(out, reclen as u64, 2);
    out.push(dt_from_filetype(e.file_type));
    push_all(out, &e.name);
    push_repeat(out, 0, reclen as usize - DIRENT_HEADER - len);
    proof {
        assert(out@ =~= start + record(e@, next as int));
    }
}

/// Why the entries of a directory cannot be asked for, if they cannot. `caller` says whether
/// there is a process that calls, `open_dir` whether its descriptor is a directory, where it
/// is open, and `path` is the path of the open file.
pub open spec fn getdent64_refusal(
    buf_ptr: u64,
    buf_len: usize,
    caller: bool,
    open_dir: Option<bool>,
    path: Seq<u8>,
    home: HomeKnown,
) -> Option<i64> {
    if buf_ptr == 0 {
        Some(failed(EFAULT))
    } else if buf_len < 21 {
        Some(failed(EINVAL))
    } else if !caller {
        Some(failed(ESRCH))
    } else {
        match open_dir {
            None => Some(failed(EBADF)),
            Some(false) => Some(failed(ENOTDIR)),
            Some(true) => if !may_enter(path, home) {
                Some(failed(EACCES))
            } else {
                None
            },
        }
    }
}

/// Whether the entries of a directory can be asked for: None says that they can.
pub fn getdent64_check(
    buf_ptr: u64,
    buf_len: usize,
    caller: bool,
    open_dir: Option<bool>,
    path: &[u8],
    home: HomeKnown,
) -> (r: Option<i64>)
    ensures
        r == getdent64_refusal(buf_ptr, buf_len, caller, open_dir, path@, home),
{
    if buf_ptr == 0 {
        return Some(fail(EFAULT));
    }
    if buf_len < DIRENT_HEADER + 2 {
        return Some(fail(EINVAL));
    }
    if !caller {
        return Some(fail(ESRCH));
    }
    match open_dir {
        None => Some(fail(EBADF)),
        Some(d) => if !d {
            Some(fail(ENOTDIR))
        } else if !enter(path, home) {
            Some(fail(EACCES))
        } else {
            None
        },
    }
}

/// Finishes `getdent64`: what the call returns, and what is written to the program. The place
/// in the open file moves on. `entries` are those of the directory, None where it could not
/// be listed.
pub fn getdent64_done(file: &mut OpenFile, entries: Option<&Vec<Metadata>>, buf_len: usize) -> (r: (
    i64,
    Vec<u8>,
))
    requires
        entries matches Some(es) ==> forall|i: int|
            0 <= i < es@.len() ==> (#[trigger] es@[i]).name@.len() <= MAX_NAME,
        buf_len <= i64::MAX,
        old(file).seek <= usize::MAX,
    ensures
        match entries {
            None => r.0 == failed(EIO) && r.1@.len() == 0 && *final(file) == *old(file),
            Some(v) => {
                let es = crate::vfs::meta_views(v@);
                let seek = old(file).seek as int;
                let n = fitting(es, seek, buf_len as int);
                &&& r.1@ == records(es, seek, n)
                &&& r.0 == r.1@.len()
                &&& *final(file) == (OpenFile { seek: (seek + n) as u64, ..*old(file) })
            },
        },
{
    match entries {
        None => (fail(EIO), Vec::new()),
        Some(v) => {
            let (out, next): (Vec<u8>, usize) = getdent64(v, file.seek as usize, buf_len);
            file.seek = next as u64;
            (out.len() as i64, out)
        },
    }
}

/// The records of the entries from `seek` on, as many as fit into `buf_len` bytes, and
/// the place of the first entry that did not.
pub fn getdent64(entries: &Vec<Metadata>, seek: usize, buf_len: usize) -> (r: (Vec<u8>, usize))
    requires
        forall|i: int| 0 <= i < entries@.len() ==> (#[trigger] entries@[i]).name@.len() <= MAX_NAME,
    ensures
        ({
            let es = crate::vfs::meta_views(entries@);
            let n = fitting(es, seek as int, buf_len as int);
            &&& r.0@ == records(es, seek as int, n)
            &&& r.0@.len() <= buf_len
            &&& r.1 == seek + n
        }),
{
    let ghost es = crate::vfs::meta_views(entries@);
    let mut out: Vec<u8> = Vec::new();
    let mut i: usize = seek;
    let ghost all = fitting(es, seek as int, buf_len as int);
    let len: usize = entries.len();
    proof {
        lemma_fitting(es, seek as int, buf_len as int);
        assert(out@ =~= records(es, seek as int, 0));
    }
    while i < len
        invariant_except_break
            all == (i - seek) + fitting(es, i as int, buf_len - out@.len()),
        invariant
            es == crate::vfs::meta_views(entries@),
            len == entries@.len(),
            seek <= i,
            i <= len || i == seek,
            all == fitting(es, seek as int, buf_len as int),
            forall|k: int|
                0 <= k < entries@.len() ==> (#[trigger] entries@[k]).name@.len() <= MAX_NAME,
            out@.len() <= buf_len,
            out@ == records(es, seek as int, i - seek),
        ensures
            all == i - seek,
        decreases len - i,
    {
        let need: usize = dirent64_reclen(entries[i].name.len()) as usize;
        proof {
            assert(es[i as int] == entries@[i as int]@);
        }
        if need > buf_len - out.len() {
            break;
        }
        let ghost before = out@;
        push_record(&mut out, &entries[i], i as u64 + 1);
        proof {
            assert(out@ =~= records(es, seek as int, i + 1 - seek));
        }
        i = i + 1;
    }
    (out, i)
}

proof fn lemma_fitting(es: Seq<MetaView>, i: int, room: int)
    requires
        i >= 0,
    ensures
        0 <= fitting(es, i, room),
        i <= es.len() ==> fitting(es, i, room) <= es.len() - i,
        i >= es.len() ==> fitting(es, i, room) == 0,
    decreases es.len() - i,
{
    if i < es.len() && record_len(es[i].name.len() as int) <= room {
        lemma_fitting(es, i + 1, room - record_len(es[i].name.len() as int));
    }
}

/// Records start at multiples of eight.
pub proof fn lemma_record_aligned(e: MetaView, next: int)
    ensures
        record(e, next).len() == record_len(e.name.len() as int),
        record(e, next).len() % 8 == 0,
{
    lemma_le_digits_len(e.ino as nat, 8);
    lemma_le_digits_len(next as nat, 8);
    lemma_le_digits_len(record_len(e.name.len() as int) as nat, 2);
}

} // verus!
