//! What holds of descriptors and of what programs are told of files.

use crate::bytes::{le_digits, le_value, lemma_le_digits_len, lemma_le_round_trip, pow256};
use crate::errno::{failed, EACCES, EBADF, EEXIST, EISDIR, ENOENT, ENOTDIR};
use crate::proc::process::{
    free_fd, grown, lemma_installed, lemma_lowest_free, slot_of, FdEntry, OpenFileKind, ProcView,
};
use crate::syscall::dirent::{fitting, record, record_len, records};
use crate::syscall::files::{
    install_result, installed, lies_at, masked, open_check, open_next, path_from, pipe_opened, read_way,
    seek_target, seekable, status_of, vector_refusal, write_way, DirKind, NodeInfo, OpenStep, OpenTold,
    ReadPlan, WritePlan,
};
use crate::syscall::pathname::normalized;
use crate::syscall::poll::{answers, flag_if, found, ready_count, PollFd, Readiness};
use crate::syscall::queries::{may_enter, HomeKnown};
use crate::syscall::stat::{blocks_of, told_of, StatOf};
use crate::vfs::{FileType, MetaView, Metadata};
use vstd::prelude::*;

verus! {

/// A call that fails returns its error, negated.
pub proof fn lemma_failure_is_negative(e: i32)
    ensures
        failed(e) + e == 0,
{
}

/// The descriptor that is opened is the lowest free one from the first one asked for; it
/// stands for the file that it was opened for, and all others stand for what they did.
pub proof fn lemma_descriptor_opened(table: Seq<Option<FdEntry>>, min_fd: int, e: FdEntry, k: int)
    requires
        0 <= min_fd,
        table.len() < i32::MAX,
        min_fd < i32::MAX,
    ensures
        ({
            let fd = install_result(table, min_fd) as int;
            let after = installed(table, min_fd, e);
            &&& fd >= min_fd
            &&& slot_of(table, fd) is None
            &&& min_fd <= k < fd ==> slot_of(table, k) is Some
            &&& slot_of(after, fd) == Some(e)
            &&& k != fd ==> slot_of(after, k) == slot_of(table, k)
        }),
{
    let t = grown(table, min_fd);
    let fd = free_fd(t, min_fd);
    lemma_lowest_free(t, min_fd, k);
    lemma_free_range(t, min_fd);
    lemma_installed(t, fd, e, k);
    assert(slot_of(t, k) == slot_of(table, k));
    assert(slot_of(t, fd) == slot_of(table, fd));
}

proof fn lemma_free_range(t: Seq<Option<FdEntry>>, start: int)
    requires
        0 <= start <= t.len(),
    ensures
        start <= free_fd(t, start) <= t.len(),
    decreases t.len() - start,
{
    if start < t.len() && t[start] is Some {
        lemma_free_range(t, start + 1);
    }
}

/// A pipe is opened as two descriptors, the lowest that are free: the first reads it, the
/// second writes it. No other descriptor changes.
pub proof fn lemma_pipe_ends(p: ProcView, read_file: usize, write_file: usize, flags: i32, k: int)
    requires
        p.fd_table.len() < i32::MAX - 2,
    ensures
        ({
            let (r, q) = pipe_opened(p, read_file, write_file, flags);
            let fd_flags: i32 = if flags & 0x8_0000 != 0 {
                1
            } else {
                0
            };
            &&& r matches Ok(ends) && {
                &&& 0 <= ends.0 < ends.1
                &&& slot_of(p.fd_table, ends.0 as int) is None
                &&& slot_of(p.fd_table, ends.1 as int) is None
                &&& slot_of(q.fd_table, ends.0 as int) == Some(FdEntry { file: read_file, fd_flags })
                &&& slot_of(q.fd_table, ends.1 as int) == Some(FdEntry { file: write_file, fd_flags })
                &&& k != ends.0 && k != ends.1 ==> slot_of(q.fd_table, k) == slot_of(p.fd_table, k)
            }
            &&& q == (ProcView { fd_table: q.fd_table, ..p })
        }),
{
    let t = p.fd_table;
    let fd_flags: i32 = if flags & 0x8_0000 != 0 {
        1
    } else {
        0
    };
    let e1 = FdEntry { file: read_file, fd_flags };
    let e2 = FdEntry { file: write_file, fd_flags };
    let t1 = installed(t, 0, e1);
    let a = install_result(t, 0) as int;
    lemma_free_range(grown(t, 0), 0);
    assert(t1.len() <= t.len() + 1);
    let b = install_result(t1, 0) as int;
    lemma_descriptor_opened(t, 0, e1, k);
    lemma_descriptor_opened(t, 0, e1, a);
    lemma_descriptor_opened(t, 0, e1, b);
    lemma_descriptor_opened(t1, 0, e2, k);
    lemma_descriptor_opened(t1, 0, e2, a);
    assert(grown(t, 0) == t);
    assert(0 <= a <= t.len());
    lemma_free_range(grown(t1, 0), 0);
    assert(grown(t1, 0) == t1);
    assert(0 <= b <= t1.len());
    assert(b != a);
    assert(slot_of(t, b) is None);
    assert(a < b);
}

/// An open file is for reading, for writing or for both as it was opened, appends and does
/// not wait if it was so asked, and keeps nothing of how it was to be made.
pub proof fn lemma_status_flags(flags: i32)
    ensures
        status_of(flags) & 3 == flags & 3,
        status_of(flags) & 0x400 == flags & 0x400,
        status_of(flags) & 0x800 == flags & 0x800,
        status_of(flags) & 0x1_0000 == flags & 0x1_0000,
        status_of(flags) & 0x20_0000 == flags & 0x20_0000,
        status_of(flags) & 0x40 == 0,
        status_of(flags) & 0x80 == 0,
        status_of(flags) & 0x200 == 0,
        status_of(flags) & 0x8_0000 == 0,
{
    let s: i32 = (flags & 3) | (flags & (0x400i32 | 0x800i32 | 0x1_0000i32 | 0x20_0000i32));
    assert(s & 3 == flags & 3 && s & 0x400 == flags & 0x400 && s & 0x800 == flags & 0x800 && s
        & 0x1_0000 == flags & 0x1_0000 && s & 0x20_0000 == flags & 0x20_0000 && s & 0x40 == 0 && s
        & 0x80 == 0 && s & 0x200 == 0 && s & 0x8_0000 == 0) by (bit_vector)
        requires
            s == (flags & 3) | (flags & (0x400i32 | 0x800i32 | 0x1_0000i32 | 0x20_0000i32)),
    ;
}

/// A new file has the permissions that were asked for, but for those that the mask of the
/// process holds back; the mask holds back no more than the nine of owner, group and others.
pub proof fn lemma_mask_holds_back(mode: u16, umask: u16, bit: u16)
    requires
        bit < 16,
    ensures
        ((masked(mode as u32, umask) >> bit) & 1 == 1) == ((mode >> bit) & 1 == 1 && bit < 12 && (bit
            >= 9 || (umask >> bit) & 1 == 0)),
{
    let m = mode as u32;
    assert((((((m as u16) & 0o7777u16) & !(umask & 0o777u16)) >> bit) & 1 == 1) == ((mode >> bit) & 1
        == 1 && bit < 12 && (bit >= 9 || (umask >> bit) & 1 == 0))) by (bit_vector)
        requires
            bit < 16,
            m == mode as u32,
    ;
}

/// What is there is not made anew where it must be new, only a directory is opened as one,
/// and no directory is opened to be written. Only a file is emptied, and only one that is
/// opened to be written.
pub proof fn lemma_what_may_be_opened(existed: bool, kind: FileType, flags: i32)
    ensures
        existed && flags & 0x40 != 0 && flags & 0x80 != 0 ==> open_check(existed, kind, flags) == Err::<
            bool,
            i64,
        >(failed(EEXIST)),
        open_check(existed, kind, flags) is Ok && flags & 0x1_0000 != 0 ==> kind == FileType::Dir,
        open_check(existed, kind, flags) is Ok && kind == FileType::Dir ==> flags & 3 != 1 && flags & 3
            != 2,
        open_check(existed, kind, flags) == Ok::<bool, i64>(true) ==> kind == FileType::File && flags
            & 3 != 0 && flags & 0x200 != 0,
        kind == FileType::File && flags & 0x1_0000 == 0 && !(existed && flags & 0x40 != 0 && flags
            & 0x80 != 0) ==> open_check(existed, kind, flags) == Ok::<bool, i64>(
            flags & 0x200 != 0 && flags & 3 != 0,
        ),
{
}

/// Opening a path makes a file only where nothing was found, making was asked for, and there
/// is a directory to hold it; a descriptor is opened only for what was found; nothing is
/// looked up in a home that is closed.
pub proof fn lemma_opening_steps(full: Seq<u8>, home: HomeKnown, flags: i32, told: OpenTold)
    ensures
        ({
            let step = open_next(full, home, flags, told);
            &&& !may_enter(full, home) ==> step == OpenStep::Return(failed(EACCES))
            &&& step == OpenStep::Make ==> {
                &&& told.looked == Some(None::<FileType>)
                &&& flags & 0x40 != 0
                &&& told.parent == Some(Some(FileType::Dir))
            }
            &&& step == OpenStep::Install ==> told.looked is Some && (told.looked->0 is Some || (
            told.again is Some && told.again->0 is Some))
            &&& step == OpenStep::Empty ==> flags & 0x200 != 0
            &&& may_enter(full, home) && told.looked is None ==> step == OpenStep::Look
            &&& may_enter(full, home) && told.looked == Some(None::<FileType>) && flags & 0x40 == 0
                ==> step == OpenStep::Return(failed(ENOENT))
        }),
{
}

/// A file that was opened only to be read is not written; one that appends is written at its
/// end, and another one where it stands.
pub proof fn lemma_where_written(kind: OpenFileKind, status_flags: i32, seek: u64, node: NodeInfo)
    ensures
        ({
            let plan = write_way(kind, status_flags, seek, node);
            &&& status_flags & 3 == 0 <==> plan == WritePlan::Fail(failed(EBADF))
            &&& status_flags & 3 != 0 ==> match kind {
                OpenFileKind::Pipe(_) => plan == (WritePlan::Pipe {
                    nonblock: status_flags & 0x800 != 0,
                }),
                OpenFileKind::Socket(_) => plan == (WritePlan::Socket {
                    nonblock: status_flags & 0x800 != 0,
                }),
                OpenFileKind::MemFd(_) => plan == WritePlan::At(seek),
                OpenFileKind::Vfs(_) => {
                    &&& node.file_type == FileType::File && status_flags & 0x400 != 0 ==> plan
                        == WritePlan::At(node.size)
                    &&& node.file_type == FileType::File && status_flags & 0x400 == 0 ==> plan
                        == WritePlan::At(seek)
                    &&& node.file_type == FileType::BlockDevice ==> plan == WritePlan::At(seek)
                    &&& node.file_type == FileType::CharDevice ==> plan == WritePlan::At(0)
                },
            }
        }),
{
}

/// A file that was opened only to be written is not read, a directory is not read as a file,
/// and any other file is read where it stands. Of the log, what is gone is passed over.
pub proof fn lemma_where_read(
    kind: OpenFileKind,
    status_flags: i32,
    seek: u64,
    file_type: FileType,
    log_start: Option<u64>,
)
    ensures
        ({
            let plan = read_way(kind, status_flags, seek, file_type, log_start);
            &&& status_flags & 3 == 1 ==> plan == ReadPlan::Fail(failed(EBADF))
            &&& status_flags & 3 != 1 ==> match kind {
                OpenFileKind::Pipe(_) => plan == (ReadPlan::Pipe {
                    nonblock: status_flags & 0x800 != 0,
                }),
                OpenFileKind::Socket(_) => plan == (ReadPlan::Socket {
                    nonblock: status_flags & 0x800 != 0,
                }),
                OpenFileKind::MemFd(_) => plan == (ReadPlan::At { place: seek, ask: false }),
                OpenFileKind::Vfs(_) => {
                    &&& file_type == FileType::Dir ==> plan == ReadPlan::Fail(failed(EISDIR))
                    &&& file_type == FileType::File || file_type == FileType::BlockDevice ==> plan
                        == (ReadPlan::At { place: seek, ask: false })
                    &&& file_type == FileType::CharDevice ==> {
                        &&& plan matches ReadPlan::At { place, ask } && {
                            &&& place >= seek
                            &&& log_start matches Some(h) ==> place >= h
                            &&& log_start is None ==> place == seek
                            &&& place == seek || log_start == Some(place)
                            &&& ask == (status_flags & 0x800 != 0)
                        }
                    }
                },
            }
        }),
{
}

/// A seek goes to the place that is given, or to the end; a pipe, a socket and a device have
/// no places.
pub proof fn lemma_seek_goes(seek: u64, size: u64, offset: u64, whence: u8, kind: OpenFileKind, file_type: FileType)
    ensures
        seek_target(seek, size, offset, 0) == Some(offset),
        seek_target(seek, size, offset, 1) == Some(seek),
        seek_target(seek, size, offset, 2) == Some(size),
        whence > 2 ==> seek_target(seek, size, offset, whence) is None,
        kind is Pipe || kind is Socket ==> !seekable(kind, file_type),
        kind is MemFd ==> seekable(kind, file_type),
        kind is Vfs ==> seekable(kind, file_type) == (file_type != FileType::CharDevice),
{
}

/// Reading and writing at a place that is given is refused just where the file was not opened
/// for it, or has no places.
pub proof fn lemma_vector_refused(kind: OpenFileKind, status_flags: i32, file_type: FileType, write: bool)
    ensures
        vector_refusal(kind, status_flags, file_type, write) is None <==> {
            &&& write ==> status_flags & 3 != 0
            &&& !write ==> status_flags & 3 != 1
            &&& kind is MemFd || (kind is Vfs && file_type != FileType::Dir && file_type
                != FileType::CharDevice)
        },
        write && status_flags & 3 == 0 ==> vector_refusal(kind, status_flags, file_type, write) == Some(
            failed(EBADF),
        ),
        !write && status_flags & 3 == 1 ==> vector_refusal(kind, status_flags, file_type, write) == Some(
            failed(EBADF),
        ),
{
}

/// A path that starts at the root means the same from everywhere; another one starts at the
/// directory that it is given with, which must be one.
pub proof fn lemma_where_paths_start(
    dirfd: i32,
    pwd: Seq<u8>,
    dir: DirKind,
    dir_path: Seq<u8>,
    path: Seq<u8>,
)
    ensures
        path.len() > 0 && path[0] == 0x2F ==> lies_at(dirfd, pwd, dir, dir_path, path) == Ok::<
            Seq<u8>,
            i64,
        >(normalized(path)),
        !(path.len() > 0 && path[0] == 0x2F) ==> {
            &&& dirfd == -100 ==> lies_at(dirfd, pwd, dir, dir_path, path) == Ok::<Seq<u8>, i64>(
                path_from(pwd, path),
            )
            &&& dirfd != -100 ==> match dir {
                DirKind::Closed => lies_at(dirfd, pwd, dir, dir_path, path) == Err::<Seq<u8>, i64>(
                    failed(EBADF),
                ),
                DirKind::Other => lies_at(dirfd, pwd, dir, dir_path, path) == Err::<Seq<u8>, i64>(
                    failed(ENOTDIR),
                ),
                DirKind::Directory => lies_at(dirfd, pwd, dir, dir_path, path) == Ok::<Seq<u8>, i64>(
                    path_from(dir_path, path),
                ),
            }
        },
{
}

/// What a program is told of a node is what the node says of itself: its size, its mode, its
/// owner, its number and its times, and as many blocks of 512 bytes as its bytes take.
pub proof fn lemma_stat_tells(m: Metadata, fd: u64, pipe_buf: i64, now: i64)
    requires
        m.size <= i64::MAX - 511,
    ensures
        ({
            let s = told_of(StatOf::Node(&m), fd, pipe_buf, now);
            &&& s.st_size == m.size
            &&& s.st_mode == m.mode
            &&& s.st_uid == m.uid
            &&& s.st_gid == m.gid
            &&& s.st_ino == m.ino
            &&& s.st_nlink == 1
            &&& s.st_blksize == 2048
            &&& s.st_blocks * 512 >= m.size
            &&& s.st_blocks * 512 < m.size + 512
            &&& s.st_atim.tv_sec == m.access_time
            &&& s.st_mtim.tv_sec == m.modified_time
            &&& s.st_ctim.tv_sec == m.created_time
            &&& s.st_atim.tv_nsec == 0
            &&& s.st_mtim.tv_nsec == 0
            &&& s.st_ctim.tv_nsec == 0
        }),
{
    assert(blocks_of(m.size as int) <= m.size + 511);
}

/// A pipe and a socket are told apart by their modes, and have nothing in them that counts.
pub proof fn lemma_stat_of_others(id: u64, fd: u64, pipe_buf: i64, now: i64)
    ensures
        ({
            let p = told_of(StatOf::Pipe(id), fd, pipe_buf, now);
            let s = told_of(StatOf::Socket, fd, pipe_buf, now);
            &&& p.st_mode & 0o170000 == 0o010000
            &&& s.st_mode & 0o170000 == 0o140000
            &&& p.st_ino == id
            &&& s.st_ino == fd
            &&& p.st_size == 0
            &&& s.st_size == 0
            &&& p.st_nlink == 1
            &&& s.st_nlink == 1
            &&& p.st_blksize == pipe_buf
            &&& s.st_blksize == 4096
            &&& p.st_mtim.tv_sec == now
            &&& s.st_mtim.tv_sec == now
        }),
{
    assert(0x1180u32 & 0o170000 == 0o010000 && 0xC1FFu32 & 0o170000 == 0o140000) by (bit_vector);
}

/// The record of an entry can be read back: its number, where the next one is, its length,
/// what it is, and its name, with a zero behind it.
pub proof fn lemma_record_read_back(e: MetaView, next: int)
    requires
        0 <= next <= u64::MAX,
        e.name.len() <= 65508,
    ensures
        ({
            let r = record(e, next);
            let n = e.name.len() as int;
            &&& le_value(r.subrange(0, 8)) == e.ino
            &&& le_value(r.subrange(8, 16)) == next
            &&& le_value(r.subrange(16, 18)) == r.len()
            &&& r[18] == match e.file_type {
                FileType::Dir => 4u8,
                FileType::File => 8u8,
                FileType::CharDevice => 2u8,
                FileType::BlockDevice => 6u8,
                FileType::Socket => 12u8,
            }
            &&& r.subrange(19, 19 + n) == e.name
            &&& r[19 + n] == 0
            &&& r.len() >= 20 + n
            &&& r.len() < 28 + n
        }),
{
    let r = record(e, next);
    let n = e.name.len() as int;
    let len = record_len(n);
    lemma_le_digits_len(e.ino as nat, 8);
    lemma_le_digits_len(next as nat, 8);
    lemma_le_digits_len(len as nat, 2);
    reveal_with_fuel(pow256, 9);
    lemma_le_round_trip(e.ino as nat, 8);
    lemma_le_round_trip(next as nat, 8);
    lemma_le_round_trip(len as nat, 2);
    assert(20 + n <= len < 28 + n);
    assert(r.len() == len);
    assert(r.subrange(0, 8) =~= le_digits(e.ino as nat, 8));
    assert(r.subrange(8, 16) =~= le_digits(next as nat, 8));
    assert(r.subrange(16, 18) =~= le_digits(len as nat, 2));
    assert(r.subrange(19, 19 + n) =~= e.name);
}

/// As many entries are handed out at once as there is room for, in their order, one behind
/// the other; where not all are, the next one does not fit.
pub proof fn lemma_entries_fit(es: Seq<MetaView>, i: int, room: int)
    requires
        0 <= i <= es.len(),
        0 <= room,
    ensures
        ({
            let n = fitting(es, i, room);
            &&& 0 <= n <= es.len() - i
            &&& records(es, i, n).len() <= room
            &&& i + n < es.len() ==> records(es, i, n).len() + record_len(
                es[i + n].name.len() as int,
            ) > room
        }),
    decreases es.len() - i,
{
    let n = fitting(es, i, room);
    if i < es.len() && record_len(es[i].name.len() as int) <= room {
        let len = record_len(es[i].name.len() as int);
        lemma_entries_fit(es, i + 1, room - len);
        lemma_records_from(es, i, n);
        crate::syscall::dirent::lemma_record_aligned(es[i], i + 1);
    }
}

proof fn lemma_records_from(es: Seq<MetaView>, i: int, n: int)
    requires
        0 <= i,
        1 <= n,
        i + n <= es.len(),
    ensures
        records(es, i, n).len() == record(es[i], i + 1).len() + records(es, i + 1, n - 1).len(),
    decreases n,
{
    if n > 1 {
        lemma_records_from(es, i, n - 1);
    } else {
        assert(records(es, i, 0).len() == 0);
    }
}

/// What is found of a descriptor: nothing that was not asked for, but that it is closed or
/// that something is wrong with it.
pub proof fn lemma_found_is_asked(events: i16, r: Readiness)
    ensures
        ({
            let f = found(events, r);
            &&& r is Closed ==> f == 0x20
            &&& !(r is Closed) && events & 1 == 0 ==> f & 1 == 0
            &&& !(r is Closed) && events & 4 == 0 ==> f & 4 == 0
            &&& r matches Readiness::End(e) ==> {
                &&& f & 1 != 0 <==> events & 1 != 0 && e.readable
                &&& f & 4 != 0 <==> events & 4 != 0 && e.writable
                &&& f & 0x10 != 0 <==> e.hangup
                &&& f & 8 != 0 <==> e.error
            }
            &&& r matches Readiness::Net { readable, writable } ==> {
                &&& f & 1 != 0 <==> events & 1 != 0 && readable
                &&& f & 4 != 0 <==> events & 4 != 0 && writable
            }
            &&& r matches Readiness::Node { input, status_flags } ==> {
                &&& f & 1 != 0 <==> events & 1 != 0 && input == Some(true)
                &&& f & 4 != 0 <==> events & 4 != 0 && status_flags & 3 != 0
            }
            &&& r matches Readiness::Memory { status_flags } ==> {
                &&& f & 1 != 0 <==> events & 1 != 0
                &&& f & 4 != 0 <==> events & 4 != 0 && status_flags & 3 != 0
            }
        }),
{
    let want_in = events & 1 != 0;
    let want_out = events & 4 != 0;
    match r {
        Readiness::Closed => {},
        Readiness::End(e) => {
            lemma_four_flags(
                flag_if(want_in && e.readable, 1),
                flag_if(want_out && e.writable, 4),
                flag_if(e.hangup, 0x10),
                flag_if(e.error, 8),
            );
        },
        Readiness::Net { readable, writable } => {
            lemma_two_flags(flag_if(want_in && readable, 1), flag_if(want_out && writable, 4));
        },
        Readiness::Node { input, status_flags } => {
            lemma_two_flags(
                if !want_in {
                    0
                } else {
                    match input {
                        Some(true) => 1,
                        Some(false) => 0,
                        None => 8,
                    }
                },
                flag_if(want_out && status_flags & 3 != 0, 4),
            );
        },
        Readiness::Memory { status_flags } => {
            lemma_two_flags(flag_if(want_in, 1), flag_if(want_out && status_flags & 3 != 0, 4));
        },
    }
}

proof fn lemma_two_flags(a: i16, b: i16)
    requires
        a == 0 || a == 1 || a == 8,
        b == 0 || b == 4,
    ensures
        ((a | b) & 1 != 0) == (a == 1),
        ((a | b) & 4 != 0) == (b == 4),
{
    assert((((a | b) & 1 != 0) == (a == 1)) && (((a | b) & 4 != 0) == (b == 4))) by (bit_vector)
        requires
            a == 0 || a == 1 || a == 8,
            b == 0 || b == 4,
    ;
}

proof fn lemma_four_flags(a: i16, b: i16, c: i16, d: i16)
    requires
        a == 0 || a == 1,
        b == 0 || b == 4,
        c == 0 || c == 0x10,
        d == 0 || d == 8,
    ensures
        ((((a | b) | c) | d) & 1 != 0) == (a == 1),
        ((((a | b) | c) | d) & 4 != 0) == (b == 4),
        ((((a | b) | c) | d) & 0x10 != 0) == (c == 0x10),
        ((((a | b) | c) | d) & 8 != 0) == (d == 8),
{
    let f = ((a | b) | c) | d;
    assert(((f & 1 != 0) == (a == 1)) && ((f & 4 != 0) == (b == 4)) && ((f & 0x10 != 0) == (c == 0x10))
        && ((f & 8 != 0) == (d == 8))) by (bit_vector)
        requires
            f == ((a | b) | c) | d,
            a == 0 || a == 1,
            b == 0 || b == 4,
            c == 0 || c == 0x10,
            d == 0 || d == 8,
    ;
}

/// Polling keeps what each descriptor is asked for, passes over those that are negative, and
/// counts those that something was found of.
pub proof fn lemma_poll_answers(fds: Seq<PollFd>, rs: Seq<Readiness>, i: int)
    requires
        fds.len() == rs.len(),
        0 <= i < fds.len(),
    ensures
        ({
            let a = answers(fds, rs);
            &&& a.len() == fds.len()
            &&& a[i].fd == fds[i].fd
            &&& a[i].events == fds[i].events
            &&& fds[i].fd < 0 ==> a[i].revents == 0
            &&& fds[i].fd >= 0 ==> a[i].revents == found(fds[i].events, rs[i])
            &&& 0 <= ready_count(a) <= a.len()
            &&& (ready_count(a) == 0) == (forall|k: int|
                0 <= k < a.len() ==> (#[trigger] a[k]).revents == 0)
        }),
{
    lemma_ready_count(answers(fds, rs));
}

proof fn lemma_ready_count(a: Seq<PollFd>)
    ensures
        0 <= ready_count(a) <= a.len(),
        (ready_count(a) == 0) == (forall|k: int| 0 <= k < a.len() ==> (#[trigger] a[k]).revents == 0),
    decreases a.len(),
{
    if a.len() > 0 {
        let front = a.drop_last();
        lemma_ready_count(front);
        if ready_count(a) == 0 {
            assert forall|k: int| 0 <= k < a.len() implies (#[trigger] a[k]).revents == 0 by {
                if k < front.len() {
                    assert(front[k].revents == 0);
                }
            }
        } else {
            if forall|k: int| 0 <= k < a.len() ==> (#[trigger] a[k]).revents == 0 {
                assert(a[a.len() - 1].revents == 0);
                assert forall|k: int| 0 <= k < front.len() implies (#[trigger] front[k]).revents
                    == 0 by {
                    assert(a[k].revents == 0);
                }
            }
        }
    }
}

} // verus!
