//! What programs are told about files and file systems.

use crate::errno::{fail, failed, EBADF, EFAULT, ESRCH};
use crate::syscall::time::Timespec;
use crate::vfs::{FsStats, Metadata};
use vstd::prelude::*;

verus! {

/// The attributes of a file, as programs see them.
#[derive(Debug, Clone, Copy, PartialEq, Eq, Structural)]
pub struct Stat {
    pub st_dev: u64,
    pub st_ino: u64,
    pub st_nlink: u64,
    pub st_mode: u32,
    pub st_uid: u32,
    pub st_gid: u32,
    pub st_rdev: u64,
    pub st_size: i64,
    pub st_blksize: i64,
    pub st_blocks: i64,
    pub st_atim: Timespec,
    pub st_mtim: Timespec,
    pub st_ctim: Timespec,
}

pub open spec fn seconds(s: int) -> Timespec {
    Timespec { tv_sec: s as i64, tv_nsec: 0 }
}

/// Attributes of which nothing is known.
pub open spec fn blank_stat() -> Stat {
    Stat {
        st_dev: 0,
        st_ino: 0,
        st_nlink: 0,
        st_mode: 0,
        st_uid: 0,
        st_gid: 0,
        st_rdev: 0,
        st_size: 0,
        st_blksize: 0,
        st_blocks: 0,
        st_atim: seconds(0),
        st_mtim: seconds(0),
        st_ctim: seconds(0),
    }
}

impl Default for Stat {
    fn default() -> (r: Self)
        ensures
            r == blank_stat(),
    {
        let t: Timespec = Timespec { tv_sec: 0, tv_nsec: 0 };
        Stat {
            st_dev: 0,
            st_ino: 0,
            st_nlink: 0,
            st_mode: 0,
            st_uid: 0,
            st_gid: 0,
            st_rdev: 0,
            st_size: 0,
            st_blksize: 0,
            st_blocks: 0,
            st_atim: t,
            st_mtim: t,
            st_ctim: t,
        }
    }
}

/// Attributes after those of a node were filled in.
pub open spec fn filled(s: Stat, m: Metadata) -> Stat {
    Stat {
        st_size: m.size as i64,
        st_mode: m.mode as u32,
        st_uid: m.uid,
        st_gid: m.gid,
        st_ino: m.ino as u64,
        st_nlink: 1,
        st_rdev: 0,
        st_atim: seconds(m.access_time as int),
        st_ctim: seconds(m.created_time as int),
        st_mtim: seconds(m.modified_time as int),
        ..s
    }
}

/// Fills in the attributes of a node; the others stay as they are.
pub fn fill_stat_from_meta(out: &mut Stat, meta: &Metadata)
    ensures
        *final(out) == filled(*old(out), *meta),
{
    out.st_size = #[verifier::truncate]
    (meta.size as i64);
    out.st_mode = meta.mode as u32;
    out.st_uid = meta.uid;
    out.st_gid = meta.gid;
    out.st_ino = meta.ino as u64;
    out.st_nlink = 1;
    out.st_rdev = 0;
    out.st_atim = Timespec { tv_sec: meta.access_time as i64, tv_nsec: 0 };
    out.st_ctim = Timespec { tv_sec: meta.created_time as i64, tv_nsec: 0 };
    out.st_mtim = Timespec { tv_sec: meta.modified_time as i64, tv_nsec: 0 };
}

/// Blocks of 512 bytes that hold `size` bytes.
pub open spec fn blocks_of(size: int) -> int {
    (size + 511) / 512
}

/// The attributes of the node behind a descriptor.
pub fn fstat_node(meta: &Metadata) -> (r: Stat)
    requires
        meta.size <= u64::MAX - 511,
    ensures
        r == (Stat {
            st_blksize: 2048,
            st_blocks: blocks_of(meta.size as int) as i64,
            ..filled(blank_stat(), *meta)
        }),
{
    let mut out: Stat = Stat::default();
    fill_stat_from_meta(&mut out, meta);
    out.st_blksize = 2048;
    out.st_blocks = ((meta.size as u64 + 511) / 512) as i64;
    out
}

/// The mode of a pipe: a pipe that its owner reads and writes.
pub const PIPE_MODE: u32 = 0x1180;

/// The mode of a socket: a socket that all read and write.
pub const SOCKET_MODE: u32 = 0xC1FF;

pub open spec fn made_up(mode: u32, ino: u64, blksize: i64, now: i64) -> Stat {
    let t = Timespec { tv_sec: now, tv_nsec: 0 };
    Stat {
        st_mode: mode,
        st_ino: ino,
        st_nlink: 1,
        st_blksize: blksize,
        st_atim: t,
        st_mtim: t,
        st_ctim: t,
        ..blank_stat()
    }
}

fn make_up(mode: u32, ino: u64, blksize: i64, now: i64) -> (r: Stat)
    ensures
        r == made_up(mode, ino, blksize, now),
{
    let t: Timespec = Timespec { tv_sec: now, tv_nsec: 0 };
    let mut out: Stat = Stat::default();
    out.st_mode = mode;
    out.st_ino = ino;
    out.st_nlink = 1;
    out.st_blksize = blksize;
    out.st_atim = t;
    out.st_mtim = t;
    out.st_ctim = t;
    out
}

/// The attributes of a pipe; `now` is the time since the start in seconds.
pub fn fstat_pipe(id: u64, pipe_buf: i64, now: i64) -> (r: Stat)
    ensures
        r == made_up(PIPE_MODE, id, pipe_buf, now),
{
    make_up(PIPE_MODE, id, pipe_buf, now)
}

/// The attributes of the socket behind descriptor `fd`.
pub fn fstat_socket(fd: u64, now: i64) -> (r: Stat)
    ensures
        r == made_up(SOCKET_MODE, fd, 4096, now),
{
    make_up(SOCKET_MODE, fd, 4096, now)
}

/// What the open file is that attributes are asked of.
pub enum StatOf<'a> {
    Node(&'a Metadata),
    /// A pipe with this number.
    Pipe(u64),
    Socket,
}

/// What is told of an open file behind descriptor `fd`.
pub open spec fn told_of(of: StatOf, fd: u64, pipe_buf: i64, now: i64) -> Stat {
    match of {
        StatOf::Node(m) => Stat {
            st_blksize: 2048,
            st_blocks: blocks_of(m.size as int) as i64,
            ..filled(blank_stat(), *m)
        },
        StatOf::Pipe(id) => made_up(PIPE_MODE, id, pipe_buf, now),
        StatOf::Socket => made_up(SOCKET_MODE, fd, 4096, now),
    }
}

/// The attributes of an open file. `caller` says whether there is a process that calls, and
/// `of` is what its descriptor stands for, if it is open. The record of the program is blank
/// before the descriptor is looked at. The result is what the call returns, and the record
/// where one is written.
pub fn fstat(stat_ptr: u64, caller: bool, fd: u64, of: Option<StatOf>, pipe_buf: i64, now: i64) -> (r: (
    i64,
    Option<Stat>,
))
    requires
        of matches Some(StatOf::Node(m)) ==> m.size <= u64::MAX - 511,
    ensures
        r == if stat_ptr == 0 {
            (failed(EFAULT), None::<Stat>)
        } else if !caller {
            (failed(ESRCH), None)
        } else if fd > i32::MAX || of is None {
            (failed(EBADF), Some(blank_stat()))
        } else {
            (0i64, Some(told_of(of->0, fd, pipe_buf, now)))
        },
{
    if stat_ptr == 0 {
        return (fail(EFAULT), None);
    }
    if !caller {
        return (fail(ESRCH), None);
    }
    if fd > i32::MAX as u64 {
        return (fail(EBADF), Some(Stat::default()));
    }
    match of {
        None => (fail(EBADF), Some(Stat::default())),
        Some(StatOf::Node(m)) => (0, Some(fstat_node(m))),
        Some(StatOf::Pipe(id)) => (0, Some(fstat_pipe(id, pipe_buf, now))),
        Some(StatOf::Socket) => (0, Some(fstat_socket(fd, now))),
    }
}

/// What programs are told about a file system.
#[derive(Debug, Clone, Copy, PartialEq, Eq, Structural)]
pub struct StatFs {
    pub f_type: u64,
    pub f_bsize: u64,
    pub f_blocks: u64,
    pub f_bfree: u64,
    pub f_bavail: u64,
    pub f_files: u64,
    pub f_ffree: u64,
    pub f_namelen: u64,
    pub f_frsize: u64,
    pub f_flags: u64,
}

pub fn fill_statfs(stats: &FsStats) -> (r: StatFs)
    ensures
        r == (StatFs {
            f_type: stats.fs_type,
            f_bsize: stats.block_size,
            f_blocks: stats.blocks,
            f_bfree: stats.blocks_free,
            f_bavail: stats.blocks_available,
            f_files: stats.files,
            f_ffree: stats.files_free,
            f_namelen: stats.name_length,
            f_frsize: stats.fragment_size,
            f_flags: stats.flags,
        }),
{
    StatFs {
        f_type: stats.fs_type,
        f_bsize: stats.block_size,
        f_blocks: stats.blocks,
        f_bfree: stats.blocks_free,
        f_bavail: stats.blocks_available,
        f_files: stats.files,
        f_ffree: stats.files_free,
        f_namelen: stats.name_length,
        f_frsize: stats.fragment_size,
        f_flags: stats.flags,
    }
}

} // verus!
