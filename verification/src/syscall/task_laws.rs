//! What holds of the calls that make processes, wait for them, and change what they have open or
//! mapped.

use crate::errno::{failed, EBADF, ECHILD, EINVAL, ENOSYS};
use crate::preempt::Preempt;
use crate::proc::mem::{MmapKind, ProcMM};
use crate::proc::process::{slot_of, FdEntry, OpenFileKind, ProcView, ProcessState};
use crate::proc::launch::Resources;
use crate::proc::regs::{IretRegisters, PreservedRegisters, ScratchRegisters};
use crate::proc::sched::process;
use crate::proc::table::{known, lemma_position, position, TableView};
use crate::syscall::dispatch::{fixed_answer, Call};
use crate::syscall::file_laws::lemma_descriptor_opened;
use crate::syscall::files::{
    controlled, descriptor_flags, first_place, pipe_flags_valid, place_after_cut, sought, write_left, NodeInfo,
};
use crate::syscall::memory::{
    break_after, break_kept, kind_mapped, mapping_added, next_read, pages_or_file, request_for, MmapNext, MmapRequest,
};
use crate::syscall::misc::{timer_answer, Itimerval};
use crate::syscall::poll::{asked, poll_over, select_fds, select_result, select_wait, FdSet, PollFd, SelectSets, SelectWait, Timeval};
use crate::syscall::time::{clock_shows, split_ns, Clocks, Timespec};
use crate::syscall::wait::{
    awaited, clone_valid, first_reportable, forked, has_child, next_pid, reportable, threaded, trapped, waited,
    WaitOutcome,
};
use crate::vfs::FileType;
use vstd::prelude::*;

verus! {

/// A process that is split is answered the number of its child. The child is the last of the
/// processes, is its child and has its descriptors; the other processes are as they were, and the
/// parent is too.
pub proof fn lemma_forked(t: TableView, live_fs_base: u64, own: Resources, pid: u16, k: int, fd: int)
    requires
        known(t.procs, t.current),
        0 <= k < t.procs.len(),
    ensures
        ({
            let (after, r) = forked(t, live_fs_base, Some(own), pid);
            let born = after.procs[after.procs.len() - 1];
            let parent = t.procs[position(t.procs, t.current)];
            &&& r == pid
            &&& after.current == t.current
            &&& after.procs.len() == t.procs.len() + 1
            &&& born.pid == pid
            &&& born.parent_pid == t.current
            &&& !born.is_thread
            &&& slot_of(born.fd_table, fd) == slot_of(parent.fd_table, fd)
            &&& after.procs[k] == if k == position(t.procs, t.current) {
                ProcView { fs_base: live_fs_base, ..t.procs[k] }
            } else {
                t.procs[k]
            }
        }),
{
    lemma_position(t.procs, t.current);
}

/// A split for which there is not enough leaves as many processes as there were, and is answered
/// with a failure.
pub proof fn lemma_fork_refused(t: TableView, live_fs_base: u64, pid: u16, k: int)
    requires
        0 <= k < t.procs.len(),
    ensures
        ({
            let (after, r) = forked(t, live_fs_base, None, pid);
            &&& r < 0
            &&& after.procs.len() == t.procs.len()
            &&& after.procs[k].pid == t.procs[k].pid
            &&& after.procs[k].state == t.procs[k].state
        }),
{
    lemma_position(t.procs, t.current);
}

/// A thread that is made runs on the stack it was given, in the group of the process that made
/// it, and the process is answered its number; the other processes are as they were.
pub proof fn lemma_threaded(t: TableView, flags: u64, child_stack: u64, tls: u64, rsp: u64, pid: u16, k: int)
    requires
        known(t.procs, t.current),
        clone_valid(flags, child_stack),
        0 <= k < t.procs.len(),
    ensures
        ({
            let (after, r) = threaded(t, flags, child_stack, tls, Some(rsp), pid);
            let born = after.procs[after.procs.len() - 1];
            let maker = process(t, t.current);
            &&& r == pid
            &&& after.procs.len() == t.procs.len() + 1
            &&& after.procs[k] == t.procs[k]
            &&& after.current == t.current
            &&& born.pid == pid
            &&& born.is_thread
            &&& born.tgid == maker.tgid
            &&& born.fd_table == maker.fd_table
            &&& flags & 0x8_0000 != 0 ==> born.fs_base == tls
            &&& flags & 0x8_0000 == 0 ==> born.fs_base == maker.fs_base
            &&& child_stack != 0
        }),
{
}

/// A thread shares the memory, the files, the directory and the actions of the process, and is
/// one of its group: without each of these, or with anything else but a place for its own data,
/// none is made.
pub proof fn lemma_what_threads_share(flags: u64, child_stack: u64)
    ensures
        clone_valid(flags, child_stack) <==> child_stack != 0 && (flags == 0x0005_0F00 || flags
            == 0x000D_0F00),
{
    assert((flags & 0x0005_0F00 == 0x0005_0F00 && flags & !(0x0005_0F00u64 | 0x0008_0000u64) == 0) <==> (flags
        == 0x0005_0F00 || flags == 0x000D_0F00)) by (bit_vector);
}

/// The numbers of processes go up one by one, and start again at zero.
pub proof fn lemma_numbers_go_up(pid: u16)
    ensures
        pid < u16::MAX ==> next_pid(pid) == pid + 1,
        next_pid(u16::MAX) == 0,
{
}

/// A wait gives back only children that the caller waits for: one that has ended, or one that was
/// stopped where stops are asked for; and a child that has ended is given back at once.
pub proof fn lemma_wait_gives(t: TableView, after: TableView, parent: u16, pid: i32, options: i32, r: WaitOutcome, i: int)
    requires
        waited(t, after, parent, pid, options, r),
        0 <= i < t.procs.len(),
    ensures
        match r {
            WaitOutcome::Reaped { gone } => {
                &&& gone@.state == ProcessState::Dead
                &&& awaited(gone@, parent, pid)
                &&& t.procs.contains(gone@)
                &&& after.procs.len() < t.procs.len()
            },
            WaitOutcome::Stopped { pid: who, status } => {
                &&& options & 2 != 0
                &&& after.procs.len() == t.procs.len()
                &&& !reportable(
                    after.procs[first_reportable(t.procs, parent, pid, options)],
                    options,
                )
                &&& exists|k: int|
                    0 <= k < t.procs.len() && (#[trigger] t.procs[k]).pid == who && t.procs[k].wait_status
                        == status && t.procs[k].state == ProcessState::Stopped && awaited(
                        t.procs[k],
                        parent,
                        pid,
                    )
            },
            WaitOutcome::Return(e) => {
                &&& after == t
                &&& e == failed(ECHILD) || (e == 0 && options & 1 != 0)
                &&& e == failed(ECHILD) ==> !awaited(t.procs[i], parent, pid)
            },
            WaitOutcome::Block => options & 1 == 0 && after.procs.len() == t.procs.len(),
        },
        t.procs[i].state == ProcessState::Dead && awaited(t.procs[i], parent, pid) ==> r is Reaped || r is Stopped,
{
    lemma_first_is(t.procs, parent, pid, options);
    let k = first_reportable(t.procs, parent, pid, options);
    if r is Reaped {
        lemma_threads_left(t.procs.remove(k), t.procs[k].tgid);
    }
    if r is Return {
        if awaited(t.procs[i], parent, pid) {
            assert(has_child(t.procs, parent, pid));
        }
    }
    lemma_position(t.procs, parent);
}

proof fn lemma_threads_left(ps: Seq<ProcView>, tgid: u16)
    ensures
        crate::syscall::wait::threads_gone(ps, tgid).len() <= ps.len(),
    decreases ps.len(),
{
    if ps.len() > 0 {
        lemma_threads_left(ps.drop_last(), tgid);
    }
}

proof fn lemma_first_is(ps: Seq<ProcView>, parent: u16, pid: i32, options: i32)
    ensures
        ({
            let k = first_reportable(ps, parent, pid, options);
            &&& 0 <= k <= ps.len()
            &&& k < ps.len() ==> awaited(ps[k], parent, pid) && reportable(ps[k], options)
            &&& forall|i: int|
                0 <= i < k ==> !(awaited(#[trigger] ps[i], parent, pid) && reportable(ps[i], options))
        }),
    decreases ps.len(),
{
    if ps.len() > 0 {
        let front = ps.drop_last();
        lemma_first_is(front, parent, pid, options);
        let k = first_reportable(ps, parent, pid, options);
        assert forall|i: int| 0 <= i < k implies !(awaited(#[trigger] ps[i], parent, pid) && reportable(
            ps[i],
            options,
        )) by {
            if i < front.len() {
                assert(front[i] == ps[i]);
            }
        }
    }
}

/// A descriptor's flag that was set is the one that is told, and which file the descriptor stands
/// for does not change; the other descriptors are as they were.
pub proof fn lemma_descriptor_flag_set(p: ProcView, flags: i32, fd: i32, arg: u64, any: u64, k: int)
    requires
        fd >= 0,
        slot_of(p.fd_table, fd as int) matches Some(e) && (e.fd_flags == 0 || e.fd_flags == 1),
        arg == 0 || arg == 1,
    ensures
        ({
            let (q, f, r) = controlled(p, flags, fd, 2, arg);
            let told = controlled(q, f, fd, 1, any);
            &&& r == 0
            &&& f == flags
            &&& told.2 == arg
            &&& told.0 == q
            &&& slot_of(q.fd_table, fd as int) matches Some(e) && e.file == slot_of(
                p.fd_table,
                fd as int,
            )->0.file
            &&& k != fd ==> slot_of(q.fd_table, k) == slot_of(p.fd_table, k)
            &&& q == (ProcView { fd_table: q.fd_table, ..p })
        }),
{
    let e = slot_of(p.fd_table, fd as int)->0;
    let x = e.fd_flags;
    let y = arg as i32;
    assert((x == 0 || x == 1) && (y == 0 || y == 1) ==> (x & !1i32) | (y & 1i32) == y) by (bit_vector);
}

/// A descriptor that is copied from a number on stands for the same file, is not below that
/// number, and is closed by an exec where that is asked for. A descriptor that is not open has
/// nothing to tell, and can be neither changed nor copied.
pub proof fn lemma_descriptor_copied(p: ProcView, flags: i32, fd: i32, arg: u64, k: int)
    requires
        fd >= 0,
        arg < i32::MAX,
        p.fd_table.len() < i32::MAX,
    ensures
        match slot_of(p.fd_table, fd as int) {
            None => controlled(p, flags, fd, 0, arg) == (p, flags, failed(EBADF)) && controlled(
                p,
                flags,
                fd,
                1030,
                arg,
            ) == (p, flags, failed(EBADF)) && controlled(p, flags, fd, 1, arg) == (p, flags, failed(EBADF))
                && controlled(p, flags, fd, 2, arg) == (p, flags, failed(EBADF)) && controlled(
                p,
                flags,
                fd,
                3,
                arg,
            ) == (p, flags, failed(EBADF)) && controlled(p, flags, fd, 4, arg) == (p, flags, failed(EBADF)),
            Some(e) => {
                let (q, f, n) = controlled(p, flags, fd, 0, arg);
                let (s, g, m) = controlled(p, flags, fd, 1030, arg);
                &&& f == flags && g == flags
                &&& n == m
                &&& n >= arg
                &&& slot_of(p.fd_table, n as int) is None
                &&& slot_of(q.fd_table, n as int) == Some(FdEntry { file: e.file, fd_flags: 0 })
                &&& slot_of(s.fd_table, n as int) == Some(FdEntry { file: e.file, fd_flags: 1 })
                &&& k != n ==> slot_of(q.fd_table, k) == slot_of(p.fd_table, k)
                &&& q == (ProcView { fd_table: q.fd_table, ..p })
                &&& controlled(p, flags, fd, 3, arg) == (p, flags, flags as i64)
            },
        },
{
    if let Some(e) = slot_of(p.fd_table, fd as int) {
        lemma_descriptor_opened(p.fd_table, arg as int, FdEntry { file: e.file, fd_flags: 0 }, k);
        lemma_descriptor_opened(p.fd_table, arg as int, FdEntry { file: e.file, fd_flags: 1 }, k);
    }
}

/// A file that is opened to be appended to starts at its end, any other at its start; its descriptor
/// outlives an exec unless it was asked not to.
pub proof fn lemma_opened_where(kind: FileType, size: u64, flags: i32)
    ensures
        flags & 0x400 == 0 ==> first_place(kind, size, flags) == 0,
        flags & 0x400 != 0 && kind == FileType::File ==> first_place(kind, size, flags) == size,
        flags & 0x8_0000 == 0 ==> descriptor_flags(flags) == 0,
        flags & 0x8_0000 != 0 ==> descriptor_flags(flags) == 1,
{
}

/// A write that succeeds is answered with its length; the file goes on behind what was written, and
/// is never shorter than that. A write that fails moves nothing.
pub proof fn lemma_write_left(seek: u64, node: NodeInfo, start: u64, len: u64)
    requires
        len <= i64::MAX,
        start + len <= u64::MAX,
    ensures
        ({
            let (next, after, r) = write_left(seek, node, start, len, true);
            let (stays, same, e) = write_left(seek, node, start, len, false);
            &&& r == len
            &&& node.file_type == FileType::File ==> next == start + len && after.size >= start + len
                && after.size >= node.size && (after.size == start + len || after.size == node.size)
            &&& node.file_type != FileType::File ==> after == node
            &&& after.file_type == node.file_type
            &&& stays == seek
            &&& same == node
            &&& e < 0
        }),
{
}

/// A seek from the start goes where it says, and what it answers is where it went; one that fails
/// goes nowhere.
pub proof fn lemma_sought(kind: OpenFileKind, seek: u64, node: NodeInfo, offset: u64, whence: u8)
    requires
        offset <= i64::MAX,
        seek <= i64::MAX,
        node.size <= i64::MAX,
    ensures
        ({
            let (next, r) = sought(kind, seek, node, offset, whence);
            &&& r >= 0 ==> next == r
            &&& r < 0 ==> next == seek
            &&& kind is MemFd && whence == 0 ==> next == offset && r == offset
            &&& kind is MemFd && whence == 2 ==> next == node.size
            &&& kind is Pipe || kind is Socket ==> r < 0
        }),
{
}

/// What is asked of memory is whole pages, no fewer than are needed; a file is mapped only where
/// there is a descriptor and the memory is not anonymous.
pub proof fn lemma_request(va: u64, size: u64, prot: u64, flags: u64, fd: u64)
    requires
        0 < size <= u64::MAX - 4095,
    ensures
        ({
            let r = request_for(va, size, prot, flags, fd);
            &&& r.va == va
            &&& r.len % 4096 == 0
            &&& size <= r.len < size + 4096
            &&& r.prot == prot
            &&& r.fixed <==> flags & 0x10 != 0
            &&& r.file <==> flags & 0x20 == 0 && fd != u64::MAX
        }),
{
}

/// A mapping of a file asks the file, and its pages are shared with it; any other gets pages of its
/// own, which can be written and run as was asked.
pub proof fn lemma_pages_asked(r: MmapRequest)
    ensures
        r.file ==> pages_or_file(r) == MmapNext::AskFile && kind_mapped(r) == MmapKind::Shared,
        !r.file ==> kind_mapped(r) == MmapKind::Owned,
        !r.file ==> (pages_or_file(r) matches MmapNext::MapPages { writable, executable } && (writable
            <==> r.prot & 2 != 0) && (executable <==> r.prot & 4 != 0)),
{
}

/// A mapping that was added covers what it was asked for with the permissions it was asked for, and
/// those before it are still there.
pub proof fn lemma_mapping_there(before: &ProcMM, after: &ProcMM, base: u64, len: u64, kind: MmapKind, prot: u64, i: int)
    requires
        mapping_added(before, after, base, len, kind, prot),
        0 <= i < before.mmap_regions@.len(),
    ensures
        ({
            let m = after.mmap_regions@[after.mmap_regions@.len() - 1];
            &&& after.mmap_regions@.len() == before.mmap_regions@.len() + 1
            &&& m.base == base && m.len == len && m.kind == kind
            &&& m.permissions.read <==> prot & 1 != 0
            &&& m.permissions.write <==> prot & 2 != 0
            &&& m.permissions.execute <==> prot & 4 != 0
            &&& after.mmap_regions@[i] == before.mmap_regions@[i]
            &&& after.brk_cur == before.brk_cur
        }),
{
}

/// The heap ends at the first page boundary that is not below what was asked for, where there is
/// memory for it; else where it ended. To ask for nothing tells where it ends.
pub proof fn lemma_break_told(mm: &ProcMM, addr: u64, granted: bool)
    requires
        addr <= u64::MAX - 4095,
    ensures
        break_after(mm, 0, granted) == mm.brk_cur,
        addr >= mm.heap_start && addr > 0 && granted ==> addr <= break_after(mm, addr, granted) < addr + 4096
            && break_after(mm, addr, granted) % 4096 == 0,
        addr + 4096 <= mm.heap_start ==> break_after(mm, addr, granted) == mm.brk_cur,
        addr > mm.mapped_heap_end && !granted ==> break_after(mm, addr, granted) == mm.brk_cur,
        break_kept(mm, addr, granted) ==> break_after(mm, addr, granted) == mm.brk_cur,
{
}

/// Each clock shows its own time, in seconds and nanoseconds.
pub proof fn lemma_clocks_read(clocks: Clocks, clockid: i32)
    ensures
        clock_shows(1, clocks) == Some(clocks.monotonic),
        clock_shows(0, clocks) == Some(clocks.realtime),
        clockid != 0 && clockid != 1 ==> clock_shows(clockid, clocks) is None,
        split_ns(clocks.realtime).valid(),
        split_ns(clocks.realtime).nanos() == clocks.realtime,
{
}

/// A descriptor is asked exactly for what the sets that it is in are for.
pub proof fn lemma_asked(s: &SelectSets, fd: int)
    ensures
        asked(s, fd) & 1 != 0 <==> s.read.has(fd),
        asked(s, fd) & 4 != 0 <==> s.write.has(fd),
        asked(s, fd) & 2 != 0 <==> s.except.has(fd),
        asked(s, fd) == 0 <==> !s.read.has(fd) && !s.write.has(fd) && !s.except.has(fd),
{
    let (a, b, c) = (s.read.has(fd), s.write.has(fd), s.except.has(fd));
    let x = if a {
        1i16
    } else {
        0
    };
    let y = if b {
        4i16
    } else {
        0
    };
    let z = if c {
        2i16
    } else {
        0
    };
    assert((x == 0 || x == 1) && (y == 0 || y == 4) && (z == 0 || z == 2) ==> (((x | y) | z) & 1 != 0 <==> x
        != 0) && (((x | y) | z) & 4 != 0 <==> y != 0) && (((x | y) | z) & 2 != 0 <==> z != 0) && (((x | y)
        | z) == 0 <==> x == 0 && y == 0 && z == 0)) by (bit_vector);
}

/// Every descriptor below the bound that is in a set is asked, for what it is in the sets for, and
/// no other.
pub proof fn lemma_who_is_asked(s: &SelectSets, n: int, fd: int)
    requires
        0 <= n <= 1024,
        0 <= fd < 1024,
    ensures
        (exists|i: int|
            0 <= i < select_fds(s, n).len() && (#[trigger] select_fds(s, n)[i]).fd == fd) <==> fd < n && (
        s.read.has(fd) || s.write.has(fd) || s.except.has(fd)),
        forall|i: int|
            0 <= i < select_fds(s, n).len() ==> (#[trigger] select_fds(s, n)[i]).events == asked(
                s,
                select_fds(s, n)[i].fd as int,
            ) && 0 <= select_fds(s, n)[i].fd < n,
    decreases n,
{
    if n > 0 {
        lemma_who_is_asked(s, n - 1, fd);
        lemma_asked(s, n - 1);
        let rest = select_fds(s, n - 1);
        let all = select_fds(s, n);
        if exists|i: int| 0 <= i < rest.len() && (#[trigger] rest[i]).fd == fd {
            let i = choose|i: int| 0 <= i < rest.len() && (#[trigger] rest[i]).fd == fd;
            assert(all[i] == rest[i]);
        }
        if asked(s, n - 1) != 0 {
            assert(all[all.len() - 1].fd == n - 1);
        }
        if exists|i: int| 0 <= i < all.len() && (#[trigger] all[i]).fd == fd {
            let i = choose|i: int| 0 <= i < all.len() && (#[trigger] all[i]).fd == fd;
            if i < rest.len() {
                assert(rest[i].fd == fd);
            }
        }
        assert forall|i: int| 0 <= i < all.len() implies (#[trigger] all[i]).events == asked(
            s,
            all[i].fd as int,
        ) && 0 <= all[i].fd < n by {
            if i < rest.len() {
                assert(all[i] == rest[i]);
            }
        }
    }
}

/// After a select a set holds the descriptors below the bound that were found ready for what the set
/// is for.
pub proof fn lemma_select_tells(before: &FdSet, after: &FdSet, fds: Seq<PollFd>, n: int, mask: i16, i: int, k: int)
    requires
        select_result(before, after, fds, n, mask),
        0 <= i < fds.len(),
        0 <= k,
    ensures
        0 <= fds[i].fd < n && fds[i].revents & mask != 0 ==> after.has(fds[i].fd as int),
        k < n && (forall|j: int| 0 <= j < fds.len() && (#[trigger] fds[j]).fd == k ==> fds[j].revents & mask == 0)
            ==> !after.has(k),
        k >= n ==> after.has(k) == before.has(k),
{
    let fd = fds[i].fd as int;
    assert(after.has(fd) == after.has(fd));
}

/// A select waits for as long as it was told: for ever without a time, not at all with none left.
pub proof fn lemma_select_waits(tv: Timeval, now: u64)
    ensures
        select_wait(None, now) == Ok::<SelectWait, i64>(SelectWait::Forever),
        tv.tv_sec == 0 && tv.tv_usec == 0 ==> select_wait(Some(tv), now) == Ok::<SelectWait, i64>(
            SelectWait::Once,
        ),
        tv.valid() && !(tv.tv_sec == 0 && tv.tv_usec == 0) && now + tv.tv_sec * 1_000_000_000 + tv.tv_usec
            * 1000 <= u64::MAX ==> select_wait(Some(tv), now) == Ok::<SelectWait, i64>(
            SelectWait::Until((now + tv.tv_sec * 1_000_000_000 + tv.tv_usec * 1000) as u64),
        ),
        tv.tv_sec < 0 || tv.tv_usec < 0 || tv.tv_usec >= 1_000_000 ==> select_wait(Some(tv), now) == Err::<
            SelectWait,
            i64,
        >(failed(EINVAL)),
{
}

/// A child starts with the registers of its parent and with interrupts on.
pub proof fn lemma_trapped(preserved: PreservedRegisters, scratch: ScratchRegisters, iret: IretRegisters)
    ensures
        ({
            let f = trapped(preserved, scratch, iret);
            &&& f.preserved == preserved
            &&& f.scratch == scratch
            &&& f.iret.rip == iret.rip && f.iret.rsp == iret.rsp && f.iret.cs == iret.cs && f.iret.ss == iret.ss
            &&& f.iret.rflags & 0x200 != 0
            &&& f.iret.rflags & !0x202u64 == iret.rflags & !0x202u64
        }),
{
    let x = iret.rflags;
    assert((x | 0x202) & 0x200 != 0 && (x | 0x202) & !0x202u64 == x & !0x202u64) by (bit_vector);
}

/// A mapping is filled from the file in order: each read goes on where the last one ended, stays
/// within the mapping and the file, and there is none left only when one of them is used up.
pub proof fn lemma_next_read(len: u64, offset: u64, file_size: u64, pos: u64)
    requires
        pos <= len,
        offset + pos <= u64::MAX,
    ensures
        match next_read(len, offset, file_size, pos) {
            Some(p) => {
                &&& p.0 > 0
                &&& p.1 == offset + pos
                &&& pos + p.0 <= len
                &&& p.1 + p.0 <= file_size
                &&& pos + p.0 == len || p.1 + p.0 == file_size
            },
            None => pos == len || offset + pos >= file_size,
        },
{
}

/// A wait for descriptors is over as soon as one is ready, and else when its time is up; one
/// without a time is over only then.
pub proof fn lemma_poll_over(ready: usize, deadline: Option<u64>, now: u64)
    requires
        ready <= i64::MAX,
    ensures
        ready > 0 ==> poll_over(ready, deadline, now) == Some(ready as i64),
        ready == 0 ==> match deadline {
            None => poll_over(ready, deadline, now) is None,
            Some(d) => poll_over(ready, deadline, now) == if now < d {
                None::<i64>
            } else {
                Some(0i64)
            },
        },
{
}

/// A file that was cut is never read or written behind its end.
pub proof fn lemma_place_after_cut(seek: u64, new_len: u64)
    ensures
        place_after_cut(seek, new_len) <= new_len,
        seek <= new_len ==> place_after_cut(seek, new_len) == seek,
        seek > new_len ==> place_after_cut(seek, new_len) == new_len,
{
}

/// A call that nobody knows is answered so, and calls that need no answer are done at once.
pub proof fn lemma_fixed_answers(c: Call)
    ensures
        fixed_answer(None) == Some(failed(ENOSYS)),
        fixed_answer(Some(c)) is Some ==> c is Rseq || c is Clone3 || c is SetRobustList,
        fixed_answer(Some(Call::SetRobustList)) == Some(0i64),
        fixed_answer(Some(Call::Rseq)) == Some(failed(ENOSYS)),
        fixed_answer(Some(Call::Clone3)) == Some(failed(ENOSYS)),
{
}

/// A process waits for its own children and for nobody else's, for any of them or for one that it
/// names; threads are nobody's children. What there is to tell is that a child has ended, or, where
/// that is asked for, that it was stopped and nobody was told yet.
pub proof fn lemma_who_is_awaited(p: ProcView, parent: u16, pid: i32, options: i32)
    ensures
        awaited(p, parent, pid) ==> p.parent_pid == parent && !p.is_thread && (pid == -1 || pid == p.pid),
        p.parent_pid == parent && !p.is_thread && (pid == -1 || pid == p.pid) ==> awaited(p, parent, pid),
        p.state == ProcessState::Dead ==> reportable(p, options),
        reportable(p, options) ==> p.state == ProcessState::Dead || p.state == ProcessState::Stopped,
        p.state == ProcessState::Stopped ==> (reportable(p, options) <==> options & 2 != 0 && !p.wait_reported),
{
}

/// A timer can only be switched off, and only the one that runs in real time.
pub proof fn lemma_timer_answer(which: i32, t: Itimerval)
    ensures
        timer_answer(which, t) == 0 ==> which == 0 && t.it_value.tv_sec == 0 && t.it_value.tv_usec == 0
            && t.it_interval.tv_sec == 0 && t.it_interval.tv_usec == 0,
        which == 0 && t.it_value.tv_sec == 0 && t.it_value.tv_usec == 0 && t.it_interval.tv_sec == 0
            && t.it_interval.tv_usec == 0 ==> timer_answer(which, t) == 0,
        which == 0 && (t.it_value.tv_usec < 0 || t.it_value.tv_usec >= 1_000_000 || t.it_value.tv_sec < 0)
            ==> timer_answer(which, t) == failed(EINVAL),
        timer_answer(which, t) <= 0,
{
}

/// A pipe can be asked not to wait and to be closed by an exec, and nothing else.
pub proof fn lemma_pipe_flags(flags: i32)
    ensures
        pipe_flags_valid(flags) <==> flags == 0 || flags == 0x800 || flags == 0x8_0000 || flags == 0x8_0800,
{
    assert(flags & !(0x8_0000i32 | 0x800i32) == 0 <==> flags == 0 || flags == 0x800 || flags == 0x8_0000
        || flags == 0x8_0800) by (bit_vector);
}

/// A time is seconds that are not negative and less than a second of the smaller part.
pub proof fn lemma_valid_times(t: Timespec, v: Timeval)
    ensures
        t.valid() <==> t.tv_sec >= 0 && t.tv_nsec >= 0 && t.tv_nsec <= 999_999_999,
        v.valid() <==> v.tv_sec >= 0 && v.tv_usec >= 0 && v.tv_usec <= 999_999,
        t.valid() ==> t.nanos() == t.tv_sec * 1_000_000_000 + t.tv_nsec,
{
}

/// Who has the processor can change only where nothing forbids it: the scheduler is not at work
/// already and nobody has asked to stay.
pub proof fn lemma_scheduler_open(p: Preempt)
    ensures
        p.scheduler_open() ==> !p.in_scheduler && p.preempt_count == 0,
        !p.in_scheduler && p.preempt_count == 0 ==> p.scheduler_open(),
        p.resched_due() ==> p.scheduler_open() && p.need_resched && p.irq_depth == 0,
{
}

} // verus!
