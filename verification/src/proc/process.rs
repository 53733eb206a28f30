//! A process: its descriptors, its name and its pending signals.

use crate::bytes::{cut, find, first_pos, to_vec};
use crate::errno::{EBADF, EINVAL, EMFILE};
use crate::proc::signals::{
    bit_of, has_signal, lowest_signal, signal_bit, SignalAction, SignalAltStack, SignalSet,
};
use vstd::prelude::*;

verus! {

/// Bytes of a task's name, the zero behind it among them.
pub const TASK_COMM_LEN: usize = 16;

/// Descriptor flag: close on exec.
pub const FD_CLOEXEC: i32 = 1;

/// What a process is doing.
#[derive(Debug, Clone, Copy, PartialEq, Eq, Structural)]
pub enum ProcessState {
    /// Has the processor.
    Running,
    /// May be given the processor.
    Runnable,
    Sleeping,
    Waiting,
    SignalWait,
    AwaitingIo,
    Stopped,
    Dead,
}

/// What ended a wait with a deadline.
#[derive(Debug, Clone, Copy, PartialEq, Eq, Structural)]
pub enum WakeReason {
    Deadline,
    Event,
    Signal,
    Cancelled,
}

/// A descriptor: the number of an open file, and the descriptor's own flags.
#[derive(Debug, Clone, Copy, PartialEq, Eq, Structural)]
pub struct FdEntry {
    pub file: usize,
    pub fd_flags: i32,
}

/// What an open file is; each kind has numbers of its own.
#[derive(Debug, Clone, Copy, PartialEq, Eq, Structural)]
pub enum OpenFileKind {
    Vfs(usize),
    Pipe(usize),
    Socket(usize),
    MemFd(usize),
}

/// An open file, which several descriptors may share.
pub struct OpenFile {
    pub kind: OpenFileKind,
    pub seek: u64,
    pub path: Vec<u8>,
    pub status_flags: i32,
}

/// A process. Its address space and its page table are known by number: threads of
/// one group share them.
pub struct Process {
    pub pid: u16,
    pub tgid: u16,
    pub is_thread: bool,
    pub parent_pid: u16,
    pub pgid: u16,
    pub sid: u16,
    pub state: ProcessState,
    pub stack: u64,
    pub stack_size: u64,
    pub entry_point: u64,
    pub fs_base: u64,
    pub gs_base: u64,
    pub kernel_rsp: u64,
    pub page_table: u64,
    pub proc_mm: usize,
    pub addr_size_vec: Vec<(u64, u64)>,
    pub exe_path: Vec<u8>,
    pub comm: Vec<u8>,
    pub pwd: Vec<u8>,
    pub fd_table: Vec<Option<FdEntry>>,
    pub umask: u16,
    pub exit_code: i32,
    pub wait_status: i32,
    pub wait_reported: bool,
    pub preempt_frame: u64,
    pub pending_io: bool,
    pub signal_actions: Vec<SignalAction>,
    pub signal_mask: SignalSet,
    pub pending_signals: u64,
    pub sigsuspend_saved_mask: SignalSet,
    pub in_sigsuspend: bool,
    pub signal_alt_stack: SignalAltStack,
    pub wait_token: Option<u64>,
    pub wait_deadline_ns: Option<u64>,
    pub wake_reason: Option<WakeReason>,
}

/// A process, as contracts see it.
#[verifier::ext_equal]
pub struct ProcView {
    pub pid: u16,
    pub tgid: u16,
    pub is_thread: bool,
    pub parent_pid: u16,
    pub pgid: u16,
    pub sid: u16,
    pub state: ProcessState,
    pub stack: u64,
    pub stack_size: u64,
    pub entry_point: u64,
    pub fs_base: u64,
    pub gs_base: u64,
    pub kernel_rsp: u64,
    pub page_table: u64,
    pub proc_mm: usize,
    pub addr_size_vec: Seq<(u64, u64)>,
    pub exe_path: Seq<u8>,
    pub comm: Seq<u8>,
    pub pwd: Seq<u8>,
    pub fd_table: Seq<Option<FdEntry>>,
    pub umask: u16,
    pub exit_code: i32,
    pub wait_status: i32,
    pub wait_reported: bool,
    pub preempt_frame: u64,
    pub pending_io: bool,
    pub signal_actions: Seq<SignalAction>,
    pub signal_mask: SignalSet,
    pub pending_signals: u64,
    pub sigsuspend_saved_mask: SignalSet,
    pub in_sigsuspend: bool,
    pub signal_alt_stack: SignalAltStack,
    pub wait_token: Option<u64>,
    pub wait_deadline_ns: Option<u64>,
    pub wake_reason: Option<WakeReason>,
}

impl View for Process {
    type V = ProcView;

    open spec fn view(&self) -> ProcView {
        ProcView {
            pid: self.pid,
            tgid: self.tgid,
            is_thread: self.is_thread,
            parent_pid: self.parent_pid,
            pgid: self.pgid,
            sid: self.sid,
            state: self.state,
            stack: self.stack,
            stack_size: self.stack_size,
            entry_point: self.entry_point,
            fs_base: self.fs_base,
            gs_base: self.gs_base,
            kernel_rsp: self.kernel_rsp,
            page_table: self.page_table,
            proc_mm: self.proc_mm,
            addr_size_vec: self.addr_size_vec@,
            exe_path: self.exe_path@,
            comm: self.comm@,
            pwd: self.pwd@,
            fd_table: self.fd_table@,
            umask: self.umask,
            exit_code: self.exit_code,
            wait_status: self.wait_status,
            wait_reported: self.wait_reported,
            preempt_frame: self.preempt_frame,
            pending_io: self.pending_io,
            signal_actions: self.signal_actions@,
            signal_mask: self.signal_mask,
            pending_signals: self.pending_signals,
            sigsuspend_saved_mask: self.sigsuspend_saved_mask,
            in_sigsuspend: self.in_sigsuspend,
            signal_alt_stack: self.signal_alt_stack,
            wait_token: self.wait_token,
            wait_deadline_ns: self.wait_deadline_ns,
            wake_reason: self.wake_reason,
        }
    }
}

/// A name of at most fifteen bytes, filled up with zeros to sixteen.
pub open spec fn comm_of(name: Seq<u8>) -> Seq<u8> {
    let n = if name.len() < 15 {
        name.len() as int
    } else {
        15
    };
    Seq::new(
        16,
        |i: int|
            if i < n {
                name[i]
            } else {
                0
            },
    )
}

/// A name up to its first zero.
pub open spec fn c_name(name: Seq<u8>) -> Seq<u8> {
    name.take(first_pos(name, 0))
}

/// The part of a path behind its last slash that anything follows; the path where
/// there is none.
pub open spec fn program_name(path: Seq<u8>) -> Seq<u8> {
    if crate::paths::segments(path).len() == 0 {
        path
    } else {
        crate::paths::segments(path).last()
    }
}

fn make_comm(name: &[u8]) -> (r: Vec<u8>)
    ensures
        r@ == comm_of(name@),
{
    let mut out: Vec<u8> = Vec::new();
    let mut i: usize = 0;
    while i < TASK_COMM_LEN
        invariant
            i <= 16,
            out@ == comm_of(name@).take(i as int),
        decreases 16 - i,
    {
        let b: u8 = if i < 15 && i < name.len() {
            name[i]
        } else {
            0
        };
        out.push(b);
        proof {
            assert(out@ =~= comm_of(name@).take(i + 1));
        }
        i = i + 1;
    }
    proof {
        assert(out@ =~= comm_of(name@));
    }
    out
}

/// The part of a path that names the program.
pub fn name_in_path(path: &[u8]) -> (r: Vec<u8>)
    ensures
        r@ == program_name(path@),
{
    let mut parts: Vec<Vec<u8>> = crate::paths::split_segments(path);
    let ghost all = crate::bytes::views(parts@);
    if parts.len() == 0 {
        to_vec(path)
    } else {
        let last: Vec<u8> = match parts.pop() {
            Some(p) => p,
            None => Vec::new(),
        };
        proof {
            assert(all.last() == last@);
        }
        last
    }
}

/// The name of a task that runs the program at `path`.
pub fn task_comm_from_path(path: &[u8]) -> (r: Vec<u8>)
    ensures
        r@ == comm_of(program_name(path@)),
{
    let name: Vec<u8> = name_in_path(path);
    make_comm(&name)
}

/// The number of the slot for descriptor `fd`.
pub open spec fn slot_of(table: Seq<Option<FdEntry>>, fd: int) -> Option<FdEntry> {
    if 0 <= fd < table.len() {
        table[fd]
    } else {
        None
    }
}

/// A table with room for `n` descriptors.
pub open spec fn grown(table: Seq<Option<FdEntry>>, n: int) -> Seq<Option<FdEntry>> {
    if table.len() >= n {
        table
    } else {
        table + Seq::new((n - table.len()) as nat, |i: int| None::<FdEntry>)
    }
}

/// The lowest free descriptor from `start` on.
pub open spec fn free_fd(table: Seq<Option<FdEntry>>, start: int) -> int
    decreases table.len() - start,
{
    if start < 0 || start >= table.len() {
        start
    } else if table[start] is None {
        start
    } else {
        free_fd(table, start + 1)
    }
}

/// A table that holds `entry` for `fd`.
pub open spec fn with_fd(table: Seq<Option<FdEntry>>, fd: int, entry: FdEntry) -> Seq<
    Option<FdEntry>,
> {
    grown(table, fd + 1).update(fd, Some(entry))
}

/// Descriptors that stay open when a program is replaced.
pub open spec fn kept_on_exec(table: Seq<Option<FdEntry>>) -> Seq<Option<FdEntry>> {
    table.map_values(
        |e: Option<FdEntry>|
            match e {
                Some(f) => if f.fd_flags & 1 != 0 {
                    None
                } else {
                    Some(f)
                },
                None => None,
            },
    )
}

/// Whether a signal ends what the process is doing.
pub open spec fn wakes(s: ProcessState) -> bool {
    s == ProcessState::Waiting || s == ProcessState::SignalWait || s == ProcessState::AwaitingIo
}

/// A process that was sent signal `sig`.
pub open spec fn signalled(p: ProcView, sig: int) -> ProcView {
    if sig < 1 || sig > 64 {
        p
    } else {
        let q = ProcView { pending_signals: p.pending_signals | bit_of(sig), ..p };
        if wakes(p.state) {
            ProcView { state: ProcessState::Runnable, pending_io: false, ..q }
        } else {
            q
        }
    }
}

/// The signals of a process that are not held back.
pub open spec fn unblocked(p: ProcView) -> u64 {
    p.pending_signals & !p.signal_mask.low
}

fn grow_table(table: &mut Vec<Option<FdEntry>>, n: usize)
    ensures
        final(table)@ == grown(old(table)@, n as int),
{
    let ghost start = table@;
    while table.len() < n
        invariant
            start.len() <= table@.len(),
            table@.len() <= n || table@ == start,
            table@ == grown(start, table@.len() as int),
        decreases n - table@.len(),
    {
        table.push(None);
        proof {
            assert(table@ =~= grown(start, table@.len() as int));
        }
    }
    proof {
        if start.len() >= n {
            assert(table@ =~= start);
        }
    }
}

proof fn lemma_free_fd(table: Seq<Option<FdEntry>>, start: int)
    requires
        0 <= start <= table.len(),
    ensures
        start <= free_fd(table, start) <= table.len(),
        free_fd(table, start) < table.len() ==> table[free_fd(table, start)] is None,
    decreases table.len() - start,
{
    if start < table.len() && table[start] is Some {
        lemma_free_fd(table, start + 1);
    }
}

impl Process {
    /// Names the task; a name ends at its first zero.
    pub fn set_comm(&mut self, name: &[u8])
        ensures
            final(self)@ == (ProcView { comm: comm_of(c_name(name@)), ..old(self)@ }),
    {
        let n: usize = find(name, 0);
        let short: Vec<u8> = cut(name, 0, n);
        proof {
            assert(short@ =~= c_name(name@));
        }
        self.comm = make_comm(&short);
    }

    /// Names the task after the program at `path`.
    pub fn set_comm_from_path(&mut self, path: &[u8])
        ensures
            final(self)@ == (ProcView { comm: comm_of(c_name(program_name(path@))), ..old(self)@ }),
    {
        let name: Vec<u8> = name_in_path(path);
        self.set_comm(&name);
    }

    pub fn comm(&self) -> (r: Vec<u8>)
        ensures
            r@ == self@.comm,
    {
        to_vec(&self.comm)
    }

    /// The descriptor `fd`.
    pub fn fd_entry(&self, fd: i32) -> (r: Option<FdEntry>)
        ensures
            r == slot_of(self@.fd_table, fd as int),
    {
        if fd < 0 || fd as usize >= self.fd_table.len() {
            None
        } else {
            self.fd_table[fd as usize]
        }
    }

    /// Sets the flags of descriptor `fd`, and says whether it is open.
    pub fn set_fd_flags(&mut self, fd: i32, flags: i32) -> (r: bool)
        ensures
            match slot_of(old(self)@.fd_table, fd as int) {
                Some(e) => r && final(self)@ == (ProcView {
                    fd_table: old(self)@.fd_table.update(
                        fd as int,
                        Some(FdEntry { file: e.file, fd_flags: flags }),
                    ),
                    ..old(self)@
                }),
                None => !r && final(self)@ == old(self)@,
            },
    {
        match self.fd_entry(fd) {
            Some(e) => {
                self.fd_table.set(fd as usize, Some(FdEntry { file: e.file, fd_flags: flags }));
                true
            },
            None => false,
        }
    }

    /// Opens a descriptor: the lowest free one from `min_fd` on. A table that has
    /// grown beyond what a descriptor can be keeps the entry, but no descriptor is
    /// given for it.
    pub fn install_fd(&mut self, entry: FdEntry, min_fd: i32) -> (res: Result<i32, i32>)
        requires
            old(self)@.fd_table.len() < usize::MAX,
        ensures
            ({
                let t = grown(old(self)@.fd_table, min_fd as int);
                let fd = free_fd(t, min_fd as int);
                if min_fd < 0 {
                    res == Err::<i32, i32>(EINVAL) && final(self)@ == old(self)@
                } else {
                    &&& final(self)@ == (ProcView { fd_table: with_fd(t, fd, entry), ..old(self)@ })
                    &&& res == if fd <= i32::MAX {
                        Ok::<i32, i32>(fd as i32)
                    } else {
                        Err::<i32, i32>(EMFILE)
                    }
                }
            }),
    {
        if min_fd < 0 {
            return Err(EINVAL);
        }
        let start: usize = min_fd as usize;
        grow_table(&mut self.fd_table, start);
        let ghost t = self.fd_table@;
        let mut i: usize = start;
        let len: usize = self.fd_table.len();
        while i < len && self.fd_table[i].is_some()
            invariant
                start <= i <= len,
                len == self.fd_table@.len(),
                t == self.fd_table@,
                free_fd(t, start as int) == free_fd(t, i as int),
            decreases len - i,
        {
            i = i + 1;
        }
        if i < len {
            self.fd_table.set(i, Some(entry));
        } else {
            self.fd_table.push(Some(entry));
        }
        proof {
            assert(self.fd_table@ =~= with_fd(t, i as int, entry));
        }
        if i <= i32::MAX as usize {
            Ok(i as i32)
        } else {
            Err(EMFILE)
        }
    }

    /// Opens descriptor `fd` anew, and hands out what it was before.
    pub fn replace_fd(&mut self, fd: i32, entry: FdEntry) -> (res: Result<Option<FdEntry>, i32>)
        ensures
            if fd < 0 {
                res == Err::<Option<FdEntry>, i32>(EBADF) && final(self)@ == old(self)@
            } else {
                &&& res == Ok::<Option<FdEntry>, i32>(slot_of(old(self)@.fd_table, fd as int))
                &&& final(self)@ == (ProcView {
                    fd_table: with_fd(old(self)@.fd_table, fd as int, entry),
                    ..old(self)@
                })
            },
    {
        if fd < 0 {
            return Err(EBADF);
        }
        let before: Option<FdEntry> = self.fd_entry(fd);
        grow_table(&mut self.fd_table, fd as usize + 1);
        self.fd_table.set(fd as usize, Some(entry));
        Ok(before)
    }

    /// Closes descriptor `fd`.
    pub fn close_fd(&mut self, fd: i32) -> (res: Result<FdEntry, i32>)
        ensures
            match slot_of(old(self)@.fd_table, fd as int) {
                Some(e) => res == Ok::<FdEntry, i32>(e) && final(self)@ == (ProcView {
                    fd_table: old(self)@.fd_table.update(fd as int, None),
                    ..old(self)@
                }),
                None => res == Err::<FdEntry, i32>(EBADF) && final(self)@ == old(self)@,
            },
    {
        match self.fd_entry(fd) {
            Some(e) => {
                self.fd_table.set(fd as usize, None);
                Ok(e)
            },
            None => Err(EBADF),
        }
    }

    pub fn close_all_fds(&mut self)
        ensures
            final(self)@ == (ProcView { fd_table: Seq::empty(), ..old(self)@ }),
    {
        self.fd_table.clear();
    }

    /// Closes the descriptors that do not outlive an exec.
    pub fn close_on_exec(&mut self)
        ensures
            final(self)@ == (ProcView { fd_table: kept_on_exec(old(self)@.fd_table), ..old(self)@ }),
    {
        let ghost t = self.fd_table@;
        let mut i: usize = 0;
        while i < self.fd_table.len()
            invariant
                i <= t.len(),
                self.fd_table@.len() == t.len(),
                self.fd_table@ == kept_on_exec(t).take(i as int) + t.skip(i as int),
                self@ == (ProcView { fd_table: self.fd_table@, ..old(self)@ }),
            decreases t.len() - i,
        {
            proof {
                assert(self.fd_table@[i as int] == t[i as int]);
            }
            match self.fd_table[i] {
                Some(e) => {
                    if e.fd_flags & FD_CLOEXEC != 0 {
                        self.fd_table.set(i, None);
                    }
                },
                None => {},
            }
            proof {
                assert(self.fd_table@ =~= kept_on_exec(t).take(i + 1) + t.skip(i + 1));
            }
            i = i + 1;
        }
        proof {
            assert(self.fd_table@ =~= kept_on_exec(t));
        }
    }

    /// Sends signal `sig` to the process.
    pub fn queue_signal(&mut self, sig: usize)
        ensures
            final(self)@ == signalled(old(self)@, sig as int),
    {
        if sig < 1 || sig > 64 {
            return ;
        }
        self.pending_signals = self.pending_signals | signal_bit(sig);
        if self.state == ProcessState::Waiting || self.state == ProcessState::SignalWait
            || self.state == ProcessState::AwaitingIo {
            self.state = ProcessState::Runnable;
            self.pending_io = false;
        }
    }

    pub fn has_unblocked_signal(&self) -> (r: bool)
        ensures
            r == (unblocked(self@) != 0),
    {
        self.next_unblocked_signal().is_some()
    }

    /// The lowest pending signal that is not held back.
    pub fn next_unblocked_signal(&self) -> (r: Option<usize>)
        ensures
            match r {
                Some(s) => {
                    &&& 1 <= s <= 64
                    &&& unblocked(self@) != 0
                    &&& has_signal(unblocked(self@), s as int)
                    &&& forall|t: int| 1 <= t < s ==> !#[trigger] has_signal(unblocked(self@), t)
                },
                None => unblocked(self@) == 0,
            },
    {
        let r: Option<usize> = lowest_signal(self.pending_signals & !self.signal_mask.low);
        proof {
            if r is Some && unblocked(self@) == 0 {
                let s = r->0;
                let b = bit_of(s as int);
                assert(0u64 & b == 0) by (bit_vector);
            }
        }
        r
    }

    /// Takes signal `sig` off the pending ones.
    pub fn dequeue_signal(&mut self, sig: usize)
        ensures
            final(self)@ == if 1 <= sig <= 64 {
                ProcView {
                    pending_signals: old(self)@.pending_signals & !bit_of(sig as int),
                    ..old(self)@
                }
            } else {
                old(self)@
            },
    {
        if 1 <= sig && sig <= 64 {
            self.pending_signals = self.pending_signals & !signal_bit(sig);
        }
    }

    /// Forgets the wait that the process is in, so that nothing ends it later.
    pub fn invalidate_wait_token(&mut self)
        ensures
            final(self)@ == (ProcView {
                wait_token: None,
                wait_deadline_ns: None,
                wake_reason: None,
                ..old(self)@
            }),
    {
        self.wait_token = None;
        self.wait_deadline_ns = None;
        self.wake_reason = None;
    }
}

/// A descriptor that was opened is found again, and opening it leaves the others as
/// they were.
pub proof fn lemma_installed(table: Seq<Option<FdEntry>>, fd: int, entry: FdEntry, other: int)
    requires
        0 <= fd,
    ensures
        slot_of(with_fd(table, fd, entry), fd) == Some(entry),
        other != fd ==> slot_of(with_fd(table, fd, entry), other) == slot_of(table, other),
{
}

/// The descriptor that is opened is free, and none below it, from the first one
/// asked for, is.
pub proof fn lemma_lowest_free(table: Seq<Option<FdEntry>>, start: int, k: int)
    requires
        0 <= start <= table.len(),
    ensures
        slot_of(table, free_fd(table, start)) is None,
        start <= k < free_fd(table, start) ==> slot_of(table, k) is Some,
    decreases table.len() - start,
{
    if start < table.len() && table[start] is Some {
        lemma_lowest_free(table, start + 1, k);
    }
}

} // verus!
