//! What holds of network sockets and of the time that calls wait.

use crate::errno::{failed, EAGAIN, EBADF, EFAULT, ENOTSOCK};
use crate::net::udp::{
    bind_refused, next_ask, port_chosen, sending_to, Ask, Purpose, Remote, Reply, Request, UdpSocket,
};
use crate::proc::process::{slot_of, FdEntry, OpenFile, OpenFileKind, ProcView, WakeReason};
use crate::proc::sched::process;
use crate::proc::table::{known, TableView};
use crate::syscall::file_laws::lemma_descriptor_opened;
use crate::syscall::files::install_result;
use crate::syscall::sleep::{nap_until, Nap};
use crate::syscall::sockaddr::{addr_in, endpoint_in, socket_kind, Endpoint, NewSocket};
use crate::syscall::sockets::{
    local_name, name_answer, port_for, socket_file, socket_for, transfer_at, with_socket,
    AddressOut, SocketState,
};
use crate::syscall::time::{
    absolute_plan, relative_plan, sleep_step, split_ns, Clocks, SleepOutcome, SleepPlan, Timespec,
};
use vstd::prelude::*;

verus! {

/// The address in bytes is told by its family, has its port and its number with the highest
/// byte first, and is refused where it is cut short.
pub proof fn lemma_address_read(bytes: Vec<u8>)
    ensures
        bytes@.len() < 16 || bytes@[0] != 2 || bytes@[1] != 0 ==> addr_in(Some(&bytes)) is Err,
        bytes@.len() >= 16 && bytes@[0] == 2 && bytes@[1] == 0 ==> (addr_in(Some(&bytes)) matches Ok(e)
            && e.port == bytes@[2] * 256 + bytes@[3] && e.addr == bytes@[4] * 0x100_0000 + bytes@[5]
            * 0x1_0000 + bytes@[6] * 0x100 + bytes@[7]),
        addr_in(None) == Err::<Endpoint, i32>(EFAULT),
{
}

/// The kind of a socket is in the low bits of what is asked for; the others say how it is
/// opened.
pub proof fn lemma_socket_kinds(domain: i32, sock_type: i32)
    requires
        0 <= domain < 0x1_0000,
    ensures
        domain != 2 ==> socket_kind(domain, sock_type) is Err,
        domain == 2 && sock_type & 0xF == 1 ==> socket_kind(domain, sock_type) == Ok::<NewSocket, i64>(
            NewSocket::Stream,
        ),
        domain == 2 && sock_type & 0xF == 2 ==> socket_kind(domain, sock_type) == Ok::<NewSocket, i64>(
            NewSocket::Datagram,
        ),
        domain == 2 && sock_type & 0xF != 1 && sock_type & 0xF != 2 ==> socket_kind(domain, sock_type)
            is Err,
{
}

/// A call on a descriptor goes to the socket that the descriptor stands for, with the flags
/// of its open file.
pub proof fn lemma_socket_found(t: TableView, files: Seq<OpenFile>, fd: i32, file: usize, n: usize, fd_flags: i32)
    requires
        known(t.procs, t.current),
        fd >= 0,
        slot_of(process(t, t.current).fd_table, fd as int) == Some(FdEntry { file, fd_flags }),
    ensures
        files[file as int].kind == OpenFileKind::Socket(n) ==> socket_for(t, files, fd) == Ok::<
            (usize, i32),
            i64,
        >((n, files[file as int].status_flags)),
        !(files[file as int].kind is Socket) ==> socket_for(t, files, fd) == Err::<(usize, i32), i64>(
            failed(ENOTSOCK),
        ),
{
}

/// A descriptor that is not open stands for no socket.
pub proof fn lemma_no_socket(t: TableView, files: Seq<OpenFile>, fd: i32)
    requires
        known(t.procs, t.current),
        fd >= 0,
        slot_of(process(t, t.current).fd_table, fd as int) is None,
    ensures
        socket_for(t, files, fd) == Err::<(usize, i32), i64>(failed(EBADF)),
{
}

/// A socket that is made is found under the descriptor that is returned, can be read and
/// written, and waits unless it was asked not to.
pub proof fn lemma_new_socket_found(p: ProcView, file: usize, cloexec: bool, open: OpenFile, sock: usize, nonblock: bool, k: int)
    requires
        p.fd_table.len() < i32::MAX,
        socket_file(open, sock, nonblock),
    ensures
        ({
            let fd = install_result(p.fd_table, 0) as int;
            let q = with_socket(p, file, cloexec);
            let fd_flags: i32 = if cloexec {
                1
            } else {
                0
            };
            &&& slot_of(p.fd_table, fd) is None
            &&& slot_of(q.fd_table, fd) == Some(FdEntry { file, fd_flags })
            &&& k != fd ==> slot_of(q.fd_table, k) == slot_of(p.fd_table, k)
            &&& open.kind == OpenFileKind::Socket(sock)
            &&& open.status_flags & 3 == 2
            &&& (open.status_flags & 0x800 != 0) == nonblock
        }),
{
    let fd_flags: i32 = if cloexec {
        1
    } else {
        0
    };
    lemma_descriptor_opened(p.fd_table, 0, FdEntry { file, fd_flags }, k);
    assert((2i32 | 0x800) & 3 == 2 && (2i32 | 0) & 3 == 2 && (2i32 | 0x800) & 0x800 != 0 && (2i32 | 0)
        & 0x800 == 0) by (bit_vector);
}

/// A port that is asked for is given; one that is not is chosen among those for that.
pub proof fn lemma_port_given(wanted: u16, chance: u16)
    ensures
        wanted != 0 ==> port_for(wanted, chance) == wanted,
        wanted == 0 ==> 49152 <= port_for(wanted, chance) <= 65535,
{
}

/// Data moves at once or the call waits, unless it must not: then it fails exactly where the
/// socket is not ready.
pub proof fn lemma_transfer(
    t: TableView,
    files: Seq<OpenFile>,
    socks: Seq<SocketState>,
    fd: i32,
    buf_ptr: u64,
    len: u64,
    flags: i32,
    sending: bool,
    n: usize,
    status: i32,
)
    requires
        socket_for(t, files, fd) == Ok::<(usize, i32), i64>((n, status)),
        buf_ptr != 0 || len == 0,
    ensures
        ({
            let r = transfer_at(t, files, socks, fd, buf_ptr, len, flags, sending);
            let at_once = status & 0x800 != 0 || flags & 0x40 != 0;
            let ready = if sending {
                socks[n as int].writable
            } else {
                socks[n as int].readable
            };
            &&& ready || !at_once ==> r == Ok::<usize, i64>(n)
            &&& !ready && at_once ==> r == Err::<usize, i64>(failed(EAGAIN))
        }),
{
}

/// The address that a program is handed is that of the socket, where there is room for it;
/// the length is told either way.
pub proof fn lemma_address_handed_out(r: (i64, AddressOut), e: Endpoint, room: u32)
    requires
        name_answer(r, Ok(e), true, Some(room)),
    ensures
        r.0 == 0,
        match r.1 {
            Some((Some(v), n)) => room >= 16 && n == 16 && v@.len() == 16 && endpoint_in(v@) == e,
            Some((None, n)) => room < 16 && n == 16,
            None => false,
        },
{
    crate::syscall::sockaddr::lemma_address_round_trip(e);
}

/// A socket tells of the port that it was bound to, until it has another.
pub proof fn lemma_local_name(s: SocketState)
    ensures
        s.kind == NewSocket::Stream && s.local is Some ==> local_name(s) == s.local->0,
        s.kind == NewSocket::Stream && s.local is None && s.bound_port is Some ==> local_name(s).port
            == s.bound_port->0,
        s.kind == NewSocket::Datagram && s.local_port is Some ==> local_name(s).port == s.local_port->0,
        s.kind == NewSocket::Datagram && s.local_port is None && s.bound_port is Some ==> local_name(
            s,
        ).port == s.bound_port->0,
{
}

/// What is to be sent goes to whom it is addressed to, or else to whom the socket is connected
/// to; nothing is sent before the socket is ready, and a socket is bound before it is used.
pub proof fn lemma_datagram_goes(q: Request, s: UdpSocket, reply: Reply, chance: u16)
    ensures
        ({
            let (ask, r) = next_ask(q, s, reply, chance);
            &&& ask matches Ask::Transmit(to) ==> {
                &&& reply == Reply::Readiness(true)
                &&& q.purpose matches Purpose::SendTo(x) ==> to == x
                &&& q.purpose is Send ==> s.remote_endpoint == Some(to)
                &&& q.purpose is SendTo || q.purpose is Send
            }
            &&& ask is Receive ==> reply == Reply::Readiness(true) && (q.purpose is RecvFrom
                || q.purpose is Recv)
            &&& ask matches Ask::Bind(port) ==> {
                &&& reply == Reply::Ran(false)
                &&& s.bound_port matches Some(p) ==> port == p
                &&& s.bound_port is None ==> 49152 <= port
            }
            &&& reply == Reply::Moved(false) || reply == Reply::Bound(false) ==> ask is Fail
            &&& ask is Shut ==> q.purpose is Close
            &&& r.purpose == q.purpose
            &&& r.started == q.started
            &&& q.sent ==> r.sent
        }),
{
}

/// A sleep lasts as long as was asked for: it ends at the time that it is from now, and not at
/// once unless it is for no time.
pub proof fn lemma_sleep_lasts(t: Timespec, now: u64)
    requires
        now + t.nanos() <= u64::MAX,
    ensures
        t.valid() && t.nanos() > 0 ==> relative_plan(t, now) == SleepPlan::Until(
            (now + t.nanos()) as u64,
        ),
        t.valid() && t.nanos() == 0 ==> relative_plan(t, now) == SleepPlan::Return(0),
        !t.valid() ==> (relative_plan(t, now) matches SleepPlan::Return(e) && e < 0),
{
}

/// A sleep until a time ends at that time, on the clock that it is given for; one until a time
/// that has passed ends at once.
pub proof fn lemma_sleep_until(t: Timespec, clocks: Clocks)
    requires
        t.valid(),
        t.nanos() <= u64::MAX,
    ensures
        t.nanos() > clocks.monotonic ==> absolute_plan(1, t, clocks) == SleepPlan::Until(
            t.nanos() as u64,
        ),
        t.nanos() <= clocks.monotonic ==> absolute_plan(1, t, clocks) == SleepPlan::Return(0),
        t.nanos() - clocks.offset > clocks.monotonic ==> absolute_plan(0, t, clocks) == SleepPlan::Until(
            (t.nanos() - clocks.offset) as u64,
        ),
        t.nanos() - clocks.offset <= clocks.monotonic ==> absolute_plan(0, t, clocks)
            == SleepPlan::Return(0),
{
}

/// A sleep that is interrupted tells how much of it is left, and one that ends has lasted to
/// its end.
pub proof fn lemma_sleep_ends(deadline: u64, reason: WakeReason, now: u64)
    ensures
        match sleep_step(deadline, reason, now) {
            Some(SleepOutcome::DeadlineReached) => now >= deadline,
            Some(SleepOutcome::Interrupted { remaining_ns }) => {
                &&& reason == WakeReason::Signal || reason == WakeReason::Cancelled
                &&& now <= deadline ==> now + remaining_ns == deadline
                &&& now > deadline ==> remaining_ns == 0
            },
            None => now < deadline,
        },
{
}

/// A nap until a time lasts from now to that time.
pub proof fn lemma_nap_lasts(req: Timespec, now: Timespec)
    requires
        req.valid(),
        now.valid(),
        req.nanos() - now.nanos() <= u64::MAX,
    ensures
        req.nanos() > now.nanos() ==> (nap_until(req, now) matches Nap::Nanos(n) && now.nanos() + n
            == req.nanos()),
        req.nanos() <= now.nanos() ==> nap_until(req, now) == Nap::Return(0),
{
}

/// Nanoseconds that were split into seconds and the rest are the same time.
pub proof fn lemma_split(ns: u64)
    ensures
        split_ns(ns).valid(),
        split_ns(ns).nanos() == ns,
{
}

/// A socket that is not open is bound to its own port, or else to one that nobody asks for by
/// number.
pub proof fn lemma_port_chosen(bound: Option<u16>, chance: u16)
    ensures
        bound matches Some(p) ==> port_chosen(bound, chance) == p,
        bound is None ==> port_chosen(bound, chance) >= 49152,
{
}

/// A socket that was told where to send sends there, and keeps its own port; where the stack
/// refuses, it sends where it did.
pub proof fn lemma_sending_to(s: UdpSocket, addr: u32, port: u16, request: Option<bool>)
    ensures
        ({
            let w = sending_to(s, addr, port, request);
            &&& request != Some(false) ==> w.remote_endpoint == Some(Remote { addr, port })
            &&& request == Some(false) ==> w == s
            &&& w.bound_port == s.bound_port
        }),
        bind_refused(None, true),
        !bind_refused(Some(true), false),
        !bind_refused(Some(false), true),
        bind_refused(Some(false), false),
{
}

} // verus!
