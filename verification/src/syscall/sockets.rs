//! The calls on sockets, each as a whole: what is tested before the network is asked, in the
//! order in which it is tested, and what is returned for what the network then does.

use crate::errno::{
    fail, failed, EADDRINUSE, EAGAIN, EBADF, EDESTADDRREQ, EFAULT, EINVAL, EIO, ENOPROTOOPT, ENOTCONN,
    ENOTSOCK, EOPNOTSUPP, ESRCH, ETIMEDOUT,
};
use crate::proc::process::{slot_of, FdEntry, OpenFile, OpenFileKind, ProcView, Process, FD_CLOEXEC};
use crate::proc::sched::{process, with_process};
use crate::proc::table::{known, lemma_position, ProcessTable, TableView};
use crate::syscall::files::{install_result, installed, O_NONBLOCK, O_RDWR};
use crate::syscall::sockaddr::{
    addr_in, endpoint_bytes, install_socket, parse_sockaddr_in, random_ephemeral_port, socket_kind,
    socket_request, socket_word, write_sockaddr_in, Endpoint, NewSocket, PortMap, MSG_DONTWAIT,
    SOCK_CLOEXEC, SOCK_NONBLOCK, SOL_SOCKET, SO_REUSEADDR,
};
use vstd::prelude::*;

verus! {

/// What is known of a socket before a call on it.
#[derive(Debug, Clone, Copy, PartialEq, Eq, Structural)]
pub struct SocketState {
    pub kind: NewSocket,
    pub bound_port: Option<u16>,
    /// Where a stream is connected from.
    pub local: Option<Endpoint>,
    /// The port that a datagram socket has.
    pub local_port: Option<u16>,
    /// Whom the socket talks to.
    pub remote: Option<Endpoint>,
    pub readable: bool,
    pub writable: bool,
}

/// Whether every descriptor stands for an open file, and every open socket for a socket.
pub open spec fn linked(t: TableView, files: Seq<OpenFile>, socks: Seq<SocketState>) -> bool {
    &&& forall|i: int, k: int|
        #![trigger t.procs[i].fd_table[k]]
        0 <= i < t.procs.len() && 0 <= k < t.procs[i].fd_table.len() ==> (t.procs[i].fd_table[k] matches Some(
            e,
        ) ==> e.file < files.len())
    &&& forall|i: int|
        0 <= i < files.len() ==> ((#[trigger] files[i]).kind matches OpenFileKind::Socket(n) ==> n
            < socks.len())
}

/// The socket that descriptor `fd` of the running process stands for, and the flags of its
/// open file; or why it stands for none.
pub open spec fn socket_at(t: TableView, files: Seq<OpenFile>, fd: i32) -> Result<(usize, i32), i64> {
    if !known(t.procs, t.current) {
        Err(failed(ESRCH))
    } else {
        match slot_of(process(t, t.current).fd_table, fd as int) {
            None => Err(failed(EBADF)),
            Some(e) => match files[e.file as int].kind {
                OpenFileKind::Socket(n) => Ok((n, files[e.file as int].status_flags)),
                _ => Err(failed(ENOTSOCK)),
            },
        }
    }
}

fn find_socket(table: &ProcessTable, files: &Vec<OpenFile>, socks: &Vec<SocketState>, fd: i32) -> (r: Result<
    (usize, i32),
    i64,
>)
    requires
        linked(table@, files@, socks@),
    ensures
        r == socket_at(table@, files@, fd),
        r matches Ok(s) ==> s.0 < socks@.len(),
{
    proof {
        lemma_position(table@.procs, table@.current);
    }
    let p: &Process = match table.get_process(table.current) {
        Some(p) => p,
        None => return Err(fail(ESRCH)),
    };
    match p.fd_entry(fd) {
        None => Err(fail(EBADF)),
        Some(e) => {
            proof {
                let i = crate::proc::table::position(table@.procs, table@.current);
                assert(table@.procs[i].fd_table[fd as int] == Some(e));
            }
            match files[e.file].kind {
                OpenFileKind::Socket(n) => Ok((n, files[e.file].status_flags)),
                _ => Err(fail(ENOTSOCK)),
            }
        },
    }
}

/// As `socket_at`, but a negative descriptor is refused first.
pub open spec fn socket_for(t: TableView, files: Seq<OpenFile>, fd: i32) -> Result<(usize, i32), i64> {
    if fd < 0 {
        Err(failed(ENOTSOCK))
    } else {
        socket_at(t, files, fd)
    }
}

fn own_socket(table: &ProcessTable, files: &Vec<OpenFile>, socks: &Vec<SocketState>, fd: i32) -> (r: Result<
    (usize, i32),
    i64,
>)
    requires
        linked(table@, files@, socks@),
    ensures
        r == socket_for(table@, files@, fd),
        r matches Ok(s) ==> s.0 < socks@.len(),
{
    if fd < 0 {
        return Err(fail(ENOTSOCK));
    }
    find_socket(table, files, socks, fd)
}

/// The socket that a call goes on with, or what the call returns.
pub open spec fn only_socket(r: Result<(usize, i32), i64>) -> Result<usize, i64> {
    match r {
        Ok(s) => Ok(s.0),
        Err(e) => Err(e),
    }
}

/// Makes a socket with number `sock`, which is file number `file` from now on. The result is
/// what the call returns, and, where a socket is made, which one and its open file.
pub fn socket(table: &mut ProcessTable, domain: i32, sock_type: i32, sock: usize, file: usize) -> (r: (
    i64,
    Option<(NewSocket, OpenFile)>,
))
    requires
        known(old(table)@.procs, old(table)@.current) ==> process(
            old(table)@,
            old(table)@.current,
        ).fd_table.len() < usize::MAX,
    ensures
        ({
            let t = old(table)@;
            let p = process(t, t.current);
            if !known(t.procs, t.current) {
                r.0 == failed(ESRCH) && r.1 is None && final(table)@ == t
            } else {
                match socket_kind(domain, sock_type) {
                    Err(e) => r.0 == e && r.1 is None && final(table)@ == t,
                    Ok(kind) => {
                        &&& r.0 == install_result(p.fd_table, 0)
                        &&& r.1 matches Some((k, open)) && k == kind && socket_file(
                            open,
                            sock,
                            sock_type & SOCK_NONBLOCK != 0,
                        )
                        &&& final(table)@ == with_process(
                            t,
                            t.current,
                            with_socket(p, file, sock_type & SOCK_CLOEXEC != 0),
                        )
                    },
                }
            }
        }),
{
    let ghost t = table@;
    proof {
        lemma_position(t.procs, t.current);
    }
    let i: usize = match table.find_process_index(table.current) {
        Some(i) => i,
        None => return (fail(ESRCH), None),
    };
    let kind: NewSocket = match socket_request(domain, sock_type) {
        Ok(k) => k,
        Err(e) => return (e, None),
    };
    proof {
        assert(t.procs[i as int] == table.proc_list@[i as int]@);
    }
    let (n, open): (i64, OpenFile) = install_socket(
        &mut table.proc_list[i],
        sock,
        file,
        sock_type & SOCK_NONBLOCK != 0,
        sock_type & SOCK_CLOEXEC != 0,
    );
    proof {
        assert(table@.procs =~= with_process(
            t,
            t.current,
            with_socket(t.procs[i as int], file, sock_type & SOCK_CLOEXEC != 0),
        ).procs);
    }
    (n, Some((kind, open)))
}

/// Whether `open` is the open file of socket `sock`.
pub open spec fn socket_file(open: OpenFile, sock: usize, nonblock: bool) -> bool {
    &&& open.kind == OpenFileKind::Socket(sock)
    &&& open.seek == 0
    &&& open.path@ == socket_word()
    &&& open.status_flags == O_RDWR | (if nonblock {
        O_NONBLOCK
    } else {
        0
    })
}

/// The process once a descriptor for file `file` was opened.
pub open spec fn with_socket(p: ProcView, file: usize, cloexec: bool) -> ProcView {
    ProcView {
        fd_table: installed(
            p.fd_table,
            0,
            FdEntry {
                file,
                fd_flags: if cloexec {
                    FD_CLOEXEC
                } else {
                    0
                },
            },
        ),
        ..p
    }
}

/// Starts `connect`: which socket is to be connected, and to whom.
pub fn connect(
    table: &ProcessTable,
    files: &Vec<OpenFile>,
    socks: &Vec<SocketState>,
    fd: i32,
    addr: Option<&Vec<u8>>,
) -> (r: Result<(usize, Endpoint), i64>)
    requires
        linked(table@, files@, socks@),
    ensures
        r == if fd < 0 {
            Err::<(usize, Endpoint), i64>(failed(ENOTSOCK))
        } else {
            match addr_in(addr) {
                Err(e) => Err(failed(e)),
                Ok(to) => match socket_at(table@, files@, fd) {
                    Err(e) => Err(e),
                    Ok(s) => Ok((s.0, to)),
                },
            }
        },
{
    if fd < 0 {
        return Err(fail(ENOTSOCK));
    }
    let to: Endpoint = match parse_sockaddr_in(addr) {
        Ok(to) => to,
        Err(e) => return Err(fail(e)),
    };
    match find_socket(table, files, socks, fd) {
        Ok(s) => Ok((s.0, to)),
        Err(e) => Err(e),
    }
}

/// What `connect` returns.
pub fn connect_done(ok: bool) -> (r: i64)
    ensures
        r == if ok {
            0
        } else {
            failed(ETIMEDOUT)
        },
{
    if ok {
        0
    } else {
        fail(ETIMEDOUT)
    }
}

/// The port that is bound where `wanted` is asked for.
pub open spec fn port_for(wanted: u16, chance: u16) -> u16 {
    if wanted == 0 {
        (49152 + chance % 16384) as u16
    } else {
        wanted
    }
}

/// Starts `bind`: which socket gets which port. A port that is taken is refused before the
/// descriptor is looked at; one that is not is the process's from then on. `chance` is a
/// random number.
pub fn bind(
    table: &ProcessTable,
    files: &Vec<OpenFile>,
    socks: &Vec<SocketState>,
    ports: &mut PortMap,
    fd: i32,
    addr: Option<&Vec<u8>>,
    chance: u16,
) -> (r: Result<(usize, u16), i64>)
    requires
        linked(table@, files@, socks@),
    ensures
        r == if fd < 0 {
            Err::<(usize, u16), i64>(failed(ENOTSOCK))
        } else {
            match addr_in(addr) {
                Err(e) => Err(failed(e)),
                Ok(at) => if old(ports).owner(port_for(at.port, chance)) is Some {
                    Err(-1i64)
                } else {
                    match socket_at(table@, files@, fd) {
                        Err(e) => Err(e),
                        Ok(s) => Ok((s.0, port_for(at.port, chance))),
                    }
                },
            }
        },
        match r {
            Err(_) => *final(ports) == *old(ports),
            Ok((_, port)) => forall|q: u16| #[trigger]
                final(ports).owner(q) == if q == port {
                    Some(table@.current)
                } else {
                    old(ports).owner(q)
                },
        },
{
    if fd < 0 {
        return Err(fail(ENOTSOCK));
    }
    let at: Endpoint = match parse_sockaddr_in(addr) {
        Ok(at) => at,
        Err(e) => return Err(fail(e)),
    };
    let port: u16 = if at.port == 0 {
        random_ephemeral_port(chance)
    } else {
        at.port
    };
    if ports.contains(port) {
        return Err(-1);
    }
    match find_socket(table, files, socks, fd) {
        Ok(s) => {
            ports.insert(port, table.current);
            Ok((s.0, port))
        },
        Err(e) => Err(e),
    }
}

/// What `bind` returns.
pub fn bind_done(ok: bool) -> (r: i64)
    ensures
        r == if ok {
            0
        } else {
            failed(EADDRINUSE)
        },
{
    if ok {
        0
    } else {
        fail(EADDRINUSE)
    }
}

/// Starts `listen`: which socket listens on which port. Only a stream with a port can.
pub fn listen(table: &ProcessTable, files: &Vec<OpenFile>, socks: &Vec<SocketState>, fd: i32) -> (r: Result<
    (usize, u16),
    i64,
>)
    requires
        linked(table@, files@, socks@),
    ensures
        r == match socket_for(table@, files@, fd) {
            Err(e) => Err::<(usize, u16), i64>(e),
            Ok(s) => match (socks@[s.0 as int].kind, socks@[s.0 as int].bound_port) {
                (NewSocket::Datagram, _) => Err(failed(EOPNOTSUPP)),
                (NewSocket::Stream, Some(port)) if port != 0 => Ok((s.0, port)),
                _ => Err(failed(EINVAL)),
            },
        },
{
    let s: (usize, i32) = match own_socket(table, files, socks, fd) {
        Ok(s) => s,
        Err(e) => return Err(e),
    };
    match socks[s.0].kind {
        NewSocket::Datagram => Err(fail(EOPNOTSUPP)),
        NewSocket::Stream => match socks[s.0].bound_port {
            Some(port) => if port != 0 {
                Ok((s.0, port))
            } else {
                Err(fail(EINVAL))
            },
            None => Err(fail(EINVAL)),
        },
    }
}

/// What `listen` returns.
pub fn listen_done(ok: bool) -> (r: i64)
    ensures
        r == if ok {
            0
        } else {
            failed(EIO)
        },
{
    if ok {
        0
    } else {
        fail(EIO)
    }
}

/// Starts `accept4`: on which socket, and whether the call must not wait.
pub fn accept4(
    table: &ProcessTable,
    files: &Vec<OpenFile>,
    socks: &Vec<SocketState>,
    fd: i32,
    flags: i32,
) -> (r: Result<(usize, bool), i64>)
    requires
        linked(table@, files@, socks@),
    ensures
        r == match socket_for(table@, files@, fd) {
            Err(e) => Err::<(usize, bool), i64>(e),
            Ok(s) => Ok((s.0, s.1 & O_NONBLOCK != 0 || flags & SOCK_NONBLOCK != 0)),
        },
{
    match own_socket(table, files, socks, fd) {
        Ok(s) => Ok((s.0, s.1 & O_NONBLOCK != 0 || flags & SOCK_NONBLOCK != 0)),
        Err(e) => Err(e),
    }
}

/// Starts `accept`.
pub fn accept(table: &ProcessTable, files: &Vec<OpenFile>, socks: &Vec<SocketState>, fd: i32) -> (r: Result<
    (usize, bool),
    i64,
>)
    requires
        linked(table@, files@, socks@),
    ensures
        r == match socket_for(table@, files@, fd) {
            Err(e) => Err::<(usize, bool), i64>(e),
            Ok(s) => Ok((s.0, s.1 & O_NONBLOCK != 0)),
        },
{
    proof {
        assert(0i32 & SOCK_NONBLOCK == 0) by (bit_vector);
    }
    accept4(table, files, socks, fd, 0)
}

/// What came of waiting for a connection.
#[derive(Debug, Clone, Copy, PartialEq, Eq, Structural)]
pub enum Accepted {
    /// The new socket, and who is on the other side.
    Got(usize, Endpoint),
    NotYet,
    Broken,
}

/// An address that goes to the program, where it fits, and its length.
pub type AddressOut = Option<(Option<Vec<u8>>, u32)>;

/// What is written where an address is handed out; `room` is how much room there is for it.
pub open spec fn address_out(out: AddressOut, has_addr: bool, room: Option<u32>, e: Endpoint) -> bool {
    match room {
        Some(n) if has_addr => if n < 16 {
            out matches Some((None, k)) && k == 16
        } else {
            out matches Some((Some(v), k)) && k == 16 && v@ == endpoint_bytes(e)
        },
        _ => out is None,
    }
}

/// Finishes `accept` and `accept4`: what the call returns, what is written to the program,
/// and the open file of the new socket, which is file number `file` from now on.
pub fn accept_done(
    table: &mut ProcessTable,
    got: Accepted,
    nonblock: bool,
    flags: i32,
    has_addr: bool,
    room: Option<u32>,
    file: usize,
) -> (r: (i64, AddressOut, Option<OpenFile>))
    requires
        known(old(table)@.procs, old(table)@.current),
        process(old(table)@, old(table)@.current).fd_table.len() < usize::MAX,
    ensures
        ({
            let t = old(table)@;
            let p = process(t, t.current);
            match got {
                Accepted::Got(sock, peer) => {
                    &&& address_out(r.1, has_addr, room, peer)
                    &&& if has_addr && room is None {
                        r.0 == failed(EFAULT) && r.2 is None && final(table)@ == t
                    } else {
                        &&& r.0 == install_result(p.fd_table, 0)
                        &&& r.2 matches Some(open) && socket_file(open, sock, nonblock)
                        &&& final(table)@ == with_process(
                            t,
                            t.current,
                            with_socket(p, file, flags & SOCK_CLOEXEC != 0),
                        )
                    }
                },
                _ => {
                    &&& r.0 == if nonblock && got is Broken {
                        failed(EIO)
                    } else {
                        failed(EAGAIN)
                    }
                    &&& r.1 is None
                    &&& r.2 is None
                    &&& final(table)@ == t
                },
            }
        }),
{
    let ghost t = table@;
    proof {
        lemma_position(t.procs, t.current);
    }
    let (sock, peer): (usize, Endpoint) = match got {
        Accepted::Got(sock, peer) => (sock, peer),
        Accepted::NotYet => return (fail(EAGAIN), None, None),
        Accepted::Broken => if nonblock {
            return (fail(EIO), None, None)
        } else {
            return (fail(EAGAIN), None, None)
        },
    };
    let out: AddressOut = match write_sockaddr_in(has_addr, room, peer) {
        Ok(out) => out,
        Err(e) => return (e, None, None),
    };
    let i: usize = match table.find_process_index(table.current) {
        Some(i) => i,
        None => return (fail(ESRCH), None, None),
    };
    proof {
        assert(t.procs[i as int] == table.proc_list@[i as int]@);
    }
    let (n, open): (i64, OpenFile) = install_socket(
        &mut table.proc_list[i],
        sock,
        file,
        nonblock,
        flags & SOCK_CLOEXEC != 0,
    );
    proof {
        assert(table@.procs =~= with_process(
            t,
            t.current,
            with_socket(t.procs[i as int], file, flags & SOCK_CLOEXEC != 0),
        ).procs);
    }
    (n, out, Some(open))
}

/// The socket for data that must be there, or be taken away, at once where the call must not
/// wait; or why there is none.
pub open spec fn transfer_at(
    t: TableView,
    files: Seq<OpenFile>,
    socks: Seq<SocketState>,
    fd: i32,
    buf_ptr: u64,
    len: u64,
    flags: i32,
    sending: bool,
) -> Result<usize, i64> {
    if buf_ptr == 0 && len != 0 {
        Err(failed(EFAULT))
    } else {
        match socket_for(t, files, fd) {
            Err(e) => Err(e),
            Ok(s) => if (s.1 & O_NONBLOCK != 0 || flags & MSG_DONTWAIT != 0) && !(if sending {
                socks[s.0 as int].writable
            } else {
                socks[s.0 as int].readable
            }) {
                Err(failed(EAGAIN))
            } else {
                Ok(s.0)
            },
        }
    }
}

fn transfer(
    table: &ProcessTable,
    files: &Vec<OpenFile>,
    socks: &Vec<SocketState>,
    fd: i32,
    buf_ptr: u64,
    len: u64,
    flags: i32,
    sending: bool,
) -> (r: Result<usize, i64>)
    requires
        linked(table@, files@, socks@),
    ensures
        r == transfer_at(table@, files@, socks@, fd, buf_ptr, len, flags, sending),
        r matches Ok(s) ==> s < socks@.len(),
{
    if buf_ptr == 0 && len != 0 {
        return Err(fail(EFAULT));
    }
    let s: (usize, i32) = match own_socket(table, files, socks, fd) {
        Ok(s) => s,
        Err(e) => return Err(e),
    };
    let ready: bool = if sending {
        socks[s.0].writable
    } else {
        socks[s.0].readable
    };
    if (s.1 & O_NONBLOCK != 0 || flags & MSG_DONTWAIT != 0) && !ready {
        return Err(fail(EAGAIN));
    }
    Ok(s.0)
}

/// Starts `sendto`: on which socket, and to whom; None is whom the socket talks to. `addr` is
/// None where the program gave no address.
pub fn sendto(
    table: &ProcessTable,
    files: &Vec<OpenFile>,
    socks: &Vec<SocketState>,
    fd: i32,
    buf_ptr: u64,
    len: u64,
    flags: i32,
    addr: Option<&Vec<u8>>,
) -> (r: Result<(usize, Option<Endpoint>), i64>)
    requires
        linked(table@, files@, socks@),
    ensures
        r == match transfer_at(table@, files@, socks@, fd, buf_ptr, len, flags, true) {
            Err(e) => Err::<(usize, Option<Endpoint>), i64>(e),
            Ok(s) => if addr is None {
                Ok((s, None))
            } else {
                match addr_in(addr) {
                    Err(e) => Err(failed(e)),
                    Ok(to) => Ok((s, Some(to))),
                }
            },
        },
{
    let s: usize = match transfer(table, files, socks, fd, buf_ptr, len, flags, true) {
        Ok(s) => s,
        Err(e) => return Err(e),
    };
    match addr {
        None => Ok((s, None)),
        Some(_) => match parse_sockaddr_in(addr) {
            Ok(to) => Ok((s, Some(to))),
            Err(e) => Err(fail(e)),
        },
    }
}

/// What `sendto` returns; `result` is how much was sent, if anything could be.
pub fn sendto_done(result: Option<u64>) -> (r: i64)
    requires
        result matches Some(n) ==> n <= i64::MAX,
    ensures
        r == match result {
            Some(n) => n as i64,
            None => failed(EDESTADDRREQ),
        },
{
    match result {
        Some(n) => n as i64,
        None => fail(EDESTADDRREQ),
    }
}

/// Starts `recvfrom`: on which socket.
pub fn recvfrom(
    table: &ProcessTable,
    files: &Vec<OpenFile>,
    socks: &Vec<SocketState>,
    fd: i32,
    buf_ptr: u64,
    len: u64,
    flags: i32,
) -> (r: Result<usize, i64>)
    requires
        linked(table@, files@, socks@),
    ensures
        r == transfer_at(table@, files@, socks@, fd, buf_ptr, len, flags, false),
{
    transfer(table, files, socks, fd, buf_ptr, len, flags, false)
}

/// Finishes `recvfrom`: what the call returns, and what is written to the program. `result`
/// is how much was received, and, on a datagram socket, from whom.
pub fn recvfrom_done(result: Option<(u64, Option<Endpoint>)>, has_addr: bool, room: Option<u32>) -> (r: (
    i64,
    AddressOut,
))
    requires
        result matches Some((n, _)) ==> n <= i64::MAX,
    ensures
        match result {
            None => r.0 == failed(EIO) && r.1 is None,
            Some((n, None)) => r.0 == n && r.1 is None,
            Some((n, Some(from))) => {
                &&& address_out(r.1, has_addr, room, from)
                &&& r.0 == if has_addr && room is None {
                    failed(EFAULT)
                } else {
                    n as i64
                }
            },
        },
{
    match result {
        None => (fail(EIO), None),
        Some((n, from)) => match from {
            None => (n as i64, None),
            Some(from) => match write_sockaddr_in(has_addr, room, from) {
                Ok(out) => (n as i64, out),
                Err(e) => (e, None),
            },
        },
    }
}

/// Which socket `shutdown` closes; the call then returns 0.
pub fn shutdown(table: &ProcessTable, files: &Vec<OpenFile>, socks: &Vec<SocketState>, fd: i32) -> (r: Result<
    usize,
    i64,
>)
    requires
        linked(table@, files@, socks@),
    ensures
        r == only_socket(socket_for(table@, files@, fd)),
{
    match own_socket(table, files, socks, fd) {
        Ok(s) => Ok(s.0),
        Err(e) => Err(e),
    }
}

/// Sets an option of a socket: one is accepted, and has no effect.
pub fn setsockopt(
    table: &ProcessTable,
    files: &Vec<OpenFile>,
    socks: &Vec<SocketState>,
    fd: i32,
    level: i32,
    optname: i32,
) -> (r: i64)
    requires
        linked(table@, files@, socks@),
    ensures
        r == match socket_for(table@, files@, fd) {
            Err(e) => e,
            Ok(_) => if level == SOL_SOCKET && optname == SO_REUSEADDR {
                0
            } else {
                failed(ENOPROTOOPT)
            },
        },
{
    match own_socket(table, files, socks, fd) {
        Err(e) => e,
        Ok(_) => if level == SOL_SOCKET && optname == SO_REUSEADDR {
            0
        } else {
            fail(ENOPROTOOPT)
        },
    }
}

/// Sockets have no options that could be asked for.
pub fn getsockopt(table: &ProcessTable, files: &Vec<OpenFile>, socks: &Vec<SocketState>, fd: i32) -> (r: i64)
    requires
        linked(table@, files@, socks@),
    ensures
        r == match socket_for(table@, files@, fd) {
            Err(e) => e,
            Ok(_) => failed(ENOPROTOOPT),
        },
{
    match own_socket(table, files, socks, fd) {
        Err(e) => e,
        Ok(_) => fail(ENOPROTOOPT),
    }
}

pub open spec fn or_zero(port: Option<u16>) -> u16 {
    match port {
        Some(p) => p,
        None => 0,
    }
}

/// The address that a socket has for itself: a stream that is not connected, and a datagram
/// socket, have a port alone.
pub open spec fn local_name(s: SocketState) -> Endpoint {
    match s.kind {
        NewSocket::Stream => match s.local {
            Some(e) => e,
            None => Endpoint { addr: 0, port: or_zero(s.bound_port) },
        },
        NewSocket::Datagram => Endpoint {
            addr: 0,
            port: match s.local_port {
                Some(p) => p,
                None => or_zero(s.bound_port),
            },
        },
    }
}

fn port_or_zero(port: Option<u16>) -> (r: u16)
    ensures
        r == or_zero(port),
{
    match port {
        Some(p) => p,
        None => 0,
    }
}

fn own_name(s: SocketState) -> (r: Endpoint)
    ensures
        r == local_name(s),
{
    match s.kind {
        NewSocket::Stream => match s.local {
            Some(e) => e,
            None => Endpoint { addr: 0, port: port_or_zero(s.bound_port) },
        },
        NewSocket::Datagram => Endpoint {
            addr: 0,
            port: match s.local_port {
                Some(p) => p,
                None => port_or_zero(s.bound_port),
            },
        },
    }
}

/// What a call that hands out an address returns, and what it writes to the program.
pub open spec fn name_answer(
    r: (i64, AddressOut),
    name: Result<Endpoint, i64>,
    has_addr: bool,
    room: Option<u32>,
) -> bool {
    match name {
        Err(e) => r.0 == e && r.1 is None,
        Ok(e) => {
            &&& address_out(r.1, has_addr, room, e)
            &&& r.0 == if has_addr && room is None {
                failed(EFAULT)
            } else {
                0
            }
        },
    }
}

fn hand_out(e: Endpoint, has_addr: bool, room: Option<u32>) -> (r: (i64, AddressOut))
    ensures
        name_answer(r, Ok(e), has_addr, room),
{
    match write_sockaddr_in(has_addr, room, e) {
        Ok(out) => (0, out),
        Err(e) => (e, None),
    }
}

/// The address that a socket has for itself.
pub fn getsockname(
    table: &ProcessTable,
    files: &Vec<OpenFile>,
    socks: &Vec<SocketState>,
    fd: i32,
    has_addr: bool,
    room: Option<u32>,
) -> (r: (i64, AddressOut))
    requires
        linked(table@, files@, socks@),
    ensures
        name_answer(
            r,
            match socket_for(table@, files@, fd) {
                Err(e) => Err(e),
                Ok(s) => Ok(local_name(socks@[s.0 as int])),
            },
            has_addr,
            room,
        ),
{
    match own_socket(table, files, socks, fd) {
        Err(e) => (e, None),
        Ok(s) => hand_out(own_name(socks[s.0]), has_addr, room),
    }
}

/// The address of the other side.
pub fn getpeername(
    table: &ProcessTable,
    files: &Vec<OpenFile>,
    socks: &Vec<SocketState>,
    fd: i32,
    has_addr: bool,
    room: Option<u32>,
) -> (r: (i64, AddressOut))
    requires
        linked(table@, files@, socks@),
    ensures
        name_answer(
            r,
            match socket_for(table@, files@, fd) {
                Err(e) => Err(e),
                Ok(s) => match socks@[s.0 as int].remote {
                    Some(e) => Ok(e),
                    None => Err(failed(ENOTCONN)),
                },
            },
            has_addr,
            room,
        ),
{
    match own_socket(table, files, socks, fd) {
        Err(e) => (e, None),
        Ok(s) => match socks[s.0].remote {
            Some(e) => hand_out(e, has_addr, room),
            None => (fail(ENOTCONN), None),
        },
    }
}

} // verus!
