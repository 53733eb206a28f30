//! A socket as a file: which kind of socket answers.

use crate::errno::{EINTR, EINVAL, EOPNOTSUPP};
use crate::net::udp::{Remote, UdpSocket};
use crate::net::unix::{
    accept_outcome, addr_view, after_read, got, kept_len, path_or_empty, posted_to, sent, Got, NetView,
    SockType, StateView, UnixAddr, UnixNet, UnixPollState, UnixRole, UnixSocket,
};
use vstd::prelude::*;

verus! {

/// What a file is waited for.
#[derive(Debug, Clone, Copy, PartialEq, Eq, Structural)]
pub enum IO {
    Read,
    Write,
}

/// A socket of some kind. Those of the network stack are told by their numbers.
#[derive(Debug, PartialEq, Eq, Structural)]
pub enum SocketFile {
    Tcp(usize),
    Udp(UdpSocket),
    Unix(UnixSocket),
}

/// An answer, or the advice to ask the network stack.
#[derive(Debug, PartialEq, Eq)]
pub enum Answer<T> {
    Here(T),
    Stack,
}

/// Whether `after` is the socket `before` once it was asked to take the address `path`: a
/// success keeps the length of the address, a failure keeps the socket as it was.
pub open spec fn addressed(before: SocketFile, after: SocketFile, path: Seq<u8>, ok: bool) -> bool {
    match (before, after) {
        (SocketFile::Unix(a), SocketFile::Unix(b)) => {
            &&& b.state == a.state
            &&& ok ==> b.addr_len == 3 + kept_len(path)
            &&& !ok ==> b == a
        },
        _ => after == before,
    }
}

impl SocketFile {
    pub open spec fn wf(self, net: NetView) -> bool {
        self matches SocketFile::Unix(s) ==> s.wf(net)
    }

    /// Closes the socket.
    pub fn close(&mut self, net: &mut UnixNet) -> (r: Answer<()>)
        requires
            old(net).wf(),
            old(self).wf(old(net)@),
        ensures
            final(net).wf(),
            *final(self) == *old(self),
            match *old(self) {
                SocketFile::Unix(s) => r is Here && final(net)@ == old(net)@.closed(s.state),
                _ => r is Stack && final(net)@ == old(net)@,
            },
    {
        match self {
            SocketFile::Unix(s) => {
                s.close(net);
                Answer::Here(())
            },
            _ => Answer::Stack,
        }
    }

    /// Whether the socket is ready.
    pub fn poll(&mut self, event: IO, net: &UnixNet) -> (r: Answer<bool>)
        requires
            net.wf(),
            old(self).wf(net@),
        ensures
            *final(self) == *old(self),
            match *old(self) {
                SocketFile::Unix(s) => r == Answer::Here(
                    match event {
                        IO::Read => net@.polled(s.state as int).readable,
                        IO::Write => net@.polled(s.state as int).writable,
                    },
                ),
                _ => r == Answer::<bool>::Stack,
            },
    {
        match self {
            SocketFile::Unix(s) => {
                let ps: UnixPollState = s.poll(net);
                Answer::Here(
                    match event {
                        IO::Read => ps.readable,
                        IO::Write => ps.writable,
                    },
                )
            },
            _ => Answer::Stack,
        }
    }

    /// Reads from the socket; `None` if the caller is to wait and to try again.
    pub fn read_nonblock(&mut self, room: usize, nonblock: bool, signal: bool, net: &mut UnixNet) -> (r:
        Answer<Option<Result<Vec<u8>, ()>>>)
        requires
            old(net).wf(),
            old(self).wf(old(net)@),
        ensures
            final(net).wf(),
            *final(self) == *old(self),
            read_answer(*old(self), old(net)@, final(net)@, room as int, nonblock, signal, r),
    {
        match self {
            SocketFile::Unix(s) => {
                Answer::Here(
                    match s.read(room, nonblock, signal, net) {
                        Some(Ok(d)) => Some(Ok(d)),
                        Some(Err(_)) => Some(Err(())),
                        None => None,
                    },
                )
            },
            _ => Answer::Stack,
        }
    }

    /// Reads from the socket, and waits for data.
    pub fn read(&mut self, room: usize, signal: bool, net: &mut UnixNet) -> (r: Answer<
        Option<Result<Vec<u8>, ()>>,
    >)
        requires
            old(net).wf(),
            old(self).wf(old(net)@),
        ensures
            final(net).wf(),
            *final(self) == *old(self),
            read_answer(*old(self), old(net)@, final(net)@, room as int, false, signal, r),
    {
        self.read_nonblock(room, false, signal, net)
    }

    /// Writes to the socket; `None` if the caller is to wait and to try again.
    pub fn write(&mut self, buf: &[u8], signal: bool, net: &mut UnixNet) -> (r: Answer<
        Option<Result<usize, ()>>,
    >)
        requires
            old(net).wf(),
            old(self).wf(old(net)@),
        ensures
            final(net).wf(),
            *final(self) == *old(self),
            match (*old(self), r) {
                (SocketFile::Unix(s), Answer::Here(x)) => {
                    ||| x matches Some(Ok(n)) && unix_sent(
                        old(net)@,
                        final(net)@,
                        s,
                        buf@,
                        signal,
                        Some(Ok(n)),
                    )
                    ||| x matches Some(Err(_)) && exists|e: i32|
                        #[trigger] unix_sent(
                            old(net)@,
                            final(net)@,
                            s,
                            buf@,
                            signal,
                            Some(Err(e)),
                        )
                    ||| x is None && unix_sent(old(net)@, final(net)@, s, buf@, signal, None)
                },
                (SocketFile::Unix(_), Answer::Stack) => false,
                (_, Answer::Here(_)) => false,
                (_, Answer::Stack) => final(net)@ == old(net)@,
            },
    {
        let ghost v = net@;
        match self {
            SocketFile::Unix(s) => {
                let x: Option<Result<usize, i32>> = s.write(buf, false, signal, net);
                proof {
                    assert(unix_sent(v, net@, *s, buf@, signal, x));
                }
                Answer::Here(
                    match x {
                        Some(Ok(n)) => Some(Ok(n)),
                        Some(Err(_)) => Some(Err(())),
                        None => None,
                    },
                )
            },
            _ => Answer::Stack,
        }
    }

    /// Connects the socket to another one on the network; a path is not there.
    pub fn connect(&mut self, _to: Remote) -> (r: Answer<Result<(), ()>>)
        ensures
            *final(self) == *old(self),
            match *old(self) {
                SocketFile::Unix(_) => r matches Answer::Here(x) && x is Err,
                _ => r is Stack,
            },
    {
        match self {
            SocketFile::Unix(_) => Answer::Here(Err(())),
            _ => Answer::Stack,
        }
    }

    /// Binds the socket to a port of the network; a path is no port.
    pub fn bind(&mut self, _port: u16) -> (r: Answer<Result<(), ()>>)
        ensures
            *final(self) == *old(self),
            match *old(self) {
                SocketFile::Unix(_) => r matches Answer::Here(x) && x is Err,
                _ => r is Stack,
            },
    {
        match self {
            SocketFile::Unix(_) => Answer::Here(Err(())),
            _ => Answer::Stack,
        }
    }

    /// Makes the socket one that others connect to; that is for TCP.
    pub fn listen(&mut self, _port: u16) -> (r: Answer<Result<(), ()>>)
        ensures
            *final(self) == *old(self),
            match *old(self) {
                SocketFile::Tcp(_) => r is Stack,
                _ => r matches Answer::Here(x) && x is Err,
            },
    {
        match self {
            SocketFile::Tcp(_) => Answer::Stack,
            _ => Answer::Here(Err(())),
        }
    }

    /// Takes a connection over the network; that is for TCP.
    pub fn accept_new(&mut self) -> (r: Answer<Result<(SocketFile, Remote), ()>>)
        ensures
            *final(self) == *old(self),
            match *old(self) {
                SocketFile::Tcp(_) => r is Stack,
                _ => r matches Answer::Here(x) && x is Err,
            },
    {
        match self {
            SocketFile::Tcp(_) => Answer::Stack,
            _ => Answer::Here(Err(())),
        }
    }

    /// Takes a connection over the network, if one is there; that is for TCP.
    pub fn try_accept_new(&mut self) -> (r: Answer<Result<Option<(SocketFile, Remote)>, ()>>)
        ensures
            *final(self) == *old(self),
            match *old(self) {
                SocketFile::Tcp(_) => r is Stack,
                _ => r matches Answer::Here(x) && x is Err,
            },
    {
        match self {
            SocketFile::Tcp(_) => Answer::Stack,
            _ => Answer::Here(Err(())),
        }
    }

    /// Sends over the network, to the socket that is named, or over the connection of
    /// a TCP socket.
    pub fn send_to(&mut self, _buf: &[u8], _to: Remote) -> (r: Answer<Result<usize, ()>>)
        ensures
            *final(self) == *old(self),
            match *old(self) {
                SocketFile::Unix(_) => r matches Answer::Here(x) && x is Err,
                _ => r is Stack,
            },
    {
        match self {
            SocketFile::Unix(_) => Answer::Here(Err(())),
            _ => Answer::Stack,
        }
    }

    /// Receives a datagram, and learns from whom; that is for UDP.
    pub fn recv_from(&mut self, _room: usize) -> (r: Answer<Result<(Vec<u8>, Remote), ()>>)
        ensures
            *final(self) == *old(self),
            match *old(self) {
                SocketFile::Udp(_) => r is Stack,
                _ => r matches Answer::Here(x) && x is Err,
            },
    {
        match self {
            SocketFile::Udp(_) => Answer::Stack,
            _ => Answer::Here(Err(())),
        }
    }

    /// Connects the socket to a path.
    pub fn connect_unix(&mut self, addr: UnixAddr, net: &mut UnixNet) -> (r: Result<(), i32>)
        requires
            old(net).wf(),
            old(self).wf(old(net)@),
            old(net)@.states.len() < usize::MAX,
        ensures
            final(net).wf(),
            match *old(self) {
                SocketFile::Unix(s) => match old(net)@.connect_error(s.state as int, addr@) {
                    Some(e) => r == Err::<(), i32>(e) && final(net)@ == old(net)@,
                    None => r is Ok && final(net)@ == old(net)@.connected(s.state as int, addr@),
                },
                _ => r == Err::<(), i32>(EOPNOTSUPP) && final(net)@ == old(net)@,
            },
            addressed(*old(self), *final(self), addr@, r is Ok),
    {
        match self {
            SocketFile::Unix(s) => s.connect(addr, net),
            _ => Err(EOPNOTSUPP),
        }
    }

    /// Gives the socket a path.
    pub fn bind_unix(&mut self, addr: UnixAddr, net: &mut UnixNet) -> (r: Result<(), i32>)
        requires
            old(net).wf(),
            old(self).wf(old(net)@),
        ensures
            final(net).wf(),
            match *old(self) {
                SocketFile::Unix(s) => match old(net)@.bind_error(addr@) {
                    Some(e) => r == Err::<(), i32>(e) && final(net)@ == old(net)@,
                    None => r is Ok && final(net)@ == old(net)@.bound(s.state, addr@),
                },
                _ => r == Err::<(), i32>(EOPNOTSUPP) && final(net)@ == old(net)@,
            },
            addressed(*old(self), *final(self), addr@, r is Ok),
    {
        match self {
            SocketFile::Unix(s) => s.bind(addr, net),
            _ => Err(EOPNOTSUPP),
        }
    }

    pub fn listen_unix(&mut self, backlog: i32, net: &mut UnixNet) -> (r: Result<(), i32>)
        requires
            old(net).wf(),
            old(self).wf(old(net)@),
        ensures
            final(net).wf(),
            *final(self) == *old(self),
            match *old(self) {
                SocketFile::Unix(s) => {
                    let v = old(net)@;
                    let st = v.states[s.state as int];
                    if st.sock_type != SockType::Stream {
                        r == Err::<(), i32>(EOPNOTSUPP) && final(net)@ == v
                    } else if st.role != UnixRole::Bound {
                        r == Err::<(), i32>(EINVAL) && final(net)@ == v
                    } else {
                        &&& r is Ok
                        &&& final(net)@ == v.with_state(
                            s.state as int,
                            (StateView { role: UnixRole::Listening, ..st }),
                        )
                    }
                },
                _ => r == Err::<(), i32>(EOPNOTSUPP) && final(net)@ == old(net)@,
            },
    {
        match self {
            SocketFile::Unix(s) => s.listen(backlog, net),
            _ => Err(EOPNOTSUPP),
        }
    }

    /// Accepts a connection, if one waits.
    pub fn try_accept_new_unix(&mut self, net: &mut UnixNet) -> (r: Result<
        Option<(SocketFile, UnixAddr)>,
        i32,
    >)
        requires
            old(net).wf(),
            old(self).wf(old(net)@),
        ensures
            final(net).wf(),
            *final(self) == *old(self),
            match *old(self) {
                SocketFile::Unix(s) => match r {
                    Ok(Some((SocketFile::Unix(n), a))) => accept_outcome(
                        old(net)@,
                        final(net)@,
                        s.state as int,
                        Ok(Some((n, a))),
                    ),
                    Ok(Some(_)) => false,
                    Ok(None) => accept_outcome(old(net)@, final(net)@, s.state as int, Ok(None)),
                    Err(e) => accept_outcome(old(net)@, final(net)@, s.state as int, Err(e)),
                },
                _ => r == Err::<Option<(SocketFile, UnixAddr)>, i32>(EOPNOTSUPP) && final(net)@
                    == old(net)@,
            },
    {
        match self {
            SocketFile::Unix(s) => match s.try_accept_new(net) {
                Ok(Some((sock, addr))) => Ok(Some((SocketFile::Unix(sock), addr))),
                Ok(None) => Ok(None),
                Err(e) => Err(e),
            },
            _ => Err(EOPNOTSUPP),
        }
    }

    /// Accepts a connection; `None` if the caller is to wait for one and to try again.
    pub fn accept_new_unix(&mut self, signal: bool, net: &mut UnixNet) -> (r: Option<
        Result<(SocketFile, UnixAddr), i32>,
    >)
        requires
            old(net).wf(),
            old(self).wf(old(net)@),
        ensures
            final(net).wf(),
            *final(self) == *old(self),
            match *old(self) {
                SocketFile::Unix(s) => {
                    let v = old(net)@;
                    let i = s.state as int;
                    match r {
                        Some(Ok((SocketFile::Unix(n), a))) => accept_outcome(
                            v,
                            final(net)@,
                            i,
                            Ok(Some((n, a))),
                        ),
                        Some(Ok(_)) => false,
                        Some(Err(e)) => final(net)@ == v && match v.accept_error(i) {
                            Some(x) => e == x,
                            None => e == EINTR && signal && v.states[i].backlog.len() == 0,
                        },
                        None => final(net)@ == v && v.accept_error(i) is None
                            && v.states[i].backlog.len() == 0 && !signal,
                    }
                },
                _ => r == Some(Err::<(SocketFile, UnixAddr), i32>(EOPNOTSUPP)) && final(net)@ == old(
                    net,
                )@,
            },
    {
        match self {
            SocketFile::Unix(s) => match s.accept_new(signal, net) {
                Some(Ok((sock, addr))) => Some(Ok((SocketFile::Unix(sock), addr))),
                Some(Err(e)) => Some(Err(e)),
                None => None,
            },
            _ => Some(Err(EOPNOTSUPP)),
        }
    }

    pub fn read_unix(&mut self, room: usize, nonblock: bool, signal: bool, net: &mut UnixNet) -> (r: Option<
        Result<Vec<u8>, i32>,
    >)
        requires
            old(net).wf(),
            old(self).wf(old(net)@),
        ensures
            final(net).wf(),
            *final(self) == *old(self),
            match *old(self) {
                SocketFile::Unix(s) => {
                    &&& final(net)@ == after_read(old(net)@, s.state as int, room as int)
                    &&& match (r, got(old(net)@, s.state as int, room as int, nonblock, signal)) {
                        (Some(Ok(d)), Got::Message(m)) => d@ == m.data,
                        (Some(Err(e)), Got::Failure(x)) => e == x,
                        (None, Got::Wait) => true,
                        _ => false,
                    }
                },
                _ => r == Some(Err::<Vec<u8>, i32>(EOPNOTSUPP)) && final(net)@ == old(net)@,
            },
    {
        match self {
            SocketFile::Unix(s) => s.read(room, nonblock, signal, net),
            _ => Some(Err(EOPNOTSUPP)),
        }
    }

    pub fn write_unix(&mut self, buf: &[u8], nonblock: bool, signal: bool, net: &mut UnixNet) -> (r: Option<
        Result<usize, i32>,
    >)
        requires
            old(net).wf(),
            old(self).wf(old(net)@),
        ensures
            final(net).wf(),
            *final(self) == *old(self),
            match *old(self) {
                SocketFile::Unix(s) => sent(
                    old(net)@,
                    final(net)@,
                    s.state as int,
                    buf@,
                    Seq::empty(),
                    None,
                    nonblock,
                    signal,
                    r,
                ),
                _ => r == Some(Err::<usize, i32>(EOPNOTSUPP)) && final(net)@ == old(net)@,
            },
    {
        match self {
            SocketFile::Unix(s) => s.write(buf, nonblock, signal, net),
            _ => Some(Err(EOPNOTSUPP)),
        }
    }

    pub fn send_to_unix(&mut self, buf: &[u8], addr: &UnixAddr, net: &mut UnixNet) -> (r: Result<
        usize,
        i32,
    >)
        requires
            old(net).wf(),
            old(self).wf(old(net)@),
        ensures
            final(net).wf(),
            *final(self) == *old(self),
            match *old(self) {
                SocketFile::Unix(s) => posted_to(
                    old(net)@,
                    final(net)@,
                    s.state as int,
                    old(net)@.path_target(addr@),
                    buf@,
                    Seq::empty(),
                    r,
                ),
                _ => r == Err::<usize, i32>(EOPNOTSUPP) && final(net)@ == old(net)@,
            },
    {
        match self {
            SocketFile::Unix(s) => s.send_to(buf, addr, net),
            _ => Err(EOPNOTSUPP),
        }
    }

    pub fn recv_from_unix(&mut self, room: usize, nonblock: bool, signal: bool, net: &mut UnixNet) -> (r:
        Option<Result<(Vec<u8>, UnixAddr), i32>>)
        requires
            old(net).wf(),
            old(self).wf(old(net)@),
        ensures
            final(net).wf(),
            *final(self) == *old(self),
            match *old(self) {
                SocketFile::Unix(s) => {
                    let v = old(net)@;
                    let i = s.state as int;
                    if v.states[i].sock_type != SockType::Dgram {
                        r == Some(Err::<(Vec<u8>, UnixAddr), i32>(EOPNOTSUPP)) && final(net)@ == v
                    } else {
                        &&& final(net)@ == v.dgram_read(i)
                        &&& match (r, v.dgram_got(i, room as int, nonblock, signal)) {
                            (Some(Ok(p)), Got::Message(m)) => p.0@ == m.data && p.1@
                                == path_or_empty(m.src),
                            (Some(Err(e)), Got::Failure(x)) => e == x,
                            (None, Got::Wait) => true,
                            _ => false,
                        }
                    }
                },
                _ => r == Some(Err::<(Vec<u8>, UnixAddr), i32>(EOPNOTSUPP)) && final(net)@ == old(
                    net,
                )@,
            },
    {
        match self {
            SocketFile::Unix(s) => s.recv_from(room, nonblock, signal, net),
            _ => Some(Err(EOPNOTSUPP)),
        }
    }

    pub fn shutdown_unix(&mut self, how: i32, net: &mut UnixNet)
        requires
            old(net).wf(),
            old(self).wf(old(net)@),
        ensures
            final(net).wf(),
            *final(self) == *old(self),
            final(net)@ == match *old(self) {
                SocketFile::Unix(s) => old(net)@.shut(s.state as int, how),
                _ => old(net)@,
            },
    {
        match self {
            SocketFile::Unix(s) => s.shutdown(how, net),
            _ => {},
        }
    }

    pub fn poll_unix(&self, net: &UnixNet) -> (r: UnixPollState)
        requires
            net.wf(),
            self.wf(net@),
        ensures
            match *self {
                SocketFile::Unix(s) => r == net@.polled(s.state as int),
                _ => !r.readable && !r.writable && !r.hangup && !r.error,
            },
    {
        match self {
            SocketFile::Unix(s) => s.poll(net),
            _ => UnixPollState { readable: false, writable: false, hangup: false, error: false },
        }
    }

    pub fn local_endpoint_unix(&self, net: &UnixNet) -> (r: Option<UnixAddr>)
        requires
            self.wf(net@),
        ensures
            addr_view(r) == match *self {
                SocketFile::Unix(s) => net@.states[s.state as int].bound,
                _ => None,
            },
    {
        match self {
            SocketFile::Unix(s) => s.local_endpoint(net),
            _ => None,
        }
    }

    pub fn remote_endpoint_unix(&self, net: &UnixNet) -> (r: Option<UnixAddr>)
        requires
            self.wf(net@),
        ensures
            addr_view(r) == match *self {
                SocketFile::Unix(s) => net@.states[s.state as int].peer,
                _ => None,
            },
    {
        match self {
            SocketFile::Unix(s) => s.remote_endpoint(net),
            _ => None,
        }
    }

    pub fn addr_len_unix(&self) -> (r: u32)
        ensures
            r == match *self {
                SocketFile::Unix(s) => s.addr_len,
                _ => 0,
            },
    {
        match self {
            SocketFile::Unix(s) => s.addr_len,
            _ => 0,
        }
    }
}

/// What a plain write to a socket came to.
pub open spec fn unix_sent(
    v: NetView,
    after: NetView,
    s: UnixSocket,
    data: Seq<u8>,
    signal: bool,
    r: Option<Result<usize, i32>>,
) -> bool {
    sent(v, after, s.state as int, data, Seq::empty(), None, false, signal, r)
}

/// What a read of a socket file is answered.
pub open spec fn read_answer(
    f: SocketFile,
    v: NetView,
    after: NetView,
    room: int,
    nonblock: bool,
    signal: bool,
    r: Answer<Option<Result<Vec<u8>, ()>>>,
) -> bool {
    match (f, r) {
        (SocketFile::Unix(s), Answer::Here(x)) => {
            &&& after == after_read(v, s.state as int, room)
            &&& match (x, got(v, s.state as int, room, nonblock, signal)) {
                (Some(Ok(d)), Got::Message(m)) => d@ == m.data,
                (Some(Err(_)), Got::Failure(_)) => true,
                (None, Got::Wait) => true,
                _ => false,
            }
        },
        (SocketFile::Unix(_), Answer::Stack) => false,
        (_, Answer::Here(_)) => false,
        (_, Answer::Stack) => after == v,
    }
}

} // verus!
