//! What a UDP socket asks of the network stack, turn by turn.

use crate::net::random_port;
use crate::net::socket::IO;
use vstd::prelude::*;

verus! {

/// How many seconds a request may take.
pub const TIMEOUT: u64 = 5;

/// Bytes of the headers before the data of a datagram.
pub const HEADERS: usize = 42;

/// Another socket on the network.
#[derive(Debug, Clone, Copy, PartialEq, Eq, Structural)]
pub struct Remote {
    pub addr: u32,
    pub port: u16,
}

/// A UDP socket: its number in the stack, whom it talks to, and its port.
#[derive(Debug, Clone, Copy, PartialEq, Eq, Structural)]
pub struct UdpSocket {
    pub handle: usize,
    pub remote_endpoint: Option<Remote>,
    pub bound_port: Option<u16>,
}

/// The port that is bound where the socket is not open: the one it was given, or any.
pub open spec fn port_chosen(bound: Option<u16>, chance: u16) -> u16 {
    match bound {
        Some(p) => p,
        None => (49152 + chance % 16384) as u16,
    }
}

/// A socket once it was told where to send; `request` is what came of the stack being asked, where it
/// had to be.
pub open spec fn sending_to(s: UdpSocket, addr: u32, port: u16, request: Option<bool>) -> UdpSocket {
    if request == Some(false) {
        s
    } else {
        UdpSocket { remote_endpoint: Some(Remote { addr, port }), ..s }
    }
}

/// Whether a port cannot be bound: there is no network, or the socket is not open and binding it
/// failed.
pub open spec fn bind_refused(stack: Option<bool>, bound: bool) -> bool {
    match stack {
        None => true,
        Some(open) => !open && !bound,
    }
}

impl UdpSocket {
    pub fn new(handle: usize) -> (r: Self)
        ensures
            r == (UdpSocket { handle, remote_endpoint: None, bound_port: None }),
    {
        UdpSocket { handle, remote_endpoint: None, bound_port: None }
    }

    /// How much data a datagram holds, by the largest packet of the network card; one
    /// byte where there is none.
    pub fn size(mtu: Option<usize>) -> (r: usize)
        requires
            mtu matches Some(m) ==> m >= HEADERS,
        ensures
            r == match mtu {
                Some(m) => m - HEADERS,
                None => 1,
            },
    {
        match mtu {
            Some(m) => m - HEADERS,
            None => 1,
        }
    }

    /// The port to bind where the socket is not open: the one it was given, or any.
    pub fn local_choice(&self, chance: u16) -> (r: u16)
        ensures
            r == port_chosen(self.bound_port, chance),
    {
        match self.bound_port {
            Some(p) => p,
            None => random_port(chance),
        }
    }

    /// Whether the socket has to be bound to a port: there must be a network, and the
    /// socket must not be open. The port is kept.
    pub fn bind(&mut self, port: u16, stack: Option<bool>, bound: bool) -> (r: Result<(), ()>)
        ensures
            r is Err <==> bind_refused(stack, bound),
            *final(self) == if bind_refused(stack, bound) {
                *old(self)
            } else {
                UdpSocket { bound_port: Some(port), ..*old(self) }
            },
    {
        match stack {
            None => Err(()),
            Some(open) => {
                if !open && !bound {
                    return Err(());
                }
                self.bound_port = Some(port);
                Ok(())
            },
        }
    }

    /// Keeps whom the socket talks to, unless the request to connect, which is made
    /// where there is a network, failed.
    pub fn connect(&mut self, addr: u32, port: u16, request: Option<bool>) -> (r: Result<(), ()>)
        ensures
            r is Err <==> request == Some(false),
            *final(self) == sending_to(*old(self), addr, port, request),
    {
        match request {
            Some(false) => Err(()),
            _ => {
                self.remote_endpoint = Some(Remote { addr, port });
                Ok(())
            },
        }
    }

    /// Whether the socket is ready, by whether the stack, if there is one, says that
    /// data can be received and that data can be sent.
    pub fn poll(event: IO, stack: Option<(bool, bool)>) -> (r: bool)
        ensures
            r == match (stack, event) {
                (Some(can), IO::Read) => can.0,
                (Some(can), IO::Write) => can.1,
                (None, _) => false,
            },
    {
        match stack {
            Some((can_recv, can_send)) => match event {
                IO::Read => can_recv,
                IO::Write => can_send,
            },
            None => false,
        }
    }

    pub fn remote_endpoint(&self) -> (r: Option<Remote>)
        ensures
            r == self.remote_endpoint,
    {
        self.remote_endpoint
    }

    /// The port of the socket, by the one that the stack names; zero is none.
    pub fn local_port(port: u16) -> (r: Option<u16>)
        ensures
            r == if port == 0 {
                None::<u16>
            } else {
                Some(port)
            },
    {
        if port == 0 {
            None
        } else {
            Some(port)
        }
    }
}

/// What a request is about.
#[derive(Debug, Clone, Copy, PartialEq, Eq, Structural)]
pub enum Purpose {
    /// Send to whoever is named.
    SendTo(Remote),
    /// Send to whom the socket talks to.
    Send,
    /// Receive, and learn from whom.
    RecvFrom,
    /// Receive.
    Recv,
    /// Open the socket.
    Connect,
    /// Close the socket.
    Close,
}

/// A request on its way; `sent` tells that its data was sent, or its socket closed.
#[derive(Debug, Clone, Copy, PartialEq, Eq, Structural)]
pub struct Request {
    pub purpose: Purpose,
    pub started: u64,
    pub sent: bool,
}

/// What the stack is asked for next.
#[derive(Debug, Clone, Copy, PartialEq, Eq, Structural)]
pub enum Ask {
    /// Let the stack run, and say whether the socket is open.
    Run,
    /// Bind the socket to a port, and say whether that worked.
    Bind(u16),
    /// Say whether data can be sent or received.
    Ready,
    /// Send the data to this socket, and say whether that worked.
    Transmit(Remote),
    /// Take data that was received, and say whether that worked.
    Receive,
    /// Close the socket.
    Shut,
    /// Wait until something may have happened, and say what time it is.
    Pause,
    /// The request is done.
    Finish,
    /// The request failed.
    Fail,
}

/// What the stack said.
#[derive(Debug, Clone, Copy, PartialEq, Eq, Structural)]
pub enum Reply {
    /// What time it is, in seconds.
    Time(u64),
    /// Whether the time of the request is up.
    Late(bool),
    /// It ran, and the socket is open or not.
    Ran(bool),
    /// The socket was bound or not.
    Bound(bool),
    /// Data can be sent or received, or not.
    Readiness(bool),
    /// Data was sent or received, or not.
    Moved(bool),
    /// The socket was closed.
    Closed,
}

/// Whether a request binds a socket that is not open.
pub open spec fn binds(p: Purpose) -> bool {
    p is SendTo || p is RecvFrom || p is Connect
}

pub open spec fn sends(p: Purpose) -> bool {
    p is SendTo || p is Send
}

/// The next question, and the request after it. A request fails once it has taken more
/// than its time, unless it is to close. What was sent is out, and what was closed is
/// gone, after the stack ran once more.
pub open spec fn next_ask(q: Request, s: UdpSocket, reply: Reply, chance: u16) -> (Ask, Request) {
    match reply {
        Reply::Time(now) => if now - q.started > TIMEOUT && !(q.purpose is Close) {
            (Ask::Fail, q)
        } else {
            (Ask::Run, q)
        },
        Reply::Late(late) => if late && !(q.purpose is Close) {
            (Ask::Fail, q)
        } else {
            (Ask::Run, q)
        },
        Reply::Ran(open) => if q.sent {
            (Ask::Finish, q)
        } else if q.purpose is Close {
            (Ask::Shut, q)
        } else if q.purpose is Connect && open {
            (Ask::Pause, q)
        } else if binds(q.purpose) && !open {
            (
                Ask::Bind(
                    match s.bound_port {
                        Some(p) => p,
                        None => (49152 + chance % 16384) as u16,
                    },
                ),
                q,
            )
        } else {
            (Ask::Ready, q)
        },
        Reply::Bound(ok) => if !ok {
            (Ask::Fail, q)
        } else if q.purpose is Connect {
            (Ask::Finish, q)
        } else {
            (Ask::Ready, q)
        },
        Reply::Readiness(ready) => if !ready {
            (Ask::Pause, q)
        } else {
            match q.purpose {
                Purpose::SendTo(to) => (Ask::Transmit(to), q),
                Purpose::Send => match s.remote_endpoint {
                    Some(to) => (Ask::Transmit(to), q),
                    None => (Ask::Fail, q),
                },
                Purpose::RecvFrom | Purpose::Recv => (Ask::Receive, q),
                Purpose::Connect | Purpose::Close => (Ask::Pause, q),
            }
        },
        Reply::Moved(ok) => if !ok {
            (Ask::Fail, q)
        } else if sends(q.purpose) {
            (Ask::Pause, Request { sent: true, ..q })
        } else {
            (Ask::Finish, q)
        },
        Reply::Closed => (Ask::Pause, Request { sent: true, ..q }),
    }
}

impl Request {
    pub fn new(purpose: Purpose, now: u64) -> (r: Self)
        ensures
            r == (Request { purpose, started: now, sent: false }),
    {
        Request { purpose, started: now, sent: false }
    }

    /// Goes on with what the stack said.
    pub fn step(&mut self, socket: &UdpSocket, reply: Reply, chance: u16) -> (r: Ask)
        requires
            reply matches Reply::Time(now) ==> now >= old(self).started,
            old(self).purpose is Connect ==> reply != Reply::Bound(false),
        ensures
            (r, *final(self)) == next_ask(*old(self), *socket, reply, chance),
    {
        match reply {
            Reply::Time(now) => {
                let late: bool = now - self.started > TIMEOUT;
                self.turn(late)
            },
            Reply::Late(late) => self.turn(late),
            Reply::Ran(open) => {
                if self.sent {
                    return Ask::Finish;
                }
                match self.purpose {
                    Purpose::Close => Ask::Shut,
                    Purpose::Connect => if open {
                        Ask::Pause
                    } else {
                        Ask::Bind(socket.local_choice(chance))
                    },
                    Purpose::SendTo(_) | Purpose::RecvFrom => if open {
                        Ask::Ready
                    } else {
                        Ask::Bind(socket.local_choice(chance))
                    },
                    Purpose::Send | Purpose::Recv => Ask::Ready,
                }
            },
            Reply::Bound(ok) => {
                if !ok {
                    return Ask::Fail;
                }
                match self.purpose {
                    Purpose::Connect => Ask::Finish,
                    _ => Ask::Ready,
                }
            },
            Reply::Readiness(ready) => {
                if !ready {
                    return Ask::Pause;
                }
                match self.purpose {
                    Purpose::SendTo(to) => Ask::Transmit(to),
                    Purpose::Send => match socket.remote_endpoint {
                        Some(to) => Ask::Transmit(to),
                        None => Ask::Fail,
                    },
                    Purpose::RecvFrom | Purpose::Recv => Ask::Receive,
                    Purpose::Connect | Purpose::Close => Ask::Pause,
                }
            },
            Reply::Moved(ok) => {
                if !ok {
                    return Ask::Fail;
                }
                match self.purpose {
                    Purpose::SendTo(_) | Purpose::Send => {
                        self.sent = true;
                        Ask::Pause
                    },
                    _ => Ask::Finish,
                }
            },
            Reply::Closed => {
                self.sent = true;
                Ask::Pause
            },
        }
    }

    /// Begins a turn, unless the time is up.
    fn turn(&self, late: bool) -> (r: Ask)
        ensures
            r == if late && !(self.purpose is Close) {
                Ask::Fail
            } else {
                Ask::Run
            },
    {
        match self.purpose {
            Purpose::Close => Ask::Run,
            _ => if late {
                Ask::Fail
            } else {
                Ask::Run
            },
        }
    }
}

/// Data is sent once: after it was, no reply of the stack makes the request send again
/// before it ends.
pub proof fn lemma_sent_once(q: Request, s: UdpSocket, open: bool, chance: u16)
    requires
        q.sent,
    ensures
        next_ask(q, s, Reply::Ran(open), chance).0 == Ask::Finish,
        forall|now: u64|
            now >= q.started ==> {
                let a = #[trigger] next_ask(q, s, Reply::Time(now), chance);
                a.1 == q && (a.0 == Ask::Fail || a.0 == Ask::Run)
            },
{
}

} // verus!
