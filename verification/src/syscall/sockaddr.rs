//! Socket addresses as programs pass them, ports, and the sockets that programs ask for.

use crate::bytes::push_repeat;
use crate::errno::{fail, failed, EAFNOSUPPORT, EFAULT, EINVAL, EPROTONOSUPPORT};
use crate::proc::process::{FdEntry, OpenFile, OpenFileKind, ProcView, Process, FD_CLOEXEC};
use crate::syscall::files::{install_result, installed, O_NONBLOCK, O_RDWR};
use std::collections::BTreeMap;
use vstd::prelude::*;

verus! {

pub const AF_INET: u16 = 2;

pub const SOCK_STREAM: i32 = 1;

pub const SOCK_DGRAM: i32 = 2;

pub const SOCK_NONBLOCK: i32 = 0x800;

pub const SOCK_CLOEXEC: i32 = 0x8_0000;

pub const MSG_DONTWAIT: i32 = 0x40;

pub const SOL_SOCKET: i32 = 1;

pub const SO_REUSEADDR: i32 = 2;

/// Bytes of a socket address.
pub const SOCKADDR_LEN: usize = 16;

/// The first port of those that are given out by chance.
pub const EPHEMERAL_FIRST: u16 = 49152;

/// An address of the Internet, its first byte highest, and a port.
#[derive(Debug, Clone, Copy, PartialEq, Eq, Structural)]
pub struct Endpoint {
    pub addr: u32,
    pub port: u16,
}

/// The number that two bytes are, the first one highest.
pub open spec fn be16(a: u8, b: u8) -> u16 {
    (a * 256 + b) as u16
}

/// The number that four bytes are, the first one highest.
pub open spec fn be32(a: u8, b: u8, c: u8, d: u8) -> u32 {
    (((a * 256 + b) * 256 + c) * 256 + d) as u32
}

/// The address in sixteen bytes.
pub open spec fn endpoint_in(s: Seq<u8>) -> Endpoint {
    Endpoint { addr: be32(s[4], s[5], s[6], s[7]), port: be16(s[2], s[3]) }
}

/// The bytes of an address.
pub open spec fn endpoint_bytes(e: Endpoint) -> Seq<u8> {
    seq![
        2u8,
        0,
        (e.port / 256) as u8,
        (e.port % 256) as u8,
        (e.addr / 0x100_0000) as u8,
        (e.addr / 0x1_0000 % 256) as u8,
        (e.addr / 256 % 256) as u8,
        (e.addr % 256) as u8,
        0,
        0,
        0,
        0,
        0,
        0,
        0,
        0,
    ]
}

/// The address that `bytes` are, None standing for none; or why they are none.
pub open spec fn addr_in(bytes: Option<&Vec<u8>>) -> Result<Endpoint, i32> {
    match bytes {
        None => Err(EFAULT),
        Some(b) => if b@.len() < 16 {
            Err(EINVAL)
        } else if b@[0] != 2 || b@[1] != 0 {
            Err(EAFNOSUPPORT)
        } else {
            Ok(endpoint_in(b@))
        },
    }
}

/// Reads an address; `bytes` holds what lies at the address of it, None stands for none.
pub fn parse_sockaddr_in(bytes: Option<&Vec<u8>>) -> (r: Result<Endpoint, i32>)
    ensures
        r == addr_in(bytes),
{
    let b: &Vec<u8> = match bytes {
        None => return Err(EFAULT),
        Some(b) => b,
    };
    if b.len() < SOCKADDR_LEN {
        return Err(EINVAL);
    }
    if b[0] != 2 || b[1] != 0 {
        return Err(EAFNOSUPPORT);
    }
    let port: u16 = b[2] as u16 * 256 + b[3] as u16;
    let addr: u32 = ((b[4] as u32 * 256 + b[5] as u32) * 256 + b[6] as u32) * 256 + b[7] as u32;
    Ok(Endpoint { addr, port })
}

fn address_bytes(e: Endpoint) -> (r: Vec<u8>)
    ensures
        r@ == endpoint_bytes(e),
{
    let mut v: Vec<u8> = Vec::new();
    v.push(2);
    v.push(0);
    v.push((e.port / 256) as u8);
    v.push((e.port % 256) as u8);
    v.push((e.addr / 0x100_0000) as u8);
    v.push((e.addr / 0x1_0000 % 256) as u8);
    v.push((e.addr / 256 % 256) as u8);
    v.push((e.addr % 256) as u8);
    push_repeat(&mut v, 0, 8);
    proof {
        assert(v@ =~= endpoint_bytes(e));
    }
    v
}

/// Hands out an address. `has_addr` says whether one is wanted, `room` is how much room
/// there is for it. The result is what is to be written: the address, where it fits, and
/// its length.
pub fn write_sockaddr_in(has_addr: bool, room: Option<u32>, e: Endpoint) -> (r: Result<
    Option<(Option<Vec<u8>>, u32)>,
    i64,
>)
    ensures
        if !has_addr {
            r matches Ok(None)
        } else {
            match room {
                None => r == Err::<Option<(Option<Vec<u8>>, u32)>, i64>(failed(EFAULT)),
                Some(n) => if n < 16 {
                    r matches Ok(Some((None, k))) && k == 16
                } else {
                    r matches Ok(Some((Some(v), k))) && k == 16 && v@ == endpoint_bytes(e)
                },
            }
        },
{
    if !has_addr {
        return Ok(None);
    }
    match room {
        None => Err(fail(EFAULT)),
        Some(n) => if n < 16 {
            Ok(Some((None, 16)))
        } else {
            Ok(Some((Some(address_bytes(e)), 16)))
        },
    }
}

/// An address that was written is read back.
pub proof fn lemma_address_round_trip(e: Endpoint)
    ensures
        endpoint_bytes(e).len() == 16,
        endpoint_bytes(e)[0] == 2,
        endpoint_bytes(e)[1] == 0,
        endpoint_in(endpoint_bytes(e)) == e,
{
    let s = endpoint_bytes(e);
    assert(s[2] * 256 + s[3] == e.port);
    assert(((s[4] * 256 + s[5]) * 256 + s[6]) * 256 + s[7] == e.addr);
}

/// A port for a socket that asked for none; `chance` is a random number.
pub fn random_ephemeral_port(chance: u16) -> (r: u16)
    ensures
        r == 49152 + chance % 16384,
{
    EPHEMERAL_FIRST + chance % 16384
}

/// A socket that a program asks for.
#[derive(Debug, Clone, Copy, PartialEq, Eq, Structural)]
pub enum NewSocket {
    Stream,
    Datagram,
}

/// Which socket is asked for.
pub open spec fn socket_kind(domain: i32, sock_type: i32) -> Result<NewSocket, i64> {
    if domain as u16 != AF_INET {
        Err(failed(EAFNOSUPPORT))
    } else if sock_type & 0xF == SOCK_STREAM {
        Ok(NewSocket::Stream)
    } else if sock_type & 0xF == SOCK_DGRAM {
        Ok(NewSocket::Datagram)
    } else {
        Err(failed(EPROTONOSUPPORT))
    }
}

pub fn socket_request(domain: i32, sock_type: i32) -> (r: Result<NewSocket, i64>)
    ensures
        r == socket_kind(domain, sock_type),
{
    let family: u16 = #[verifier::truncate]
    (domain as u16);
    if family != AF_INET {
        return Err(fail(EAFNOSUPPORT));
    }
    let base: i32 = sock_type & 0xF;
    if base == SOCK_STREAM {
        Ok(NewSocket::Stream)
    } else if base == SOCK_DGRAM {
        Ok(NewSocket::Datagram)
    } else {
        Err(fail(EPROTONOSUPPORT))
    }
}

pub open spec fn socket_word() -> Seq<u8> {
    seq![115u8, 111, 99, 107, 101, 116]
}

/// Opens a descriptor for socket `sock`, which is file number `file` from now on.
pub fn install_socket(p: &mut Process, sock: usize, file: usize, nonblock: bool, cloexec: bool) -> (r: (
    i64,
    OpenFile,
))
    requires
        old(p)@.fd_table.len() < usize::MAX,
    ensures
        r.0 == install_result(old(p)@.fd_table, 0),
        final(p)@ == (ProcView {
            fd_table: installed(
                old(p)@.fd_table,
                0,
                FdEntry {
                    file,
                    fd_flags: if cloexec {
                        FD_CLOEXEC
                    } else {
                        0
                    },
                },
            ),
            ..old(p)@
        }),
        r.1.kind == OpenFileKind::Socket(sock),
        r.1.seek == 0,
        r.1.path@ == socket_word(),
        r.1.status_flags == O_RDWR | (if nonblock {
            O_NONBLOCK
        } else {
            0
        }),
{
    let word: [u8; 6] = [115u8, 111, 99, 107, 101, 116];
    let path: Vec<u8> = crate::bytes::to_vec(&word);
    proof {
        assert(word@ =~= socket_word());
        crate::syscall::files::lemma_free_bounds(p@.fd_table, 0);
        assert(crate::proc::process::grown(p@.fd_table, 0) =~= p@.fd_table);
    }
    let bits: i32 = if nonblock {
        O_NONBLOCK
    } else {
        0
    };
    let open: OpenFile = OpenFile {
        kind: OpenFileKind::Socket(sock),
        seek: 0,
        path,
        status_flags: O_RDWR | bits,
    };
    let fd_flags: i32 = if cloexec {
        FD_CLOEXEC
    } else {
        0
    };
    let r: i64 = match p.install_fd(FdEntry { file, fd_flags }, 0) {
        Ok(fd) => fd as i64,
        Err(errno) => fail(errno),
    };
    (r, open)
}

/// The ports that are taken, and by which process.
pub struct PortMap {
    pub owners: BTreeMap<u16, u16>,
}

impl PortMap {
    /// Who has a port.
    pub open spec fn owner(&self, port: u16) -> Option<u16> {
        if self.owners@.contains_key(port) {
            Some(self.owners@[port])
        } else {
            None
        }
    }

    pub fn new() -> (r: Self)
        ensures
            forall|port: u16| (#[trigger] r.owner(port)) is None,
    {
        PortMap { owners: BTreeMap::new() }
    }

    pub fn contains(&self, port: u16) -> (r: bool)
        ensures
            r == (self.owner(port) is Some),
    {
        self.owners.contains_key(&port)
    }

    pub fn insert(&mut self, port: u16, pid: u16)
        ensures
            forall|q: u16| #[trigger]
                final(self).owner(q) == if q == port {
                    Some(pid)
                } else {
                    old(self).owner(q)
                },
    {
        self.owners.insert(port, pid);
    }
}

} // verus!
