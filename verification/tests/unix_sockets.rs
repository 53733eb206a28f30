use twilight_kernel::errno::{
    EADDRINUSE, EAGAIN, ECONNREFUSED, EDESTADDRREQ, EINTR, EINVAL, EISCONN, ENOTCONN, EOPNOTSUPP,
    EPIPE,
};
use twilight_kernel::net::socket::{Answer, SocketFile, IO};
use twilight_kernel::net::unix::{
    SockType, UnixAddr, UnixControl, UnixNet, UnixPollState, UnixSocket, SHUT_RD, SHUT_RDWR, SHUT_WR,
};

fn addr(path: &str) -> UnixAddr {
    UnixAddr { path: path.as_bytes().to_vec() }
}

fn none() -> UnixControl {
    UnixControl { rights: Vec::new() }
}

#[test]
fn addresses_are_paths() {
    assert_eq!(UnixAddr::from_bytes(b"/tmp/x\0rest").unwrap(), addr("/tmp/x"));
    assert_eq!(UnixAddr::from_bytes(b"/tmp/x").unwrap(), addr("/tmp/x"));
    assert_eq!(UnixAddr::from_bytes(b"").unwrap_err(), EINVAL);
    assert_eq!(UnixAddr::from_bytes(b"\0abc").unwrap_err(), EINVAL);
    assert_eq!(UnixAddr::from_bytes(b"\xFFabc").unwrap_err(), EINVAL);
    let long = vec![b'a'; 200];
    assert_eq!(UnixAddr::from_bytes(&long).unwrap().path.len(), 108);
    let a = addr("/tmp/x");
    let raw = a.as_bytes();
    assert_eq!(raw.len(), 108);
    assert_eq!(&raw[..7], b"/tmp/x\0");
    assert_eq!(UnixAddr::from_bytes(&raw).unwrap(), a);
    assert_eq!(a.addr_len(), 9);
}

#[test]
fn a_pair_carries_bytes_both_ways() {
    let mut net = UnixNet::new();
    let (mut a, mut b) = UnixSocket::pair(SockType::Stream, &mut net);
    assert_eq!(a.write(b"hello", true, false, &mut net), Some(Ok(5)));
    assert_eq!(a.write(b" world", true, false, &mut net), Some(Ok(6)));
    assert_eq!(b.read(3, true, false, &mut net), Some(Ok(b"hel".to_vec())));
    assert_eq!(b.read(100, true, false, &mut net), Some(Ok(b"lo world".to_vec())));
    assert_eq!(b.read(100, true, false, &mut net), Some(Err(EAGAIN)));
    assert_eq!(b.read(100, false, true, &mut net), Some(Err(EINTR)));
    assert_eq!(b.read(100, false, false, &mut net), None);
    assert_eq!(b.write(b"x", true, false, &mut net), Some(Ok(1)));
    assert_eq!(a.read(100, true, false, &mut net), Some(Ok(b"x".to_vec())));
    assert_eq!(a.write(b"", true, false, &mut net), Some(Ok(0)));
}

#[test]
fn a_channel_holds_so_much() {
    let mut net = UnixNet::new();
    let (mut a, mut b) = UnixSocket::pair(SockType::Stream, &mut net);
    let big = vec![7u8; 5000];
    assert_eq!(a.write(&big, true, false, &mut net), Some(Ok(4096)));
    assert_eq!(a.write(b"x", true, false, &mut net), Some(Err(EAGAIN)));
    assert_eq!(a.write(b"x", false, true, &mut net), Some(Err(EINTR)));
    assert_eq!(a.write(b"x", false, false, &mut net), None);
    assert!(!a.poll(&net).writable);
    assert_eq!(b.read(96, true, false, &mut net).unwrap().unwrap().len(), 96);
    let exact = vec![1u8; 97];
    assert_eq!(a.write(&exact, true, false, &mut net), Some(Err(EAGAIN)));
    assert_eq!(a.write(&exact[..96], true, false, &mut net), Some(Ok(96)));
    assert_eq!(b.read(10000, true, false, &mut net).unwrap().unwrap().len(), 4096);
}

#[test]
fn files_travel_with_the_first_byte() {
    let mut net = UnixNet::new();
    let (mut a, mut b) = UnixSocket::pair(SockType::Stream, &mut net);
    let files = UnixControl { rights: vec![11, 12] };
    assert_eq!(a.send_msg(b"abc", files, None, true, false, &mut net), Some(Ok(3)));
    let m = b.recv_msg(1, true, false, &mut net).unwrap().unwrap();
    assert_eq!((m.data, m.control.rights), (b"a".to_vec(), vec![11, 12]));
    let m = b.recv_msg(10, true, false, &mut net).unwrap().unwrap();
    assert_eq!((m.data, m.control.rights), (b"bc".to_vec(), vec![]));
}

#[test]
fn a_server_and_a_client() {
    let mut net = UnixNet::new();
    let mut server = UnixSocket::new(SockType::Stream, &mut net);
    let mut client = UnixSocket::new(SockType::Stream, &mut net);
    assert_eq!(client.connect(addr("/s"), &mut net), Err(ECONNREFUSED));
    assert_eq!(server.listen(5, &mut net), Err(EINVAL));
    assert_eq!(server.bind(addr(""), &mut net), Err(EINVAL));
    assert_eq!(server.bind(addr("/s"), &mut net), Ok(()));
    assert_eq!(server.addr_len, 5);
    assert_eq!(client.bind(addr("/s"), &mut net), Err(EADDRINUSE));
    assert_eq!(client.connect(addr("/s"), &mut net), Err(ECONNREFUSED));
    assert_eq!(server.listen(5, &mut net), Ok(()));
    assert_eq!(server.connect(addr("/s"), &mut net), Err(EINVAL));
    assert_eq!(server.try_accept_new(&mut net), Ok(None));
    assert_eq!(server.accept_new(true, &mut net), Some(Err(EINTR)));
    assert_eq!(server.accept_new(false, &mut net), None);
    assert_eq!(client.connect(addr("/s"), &mut net), Ok(()));
    assert_eq!(client.connect(addr("/s"), &mut net), Err(EISCONN));
    assert!(server.poll(&net).readable);
    let (mut peer, from) = server.accept_new(false, &mut net).unwrap().unwrap();
    assert_eq!(from, addr(""));
    assert_eq!(peer.addr_len, 5);
    assert_eq!(peer.local_endpoint(&net), Some(addr("/s")));
    assert_eq!(client.remote_endpoint(&net), Some(addr("/s")));
    assert_eq!(client.write(b"hi", true, false, &mut net), Some(Ok(2)));
    assert_eq!(peer.read(9, true, false, &mut net), Some(Ok(b"hi".to_vec())));
    peer.close(&mut net);
    // The address stays that of the listener.
    assert_eq!(client.bind(addr("/s"), &mut net), Err(EADDRINUSE));
    server.close(&mut net);
    let mut other = UnixSocket::new(SockType::Stream, &mut net);
    assert_eq!(other.bind(addr("/s"), &mut net), Ok(()));
    assert_eq!(other.accept_new(false, &mut net), Some(Err(EINVAL)));
    let mut d = UnixSocket::new(SockType::Dgram, &mut net);
    assert_eq!(d.listen(1, &mut net), Err(EOPNOTSUPP));
    assert_eq!(d.connect(addr("/s"), &mut net), Err(EOPNOTSUPP));
    assert_eq!(d.try_accept_new(&mut net), Err(EOPNOTSUPP));
}

#[test]
fn a_closed_end_is_noticed() {
    let mut net = UnixNet::new();
    let (a, mut b) = UnixSocket::pair(SockType::Stream, &mut net);
    let shared = a.share(&mut net);
    a.release(&mut net);
    assert_eq!(b.write(b"x", true, false, &mut net), Some(Ok(1)));
    shared.release(&mut net);
    assert_eq!(b.write(b"x", true, false, &mut net), Some(Err(EPIPE)));
    assert_eq!(b.read(1, true, false, &mut net), Some(Ok(vec![])));
    assert_eq!(
        b.poll(&net),
        UnixPollState { readable: false, writable: false, hangup: true, error: true }
    );
    b.close(&mut net);
    assert_eq!(b.read(1, true, false, &mut net), Some(Err(ENOTCONN)));
    assert_eq!(b.write(b"x", true, false, &mut net), Some(Err(ENOTCONN)));
    assert_eq!(
        b.poll(&net),
        UnixPollState { readable: false, writable: false, hangup: false, error: false }
    );
}

#[test]
fn directions_are_shut() {
    let mut net = UnixNet::new();
    let (mut a, mut b) = UnixSocket::pair(SockType::Stream, &mut net);
    a.shutdown(SHUT_WR, &mut net);
    assert_eq!(a.write(b"x", true, false, &mut net), Some(Err(EPIPE)));
    assert_eq!(b.write(b"x", true, false, &mut net), Some(Ok(1)));
    b.shutdown(SHUT_RD, &mut net);
    assert_eq!(b.read(1, true, false, &mut net), Some(Ok(vec![])));
    b.shutdown(7, &mut net);
    assert_eq!(b.write(b"x", true, false, &mut net), Some(Ok(1)));
    b.shutdown(SHUT_RDWR, &mut net);
    assert_eq!(b.write(b"x", true, false, &mut net), Some(Err(EPIPE)));
}

#[test]
fn messages_keep_their_borders() {
    let mut net = UnixNet::new();
    let mut a = UnixSocket::new(SockType::Dgram, &mut net);
    let mut b = UnixSocket::new(SockType::Dgram, &mut net);
    assert_eq!(a.send_to(b"x", &addr("/b"), &mut net), Err(ECONNREFUSED));
    assert_eq!(a.write(b"x", true, false, &mut net), Some(Err(EDESTADDRREQ)));
    b.bind(addr("/b"), &mut net).unwrap();
    a.bind(addr("/a"), &mut net).unwrap();
    assert_eq!(a.send_to(b"hello", &addr("/b"), &mut net), Ok(5));
    assert_eq!(a.send_msg(b"!", none(), Some(&addr("/b")), true, false, &mut net), Some(Ok(1)));
    assert!(b.poll(&net).readable);
    let m = b.recv_msg(3, true, false, &mut net).unwrap().unwrap();
    assert_eq!((m.data, m.truncated, m.src), (b"hel".to_vec(), true, Some(addr("/a"))));
    assert_eq!(b.recv_from(9, true, false, &mut net), Some(Ok((b"!".to_vec(), addr("/a")))));
    assert_eq!(b.recv_from(9, true, false, &mut net), Some(Err(EAGAIN)));
    let mut s = UnixSocket::new(SockType::Stream, &mut net);
    s.bind(addr("/s"), &mut net).unwrap();
    assert_eq!(a.send_to(b"x", &addr("/s"), &mut net), Err(EOPNOTSUPP));
    assert_eq!(s.recv_from(9, true, false, &mut net), Some(Err(EOPNOTSUPP)));
    assert_eq!(s.sock_type(&net), SockType::Stream);
}

#[test]
fn a_pair_of_message_sockets() {
    let mut net = UnixNet::new();
    let (mut a, mut b) = UnixSocket::pair(SockType::Dgram, &mut net);
    assert_eq!(a.write(b"one", true, false, &mut net), Some(Ok(3)));
    assert_eq!(b.read(9, true, false, &mut net), Some(Ok(b"one".to_vec())));
    let again = b.share(&mut net);
    b.close(&mut net);
    assert_eq!(a.write(b"x", true, false, &mut net), Some(Err(ECONNREFUSED)));
    assert!(a.poll(&net).hangup);
    b.release(&mut net);
    again.release(&mut net);
    assert_eq!(a.write(b"x", true, false, &mut net), Some(Err(EDESTADDRREQ)));
}

#[test]
fn sockets_as_files() {
    let mut net = UnixNet::new();
    let (a, b) = UnixSocket::pair(SockType::Stream, &mut net);
    let mut a = SocketFile::Unix(a);
    let mut b = SocketFile::Unix(b);
    let mut t = SocketFile::Tcp(3);
    assert_eq!(a.write(b"hey", false, &mut net), Answer::Here(Some(Ok(3))));
    assert_eq!(b.poll(IO::Read, &net), Answer::Here(true));
    assert_eq!(b.read(2, false, &mut net), Answer::Here(Some(Ok(b"he".to_vec()))));
    assert_eq!(b.read_unix(2, true, false, &mut net), Some(Ok(b"y".to_vec())));
    assert_eq!(b.read_nonblock(2, true, false, &mut net), Answer::Here(Some(Err(()))));
    assert_eq!(b.read(2, false, &mut net), Answer::Here(None));
    assert_eq!(b.poll(IO::Write, &net), Answer::Here(true));
    assert_eq!(b.write_unix(b"z", true, false, &mut net), Some(Ok(1)));
    assert_eq!(a.bind(80), Answer::Here(Err(())));
    assert_eq!(a.listen(80), Answer::Here(Err(())));
    assert_eq!(t.listen(80), Answer::Stack);
    assert_eq!(t.bind(80), Answer::Stack);
    assert_eq!(t.read(1, false, &mut net), Answer::Stack);
    assert_eq!(t.write(b"x", false, &mut net), Answer::Stack);
    assert_eq!(t.close(&mut net), Answer::Stack);
    assert_eq!(t.poll(IO::Read, &net), Answer::Stack);
    assert_eq!(t.read_unix(1, true, false, &mut net), Some(Err(EOPNOTSUPP)));
    assert_eq!(t.write_unix(b"x", true, false, &mut net), Some(Err(EOPNOTSUPP)));
    assert_eq!(t.connect_unix(addr("/s"), &mut net), Err(EOPNOTSUPP));
    assert_eq!(t.bind_unix(addr("/s"), &mut net), Err(EOPNOTSUPP));
    assert_eq!(t.listen_unix(1, &mut net), Err(EOPNOTSUPP));
    assert_eq!(t.try_accept_new_unix(&mut net).unwrap_err(), EOPNOTSUPP);
    assert_eq!(t.accept_new_unix(false, &mut net).unwrap().unwrap_err(), EOPNOTSUPP);
    assert_eq!(t.send_to_unix(b"x", &addr("/s"), &mut net), Err(EOPNOTSUPP));
    assert_eq!(t.recv_from_unix(1, true, false, &mut net), Some(Err(EOPNOTSUPP)));
    assert_eq!(t.local_endpoint_unix(&net), None);
    assert_eq!(t.remote_endpoint_unix(&net), None);
    assert_eq!(t.addr_len_unix(), 0);
    assert!(!t.poll_unix(&net).writable);
    assert!(a.poll_unix(&net).writable);
    a.shutdown_unix(SHUT_WR, &mut net);
    assert!(!a.poll_unix(&net).writable);
    assert_eq!(a.close(&mut net), Answer::Here(()));
    assert_eq!(b.write(b"x", false, &mut net), Answer::Here(Some(Err(()))));
}

#[test]
fn a_server_as_a_file() {
    let mut net = UnixNet::new();
    let mut s = SocketFile::Unix(UnixSocket::new(SockType::Stream, &mut net));
    let mut c = SocketFile::Unix(UnixSocket::new(SockType::Stream, &mut net));
    s.bind_unix(addr("/q"), &mut net).unwrap();
    s.listen_unix(1, &mut net).unwrap();
    assert!(s.accept_new_unix(false, &mut net).is_none());
    assert_eq!(s.try_accept_new_unix(&mut net).unwrap(), None);
    c.connect_unix(addr("/q"), &mut net).unwrap();
    let (p, from) = s.try_accept_new_unix(&mut net).unwrap().unwrap();
    assert_eq!(from, addr(""));
    assert_eq!(p.local_endpoint_unix(&net), Some(addr("/q")));
    assert_eq!(c.remote_endpoint_unix(&net), Some(addr("/q")));
    assert_eq!(c.addr_len_unix(), 5);
}
