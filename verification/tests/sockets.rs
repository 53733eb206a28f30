use twilight_kernel::errno::{
    EADDRINUSE, EAFNOSUPPORT, EAGAIN, EBADF, EDESTADDRREQ, EFAULT, EINVAL, EIO, ENOPROTOOPT, ENOTCONN,
    ENOTSOCK, EOPNOTSUPP, EPROTONOSUPPORT, ESRCH, ETIMEDOUT,
};
use twilight_kernel::proc::launch::{kernel_process, standard_fd_table, Resources};
use twilight_kernel::proc::process::{FdEntry, OpenFile, OpenFileKind, FD_CLOEXEC};
use twilight_kernel::proc::table::ProcessTable;
use twilight_kernel::syscall::sockaddr::{
    parse_sockaddr_in, random_ephemeral_port, socket_request, write_sockaddr_in, Endpoint, NewSocket,
    PortMap, MSG_DONTWAIT, SOCK_CLOEXEC, SOCK_NONBLOCK,
};
use twilight_kernel::syscall::sockets::{
    accept, accept4, accept_done, bind, bind_done, connect, connect_done, getpeername, getsockname,
    getsockopt, listen, listen_done, recvfrom, recvfrom_done, sendto, sendto_done, setsockopt, shutdown,
    socket, Accepted, SocketState,
};

fn failed(e: i32) -> i64 {
    -(e as i64)
}

fn open(kind: OpenFileKind, status_flags: i32) -> OpenFile {
    OpenFile { kind, seek: 0, path: b"socket".to_vec(), status_flags }
}

/// A process with a terminal, a stream as descriptor 3 and a datagram socket as descriptor 4.
fn setting() -> (ProcessTable, Vec<OpenFile>, Vec<SocketState>) {
    let mut p = kernel_process(Resources { page_table: 1, kernel_rsp: 0x9000, proc_mm: 0 });
    p.pid = 7;
    p.fd_table = standard_fd_table(0, 0, 0);
    p.fd_table.push(Some(FdEntry { file: 1, fd_flags: 0 }));
    p.fd_table.push(Some(FdEntry { file: 2, fd_flags: 0 }));
    let mut table = ProcessTable::new();
    table.proc_list.push(p);
    table.current = 7;
    let files = vec![
        open(OpenFileKind::Vfs(0), 2),
        open(OpenFileKind::Socket(0), 2),
        open(OpenFileKind::Socket(1), 2 | 0x800),
    ];
    let stream = SocketState {
        kind: NewSocket::Stream,
        bound_port: None,
        local: None,
        local_port: None,
        remote: None,
        readable: false,
        writable: true,
    };
    let datagram = SocketState { kind: NewSocket::Datagram, local_port: Some(9), ..stream };
    (table, files, vec![stream, datagram])
}

fn nobody() -> ProcessTable {
    ProcessTable::new()
}

fn address(port: u16) -> Vec<u8> {
    let e = Endpoint { addr: 0x7F00_0001, port };
    write_sockaddr_in(true, Some(16), e).unwrap().unwrap().0.unwrap()
}

#[test]
fn addresses_of_the_internet() {
    let e = Endpoint { addr: 0x7F00_0001, port: 8080 };
    let (bytes, len) = write_sockaddr_in(true, Some(16), e).unwrap().unwrap();
    assert_eq!(len, 16);
    assert_eq!(bytes.as_ref().unwrap()[..8], [2, 0, 0x1F, 0x90, 127, 0, 0, 1]);
    assert_eq!(parse_sockaddr_in(bytes.as_ref()), Ok(e));
    assert_eq!(parse_sockaddr_in(None), Err(EFAULT));
    assert_eq!(parse_sockaddr_in(Some(&vec![2, 0])), Err(EINVAL));
    assert_eq!(parse_sockaddr_in(Some(&vec![9; 16])), Err(EAFNOSUPPORT));
    assert_eq!(random_ephemeral_port(1), 49153);
    assert_eq!(socket_request(2, 1), Ok(NewSocket::Stream));
    assert_eq!(socket_request(10, 1), Err(failed(EAFNOSUPPORT)));
    assert_eq!(socket_request(2, 3), Err(failed(EPROTONOSUPPORT)));
}

#[test]
fn sockets_are_made() {
    let (mut t, _, _) = setting();
    assert_eq!(socket(&mut nobody(), 10, 1, 5, 6).0, failed(ESRCH));
    assert_eq!(socket(&mut t, 10, 1, 5, 6).0, failed(EAFNOSUPPORT));
    let (fd, made) = socket(&mut t, 2, 2 | SOCK_NONBLOCK | SOCK_CLOEXEC, 5, 6);
    assert_eq!(fd, 5);
    let (kind, file) = made.unwrap();
    assert_eq!(kind, NewSocket::Datagram);
    assert_eq!((file.kind, file.status_flags), (OpenFileKind::Socket(5), 0x802));
    assert_eq!(t.proc_list[0].fd_table[5], Some(FdEntry { file: 6, fd_flags: FD_CLOEXEC }));
}

#[test]
fn connections_are_asked_for() {
    let (t, f, s) = setting();
    let to = address(80);
    let e = Endpoint { addr: 0x7F00_0001, port: 80 };
    assert_eq!(connect(&t, &f, &s, 3, Some(&to)), Ok((0, e)));
    assert_eq!(connect(&t, &f, &s, -1, None), Err(failed(ENOTSOCK)));
    assert_eq!(connect(&nobody(), &f, &s, 9, None), Err(failed(EFAULT)));
    assert_eq!(connect(&nobody(), &f, &s, 9, Some(&to)), Err(failed(ESRCH)));
    assert_eq!(connect(&t, &f, &s, 9, Some(&to)), Err(failed(EBADF)));
    assert_eq!(connect(&t, &f, &s, 0, Some(&to)), Err(failed(ENOTSOCK)));
    assert_eq!((connect_done(true), connect_done(false)), (0, failed(ETIMEDOUT)));
}

#[test]
fn a_port_has_one_owner() {
    let (mut t, f, mut s) = setting();
    let mut ports = PortMap::new();
    let at = address(80);
    // What is no socket takes no port.
    assert_eq!(bind(&t, &f, &s, &mut ports, 0, Some(&at), 0), Err(failed(ENOTSOCK)));
    assert!(!ports.contains(80));
    assert_eq!(bind(&t, &f, &s, &mut ports, 3, Some(&at), 0), Ok((0, 80)));
    assert_eq!(ports.owners.get(&80), Some(&7));
    // A port that is taken is told before anything is known of the descriptor.
    assert_eq!(bind(&nobody(), &f, &s, &mut ports, 99, Some(&at), 0), Err(-1));
    assert_eq!(bind(&t, &f, &s, &mut ports, 4, Some(&address(0)), 5), Ok((1, 49157)));
    assert_eq!((bind_done(true), bind_done(false)), (0, failed(EADDRINUSE)));
    assert_eq!(listen(&t, &f, &s, 3), Err(failed(EINVAL)));
    s[0].bound_port = Some(80);
    assert_eq!(listen(&t, &f, &s, 3), Ok((0, 80)));
    assert_eq!(listen(&t, &f, &s, 4), Err(failed(EOPNOTSUPP)));
    assert_eq!(listen(&t, &f, &s, -4), Err(failed(ENOTSOCK)));
    assert_eq!((listen_done(true), listen_done(false)), (0, failed(EIO)));
    assert_eq!(accept(&t, &f, &s, 3), Ok((0, false)));
    assert_eq!(accept4(&t, &f, &s, 3, SOCK_NONBLOCK), Ok((0, true)));
    assert_eq!(accept4(&t, &f, &s, 4, 0), Ok((1, true)));
    let peer = Endpoint { addr: 1, port: 2 };
    let got = Accepted::Got(8, peer);
    assert_eq!(accept_done(&mut t, Accepted::NotYet, true, 0, false, None, 6).0, failed(EAGAIN));
    assert_eq!(accept_done(&mut t, Accepted::Broken, true, 0, false, None, 6).0, failed(EIO));
    assert_eq!(accept_done(&mut t, Accepted::Broken, false, 0, false, None, 6).0, failed(EAGAIN));
    assert_eq!(accept_done(&mut t, got, false, 0, true, None, 6).0, failed(EFAULT));
    assert_eq!(t.proc_list[0].fd_table.len(), 5);
    let (fd, out, file) = accept_done(&mut t, got, true, 0, true, Some(16), 6);
    assert_eq!(fd, 5);
    assert_eq!(parse_sockaddr_in(out.unwrap().0.as_ref()), Ok(peer));
    assert_eq!(file.unwrap().status_flags, 0x802);
}

#[test]
fn data_goes_out_and_comes_in() {
    let (t, f, mut s) = setting();
    let to = address(53);
    let e = Endpoint { addr: 0x7F00_0001, port: 53 };
    assert_eq!(sendto(&t, &f, &s, -1, 0, 1, 0, None), Err(failed(EFAULT)));
    assert_eq!(sendto(&t, &f, &s, -1, 0, 0, 0, None), Err(failed(ENOTSOCK)));
    assert_eq!(sendto(&t, &f, &s, 3, 0x1000, 1, 0, None), Ok((0, None)));
    assert_eq!(sendto(&t, &f, &s, 4, 0x1000, 1, 0, Some(&to)), Ok((1, Some(e))));
    assert_eq!(sendto(&t, &f, &s, 4, 0x1000, 1, 0, Some(&vec![1])), Err(failed(EINVAL)));
    s[1].writable = false;
    assert_eq!(sendto(&t, &f, &s, 4, 0x1000, 1, 0, Some(&vec![1])), Err(failed(EAGAIN)));
    assert_eq!((sendto_done(Some(3)), sendto_done(None)), (3, failed(EDESTADDRREQ)));
    assert_eq!(recvfrom(&t, &f, &s, 3, 0x1000, 1, 0), Ok(0));
    assert_eq!(recvfrom(&t, &f, &s, 3, 0x1000, 1, MSG_DONTWAIT), Err(failed(EAGAIN)));
    assert_eq!(recvfrom(&nobody(), &f, &s, 3, 0x1000, 1, 0), Err(failed(ESRCH)));
    assert_eq!(recvfrom_done(None, true, None).0, failed(EIO));
    assert_eq!(recvfrom_done(Some((4, None)), true, None).0, 4);
    assert_eq!(recvfrom_done(Some((4, Some(e))), true, None).0, failed(EFAULT));
    let (n, out) = recvfrom_done(Some((4, Some(e))), true, Some(4));
    assert_eq!((n, out), (4, Some((None, 16))));
}

#[test]
fn names_and_options() {
    let (t, f, mut s) = setting();
    s[0].bound_port = Some(80);
    let (n, out) = getsockname(&t, &f, &s, 3, true, Some(16));
    assert_eq!(n, 0);
    assert_eq!(parse_sockaddr_in(out.unwrap().0.as_ref()), Ok(Endpoint { addr: 0, port: 80 }));
    let (_, out) = getsockname(&t, &f, &s, 4, true, Some(16));
    assert_eq!(parse_sockaddr_in(out.unwrap().0.as_ref()), Ok(Endpoint { addr: 0, port: 9 }));
    assert_eq!(getpeername(&t, &f, &s, 3, true, Some(16)).0, failed(ENOTCONN));
    let peer = Endpoint { addr: 3, port: 4 };
    s[0].remote = Some(peer);
    let (_, out) = getpeername(&t, &f, &s, 3, true, Some(16));
    assert_eq!(parse_sockaddr_in(out.unwrap().0.as_ref()), Ok(peer));
    assert_eq!(shutdown(&t, &f, &s, 3), Ok(0));
    assert_eq!(shutdown(&t, &f, &s, 0), Err(failed(ENOTSOCK)));
    assert_eq!(setsockopt(&t, &f, &s, 3, 1, 2), 0);
    assert_eq!(setsockopt(&t, &f, &s, 3, 1, 3), failed(ENOPROTOOPT));
    assert_eq!(getsockopt(&t, &f, &s, 3), failed(ENOPROTOOPT));
    assert_eq!(getsockopt(&t, &f, &s, -1), failed(ENOTSOCK));
    assert_eq!(getsockopt(&nobody(), &f, &s, 3), failed(ESRCH));
}
