use twilight_kernel::net::socket::{Answer, SocketFile, IO};
use twilight_kernel::net::udp::{Ask, Purpose, Remote, Reply, Request, UdpSocket};
use twilight_kernel::net::{pump_network, random_port};

const PEER: Remote = Remote { addr: 0x0A00_0002, port: 53 };

#[test]
fn the_stack_names_its_next_turn() {
    assert_eq!(pump_network(None), None);
    assert_eq!(pump_network(Some(None)), None);
    assert_eq!(pump_network(Some(Some(0))), Some(0));
    assert_eq!(pump_network(Some(Some(7))), Some(7000));
    assert_eq!(pump_network(Some(Some(u64::MAX))), Some(u64::MAX));
}

#[test]
fn ports_are_drawn_from_the_dynamic_range() {
    assert_eq!(random_port(0), 49152);
    assert_eq!(random_port(16383), 65535);
    assert_eq!(random_port(16384), 49152);
}

#[test]
fn a_datagram_fits_a_packet() {
    assert_eq!(UdpSocket::size(Some(1514)), 1472);
    assert_eq!(UdpSocket::size(None), 1);
}

#[test]
fn a_port_is_kept() {
    let mut s = UdpSocket::new(4);
    assert_eq!(s.local_choice(5), 49157);
    assert_eq!(s.bind(80, None, false), Err(()));
    assert_eq!(s.bind(80, Some(false), false), Err(()));
    assert_eq!(s.bound_port, None);
    assert_eq!(s.bind(80, Some(false), true), Ok(()));
    assert_eq!(s.bind(81, Some(true), false), Ok(()));
    assert_eq!(s.local_choice(5), 81);
    assert_eq!(s.remote_endpoint(), None);
    assert_eq!(UdpSocket::local_port(0), None);
    assert_eq!(UdpSocket::local_port(9), Some(9));
}

#[test]
fn sending_to_a_socket() {
    let s = UdpSocket::new(0);
    let mut q = Request::new(Purpose::SendTo(PEER), 100);
    assert_eq!(q.step(&s, Reply::Time(100), 0), Ask::Run);
    assert_eq!(q.step(&s, Reply::Ran(false), 3), Ask::Bind(49155));
    assert_eq!(q.step(&s, Reply::Bound(true), 0), Ask::Ready);
    assert_eq!(q.step(&s, Reply::Readiness(false), 0), Ask::Pause);
    assert_eq!(q.step(&s, Reply::Time(105), 0), Ask::Run);
    assert_eq!(q.step(&s, Reply::Ran(true), 0), Ask::Ready);
    assert_eq!(q.step(&s, Reply::Readiness(true), 0), Ask::Transmit(PEER));
    assert_eq!(q.step(&s, Reply::Moved(true), 0), Ask::Pause);
    assert_eq!(q.step(&s, Reply::Time(105), 0), Ask::Run);
    assert_eq!(q.step(&s, Reply::Ran(true), 0), Ask::Finish);
}

#[test]
fn requests_fail() {
    let s = UdpSocket::new(0);
    let mut q = Request::new(Purpose::RecvFrom, 100);
    assert_eq!(q.step(&s, Reply::Time(106), 0), Ask::Fail);
    assert_eq!(q.step(&s, Reply::Bound(false), 0), Ask::Fail);
    assert_eq!(q.step(&s, Reply::Moved(false), 0), Ask::Fail);
    let mut q = Request::new(Purpose::Send, 0);
    assert_eq!(q.step(&s, Reply::Ran(false), 0), Ask::Ready);
    assert_eq!(q.step(&s, Reply::Readiness(true), 0), Ask::Fail);
    let known = UdpSocket { handle: 0, remote_endpoint: Some(PEER), bound_port: None };
    assert_eq!(q.step(&known, Reply::Readiness(true), 0), Ask::Transmit(PEER));
}

#[test]
fn receiving() {
    let s = UdpSocket::new(0);
    let mut q = Request::new(Purpose::Recv, 0);
    assert_eq!(q.step(&s, Reply::Ran(false), 0), Ask::Ready);
    assert_eq!(q.step(&s, Reply::Readiness(true), 0), Ask::Receive);
    assert_eq!(q.step(&s, Reply::Moved(true), 0), Ask::Finish);
}

#[test]
fn connecting_opens_the_socket() {
    let mut s = UdpSocket::new(0);
    let mut q = Request::new(Purpose::Connect, 0);
    assert_eq!(q.step(&s, Reply::Late(false), 0), Ask::Run);
    assert_eq!(q.step(&s, Reply::Ran(true), 0), Ask::Pause);
    assert_eq!(q.step(&s, Reply::Ran(false), 1), Ask::Bind(49153));
    assert_eq!(q.step(&s, Reply::Bound(true), 0), Ask::Finish);
    assert_eq!(q.step(&s, Reply::Late(true), 0), Ask::Fail);
    assert_eq!(s.connect(7, 53, Some(false)), Err(()));
    assert_eq!(s.remote_endpoint(), None);
    assert_eq!(s.connect(7, 53, Some(true)), Ok(()));
    assert_eq!(s.remote_endpoint(), Some(Remote { addr: 7, port: 53 }));
    assert_eq!(s.connect(8, 54, None), Ok(()));
    assert_eq!(s.remote_endpoint(), Some(Remote { addr: 8, port: 54 }));
}

#[test]
fn closing_takes_one_more_turn() {
    let s = UdpSocket::new(0);
    let mut q = Request::new(Purpose::Close, 0);
    assert_eq!(q.step(&s, Reply::Ran(true), 0), Ask::Shut);
    assert_eq!(q.step(&s, Reply::Closed, 0), Ask::Pause);
    assert_eq!(q.step(&s, Reply::Time(1000), 0), Ask::Run);
    assert_eq!(q.step(&s, Reply::Ran(false), 0), Ask::Finish);
}

#[test]
fn readiness_is_what_the_stack_says() {
    assert!(UdpSocket::poll(IO::Read, Some((true, false))));
    assert!(!UdpSocket::poll(IO::Write, Some((true, false))));
    assert!(!UdpSocket::poll(IO::Read, None));
}

#[test]
fn the_network_serves_its_own_sockets() {
    let mut tcp = SocketFile::Tcp(3);
    let mut udp = SocketFile::Udp(UdpSocket::new(1));
    assert_eq!(tcp.connect(PEER), Answer::Stack);
    assert_eq!(udp.connect(PEER), Answer::Stack);
    assert_eq!(tcp.accept_new(), Answer::Stack);
    assert_eq!(udp.accept_new(), Answer::Here(Err(())));
    assert_eq!(tcp.try_accept_new(), Answer::Stack);
    assert_eq!(udp.try_accept_new(), Answer::Here(Err(())));
    assert_eq!(tcp.send_to(b"x", PEER), Answer::Stack);
    assert_eq!(tcp.recv_from(9), Answer::Here(Err(())));
    assert_eq!(udp.recv_from(9), Answer::Stack);
}
