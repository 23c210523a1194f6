//! Sockets.
use rustos::hal::errno::Errno;
use rustos::net::addr::{zero_endpoint, Endpoint, ListenEndpoint, SockAddrIn4};
use rustos::net::socket::{
    poll_ready, ready_wakers, Socket, SocketFlags, SocketType, SocketWakers, WakerTable,
};
use rustos::net::tcp::{
    accept_ready, bind_result, connect_ready, connect_result, local_port_for, tcp_accept, tcp_bind,
    tcp_listen, tcp_local_endpoint, tcp_remote_endpoint,
};
use rustos::net::udp::{auto_bind, udp_bind, udp_connect, udp_local_endpoint, Received};
use rustos::net::util::{
    block_start, get_ephemeral_port, net_block_on, waits, BlockStep, PortAllocator, ReadyStep,
    SocketReady,
};
use rustos::net::{tcp, udp};

fn address(port: u16, addr: [u8; 4]) -> SockAddrIn4 {
    SockAddrIn4 { sin_family: 2, sin_port: port, sin_addr: addr, sin_zero: [0; 8] }
}

#[test]
fn addresses_are_read_from_bytes() {
    let mut b = [0u8; 16];
    b[0] = 2;
    b[2] = 0x1F;
    b[3] = 0x90;
    b[4..8].copy_from_slice(&[127, 0, 0, 1]);
    let a = SockAddrIn4::from_user(Some(b), 16).unwrap();
    assert_eq!((a.sin_family, a.sin_port, a.sin_addr), (2, 8080, [127, 0, 0, 1]));
    assert_eq!(a.to_bytes(), b);
    assert_eq!(SockAddrIn4::from_user(Some(b), 7).err(), Some(Errno::Einval));
    assert_eq!(SockAddrIn4::from_user(None, 8).err(), Some(Errno::Efault));
    assert_eq!(SockAddrIn4::read_len(12), Ok(12));
    assert_eq!(SockAddrIn4::read_len(100), Ok(16));
    assert_eq!(SockAddrIn4::to_user(true, None), Ok(()));
    assert_eq!(SockAddrIn4::to_user(true, Some(false)), Err(Errno::Efault));
    assert_eq!(SockAddrIn4::to_user(false, None), Err(Errno::Efault));
}

#[test]
fn endpoints_are_addresses_and_ports() {
    let a = address(53, [10, 0, 0, 7]);
    let ep = a.to_endpoint();
    assert_eq!((ep.addr, ep.port), ([10, 0, 0, 7], 53));
    let back = SockAddrIn4::from_endpoint(&ep);
    assert_eq!((back.sin_family, back.sin_port, back.sin_addr), (2, 53, [10, 0, 0, 7]));
    assert_eq!(a.to_listen_endpoint().addr, Some([10, 0, 0, 7]));
    assert_eq!(address(53, [0; 4]).to_listen_endpoint().addr, None);
    assert_eq!(zero_endpoint().port, 0);
}

#[test]
fn ports_are_given_out_in_turn() {
    let mut ports = PortAllocator::new();
    assert_eq!(get_ephemeral_port(&mut ports), 49152);
    assert_eq!(get_ephemeral_port(&mut ports), 49153);
    ports.next = 65535;
    assert_eq!(get_ephemeral_port(&mut ports), 65535);
    assert_eq!(get_ephemeral_port(&mut ports), 49153);
    assert_eq!(get_ephemeral_port(&mut ports), 49154);
}

#[test]
fn only_operations_that_may_wait_do() {
    assert!(waits::<usize>(false, &Err(Errno::Eagain)));
    assert!(!waits::<usize>(true, &Err(Errno::Eagain)));
    assert!(!waits::<usize>(false, &Err(Errno::Epipe)));
    assert!(!waits(false, &Ok(1)));
    let mut w = SocketReady::new();
    assert_eq!(w.poll(), ReadyStep::Register);
    assert_eq!(w.poll(), ReadyStep::Unregister);
}

#[test]
fn sockets_are_made_and_swapped() {
    let mut s = Socket::new(4, SocketType::Tcp);
    assert!(!s.is_nonblocking());
    assert_eq!(s.drain_polls(), 8);
    assert_eq!(Socket::new(1, SocketType::Udp).drain_polls(), 4);
    assert_eq!(s.swap_handle(9), 4);
    assert_eq!(s.handle(), 9);
}

#[test]
fn readiness_follows_the_connection() {
    let f = SocketFlags::Tcp { can_recv: false, may_recv: false, can_send: true, active: false };
    let p = poll_ready(&f);
    assert!(p.readable && p.writable && p.hangup);
    let f = SocketFlags::Udp { can_recv: false, can_send: true };
    let p = poll_ready(&f);
    assert!(!p.readable && p.writable && !p.hangup);
}

#[test]
fn those_who_wait_for_sockets_are_woken_in_order() {
    let mut t = WakerTable::new();
    t.register_write_waker(7, 70);
    t.register_read_waker(3, 30);
    t.register_write_waker(3, 31);
    t.register_read_waker(5, 50);
    let sockets = vec![
        (3, SocketFlags::Tcp { can_recv: true, may_recv: true, can_send: true, active: true }),
        (7, SocketFlags::Tcp { can_recv: false, may_recv: true, can_send: false, active: false }),
        (5, SocketFlags::Udp { can_recv: false, can_send: true }),
    ];
    assert_eq!(ready_wakers(&t, &sockets), vec![30, 31, 70]);
    t.unregister_write_waker(3);
    t.unregister_waker(7);
    assert_eq!(ready_wakers(&t, &sockets), vec![30]);
    t.unregister_read_waker(3);
    assert!(ready_wakers(&t, &sockets).is_empty());
    assert_eq!(t.entries.get(&5), Some(&SocketWakers { read: Some(50), write: None }));
    // A socket that is gone wakes nobody.
    assert!(ready_wakers(&t, &vec![]).is_empty());
}

#[test]
fn streams_are_bound_and_listen() {
    let mut ports = PortAllocator::new();
    let mut s = Socket::new(0, SocketType::Tcp);
    assert_eq!(tcp_listen(&s), Err(Errno::Einval));
    tcp_bind(&mut s, &address(0, [0; 4]), &mut ports).unwrap();
    assert_eq!(tcp_listen(&s), Ok(49152));
    tcp_bind(&mut s, &address(80, [0; 4]), &mut ports).unwrap();
    assert_eq!(tcp_listen(&s), Ok(80));
    assert_eq!(bind_result(false), Err(Errno::Eaddrinuse));
    assert_eq!(bind_result(true), Ok(()));
    assert_eq!(local_port_for(&mut s, &mut ports), (80, false));
    let mut fresh = Socket::new(1, SocketType::Tcp);
    assert_eq!(local_port_for(&mut fresh, &mut ports), (49153, true));
}

#[test]
fn an_accepted_connection_gets_its_own_socket() {
    let mut s = Socket::new(4, SocketType::Tcp);
    s.local_port = 80;
    assert_eq!(accept_ready(false), Err(Errno::Eagain));
    assert_eq!(accept_ready(true), Ok(()));
    let remote = Endpoint { addr: [127, 0, 0, 1], port: 5555 };
    let (connected, addr) = tcp_accept(&mut s, 9, &remote);
    assert_eq!((s.handle, connected.handle, connected.local_port), (9, 4, 80));
    assert_eq!((addr.sin_port, addr.sin_addr), (5555, [127, 0, 0, 1]));
    assert_eq!(addr.sin_zero, [0; 8]);
}

#[test]
fn connections_send_and_receive() {
    assert_eq!(connect_result(false), Err(Errno::Econnrefused));
    assert_eq!(connect_result(true), Ok(()));
    assert_eq!(connect_ready(true, true), Ok(()));
    assert_eq!(connect_ready(false, false), Err(Errno::Econnrefused));
    assert_eq!(connect_ready(false, true), Err(Errno::Eagain));
    assert_eq!(tcp::send_result(false, Some(3)), Err(Errno::Epipe));
    assert_eq!(tcp::send_result(true, None), Err(Errno::Enobufs));
    assert_eq!(tcp::send_result(true, Some(0)), Err(Errno::Eagain));
    assert_eq!(tcp::send_result(true, Some(3)), Ok(3));
    assert_eq!(tcp::recv_result(true, true, Some(3)), Ok(3));
    assert_eq!(tcp::recv_result(true, true, None), Err(Errno::Econnreset));
    assert_eq!(tcp::recv_result(false, false, None), Ok(0));
    assert_eq!(tcp::recv_result(false, true, None), Err(Errno::Eagain));
}

#[test]
fn ends_of_connections() {
    let mut s = Socket::new(4, SocketType::Tcp);
    s.local_port = 80;
    let a = tcp_local_endpoint(&s, None);
    assert_eq!((a.sin_port, a.sin_addr, a.sin_zero), (80, [127, 0, 0, 1], [0; 8]));
    let a = tcp_local_endpoint(&s, Some(Endpoint { addr: [1, 2, 3, 4], port: 5 }));
    assert_eq!((a.sin_port, a.sin_addr), (5, [1, 2, 3, 4]));
    assert_eq!(tcp_remote_endpoint(None).err(), Some(Errno::Enotconn));
    let a = tcp_remote_endpoint(Some(Endpoint { addr: [1, 2, 3, 4], port: 5 })).unwrap();
    assert_eq!(a.sin_port, 5);
}

#[test]
fn datagrams_are_bound_sent_and_received() {
    let mut ports = PortAllocator::new();
    let mut s = Socket::new(4, SocketType::Udp);
    let ep = auto_bind(&mut s, &mut ports).unwrap();
    assert_eq!((ep.addr, ep.port), (None, 49152));
    assert!(auto_bind(&mut s, &mut ports).is_none());
    assert_eq!(udp_connect(&mut s, &address(9, [1, 1, 1, 1]), false).err(), Some(Errno::Eaddrinuse));
    assert!(s.connected_peer.is_none());
    assert_eq!(udp_connect(&mut s, &address(9, [1, 1, 1, 1]), true).unwrap().port, 9);
    assert_eq!(s.connected_peer.unwrap().addr, [1, 1, 1, 1]);
    let ep = udp_bind(&mut s, &address(53, [0; 4]));
    assert_eq!((ep.addr, ep.port, s.local_port), (None, 53, 53));
    assert_eq!(udp::send_result(true, 12), Ok(12));
    assert_eq!(udp::send_result(false, 12), Err(Errno::Eagain));
    let from = Endpoint { addr: [8, 8, 8, 8], port: 53 };
    let (n, a) = udp::recv_result(Received::Data(5, from)).unwrap();
    assert_eq!((n, a.sin_addr, a.sin_port, a.sin_zero), (5, [8, 8, 8, 8], 53, [0; 8]));
    assert_eq!(udp::recv_result(Received::Exhausted).err(), Some(Errno::Eagain));
    assert_eq!(udp::recv_result(Received::Truncated).err(), Some(Errno::Enomem));
}

#[test]
fn where_datagrams_arrive() {
    let mut s = Socket::new(4, SocketType::Udp);
    s.local_port = 7;
    let a = udp_local_endpoint(&s, &ListenEndpoint { addr: None, port: 53 });
    assert_eq!((a.sin_port, a.sin_addr), (53, [127, 0, 0, 1]));
    let a = udp_local_endpoint(&s, &ListenEndpoint { addr: Some([9, 9, 9, 9]), port: 53 });
    assert_eq!(a.sin_addr, [9, 9, 9, 9]);
    let a = udp_local_endpoint(&s, &ListenEndpoint { addr: None, port: 0 });
    assert_eq!((a.sin_port, a.sin_addr, a.sin_zero), (7, [0; 4], [0; 8]));
}

#[test]
fn operations_are_tried_until_they_need_not_wait() {
    assert!(matches!(block_start::<u8>(true), BlockStep::Try));
    assert!(matches!(block_start::<u8>(false), BlockStep::DriveAndTry));
    assert!(matches!(net_block_on::<u8>(false, Err(Errno::Eagain)), BlockStep::Wait));
    assert!(matches!(
        net_block_on::<u8>(true, Err(Errno::Eagain)),
        BlockStep::Done(Err(Errno::Eagain))
    ));
    assert!(matches!(net_block_on(false, Ok(5u8)), BlockStep::Done(Ok(5))));
}

#[test]
fn ports_come_back_after_all_others() {
    let mut ports = PortAllocator { next: 50000 };
    let first = get_ephemeral_port(&mut ports);
    for _ in 0..16382 {
        assert_ne!(get_ephemeral_port(&mut ports), first);
    }
    assert_eq!(get_ephemeral_port(&mut ports), first);
}
