//! Datagrams: what the state of a socket means for those who use it.
use vstd::prelude::*;
use crate::hal::errno::{Errno, KernelResult};
use crate::net::addr::{
    unspecified, zero_filled, Endpoint, ListenEndpoint, SockAddrIn4, AF_INET,
};
use crate::net::socket::Socket;
use crate::net::tcp::local_port_for;
use crate::net::util::{next_port, PortAllocator};

verus! {

/// Bind a socket.  Returns where the network stack is to listen.
pub fn udp_bind(sock: &mut Socket, addr: &SockAddrIn4) -> (r: ListenEndpoint)
    ensures
        *final(sock) == (Socket { local_port: addr.sin_port, ..*old(sock) }),
        r.port == addr.sin_port,
        r.addr == if unspecified(addr.sin_addr) {
            None
        } else {
            Some(addr.sin_addr)
        },
{
    sock.local_port = addr.sin_port;
    addr.to_listen_endpoint()
}

/// Where a socket that is not bound is bound before it sends: any address, a port of its own.
pub fn auto_bind(sock: &mut Socket, ports: &mut PortAllocator) -> (r: Option<ListenEndpoint>)
    ensures
        match r {
            None => {
                &&& old(sock).local_port != 0
                &&& *final(sock) == *old(sock)
                &&& *final(ports) == *old(ports)
            },
            Some(ep) => {
                &&& old(sock).local_port == 0
                &&& ep.addr is None
                &&& ep.port == next_port(old(ports))
                &&& *final(sock) == (Socket { local_port: ep.port, ..*old(sock) })
                &&& final(ports).next == ep.port.wrapping_add(1)
            },
        },
{
    let (port, fresh) = local_port_for(sock, ports);
    if fresh {
        Some(ListenEndpoint { addr: None, port })
    } else {
        None
    }
}

/// The socket sends to this address from now on, where `bound` says that it could be bound.
pub fn udp_connect(sock: &mut Socket, addr: &SockAddrIn4, bound: bool) -> (r: KernelResult<Endpoint>)
    ensures
        match r {
            Ok(ep) => {
                &&& bound
                &&& ep.addr == addr.sin_addr
                &&& ep.port == addr.sin_port
                &&& *final(sock) == (Socket { connected_peer: Some(ep), ..*old(sock) })
            },
            Err(e) => !bound && e == Errno::Eaddrinuse && *final(sock) == *old(sock),
        },
{
    if !bound {
        return Err(Errno::Eaddrinuse);
    }
    let remote = addr.to_endpoint();
    sock.connected_peer = Some(remote);
    Ok(remote)
}

/// What an attempt to send a datagram came to.
pub fn send_result(sent: bool, len: usize) -> (r: KernelResult<usize>)
    ensures
        r == if sent {
            Ok::<usize, Errno>(len)
        } else {
            Err(Errno::Eagain)
        },
{
    if sent {
        Ok(len)
    } else {
        Err(Errno::Eagain)
    }
}

/// What the network stack gave of a datagram.
#[derive(Debug, Clone, Copy)]
pub enum Received {
    /// So many bytes, from this address.
    Data(usize, Endpoint),
    /// There is none.
    Exhausted,
    /// It did not fit.
    Truncated,
}

/// What an attempt to receive a datagram came to.
pub fn recv_result(got: Received) -> (r: KernelResult<(usize, SockAddrIn4)>)
    ensures
        match got {
            Received::Data(n, ep) => r matches Ok((m, a)) && m == n && a.sin_family == AF_INET
                && a.sin_port == ep.port && a.sin_addr == ep.addr && zero_filled(a),
            Received::Exhausted => r matches Err(e) && e == Errno::Eagain,
            Received::Truncated => r matches Err(e) && e == Errno::Enomem,
        },
{
    match got {
        Received::Data(n, ep) => Ok((n, SockAddrIn4::from_endpoint(&ep))),
        Received::Exhausted => Err(Errno::Eagain),
        Received::Truncated => Err(Errno::Enomem),
    }
}

/// The local address of a socket: where the network stack listens, the local host where that
/// is at all addresses; or no address where it does not.
pub fn udp_local_endpoint(sock: &Socket, listening: &ListenEndpoint) -> (r: SockAddrIn4)
    ensures
        r.sin_family == AF_INET,
        zero_filled(r),
        listening.port > 0 ==> r.sin_port == listening.port && match listening.addr {
            Some(a) => r.sin_addr == a,
            None => r.sin_addr@ == seq![127u8, 0, 0, 1],
        },
        listening.port == 0 ==> r.sin_port == sock.local_port && unspecified(r.sin_addr),
{
    if listening.port > 0 {
        let addr = match listening.addr {
            Some(a) => a,
            None => [127, 0, 0, 1],
        };
        assert(listening.addr is None ==> addr@ =~= seq![127u8, 0, 0, 1]);
        SockAddrIn4::from_endpoint(&Endpoint { addr, port: listening.port })
    } else {
        SockAddrIn4 {
            sin_family: AF_INET,
            sin_port: sock.local_port,
            sin_addr: [0, 0, 0, 0],
            sin_zero: [0; 8],
        }
    }
}

} // verus!
