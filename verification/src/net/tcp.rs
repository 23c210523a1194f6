//! Streams: what the state of a connection means for those who use it.
use vstd::prelude::*;
use crate::hal::errno::{Errno, KernelResult};
use crate::net::addr::{
    zero_filled, Endpoint, SockAddrIn4, AF_INET,
};
use crate::net::socket::{Socket, SocketType};
use crate::net::util::{get_ephemeral_port, next_port, PortAllocator};

verus! {

/// Bind a socket; port zero stands for any.
pub fn tcp_bind(sock: &mut Socket, addr: &SockAddrIn4, ports: &mut PortAllocator) -> (r: KernelResult<
    (),
>)
    ensures
        r is Ok,
        *final(sock) == (Socket {
            local_port: if addr.sin_port == 0 {
                next_port(old(ports))
            } else {
                addr.sin_port
            },
            ..*old(sock)
        }),
        addr.sin_port != 0 ==> *final(ports) == *old(ports),
        addr.sin_port == 0 ==> final(ports).next == next_port(old(ports)).wrapping_add(1),
{
    let port = if addr.sin_port == 0 {
        get_ephemeral_port(ports)
    } else {
        addr.sin_port
    };
    sock.local_port = port;
    Ok(())
}

/// The port to listen at.  The error is that the socket is not bound.
pub fn tcp_listen(sock: &Socket) -> (r: KernelResult<u16>)
    ensures
        r == if sock.local_port == 0 {
            Err::<u16, Errno>(Errno::Einval)
        } else {
            Ok(sock.local_port)
        },
{
    if sock.local_port == 0 {
        return Err(Errno::Einval);
    }
    Ok(sock.local_port)
}

/// What an attempt to listen at a port, or to be bound to it, came to: something else may use it.
pub fn bind_result(listening: bool) -> (r: KernelResult<()>)
    ensures
        r == if listening {
            Ok::<(), Errno>(())
        } else {
            Err(Errno::Eaddrinuse)
        },
{
    if listening {
        Ok(())
    } else {
        Err(Errno::Eaddrinuse)
    }
}

/// Whether a listening socket has a connection.
pub fn accept_ready(active: bool) -> (r: KernelResult<()>)
    ensures
        r == if active {
            Ok::<(), Errno>(())
        } else {
            Err(Errno::Eagain)
        },
{
    if active {
        Ok(())
    } else {
        Err(Errno::Eagain)
    }
}

/// A connection was accepted: the listening socket goes on with `new_handle`, and the
/// connection gets a socket of its own, at the same port.
pub fn tcp_accept(sock: &mut Socket, new_handle: usize, remote: &Endpoint) -> (r: (Socket, SockAddrIn4))
    ensures
        *final(sock) == (Socket { handle: new_handle, ..*old(sock) }),
        r.0 == (Socket {
            handle: old(sock).handle,
            sock_type: SocketType::Tcp,
            nonblocking: false,
            local_port: old(sock).local_port,
            connected_peer: None,
        }),
        r.1.sin_family == AF_INET,
        r.1.sin_port == remote.port,
        r.1.sin_addr == remote.addr,
        zero_filled(r.1),
{
    let port = sock.local_port;
    let connected_handle = sock.swap_handle(new_handle);
    let mut connected = Socket::new(connected_handle, SocketType::Tcp);
    connected.local_port = port;
    (connected, SockAddrIn4::from_endpoint(remote))
}

/// The local port of a socket that is to be connected: one is taken where it has none.
pub fn local_port_for(sock: &mut Socket, ports: &mut PortAllocator) -> (r: (u16, bool))
    ensures
        r.1 == (old(sock).local_port == 0),
        r.0 == if r.1 {
            next_port(old(ports))
        } else {
            old(sock).local_port
        },
        *final(sock) == (Socket { local_port: r.0, ..*old(sock) }),
        !r.1 ==> *final(ports) == *old(ports),
        r.1 ==> final(ports).next == r.0.wrapping_add(1),
{
    if sock.local_port == 0 {
        let port = get_ephemeral_port(ports);
        sock.local_port = port;
        (port, true)
    } else {
        (sock.local_port, false)
    }
}

/// Starting a connection failed: there is no way to the other end.
pub fn connect_result(started: bool) -> (r: KernelResult<()>)
    ensures
        r == if started {
            Ok::<(), Errno>(())
        } else {
            Err(Errno::Econnrefused)
        },
{
    if started {
        Ok(())
    } else {
        Err(Errno::Econnrefused)
    }
}

/// Whether a connection has been made: refused where it ended before.
pub fn connect_ready(may_send: bool, active: bool) -> (r: KernelResult<()>)
    ensures
        r == if may_send {
            Ok::<(), Errno>(())
        } else if !active {
            Err(Errno::Econnrefused)
        } else {
            Err(Errno::Eagain)
        },
{
    if may_send {
        Ok(())
    } else if !active {
        Err(Errno::Econnrefused)
    } else {
        Err(Errno::Eagain)
    }
}

/// What an attempt to send came to: `sent` is the number of bytes taken, where the stack took
/// any at all.
pub fn send_result(may_send: bool, sent: Option<usize>) -> (r: KernelResult<usize>)
    ensures
        r == if !may_send {
            Err::<usize, Errno>(Errno::Epipe)
        } else {
            match sent {
                None => Err(Errno::Enobufs),
                Some(n) => if n == 0 {
                    Err(Errno::Eagain)
                } else {
                    Ok(n)
                },
            }
        },
{
    if !may_send {
        return Err(Errno::Epipe);
    }
    match sent {
        None => Err(Errno::Enobufs),
        Some(n) => if n == 0 {
            Err(Errno::Eagain)
        } else {
            Ok(n)
        },
    }
}

/// What an attempt to receive came to: a stream whose other end is closed ends with nothing.
pub fn recv_result(can_recv: bool, may_recv: bool, received: Option<usize>) -> (r: KernelResult<usize>)
    ensures
        r == if can_recv {
            match received {
                Some(n) => Ok::<usize, Errno>(n),
                None => Err(Errno::Econnreset),
            }
        } else if !may_recv {
            Ok(0)
        } else {
            Err(Errno::Eagain)
        },
{
    if can_recv {
        match received {
            Some(n) => Ok(n),
            None => Err(Errno::Econnreset),
        }
    } else if !may_recv {
        Ok(0)
    } else {
        Err(Errno::Eagain)
    }
}

/// The local address of a socket: that of the connection, or the local host where there is
/// none.
pub fn tcp_local_endpoint(sock: &Socket, local: Option<Endpoint>) -> (r: SockAddrIn4)
    ensures
        r.sin_family == AF_INET,
        zero_filled(r),
        match local {
            Some(ep) => r.sin_port == ep.port && r.sin_addr == ep.addr,
            None => r.sin_port == sock.local_port && r.sin_addr@ == seq![127u8, 0, 0, 1],
        },
{
    match local {
        Some(ep) => SockAddrIn4::from_endpoint(&ep),
        None => {
            let r = SockAddrIn4 {
                sin_family: AF_INET,
                sin_port: sock.local_port,
                sin_addr: [127, 0, 0, 1],
                sin_zero: [0; 8],
            };
            assert(r.sin_addr@ =~= seq![127u8, 0, 0, 1]);
            r
        },
    }
}

/// The address at the other end of a socket.
pub fn tcp_remote_endpoint(remote: Option<Endpoint>) -> (r: KernelResult<SockAddrIn4>)
    ensures
        match (r, remote) {
            (Ok(a), Some(ep)) => a.sin_family == AF_INET && a.sin_port == ep.port && a.sin_addr
                == ep.addr && zero_filled(a),
            (Err(e), None) => e == Errno::Enotconn,
            _ => false,
        },
{
    match remote {
        Some(ep) => Ok(SockAddrIn4::from_endpoint(&ep)),
        None => Err(Errno::Enotconn),
    }
}

} // verus!
