//! Readiness, ports and waiting.
use vstd::prelude::*;
use crate::hal::errno::{Errno, KernelResult};

verus! {

/// What a socket is ready for.
#[derive(Debug, Clone, Copy, PartialEq, Eq, Structural)]
pub struct PollState {
    pub readable: bool,
    pub writable: bool,
    pub hangup: bool,
}

/// The lowest port that is given out.
pub const FIRST_EPHEMERAL: u16 = 49152;

/// Source of ports for sockets that did not ask for one.
pub struct PortAllocator {
    pub next: u16,
}

impl PortAllocator {
    pub fn new() -> (r: Self)
        ensures
            r.next == FIRST_EPHEMERAL,
    {
        PortAllocator { next: FIRST_EPHEMERAL }
    }
}

/// The next port that is given out.
pub open spec fn next_port(ports: &PortAllocator) -> u16 {
    if ports.next >= FIRST_EPHEMERAL {
        ports.next
    } else {
        49153
    }
}

/// The port that is given out after `port`.
pub open spec fn port_after(port: int) -> int {
    if port < 65535 {
        port + 1
    } else {
        49153
    }
}

/// The port that is given out `n` times later.
pub open spec fn port_later(port: int, n: nat) -> int
    decreases n,
{
    if n == 0 {
        port
    } else {
        port_after(port_later(port, (n - 1) as nat))
    }
}

/// Ports are given out again only after all others were.
pub proof fn law_ports_differ(port: int, n: nat)
    requires
        49152 <= port <= 65535,
        0 < n < 16383,
    ensures
        port_later(port, n) != port,
{
    lemma_port_later(port, n);
}

proof fn lemma_port_later(port: int, n: nat)
    requires
        49152 <= port <= 65535,
        n < 16383,
    ensures
        port_later(port, n) == if port + n <= 65535 {
            port + n
        } else {
            port + n - 16383
        },
    decreases n,
{
    if n > 0 {
        lemma_port_later(port, (n - 1) as nat);
    }
}

/// Take the next port, from 49152 to 65535.  After the last the numbers go on at 49153.
pub fn get_ephemeral_port(ports: &mut PortAllocator) -> (r: u16)
    ensures
        49152 <= r <= 65535,
        r == next_port(old(ports)),
        final(ports).next == r.wrapping_add(1),
        next_port(final(ports)) == port_after(r as int),
{
    let p = ports.next;
    ports.next = p.wrapping_add(1);
    if p >= FIRST_EPHEMERAL {
        return p;
    }
    ports.next = 49154;
    49153
}

/// Whether an operation on a socket that came to this is tried again when the socket is ready:
/// only one that may wait, and only where it would have to.
pub fn waits<T>(nonblocking: bool, result: &KernelResult<T>) -> (r: bool)
    ensures
        r == (!nonblocking && (result matches Err(e) && *e == Errno::Eagain)),
{
    if nonblocking {
        return false;
    }
    match result {
        Ok(_) => false,
        Err(e) => match e {
            Errno::Eagain => true,
            _ => false,
        },
    }
}

/// What an operation on a socket does next.
pub enum BlockStep<T> {
    /// Try it, once the network stack has been driven.
    DriveAndTry,
    /// Try it.
    Try,
    /// Wait for the socket, and then drive the network stack and try again.
    Wait,
    /// It is over.
    Done(KernelResult<T>),
}

/// How an operation starts.
pub fn block_start<T>(nonblocking: bool) -> (r: BlockStep<T>)
    ensures
        r == if nonblocking {
            BlockStep::<T>::Try
        } else {
            BlockStep::DriveAndTry
        },
{
    if nonblocking {
        BlockStep::Try
    } else {
        BlockStep::DriveAndTry
    }
}

/// How an operation goes on after an attempt that came to `result`.
pub fn net_block_on<T>(nonblocking: bool, result: KernelResult<T>) -> (r: BlockStep<T>)
    ensures
        r == if !nonblocking && (result matches Err(e) && e == Errno::Eagain) {
            BlockStep::Wait
        } else {
            BlockStep::Done(result)
        },
{
    if waits(nonblocking, &result) {
        BlockStep::Wait
    } else {
        BlockStep::Done(result)
    }
}

/// A wait for a socket.
pub struct SocketReady {
    pub registered: bool,
}

/// What a wait for a socket asks for.
#[derive(Debug, Clone, Copy, PartialEq, Eq, Structural)]
pub enum ReadyStep {
    /// Register a waker and sleep.
    Register,
    /// Unregister the waker and go on.
    Unregister,
}

impl SocketReady {
    pub fn new() -> (r: Self)
        ensures
            !r.registered,
    {
        SocketReady { registered: false }
    }

    /// The first time the wait sleeps, the second time it is over.
    pub fn poll(&mut self) -> (r: ReadyStep)
        ensures
            final(self).registered,
            r == if old(self).registered {
                ReadyStep::Unregister
            } else {
                ReadyStep::Register
            },
    {
        if self.registered {
            return ReadyStep::Unregister;
        }
        self.registered = true;
        ReadyStep::Register
    }
}

} // verus!
