//! Socket addresses.
use vstd::prelude::*;
use crate::hal::errno::{Errno, KernelResult};

verus! {

/// An address and a port.
#[derive(Debug, Clone, Copy)]
pub struct Endpoint {
    pub addr: [u8; 4],
    pub port: u16,
}

/// A port, at one address or at all.
#[derive(Debug, Clone, Copy)]
pub struct ListenEndpoint {
    pub addr: Option<[u8; 4]>,
    pub port: u16,
}

/// Number of the address family.
pub const AF_INET: u16 = 2;

/// Size of an address in user memory.
pub const SOCKADDR_SIZE: usize = 16;

/// An address as user programs have it.
#[derive(Debug, Clone, Copy)]
pub struct SockAddrIn4 {
    pub sin_family: u16,
    pub sin_port: u16,
    pub sin_addr: [u8; 4],
    pub sin_zero: [u8; 8],
}

/// The address that the bytes give: the family in the order of the machine, the port in that
/// of the network.
pub open spec fn decoded(b: Seq<u8>, a: SockAddrIn4) -> bool {
    &&& a.sin_family == b[0] + 256 * b[1]
    &&& a.sin_port == 256 * b[2] + b[3]
    &&& a.sin_addr@ == b.subrange(4, 8)
    &&& zero_filled(a)
}

/// The bytes after the address are zero.
pub open spec fn zero_filled(a: SockAddrIn4) -> bool {
    forall|i: int| 0 <= i < 8 ==> #[trigger] a.sin_zero@[i] == 0
}

impl SockAddrIn4 {
    /// How many bytes of an address of the given length are read.
    pub fn read_len(addr_len: usize) -> (r: KernelResult<usize>)
        ensures
            r == if addr_len < 8 {
                Err::<usize, Errno>(Errno::Einval)
            } else if addr_len < 16 {
                Ok(addr_len)
            } else {
                Ok(16)
            },
    {
        if addr_len < 8 {
            return Err(Errno::Einval);
        }
        if addr_len < SOCKADDR_SIZE {
            Ok(addr_len)
        } else {
            Ok(SOCKADDR_SIZE)
        }
    }

    /// Read an address of `addr_len` bytes; `buf` holds what was copied from user memory,
    /// where that worked.
    pub fn from_user(buf: Option<[u8; 16]>, addr_len: usize) -> (r: KernelResult<Self>)
        ensures
            match r {
                Ok(a) => addr_len >= 8 && (buf matches Some(b) && decoded(b@, a)),
                Err(e) => e == if addr_len < 8 {
                    Errno::Einval
                } else {
                    Errno::Efault
                } && (addr_len < 8 || buf is None),
            },
    {
        if addr_len < 8 {
            return Err(Errno::Einval);
        }
        match buf {
            None => Err(Errno::Efault),
            Some(b) => {
                let a = SockAddrIn4 {
                    sin_family: b[0] as u16 + 256 * b[1] as u16,
                    sin_port: 256 * b[2] as u16 + b[3] as u16,
                    sin_addr: [b[4], b[5], b[6], b[7]],
                    sin_zero: [0; 8],
                };
                assert(a.sin_addr@ =~= b@.subrange(4, 8));
                Ok(a)
            },
        }
    }

    /// The bytes of the address as they go to user memory.
    pub fn to_bytes(&self) -> (r: [u8; 16])
        ensures
            r@[0] + 256 * r@[1] == self.sin_family,
            256 * r@[2] + r@[3] == self.sin_port,
            r@.subrange(4, 8) == self.sin_addr@,
            forall|i: int| 8 <= i < 16 ==> #[trigger] r@[i] == 0,
    {
        let mut r = [0u8; 16];
        r[0] = (self.sin_family % 256) as u8;
        r[1] = (self.sin_family / 256) as u8;
        r[2] = (self.sin_port / 256) as u8;
        r[3] = (self.sin_port % 256) as u8;
        r[4] = self.sin_addr[0];
        r[5] = self.sin_addr[1];
        r[6] = self.sin_addr[2];
        r[7] = self.sin_addr[3];
        assert(r@.subrange(4, 8) =~= self.sin_addr@);
        r
    }

    /// What writing the address to user memory came to: whether the address, and its length
    /// where that was asked for, could be copied.
    pub fn to_user(addr_copied: bool, len_copied: Option<bool>) -> (r: KernelResult<()>)
        ensures
            r == if addr_copied && len_copied != Some(false) {
                Ok::<(), Errno>(())
            } else {
                Err(Errno::Efault)
            },
    {
        if !addr_copied {
            return Err(Errno::Efault);
        }
        if let Some(copied) = len_copied {
            if !copied {
                return Err(Errno::Efault);
            }
        }
        Ok(())
    }

    /// The address and the port.
    pub fn to_endpoint(&self) -> (r: Endpoint)
        ensures
            r.addr == self.sin_addr,
            r.port == self.sin_port,
    {
        Endpoint { addr: self.sin_addr, port: self.sin_port }
    }

    /// Where to listen: the address of all zeros stands for all addresses.
    pub fn to_listen_endpoint(&self) -> (r: ListenEndpoint)
        ensures
            r.port == self.sin_port,
            r.addr == if unspecified(self.sin_addr) {
                None
            } else {
                Some(self.sin_addr)
            },
    {
        let a = self.sin_addr;
        if a[0] == 0 && a[1] == 0 && a[2] == 0 && a[3] == 0 {
            ListenEndpoint { addr: None, port: self.sin_port }
        } else {
            ListenEndpoint { addr: Some(self.sin_addr), port: self.sin_port }
        }
    }

    /// The address of an endpoint.
    pub fn from_endpoint(ep: &Endpoint) -> (r: Self)
        ensures
            r.sin_family == AF_INET,
            r.sin_port == ep.port,
            r.sin_addr == ep.addr,
            zero_filled(r),
    {
        SockAddrIn4 { sin_family: AF_INET, sin_port: ep.port, sin_addr: ep.addr, sin_zero: [0; 8] }
    }
}

/// The address of all zeros.
pub open spec fn unspecified(a: [u8; 4]) -> bool {
    a@[0] == 0 && a@[1] == 0 && a@[2] == 0 && a@[3] == 0
}

/// No address and no port.
pub fn zero_endpoint() -> (r: Endpoint)
    ensures
        unspecified(r.addr),
        r.port == 0,
{
    Endpoint { addr: [0; 4], port: 0 }
}

/// An address written to user memory and read back is the same.
pub proof fn law_address_survives(b: Seq<u8>, a: SockAddrIn4, back: SockAddrIn4)
    requires
        b.len() == 16,
        b[0] + 256 * b[1] == a.sin_family,
        256 * b[2] + b[3] == a.sin_port,
        b.subrange(4, 8) == a.sin_addr@,
        decoded(b, back),
    ensures
        back.sin_family == a.sin_family,
        back.sin_port == a.sin_port,
        back.sin_addr@ == a.sin_addr@,
{
}

/// The bytes of an address are its family, lowest byte first, its port, highest byte first, and the four
/// bytes of the address itself.
pub proof fn law_port_is_in_network_order(b: Seq<u8>, a: SockAddrIn4)
    requires
        b.len() == 16,
        decoded(b, a),
    ensures
        a.sin_family as int / 256 == b[1] && a.sin_family as int % 256 == b[0],
        a.sin_port as int / 256 == b[2] && a.sin_port as int % 256 == b[3],
        forall|i: int| 0 <= i < 4 ==> #[trigger] a.sin_addr@[i] == b[4 + i],
{
    assert forall|i: int| 0 <= i < 4 implies #[trigger] a.sin_addr@[i] == b[4 + i] by {
        assert(a.sin_addr@[i] == b.subrange(4, 8)[i]);
    }
}

} // verus!
