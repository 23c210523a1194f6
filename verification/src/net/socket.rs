//! Sockets and those who wait for them.
use std::collections::BTreeMap;
use vstd::prelude::*;
use vstd::std_specs::btree::increasing_seq;
use vstd::std_specs::cmp::OrdSpec;
use vstd::std_specs::iter::IteratorSpec;
use crate::net::addr::Endpoint;
use crate::net::util::PollState;

verus! {

/// Protocol of a socket.
#[derive(Debug, Clone, Copy, PartialEq, Eq, Structural)]
pub enum SocketType {
    Tcp,
    Udp,
}

/// A socket.
pub struct Socket {
    /// Number of the socket in the network stack.
    pub handle: usize,
    pub sock_type: SocketType,
    /// Operations do not wait.
    pub nonblocking: bool,
    /// Port that the socket is bound to, zero where it is not.
    pub local_port: u16,
    /// Where datagrams go that name no address.
    pub connected_peer: Option<Endpoint>,
}

/// What the network stack says of a socket.
#[derive(Debug, Clone, Copy, PartialEq, Eq, Structural)]
pub enum SocketFlags {
    Tcp {
        can_recv: bool,
        may_recv: bool,
        can_send: bool,
        active: bool,
    },
    Udp { can_recv: bool, can_send: bool },
}

impl Socket {
    pub fn new(handle: usize, sock_type: SocketType) -> (r: Self)
        ensures
            r.handle == handle,
            r.sock_type == sock_type,
            !r.nonblocking,
            r.local_port == 0,
            r.connected_peer is None,
    {
        Socket { handle, sock_type, nonblocking: false, local_port: 0, connected_peer: None }
    }

    pub fn handle(&self) -> (r: usize)
        ensures
            r == self.handle,
    {
        self.handle
    }

    /// Use another socket of the network stack; the one used so far is returned.
    pub fn swap_handle(&mut self, new_handle: usize) -> (r: usize)
        ensures
            r == old(self).handle,
            *final(self) == (Socket { handle: new_handle, ..*old(self) }),
    {
        let r = self.handle;
        self.handle = new_handle;
        r
    }

    pub fn is_nonblocking(&self) -> (r: bool)
        ensures
            r == self.nonblocking,
    {
        self.nonblocking
    }

    /// How often the network stack is driven before the socket is removed, so that what is
    /// still to be sent is.
    pub fn drain_polls(&self) -> (r: u32)
        ensures
            r == if self.sock_type == SocketType::Tcp {
                8
            } else {
                4u32
            },
    {
        match self.sock_type {
            SocketType::Tcp => 8,
            SocketType::Udp => 4,
        }
    }
}

/// What a socket is ready for: a stream whose other end is closed can be read, for it ends.
pub fn poll_ready(flags: &SocketFlags) -> (r: PollState)
    ensures
        r == match *flags {
            SocketFlags::Tcp { can_recv, may_recv, can_send, active } => PollState {
                readable: can_recv || !may_recv,
                writable: can_send,
                hangup: !active,
            },
            SocketFlags::Udp { can_recv, can_send } => PollState {
                readable: can_recv,
                writable: can_send,
                hangup: false,
            },
        },
{
    match *flags {
        SocketFlags::Tcp { can_recv, may_recv, can_send, active } => PollState {
            readable: can_recv || !may_recv,
            writable: can_send,
            hangup: !active,
        },
        SocketFlags::Udp { can_recv, can_send } => PollState {
            readable: can_recv,
            writable: can_send,
            hangup: false,
        },
    }
}

/// Whether those who wait to read, and those who wait to write, are woken.
pub open spec fn wakes(flags: SocketFlags) -> (bool, bool) {
    match flags {
        SocketFlags::Tcp { can_recv, may_recv, can_send, active } => (
            can_recv || !active,
            can_send || !active,
        ),
        SocketFlags::Udp { can_recv, can_send } => (can_recv, can_send),
    }
}

/// Who waits for a socket.
#[derive(Debug, Clone, Copy, PartialEq, Eq, Structural)]
pub struct SocketWakers {
    pub read: Option<u64>,
    pub write: Option<u64>,
}

/// All who wait for sockets.
pub struct WakerTable {
    pub entries: BTreeMap<usize, SocketWakers>,
}

/// Who waits for the socket.
pub open spec fn waiters(m: Map<usize, SocketWakers>, h: usize) -> SocketWakers {
    if m.dom().contains(h) {
        m[h]
    } else {
        SocketWakers { read: None, write: None }
    }
}

/// The entries of the map in the order of the sockets.
pub open spec fn in_order(s: Seq<(usize, SocketWakers)>, m: Map<usize, SocketWakers>) -> bool {
    &&& forall|i: int, j: int| 0 <= i < j < s.len() ==> (#[trigger] s[i]).0 < (#[trigger] s[j]).0
    &&& forall|i: int|
        0 <= i < s.len() ==> m.dom().contains((#[trigger] s[i]).0) && m[s[i].0] == s[i].1
    &&& forall|h: usize| #[trigger] m.dom().contains(h) ==> s.contains((h, m[h]))
}

impl WakerTable {
    /// Who waits for the socket.
    pub open spec fn of(&self, h: usize) -> SocketWakers {
        waiters(self.entries@, h)
    }

    pub fn new() -> (r: Self)
        ensures
            r.entries@ == Map::<usize, SocketWakers>::empty(),
            forall|h: usize| #[trigger] r.of(h) == (SocketWakers { read: None, write: None }),
    {
        WakerTable { entries: BTreeMap::new() }
    }

    /// Who waits for the socket, where it is known.
    fn lookup(&self, handle: usize) -> (r: Option<SocketWakers>)
        ensures
            r is Some <==> self.entries@.dom().contains(handle),
            r matches Some(w) ==> w == self.of(handle),
            r is None ==> self.of(handle) == (SocketWakers { read: None, write: None }),
    {
        match self.entries.get(&handle) {
            Some(w) => Some(*w),
            None => None,
        }
    }

    /// The sockets that are known, in order, with who waits for them.
    fn list(&self) -> (r: Vec<(usize, SocketWakers)>)
        ensures
            in_order(r@, self.entries@),
    {
        broadcast use {vstd::std_specs::btree::group_btree_axioms, vstd::laws_cmp::group_laws_cmp};

        let mut r: Vec<(usize, SocketWakers)> = Vec::new();
        let ghost v = self.entries.iter().remaining();
        for e in it: self.entries.iter()
            invariant
                it.seq() == v,
                r@.len() == it.index(),
                forall|j: int|
                    0 <= j < r@.len() ==> (#[trigger] r@[j]).0 == *v[j].0 && r@[j].1 == *v[j].1,
        {
            r.push((*e.0, *e.1));
        }
        proof {
            let keys = v.map_values(|kv: (&usize, &SocketWakers)| *kv.0);
            assert(increasing_seq(keys));
            assert forall|i: int, j: int| 0 <= i < j < r@.len() implies (#[trigger] r@[i]).0 < (
            #[trigger] r@[j]).0 by {
                assert(keys[i].cmp_spec(&keys[j]) is Less);
            }
            assert forall|i: int| 0 <= i < r@.len() implies self.entries@.dom().contains(
                (#[trigger] r@[i]).0,
            ) && self.entries@[r@[i].0] == r@[i].1 by {
                assert(self.entries@.contains_key(*v[i].0));
            }
            assert forall|h: usize| #[trigger] self.entries@.dom().contains(h) implies r@.contains(
                (h, self.entries@[h]),
            ) by {
                assert(self.entries@.contains_key(h));
                assert(v.contains((&h, &self.entries@[h])));
                let i = choose|i: int| 0 <= i < v.len() && v[i] == (&h, &self.entries@[h]);
                assert(r@[i] == (h, self.entries@[h]));
            }
        }
        r
    }

    /// Someone waits to read.
    pub fn register_read_waker(&mut self, handle: usize, waker: u64)
        ensures
            final(self).entries@ == old(self).entries@.insert(
                handle,
                SocketWakers { read: Some(waker), ..old(self).of(handle) },
            ),
            forall|h: usize| #[trigger] final(self).of(h) == if h == handle {
                SocketWakers { read: Some(waker), ..old(self).of(h) }
            } else {
                old(self).of(h)
            },
    {
        let mut w = match self.lookup(handle) {
            Some(w) => w,
            None => SocketWakers { read: None, write: None },
        };
        w.read = Some(waker);
        let _ = self.entries.insert(handle, w);
    }

    /// Someone waits to write.
    pub fn register_write_waker(&mut self, handle: usize, waker: u64)
        ensures
            final(self).entries@ == old(self).entries@.insert(
                handle,
                SocketWakers { write: Some(waker), ..old(self).of(handle) },
            ),
            forall|h: usize| #[trigger] final(self).of(h) == if h == handle {
                SocketWakers { write: Some(waker), ..old(self).of(h) }
            } else {
                old(self).of(h)
            },
    {
        let mut w = match self.lookup(handle) {
            Some(w) => w,
            None => SocketWakers { read: None, write: None },
        };
        w.write = Some(waker);
        let _ = self.entries.insert(handle, w);
    }

    /// Nobody waits to read any more.
    pub fn unregister_read_waker(&mut self, handle: usize)
        ensures
            final(self).entries@ == if old(self).entries@.dom().contains(handle) {
                old(self).entries@.insert(
                    handle,
                    SocketWakers { read: None, ..old(self).of(handle) },
                )
            } else {
                old(self).entries@
            },
            forall|h: usize| #[trigger] final(self).of(h) == if h == handle {
                SocketWakers { read: None, ..old(self).of(h) }
            } else {
                old(self).of(h)
            },
    {
        if let Some(w) = self.lookup(handle) {
            let mut now = w;
            now.read = None;
            let _ = self.entries.insert(handle, now);
        }
    }

    /// Nobody waits to write any more.
    pub fn unregister_write_waker(&mut self, handle: usize)
        ensures
            final(self).entries@ == if old(self).entries@.dom().contains(handle) {
                old(self).entries@.insert(
                    handle,
                    SocketWakers { write: None, ..old(self).of(handle) },
                )
            } else {
                old(self).entries@
            },
            forall|h: usize| #[trigger] final(self).of(h) == if h == handle {
                SocketWakers { write: None, ..old(self).of(h) }
            } else {
                old(self).of(h)
            },
    {
        if let Some(w) = self.lookup(handle) {
            let mut now = w;
            now.write = None;
            let _ = self.entries.insert(handle, now);
        }
    }

    /// Nobody waits for the socket any more.
    pub fn unregister_waker(&mut self, handle: usize)
        ensures
            final(self).entries@ == old(self).entries@.remove(handle),
            forall|h: usize| #[trigger] final(self).of(h) == if h == handle {
                SocketWakers { read: None, write: None }
            } else {
                old(self).of(h)
            },
    {
        let _ = self.entries.remove(&handle);
    }
}

/// What the network stack says of the socket, where it has it.
pub open spec fn flags_of(sockets: Seq<(usize, SocketFlags)>, h: usize, n: int) -> Option<SocketFlags>
    decreases n,
{
    if n <= 0 {
        None
    } else {
        match flags_of(sockets, h, n - 1) {
            Some(f) => Some(f),
            None => if sockets[n - 1].0 == h {
                Some(sockets[n - 1].1)
            } else {
                None
            },
        }
    }
}

/// The wakers to call for the first `n` sockets that someone waits for: first who reads, then
/// who writes.
pub open spec fn to_wake(
    s: Seq<(usize, SocketWakers)>,
    sockets: Seq<(usize, SocketFlags)>,
    n: int,
) -> Seq<u64>
    decreases n,
{
    if n <= 0 {
        Seq::empty()
    } else {
        let w = s[n - 1].1;
        let (rx, tx) = match flags_of(sockets, s[n - 1].0, sockets.len() as int) {
            Some(f) => wakes(f),
            None => (false, false),
        };
        to_wake(s, sockets, n - 1) + (if rx && w.read is Some {
            seq![w.read->0]
        } else {
            Seq::empty()
        }) + (if tx && w.write is Some {
            seq![w.write->0]
        } else {
            Seq::empty()
        })
    }
}

/// Who waits for a socket that is ready is woken.
pub proof fn law_ready_is_woken(
    s: Seq<(usize, SocketWakers)>,
    sockets: Seq<(usize, SocketFlags)>,
    n: int,
    i: int,
    f: SocketFlags,
)
    requires
        0 <= i < n <= s.len(),
        flags_of(sockets, s[i].0, sockets.len() as int) == Some(f),
    ensures
        wakes(f).0 && s[i].1.read is Some ==> to_wake(s, sockets, n).contains(s[i].1.read->0),
        wakes(f).1 && s[i].1.write is Some ==> to_wake(s, sockets, n).contains(s[i].1.write->0),
    decreases n,
{
    let w = s[n - 1].1;
    let (rx, tx) = match flags_of(sockets, s[n - 1].0, sockets.len() as int) {
        Some(f) => wakes(f),
        None => (false, false),
    };
    let before = to_wake(s, sockets, n - 1);
    let a = if rx && w.read is Some {
        seq![w.read->0]
    } else {
        Seq::empty()
    };
    let b = if tx && w.write is Some {
        seq![w.write->0]
    } else {
        Seq::empty()
    };
    let all = to_wake(s, sockets, n);
    assert(all == before + a + b);
    if i < n - 1 {
        law_ready_is_woken(s, sockets, n - 1, i, f);
        assert forall|x: u64| before.contains(x) implies all.contains(x) by {
            let k = choose|k: int| 0 <= k < before.len() && before[k] == x;
            assert(all[k] == x);
        }
    } else {
        if rx && w.read is Some {
            assert(all[before.len() as int] == w.read->0);
        }
        if tx && w.write is Some {
            assert(all[(before.len() + a.len()) as int] == w.write->0);
        }
    }
}

/// Nobody is woken who does not wait for a socket that is ready.
pub proof fn law_woken_was_ready(
    s: Seq<(usize, SocketWakers)>,
    sockets: Seq<(usize, SocketFlags)>,
    n: int,
    x: u64,
) -> (i: int)
    requires
        0 <= n <= s.len(),
        to_wake(s, sockets, n).contains(x),
    ensures
        0 <= i < n,
        flags_of(sockets, s[i].0, sockets.len() as int) matches Some(f) && (wakes(f).0 && s[i].1.read
            == Some(x) || wakes(f).1 && s[i].1.write == Some(x)),
    decreases n,
{
    let all = to_wake(s, sockets, n);
    let k = choose|k: int| 0 <= k < all.len() && all[k] == x;
    let before = to_wake(s, sockets, n - 1);
    if k < before.len() {
        assert(before[k] == x);
        law_woken_was_ready(s, sockets, n - 1, x)
    } else {
        n - 1
    }
}

/// The wakers to call for sockets that are ready, in the order of the sockets.
pub fn ready_wakers(table: &WakerTable, sockets: &Vec<(usize, SocketFlags)>) -> (r: Vec<u64>)
    ensures
        exists|s: Seq<(usize, SocketWakers)>| #[trigger]
            in_order(s, table.entries@) && r@ == to_wake(s, sockets@, s.len() as int),
{
    let mut r: Vec<u64> = Vec::new();
    let all = table.list();
    let ghost s = all@;
    let mut i: usize = 0;
    while i < all.len()
        invariant
            i <= s.len(),
            s == all@,
            r@ == to_wake(s, sockets@, i as int),
        decreases s.len() - i,
    {
        let (handle, w) = all[i];
        let mut rx = false;
        let mut tx = false;
        let mut found = false;
        let mut k: usize = 0;
        while k < sockets.len()
            invariant
                k <= sockets@.len(),
                found == (flags_of(sockets@, handle, k as int) is Some),
                flags_of(sockets@, handle, k as int) matches Some(f) ==> (rx, tx) == wakes(f),
                !found ==> !rx && !tx,
            decreases sockets@.len() - k,
        {
            let (h, f) = sockets[k];
            if !found && h == handle {
                found = true;
                match f {
                    SocketFlags::Tcp { can_recv, may_recv: _, can_send, active } => {
                        rx = can_recv || !active;
                        tx = can_send || !active;
                    },
                    SocketFlags::Udp { can_recv, can_send } => {
                        rx = can_recv;
                        tx = can_send;
                    },
                }
            }
            k += 1;
        }
        let ghost r0 = r@;
        if rx {
            if let Some(x) = w.read {
                r.push(x);
            }
        }
        let ghost r1 = r@;
        if tx {
            if let Some(x) = w.write {
                r.push(x);
            }
        }
        proof {
            assert(r1 =~= r0 + (if rx && w.read is Some {
                seq![w.read->0]
            } else {
                Seq::empty()
            }));
            assert(r@ =~= r1 + (if tx && w.write is Some {
                seq![w.write->0]
            } else {
                Seq::empty()
            }));
        }
        i += 1;
    }
    r
}

/// Who waits to read is woken where there is something to read, and who waits to write where something can
/// be written; a stream that is closed wakes both.
pub proof fn law_closed_stream_wakes_all(flags: SocketFlags)
    ensures
        flags matches SocketFlags::Tcp { can_recv, may_recv, can_send, active } ==> {
            &&& can_recv ==> wakes(flags).0
            &&& can_send ==> wakes(flags).1
            &&& !active ==> wakes(flags).0 && wakes(flags).1
            &&& active && !can_recv ==> !wakes(flags).0
            &&& active && !can_send ==> !wakes(flags).1
        },
        flags matches SocketFlags::Udp { can_recv, can_send } ==> wakes(flags) == (can_recv, can_send),
{
}

} // verus!
