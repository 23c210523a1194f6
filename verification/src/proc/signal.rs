//! Signals: sets, actions, delivery.
//!
//! Signals are numbered from one.  Posting makes a signal pending; before a process goes
//! back to user mode the lowest pending one that is not blocked is taken, and its action
//! decides: nothing, the end of the process, or a call of a handler, for which a frame is
//! built on the user stack.
use vstd::prelude::*;
use vstd::std_specs::bits::{axiom_u64_trailing_zeros, u64_trailing_zeros};
use crate::hal::addr::{PhysAddr, VirtAddr};
use crate::hal::trap::TrapFrame;
use crate::mm::allocator::frame_allocator::{
    alloc_raw_frame_sync, frame_allocated, FramePool, NUM_MAGAZINES,
};
use crate::mm::allocator::types::{pfn, PageRole};
use crate::mm::pmap::pte::entry_of;
use crate::mm::pmap::space::{
    enter_flags, entered, pmap_enter, Pmap,
};
use crate::mm::pmap::table::{pool_holdable, same_page};
use crate::mm::vm::fault::lemma_entry_bits;
use crate::mm::vm::map::heap::SIGCODE_VA;
use crate::mm::vm::map::perm::{lemma_joined, MapPerm};

verus! {

pub const SIGHUP: u8 = 1;

pub const SIGINT: u8 = 2;

pub const SIGILL: u8 = 4;

pub const SIGBUS: u8 = 7;

pub const SIGFPE: u8 = 8;

pub const SIGKILL: u8 = 9;

pub const SIGUSR1: u8 = 10;

pub const SIGSEGV: u8 = 11;

pub const SIGUSR2: u8 = 12;

pub const SIGPIPE: u8 = 13;

pub const SIGALRM: u8 = 14;

pub const SIGTERM: u8 = 15;

pub const SIGCHLD: u8 = 17;

pub const SIGCONT: u8 = 18;

pub const SIGSTOP: u8 = 19;

pub const MAX_SIG: u8 = 64;

/// Whether `sig` is the number of a signal.
pub open spec fn legit(sig: u8) -> bool {
    1 <= sig <= 64
}

/// Whether bit `i` is set.
pub open spec fn bit(x: u64, i: u64) -> bool {
    (x >> i) & 1 == 1
}

/// What the operations do to single bits.
pub proof fn lemma_bits(a: u64, b: u64, i: u64)
    requires
        i < 64,
    ensures
        bit(a | b, i) == (bit(a, i) || bit(b, i)),
        bit(a & b, i) == (bit(a, i) && bit(b, i)),
        bit(!a, i) == !bit(a, i),
        bit(a, i) ==> a != 0,
        !bit(0, i),
        (a & (1u64 << i) != 0) == bit(a, i),
{
    assert(((a | b) >> i) & 1 == 1 <==> (a >> i) & 1 == 1 || (b >> i) & 1 == 1) by (bit_vector)
        requires
            i < 64,
    ;
    assert(((a & b) >> i) & 1 == 1 <==> (a >> i) & 1 == 1 && (b >> i) & 1 == 1) by (bit_vector)
        requires
            i < 64,
    ;
    assert((((!a) >> i) & 1 == 1 <==> (a >> i) & 1 != 1) && ((a >> i) & 1 == 1 ==> a != 0) && (
    0u64 >> i) & 1 != 1 && ((a & (1u64 << i) != 0) <==> (a >> i) & 1 == 1)) by (bit_vector)
        requires
            i < 64,
    ;
}

/// The bit of a signal is set for that signal only.
pub proof fn lemma_one_bit(i: u64, j: u64)
    requires
        i < 64,
        j < 64,
    ensures
        bit(1u64 << j, i) == (i == j),
{
    assert(((1u64 << j) >> i) & 1 == 1 <==> i == j) by (bit_vector)
        requires
            i < 64,
            j < 64,
    ;
}

/// A signal.
#[derive(Debug, Clone, Copy, PartialEq, Eq, PartialOrd, Ord, Structural)]
pub struct Signal(pub u8);

impl Signal {
    pub fn new(sig: u8) -> (r: Option<Self>)
        ensures
            r == if legit(sig) {
                Some(Signal(sig))
            } else {
                None
            },
    {
        if Self::is_legit(sig) {
            Some(Signal(sig))
        } else {
            None
        }
    }

    pub fn is_legit(sig: u8) -> (r: bool)
        ensures
            r == legit(sig),
    {
        sig >= 1 && sig <= MAX_SIG
    }

    pub fn new_unchecked(sig: u8) -> (r: Self)
        ensures
            r == Signal(sig),
    {
        Signal(sig)
    }

    pub fn as_u8(self) -> (r: u8)
        ensures
            r == self.0,
    {
        self.0
    }

    /// The bit of the signal in a set.
    pub fn as_bit(self) -> (r: u64)
        requires
            legit(self.0),
        ensures
            r == 1u64 << ((self.0 - 1) as u64),
    {
        1u64 << ((self.0 - 1) as u64)
    }

    /// Name of the signal, where it has one.
    pub fn name(self) -> (r: Option<&'static str>)
        ensures
            match r {
                Some(s) => signal_name(self.0) matches Some(n) && s@ == n,
                None => signal_name(self.0) is None,
            },
    {
        match self.0 {
            SIGHUP => Some("SIGHUP"),
            SIGINT => Some("SIGINT"),
            SIGILL => Some("SIGILL"),
            SIGBUS => Some("SIGBUS"),
            SIGFPE => Some("SIGFPE"),
            SIGKILL => Some("SIGKILL"),
            SIGUSR1 => Some("SIGUSR1"),
            SIGSEGV => Some("SIGSEGV"),
            SIGUSR2 => Some("SIGUSR2"),
            SIGPIPE => Some("SIGPIPE"),
            SIGALRM => Some("SIGALRM"),
            SIGTERM => Some("SIGTERM"),
            SIGCHLD => Some("SIGCHLD"),
            SIGCONT => Some("SIGCONT"),
            SIGSTOP => Some("SIGSTOP"),
            _ => None,
        }
    }
}

/// The names of signals.
pub open spec fn signal_name(sig: u8) -> Option<Seq<char>> {
    if sig == 1 {
        Some("SIGHUP"@)
    } else if sig == 2 {
        Some("SIGINT"@)
    } else if sig == 4 {
        Some("SIGILL"@)
    } else if sig == 7 {
        Some("SIGBUS"@)
    } else if sig == 8 {
        Some("SIGFPE"@)
    } else if sig == 9 {
        Some("SIGKILL"@)
    } else if sig == 10 {
        Some("SIGUSR1"@)
    } else if sig == 11 {
        Some("SIGSEGV"@)
    } else if sig == 12 {
        Some("SIGUSR2"@)
    } else if sig == 13 {
        Some("SIGPIPE"@)
    } else if sig == 14 {
        Some("SIGALRM"@)
    } else if sig == 15 {
        Some("SIGTERM"@)
    } else if sig == 17 {
        Some("SIGCHLD"@)
    } else if sig == 18 {
        Some("SIGCONT"@)
    } else if sig == 19 {
        Some("SIGSTOP"@)
    } else {
        None
    }
}

/// A set of signals.
#[derive(Debug, Clone, Copy, PartialEq, Eq, Default, Structural)]
pub struct SigSet(pub u64);

impl SigSet {
    /// Whether the set has the signal.
    pub open spec fn has(self, sig: u8) -> bool {
        bit(self.0, (sig - 1) as u64)
    }

    pub fn empty() -> (r: Self)
        ensures
            r.0 == 0,
            forall|s: u8| legit(s) ==> !#[trigger] r.has(s),
    {
        proof {
            assert forall|s: u8| legit(s) implies !#[trigger] SigSet(0).has(s) by {
                lemma_bits(0, 0, (s - 1) as u64);
            }
        }
        SigSet(0)
    }

    pub fn from_u64(bits: u64) -> (r: Self)
        ensures
            r.0 == bits,
    {
        SigSet(bits)
    }

    pub fn as_u64(self) -> (r: u64)
        ensures
            r == self.0,
    {
        self.0
    }

    /// Put a signal in.
    pub fn add(&mut self, sig: Signal)
        requires
            legit(sig.0),
        ensures
            final(self).0 == old(self).0 | (1u64 << ((sig.0 - 1) as u64)),
            forall|s: u8| legit(s) ==> #[trigger] final(self).has(s) == (old(self).has(s) || s == sig.0),
    {
        let b = sig.as_bit();
        proof {
            assert forall|s: u8| legit(s) implies #[trigger] SigSet(self.0 | b).has(s) == (self.has(
                s,
            ) || s == sig.0) by {
                lemma_bits(self.0, b, (s - 1) as u64);
                lemma_one_bit((s - 1) as u64, (sig.0 - 1) as u64);
            }
        }
        self.0 = self.0 | b;
    }

    /// Take a signal out.
    pub fn remove(&mut self, sig: Signal)
        requires
            legit(sig.0),
        ensures
            final(self).0 == old(self).0 & !(1u64 << ((sig.0 - 1) as u64)),
            forall|s: u8| legit(s) ==> #[trigger] final(self).has(s) == (old(self).has(s) && s != sig.0),
    {
        let b = sig.as_bit();
        proof {
            assert forall|s: u8| legit(s) implies #[trigger] SigSet(self.0 & !b).has(s) == (
            self.has(s) && s != sig.0) by {
                lemma_bits(self.0, !b, (s - 1) as u64);
                lemma_bits(b, b, (s - 1) as u64);
                lemma_one_bit((s - 1) as u64, (sig.0 - 1) as u64);
            }
        }
        self.0 = self.0 & !b;
    }

    /// Whether the set has the signal.
    pub fn contains(self, sig: Signal) -> (r: bool)
        requires
            legit(sig.0),
        ensures
            r == self.has(sig.0),
    {
        proof {
            lemma_bits(self.0, self.0, (sig.0 - 1) as u64);
        }
        self.0 & sig.as_bit() != 0
    }

    /// Whether the set and `bits` have a signal in common.
    pub fn contains_bit(self, bits: u64) -> (r: bool)
        ensures
            r == (self.0 & bits != 0),
    {
        self.0 & bits != 0
    }

    /// Signals in either set.
    pub fn union(self, other: SigSet) -> (r: SigSet)
        ensures
            r.0 == self.0 | other.0,
            forall|s: u8| legit(s) ==> #[trigger] r.has(s) == (self.has(s) || other.has(s)),
    {
        proof {
            assert forall|s: u8| legit(s) implies #[trigger] SigSet(self.0 | other.0).has(s) == (
            self.has(s) || other.has(s)) by {
                lemma_bits(self.0, other.0, (s - 1) as u64);
            }
        }
        SigSet(self.0 | other.0)
    }

    /// Signals in both sets.
    pub fn intersect(self, other: SigSet) -> (r: SigSet)
        ensures
            r.0 == self.0 & other.0,
            forall|s: u8| legit(s) ==> #[trigger] r.has(s) == (self.has(s) && other.has(s)),
    {
        proof {
            assert forall|s: u8| legit(s) implies #[trigger] SigSet(self.0 & other.0).has(s) == (
            self.has(s) && other.has(s)) by {
                lemma_bits(self.0, other.0, (s - 1) as u64);
            }
        }
        SigSet(self.0 & other.0)
    }

    /// Signals in this set and not in the other.
    pub fn difference(self, other: SigSet) -> (r: SigSet)
        ensures
            r.0 == self.0 & !other.0,
            forall|s: u8| legit(s) ==> #[trigger] r.has(s) == (self.has(s) && !other.has(s)),
    {
        proof {
            assert forall|s: u8| legit(s) implies #[trigger] SigSet(self.0 & !other.0).has(s) == (
            self.has(s) && !other.has(s)) by {
                lemma_bits(self.0, !other.0, (s - 1) as u64);
                lemma_bits(other.0, other.0, (s - 1) as u64);
            }
        }
        SigSet(self.0 & !other.0)
    }

    /// Whether the set has no signal.
    pub fn is_empty(self) -> (r: bool)
        ensures
            r == (self.0 == 0),
            r ==> forall|s: u8| legit(s) ==> !#[trigger] self.has(s),
            !r ==> exists|s: u8| legit(s) && #[trigger] self.has(s),
    {
        proof {
            lemma_nonempty(self);
        }
        self.0 == 0
    }

    /// The lowest signal of the set.
    pub fn lowest(self) -> (r: Option<u8>)
        ensures
            match r {
                Some(s) => legit(s) && self.has(s) && forall|t: u8|
                    1 <= t < s ==> !#[trigger] self.has(t),
                None => forall|t: u8| legit(t) ==> !#[trigger] self.has(t),
            },
    {
        proof {
            lemma_nonempty(self);
            axiom_u64_trailing_zeros(self.0);
        }
        if self.0 == 0 {
            return None;
        }
        let n = self.0.trailing_zeros();
        proof {
            assert forall|t: u8| 1 <= t < n + 1 implies !#[trigger] self.has(t) by {
                let j = (t - 1) as u64;
                assert((self.0 >> j) & 1u64 == 0u64);
            }
        }
        Some(n as u8 + 1)
    }
}

proof fn lemma_nonempty(s: SigSet)
    ensures
        s.0 == 0 ==> forall|t: u8| legit(t) ==> !#[trigger] s.has(t),
        s.0 != 0 ==> exists|t: u8| legit(t) && #[trigger] s.has(t),
{
    if s.0 == 0 {
        assert forall|t: u8| legit(t) implies !#[trigger] s.has(t) by {
            lemma_bits(0, 0, (t - 1) as u64);
        }
    } else {
        axiom_u64_trailing_zeros(s.0);
        let n = u64_trailing_zeros(s.0);
        assert(s.has((n + 1) as u8));
    }
}

/// A set of signals that is changed in single steps; every step returns what the set was
/// before.
pub struct AtomicSigSet(pub SigSet);

impl AtomicSigSet {
    pub fn new(set: SigSet) -> (r: Self)
        ensures
            r.0 == set,
    {
        AtomicSigSet(set)
    }

    pub fn load(&self) -> (r: SigSet)
        ensures
            r == self.0,
    {
        self.0
    }

    pub fn store(&mut self, set: SigSet)
        ensures
            final(self).0 == set,
    {
        self.0 = set;
    }

    pub fn fetch_add(&mut self, sig: Signal) -> (r: SigSet)
        requires
            legit(sig.0),
        ensures
            r == old(self).0,
            final(self).0.0 == r.0 | (1u64 << ((sig.0 - 1) as u64)),
            forall|s: u8| legit(s) ==> #[trigger] final(self).0.has(s) == (r.has(s) || s == sig.0),
    {
        let r = self.0;
        self.0.add(sig);
        r
    }

    pub fn fetch_remove(&mut self, sig: Signal) -> (r: SigSet)
        requires
            legit(sig.0),
        ensures
            r == old(self).0,
            final(self).0.0 == r.0 & !(1u64 << ((sig.0 - 1) as u64)),
            forall|s: u8| legit(s) ==> #[trigger] final(self).0.has(s) == (r.has(s) && s != sig.0),
    {
        let r = self.0;
        self.0.remove(sig);
        r
    }

    pub fn fetch_union(&mut self, set: SigSet) -> (r: SigSet)
        ensures
            r == old(self).0,
            final(self).0.0 == r.0 | set.0,
            forall|s: u8| legit(s) ==> #[trigger] final(self).0.has(s) == (r.has(s) || set.has(s)),
    {
        let r = self.0;
        self.0 = r.union(set);
        r
    }

    pub fn fetch_intersect(&mut self, set: SigSet) -> (r: SigSet)
        ensures
            r == old(self).0,
            final(self).0.0 == r.0 & set.0,
            forall|s: u8| legit(s) ==> #[trigger] final(self).0.has(s) == (r.has(s) && set.has(s)),
    {
        let r = self.0;
        self.0 = r.intersect(set);
        r
    }

    pub fn fetch_difference(&mut self, set: SigSet) -> (r: SigSet)
        ensures
            r == old(self).0,
            final(self).0.0 == r.0 & !set.0,
            forall|s: u8| legit(s) ==> #[trigger] final(self).0.has(s) == (r.has(s) && !set.has(s)),
    {
        let r = self.0;
        self.0 = r.difference(set);
        r
    }
}

/// What a signal does where no handler is set.
#[derive(Debug, Clone, Copy, PartialEq, Eq, Structural)]
pub enum SigDefault {
    Terminate,
    Ignore,
    Stop,
    Continue,
}

/// What a signal does where no handler is set.
pub open spec fn default_of(sig: u8) -> SigDefault {
    if sig == SIGCHLD {
        SigDefault::Ignore
    } else if sig == SIGCONT {
        SigDefault::Continue
    } else if sig == SIGSTOP {
        SigDefault::Stop
    } else {
        SigDefault::Terminate
    }
}

/// Without a handler every signal ends the process, but for the one that tells of a child, which
/// does nothing, and those two that stop a process and let it go on.
pub proof fn law_signals_end_by_default(sig: u8)
    ensures
        default_of(sig) == SigDefault::Ignore <==> sig == 17,
        default_of(sig) == SigDefault::Continue <==> sig == 18,
        default_of(sig) == SigDefault::Stop <==> sig == 19,
        default_of(sig) == SigDefault::Terminate <==> sig != 17 && sig != 18 && sig != 19,
{
}

/// What a signal does where no handler is set.
pub fn default_action(sig: u8) -> (r: SigDefault)
    ensures
        r == default_of(sig),
        r == SigDefault::Ignore <==> sig == 17,
        r == SigDefault::Continue <==> sig == 18,
        r == SigDefault::Stop <==> sig == 19,
        r == SigDefault::Terminate <==> sig != 17 && sig != 18 && sig != 19,
{
    match sig {
        SIGCHLD => SigDefault::Ignore,
        SIGCONT => SigDefault::Continue,
        SIGSTOP => SigDefault::Stop,
        _ => SigDefault::Terminate,
    }
}

pub const SA_NOCLDSTOP: u64 = 1;

pub const SA_NOCLDWAIT: u64 = 2;

pub const SA_SIGINFO: u64 = 4;

pub const SA_ONSTACK: u64 = 0x0800_0000;

pub const SA_RESTART: u64 = 0x1000_0000;

pub const SA_NODEFER: u64 = 0x4000_0000;

pub const SA_RESETHAND: u64 = 0x8000_0000;

pub const SA_RESTORER: u64 = 0x0400_0000;

/// The default action.
pub const SIG_DFL: u64 = 0;

/// Ignore the signal.
pub const SIG_IGN: u64 = 1;

/// What a process has set for a signal.
#[derive(Debug, Clone, Copy, PartialEq, Eq, Structural)]
pub struct SigAction {
    /// `SIG_DFL`, `SIG_IGN` or the address of a handler.
    pub handler: u64,
    pub flags: u64,
    pub restorer: u64,
    /// Signals blocked while the handler runs.
    pub mask: u64,
}

impl SigAction {
    pub fn default() -> (r: Self)
        ensures
            r == (SigAction { handler: SIG_DFL, flags: 0, restorer: 0, mask: 0 }),
    {
        SigAction { handler: SIG_DFL, flags: 0, restorer: 0, mask: 0 }
    }
}

/// Signal state of a process.
pub struct SignalState {
    /// Actions, that of signal `n` at `n - 1`.
    pub actions: Vec<SigAction>,
    pub pending: AtomicSigSet,
    pub blocked: AtomicSigSet,
    /// Alternate stack: start, size and flags; none where the start is zero.
    pub altstack: (u64, u64, u32),
}

impl SignalState {
    pub open spec fn wf(&self) -> bool {
        self.actions@.len() == 64
    }

    /// Whether the signal is pending and may be delivered: these two cannot be blocked.
    pub open spec fn deliverable(&self, sig: u8) -> bool {
        self.pending.0.has(sig) && (!self.blocked.0.has(sig) || sig == SIGKILL || sig == SIGSTOP)
    }

    /// Whether delivery of the signal would do anything.
    pub open spec fn acts(&self, sig: u8) -> bool {
        let h = self.actions@[sig - 1].handler;
        if h == SIG_DFL {
            default_of(sig) != SigDefault::Ignore
        } else {
            h != SIG_IGN
        }
    }

    /// A signal interrupts where its bit is pending and not held back, unless it is ignored, by its
    /// action or, for number seventeen, by default.
    proof fn lemma_interrupts(&self)
        requires
            self.wf(),
        ensures
            (exists|s: u8| legit(s) && #[trigger] self.deliverable(s) && self.acts(s)) <==> (exists|
                n: u64,
            |
                n < 64 && #[trigger] (self.pending.0.0 >> n) & 1 == 1 && ((self.blocked.0.0 >> n) & 1
                    != 1 || n == 8 || n == 18) && self.actions@[n as int].handler != 1 && (
                self.actions@[n as int].handler == 0 ==> n != 16)),
    {
        if exists|s: u8| legit(s) && #[trigger] self.deliverable(s) && self.acts(s) {
            let s = choose|s: u8| legit(s) && #[trigger] self.deliverable(s) && self.acts(s);
            law_deliverable(self, s);
            let n = (s - 1) as u64;
            assert((self.pending.0.0 >> n) & 1 == 1);
        }
        if exists|n: u64|
            n < 64 && #[trigger] (self.pending.0.0 >> n) & 1 == 1 && ((self.blocked.0.0 >> n) & 1 != 1
                || n == 8 || n == 18) && self.actions@[n as int].handler != 1 && (
            self.actions@[n as int].handler == 0 ==> n != 16) {
            let n = choose|n: u64|
                n < 64 && #[trigger] (self.pending.0.0 >> n) & 1 == 1 && ((self.blocked.0.0 >> n) & 1
                    != 1 || n == 8 || n == 18) && self.actions@[n as int].handler != 1 && (
                self.actions@[n as int].handler == 0 ==> n != 16);
            law_deliverable(self, (n + 1) as u8);
            assert(self.acts((n + 1) as u8));
        }
    }

    pub fn new() -> (r: Self)
        ensures
            r.wf(),
            forall|i: int|
                0 <= i < 64 ==> #[trigger] r.actions@[i] == (SigAction {
                    handler: SIG_DFL,
                    flags: 0,
                    restorer: 0,
                    mask: 0,
                }),
            r.pending.0.0 == 0,
            r.blocked.0.0 == 0,
            r.altstack == (0u64, 0u64, 0u32),
    {
        let mut actions: Vec<SigAction> = Vec::new();
        let mut i: usize = 0;
        while i < 64
            invariant
                i <= 64,
                actions@.len() == i,
                forall|j: int|
                    0 <= j < i ==> #[trigger] actions@[j] == (SigAction {
                        handler: SIG_DFL,
                        flags: 0,
                        restorer: 0,
                        mask: 0,
                    }),
            decreases 64 - i,
        {
            actions.push(SigAction::default());
            i += 1;
        }
        SignalState {
            actions,
            pending: AtomicSigSet::new(SigSet::empty()),
            blocked: AtomicSigSet::new(SigSet::empty()),
            altstack: (0, 0, 0),
        }
    }

    /// Make a signal pending.
    pub fn post_signal(&mut self, sig: u8)
        requires
            legit(sig),
        ensures
            final(self).pending.0.0 == old(self).pending.0.0 | (1u64 << ((sig - 1) as u64)),
            forall|s: u8| legit(s) ==> #[trigger] final(self).pending.0.has(s) == (old(self).pending.0.has(
                s,
            ) || s == sig),
            final(self).actions == old(self).actions,
            final(self).blocked == old(self).blocked,
            final(self).altstack == old(self).altstack,
    {
        let _ = self.pending.fetch_add(Signal::new_unchecked(sig));
    }

    /// The signals that may be delivered.
    fn deliverable_set(&self) -> (r: SigSet)
        ensures
            forall|s: u8| legit(s) ==> #[trigger] r.has(s) == self.deliverable(s),
    {
        let pending = self.pending.load();
        let blocked = self.blocked.load();
        let mut unblockable = SigSet::empty();
        unblockable.add(Signal::new_unchecked(SIGKILL));
        unblockable.add(Signal::new_unchecked(SIGSTOP));
        pending.difference(blocked.difference(unblockable))
    }

    /// Whether some signal may be delivered.
    pub fn has_unmasked_pending(&self) -> (r: bool)
        ensures
            r == exists|s: u8| legit(s) && #[trigger] self.deliverable(s),
            forall|n: u64|
                n < 64 && #[trigger] (self.pending.0.0 >> n) & 1 == 1 && ((self.blocked.0.0 >> n) & 1
                    != 1 || n == 8 || n == 18) ==> r,
    {
        proof {
            assert forall|n: u64|
                n < 64 && #[trigger] (self.pending.0.0 >> n) & 1 == 1 && ((self.blocked.0.0 >> n) & 1
                    != 1 || n == 8 || n == 18) implies self.deliverable((n + 1) as u8) by {
                law_deliverable(self, (n + 1) as u8);
            }
        }
        let set = self.deliverable_set();
        let r = !set.is_empty();
        proof {
            if r {
                let s = choose|s: u8| legit(s) && #[trigger] set.has(s);
                assert(self.deliverable(s));
            } else {
                assert forall|s: u8| legit(s) implies !#[trigger] self.deliverable(s) by {
                    assert(!set.has(s));
                }
            }
        }
        r
    }

    /// Whether some signal may be delivered that would do anything.
    pub fn has_actionable_pending(&self) -> (r: bool)
        requires
            self.wf(),
        ensures
            r == exists|s: u8| legit(s) && #[trigger] self.deliverable(s) && self.acts(s),
            r <==> exists|n: u64|
                n < 64 && #[trigger] (self.pending.0.0 >> n) & 1 == 1 && ((self.blocked.0.0 >> n) & 1
                    != 1 || n == 8 || n == 18) && self.actions@[n as int].handler != 1 && (
                self.actions@[n as int].handler == 0 ==> n != 16),
    {
        proof {
            self.lemma_interrupts();
        }
        let mut set = self.deliverable_set();
        let ghost all = set;
        let mut last: u8 = 0;
        loop
            invariant
                self.wf(),
                (exists|s: u8| legit(s) && #[trigger] self.deliverable(s) && self.acts(s)) <==> (
                exists|n: u64|
                    n < 64 && #[trigger] (self.pending.0.0 >> n) & 1 == 1 && ((self.blocked.0.0 >> n)
                        & 1 != 1 || n == 8 || n == 18) && self.actions@[n as int].handler != 1 && (
                    self.actions@[n as int].handler == 0 ==> n != 16)),
                last <= 64,
                forall|s: u8| legit(s) ==> #[trigger] all.has(s) == self.deliverable(s),
                forall|s: u8| legit(s) ==> #[trigger] set.has(s) == (all.has(s) && s > last),
                forall|s: u8|
                    legit(s) && s <= last && #[trigger] self.deliverable(s) ==> !self.acts(s),
            decreases 64 - last,
        {
            match set.lowest() {
                None => {
                    proof {
                        assert forall|s: u8| legit(s) && #[trigger]
                            self.deliverable(s) implies !self.acts(s) by {
                            assert(!set.has(s));
                            assert(all.has(s));
                        }
                    }
                    return false;
                },
                Some(sig) => {
                    assert(all.has(sig));
                    assert(self.deliverable(sig));
                    let handler = self.actions[sig as usize - 1].handler;
                    if handler == SIG_DFL {
                        if default_action(sig) != SigDefault::Ignore {
                            return true;
                        }
                    } else if handler != SIG_IGN {
                        return true;
                    }
                    let ghost before = set;
                    set.remove(Signal::new_unchecked(sig));
                    proof {
                        assert forall|s: u8| legit(s) implies #[trigger] set.has(s) == (all.has(s)
                            && s > sig) by {
                            assert(before.has(s) == (all.has(s) && s > last));
                            if s < sig {
                                assert(!before.has(s));
                            }
                        }
                        assert forall|s: u8|
                            legit(s) && s <= sig && #[trigger] self.deliverable(s) implies !self.acts(
                            s,
                        ) by {
                            if last < s && s < sig {
                                assert(!before.has(s));
                                assert(all.has(s));
                            }
                        }
                    }
                    last = sig;
                },
            }
        }
    }

    /// Whether a system call is to be restarted after the signal.
    pub fn is_restart(&self, sig: u8) -> (r: bool)
        requires
            self.wf(),
        ensures
            r == (legit(sig) && self.actions@[sig - 1].flags & SA_RESTART != 0),
    {
        if !Signal::is_legit(sig) {
            return false;
        }
        self.actions[sig as usize - 1].flags & SA_RESTART != 0
    }

    /// Take the lowest signal that may be delivered.
    pub fn dequeue_signal(&mut self) -> (r: Option<u8>)
        ensures
            final(self).actions == old(self).actions,
            final(self).blocked == old(self).blocked,
            final(self).altstack == old(self).altstack,
            match r {
                Some(sig) => {
                    &&& legit(sig)
                    &&& old(self).deliverable(sig)
                    &&& forall|s: u8| 1 <= s < sig ==> !#[trigger] old(self).deliverable(s)
                    &&& forall|s: u8|
                        legit(s) ==> #[trigger] final(self).pending.0.has(s) == (
                        old(self).pending.0.has(s) && s != sig)
                },
                None => {
                    &&& forall|s: u8| legit(s) ==> !#[trigger] old(self).deliverable(s)
                    &&& final(self).pending == old(self).pending
                },
            },
    {
        let set = self.deliverable_set();
        match set.lowest() {
            None => {
                proof {
                    assert forall|s: u8| legit(s) implies !#[trigger] old(self).deliverable(s) by {
                        assert(!set.has(s));
                    }
                }
                None
            },
            Some(sig) => {
                proof {
                    assert(set.has(sig));
                    assert forall|s: u8| 1 <= s < sig implies !#[trigger] old(self).deliverable(s) by {
                        assert(!set.has(s));
                    }
                }
                let _ = self.pending.fetch_remove(Signal::new_unchecked(sig));
                Some(sig)
            },
        }
    }
}

/// A signal may be delivered where its bit is pending and not blocked; blocking number nine and
/// number nineteen has no effect.
pub proof fn law_deliverable(state: &SignalState, sig: u8)
    requires
        1 <= sig <= 64,
    ensures
        state.deliverable(sig) <==> (state.pending.0.0 >> ((sig - 1) as u64)) & 1 == 1 && ((
        state.blocked.0.0 >> ((sig - 1) as u64)) & 1 != 1 || sig == 9 || sig == 19),
{
}

/// A signal that was posted and may be delivered is delivered, unless a lower one comes
/// first; then it stays pending.
pub proof fn law_posted_signal_waits(
    before: &SignalState,
    posted: &SignalState,
    after: &SignalState,
    sig: u8,
    r: Option<u8>,
)
    requires
        legit(sig),
        posted.blocked == before.blocked,
        forall|s: u8| legit(s) ==> #[trigger] posted.pending.0.has(s) == (before.pending.0.has(s) || s == sig),
        !before.blocked.0.has(sig) || sig == SIGKILL || sig == SIGSTOP,
        match r {
            Some(t) => {
                &&& legit(t)
                &&& posted.deliverable(t)
                &&& forall|s: u8| 1 <= s < t ==> !#[trigger] posted.deliverable(s)
                &&& forall|s: u8|
                    legit(s) ==> #[trigger] after.pending.0.has(s) == (posted.pending.0.has(s) && s
                        != t)
            },
            None => forall|s: u8| legit(s) ==> !#[trigger] posted.deliverable(s),
        },
    ensures
        r matches Some(t) && (t == sig || t < sig && after.pending.0.has(sig)),
{
    assert(posted.pending.0.has(sig));
    assert(posted.deliverable(sig));
    if let Some(t) = r {
        if t != sig {
            assert(after.pending.0.has(sig) == (posted.pending.0.has(sig) && sig != t));
        }
    }
}

/// Contents of the page of the signal trampoline: `li a7, 139`, `ecall`, and nothing that
/// can be executed.
pub fn build_sigcode_page() -> (r: [u8; 4096])
    ensures
        r@.take(8) == seq![0x93u8, 0x08, 0xb0, 0x08, 0x73, 0x00, 0x00, 0x00],
        forall|i: int| 8 <= i < 4096 ==> #[trigger] r@[i] == 0,
{
    let mut page = [0u8; 4096];
    page[0] = 0x93;
    page[1] = 0x08;
    page[2] = 0xb0;
    page[3] = 0x08;
    page[4] = 0x73;
    assert(page@.take(8) =~= seq![0x93u8, 0x08, 0xb0, 0x08, 0x73, 0x00, 0x00, 0x00]);
    page
}

/// What is put on the user stack before a handler is called.
pub struct SigFrame {
    /// Registers at the interruption.
    pub saved_tf: TrapFrame,
    pub signo: u32,
    pub _pad: u32,
    /// Signals blocked at the interruption.
    pub saved_mask: u64,
}

/// Size of the frame in bytes.
pub const SIGFRAME_SIZE: u64 = 288;

/// Size of the description of a signal in bytes.
pub const SIGINFO_SIZE: u64 = 128;

/// The description of a signal: its number, no error, sent by the kernel.
pub fn build_siginfo(sig: u8) -> (r: [u8; 128])
    ensures
        r@[0] == sig,
        r@[8] == 128,
        forall|i: int| 0 <= i < 128 && i != 0 && i != 8 ==> #[trigger] r@[i] == 0,
{
    let mut buf = [0u8; 128];
    buf[0] = sig;
    buf[8] = 128;
    buf
}

/// `x` rounded down to a multiple of sixteen.
pub open spec fn down16(x: int) -> int {
    x / 16 * 16
}

/// The stack pointer from which a handler's frame goes down: the top of the alternate
/// stack where the action asks for it, there is one, and it is not in use.
pub open spec fn handler_stack(sp: u64, flags: u64, altstack: (u64, u64, u32)) -> u64 {
    let top = altstack.0.wrapping_add(altstack.1);
    if flags & SA_ONSTACK != 0 && altstack.0 != 0 && altstack.2 == 0 && (sp < altstack.0 || sp
        >= top) {
        top
    } else {
        sp
    }
}

/// Where the description and the frame of a signal go.
#[derive(Debug, Clone, Copy, PartialEq, Eq, Structural)]
pub struct SigPlace {
    /// Address of the description, zero where the action asks for none.
    pub siginfo_va: u64,
    /// Address of the frame.
    pub frame_va: u64,
}

/// Where they go.
pub open spec fn place_for(sp: u64, flags: u64, altstack: (u64, u64, u32)) -> SigPlace {
    let start = handler_stack(sp, flags, altstack);
    let below = if flags & SA_SIGINFO != 0 {
        down16(start.wrapping_sub(SIGINFO_SIZE) as int) as u64
    } else {
        start
    };
    SigPlace {
        siginfo_va: if flags & SA_SIGINFO != 0 {
            below
        } else {
            0
        },
        frame_va: down16(below.wrapping_sub(SIGFRAME_SIZE) as int) as u64,
    }
}

/// The frame holds the registers and the blocked signals.
pub open spec fn planned(tf: TrapFrame, state: &SignalState, frame: SigFrame) -> bool {
    frame.saved_tf == tf && frame.saved_mask == state.blocked.0.0
}

/// Where the description and the frame of a signal go, and the frame itself, to be copied
/// out before the handler is called.
pub fn plan_sendsig(tf: &TrapFrame, state: &SignalState, sig: u8, action: &SigAction) -> (r: (
    SigPlace,
    SigFrame,
))
    ensures
        r.0 == place_for(tf.x@[2], action.flags, state.altstack),
        r.0.frame_va % 16 == 0,
        r.1.signo == sig,
        r.1._pad == 0,
        planned(*tf, state, r.1),
{
    let mut sp: u64 = tf.x[2];
    if action.flags & SA_ONSTACK != 0 {
        let (ss_sp, ss_size, ss_flags) = state.altstack;
        if ss_sp != 0 && ss_flags == 0 {
            let alt_top = ss_sp.wrapping_add(ss_size);
            if sp < ss_sp || sp >= alt_top {
                sp = alt_top;
            }
        }
    }
    let mut siginfo_va: u64 = 0;
    if action.flags & SA_SIGINFO != 0 {
        sp = sp.wrapping_sub(SIGINFO_SIZE) / 16 * 16;
        siginfo_va = sp;
    }
    let frame_va = sp.wrapping_sub(SIGFRAME_SIZE) / 16 * 16;
    let frame = SigFrame {
        saved_tf: *tf,
        signo: sig as u32,
        _pad: 0,
        saved_mask: state.blocked.load().as_u64(),
    };
    (SigPlace { siginfo_va, frame_va }, frame)
}

/// The status register for user mode: interrupts on after the return, floating point not
/// off.
pub open spec fn user_status(s: u64) -> u64 {
    let a = (s & !256u64) | 32;
    if a & 0x6000 == 0 {
        a | 0x2000
    } else {
        a
    }
}

/// A status for user mode: the earlier mode is user mode, interrupts will be on, floating point is not
/// off, and nothing else has changed.
pub proof fn law_status_is_for_user_mode(s: u64)
    ensures
        user_status(s) & 256 == 0,
        user_status(s) & 32 == 32,
        user_status(s) & 0x6000 != 0,
        s & 0x6000 != 0 ==> user_status(s) & 0x6000 == s & 0x6000,
        user_status(s) & !0x6120u64 == s & !0x6120u64,
{
    let a = (s & !256u64) | 32;
    assert(a & 256 == 0 && a & 32 == 32 && a & 0x6000 == s & 0x6000 && a & !0x6120u64 == s
        & !0x6120u64 && (a | 0x2000) & 256 == 0 && (a | 0x2000) & 32 == 32 && (a | 0x2000) & 0x6000
        != 0 && (a | 0x2000) & !0x6120u64 == s & !0x6120u64) by (bit_vector)
        requires
            a == (s & !256u64) | 32,
    ;
}

/// The frame of a signal lies below everything in use on the stack it goes to: below the stack pointer
/// or, where the action asks for the alternate stack, there is one and the process is not on it, below
/// the top of that.  The description, where the action asks for one, lies between, and neither reaches
/// into the other.  Both start at a multiple of sixteen.
pub proof fn law_signal_frame_is_below_stack(sp: u64, flags: u64, altstack: (u64, u64, u32))
    ensures
        ({
            let place = place_for(sp, flags, altstack);
            let top = altstack.0 + altstack.1;
            let switched = flags & 0x0800_0000 != 0 && altstack.0 != 0 && altstack.2 == 0 && !(
            altstack.0 <= sp < top);
            let start: int = if switched {
                top
            } else {
                sp as int
            };
            top <= u64::MAX && start >= 512 ==> {
                &&& place.frame_va % 16 == 0
                &&& flags & 4 == 0 ==> place.siginfo_va == 0 && start - 304 < place.frame_va
                    && place.frame_va + 288 <= start
                &&& flags & 4 != 0 ==> place.siginfo_va % 16 == 0 && start - 144 < place.siginfo_va
                    && place.siginfo_va + 128 <= start && place.siginfo_va - 304 < place.frame_va
                    && place.frame_va + 288 <= place.siginfo_va
            }
        }),
{
}

/// Make the process call the handler of a signal.  `info_copied` and `frame_copied` say
/// whether the description, where one is asked for, and the frame could be copied out; an
/// error means that the user stack cannot be written and the process has to be killed.
pub fn sendsig(
    tf: &mut TrapFrame,
    state: &mut SignalState,
    sig: u8,
    action: &SigAction,
    info_copied: bool,
    frame_copied: bool,
) -> (r: Result<(), ()>)
    requires
        legit(sig),
    ensures
        final(state).actions == old(state).actions,
        final(state).pending == old(state).pending,
        final(state).altstack == old(state).altstack,
        ({
            let place = place_for(old(tf).x@[2], action.flags, old(state).altstack);
            let info_lost = action.flags & SA_SIGINFO != 0 && !info_copied;
            &&& r is Ok <==> !info_lost && frame_copied
            &&& info_lost ==> final(state).blocked == old(state).blocked
            &&& !info_lost ==> forall|s: u8|
                legit(s) ==> #[trigger] final(state).blocked.0.has(s) == (old(state).blocked.0.has(s) || bit(action.mask, (s - 1) as u64) || s == sig)
            &&& r is Err ==> *final(tf) == *old(tf)
            &&& r is Ok ==> {
                &&& final(tf).sepc == action.handler
                &&& final(tf).sstatus == user_status(old(tf).sstatus)
                &&& final(tf).x@ == old(tf).x@.update(10, sig as u64).update(
                    11,
                    place.siginfo_va,
                ).update(12, place.frame_va).update(2, place.frame_va).update(1, SIGCODE_VA)
            }
        }),
{
    let (place, frame) = plan_sendsig(tf, state, sig, action);
    if action.flags & SA_SIGINFO != 0 && !info_copied {
        return Err(());
    }
    let ghost before = state.blocked.0;
    let mut new_blocked = SigSet::from_u64(frame.saved_mask | action.mask);
    proof {
        assert forall|s: u8| legit(s) implies #[trigger] new_blocked.has(s) == (before.has(s) || bit(
            action.mask,
            (s - 1) as u64,
        )) by {
            lemma_bits(before.0, action.mask, (s - 1) as u64);
        }
    }
    new_blocked.add(Signal::new_unchecked(sig));
    state.blocked.store(new_blocked);
    if !frame_copied {
        return Err(());
    }
    tf.sepc = action.handler;
    tf.x[10] = sig as u64;
    tf.x[11] = place.siginfo_va;
    tf.x[12] = place.frame_va;
    tf.x[2] = place.frame_va;
    tf.x[1] = SIGCODE_VA;
    tf.sstatus = (tf.sstatus & !256u64) | 32;
    if tf.sstatus & 0x6000 == 0 {
        tf.sstatus = tf.sstatus | 0x2000;
    }
    Ok(())
}

/// What is to be done about a signal before a process goes back to user mode.
#[derive(Debug, Clone, Copy, PartialEq, Eq, Structural)]
pub enum SignalVerdict {
    /// Nothing.
    Resume,
    /// The process ends.
    Kill(u8),
    /// The handler is called.
    Handle(u8, SigAction),
}

/// What delivery of the signal does.
pub open spec fn verdict_for(state: &SignalState, sig: u8) -> SignalVerdict {
    let action = state.actions@[sig - 1];
    if sig == SIGKILL {
        SignalVerdict::Kill(sig)
    } else if sig == SIGSTOP || sig == SIGCONT {
        SignalVerdict::Resume
    } else if action.handler == SIG_DFL {
        if default_of(sig) == SigDefault::Terminate {
            SignalVerdict::Kill(sig)
        } else {
            SignalVerdict::Resume
        }
    } else if action.handler == SIG_IGN {
        SignalVerdict::Resume
    } else {
        SignalVerdict::Handle(sig, action)
    }
}

/// The lowest signal that is pending and not held back is delivered as its number and its action
/// say: without a handler every signal but those with the numbers 17, 18 and 19 ends the process.
pub proof fn law_lowest_signal_is_delivered(state: &SignalState, n: u64, sig: u8, r: SignalVerdict)
    requires
        state.wf(),
        n < 64,
        (state.pending.0.0 >> n) & 1 == 1,
        (state.blocked.0.0 >> n) & 1 != 1 || n == 8 || n == 18,
        forall|m: u64|
            m < n && #[trigger] (state.pending.0.0 >> m) & 1 == 1 ==> (state.blocked.0.0 >> m) & 1 == 1
                && m != 8 && m != 18,
        1 <= sig <= 64,
        state.deliverable(sig),
        forall|s: u8| 1 <= s < sig ==> !#[trigger] state.deliverable(s),
        r == verdict_for(state, sig),
    ensures
        sig == n + 1,
        n == 8 ==> r == SignalVerdict::Kill(9),
        n == 17 || n == 18 ==> r == SignalVerdict::Resume,
        n != 8 && n != 17 && n != 18 ==> ({
            let action = state.actions@[n as int];
            &&& action.handler == 0 && n != 16 ==> r == SignalVerdict::Kill((n + 1) as u8)
            &&& action.handler == 0 && n == 16 ==> r == SignalVerdict::Resume
            &&& action.handler == 1 ==> r == SignalVerdict::Resume
            &&& action.handler > 1 ==> r == SignalVerdict::Handle((n + 1) as u8, action)
        }),
{
    law_deliverable(state, sig);
    law_deliverable(state, (n + 1) as u8);
    if sig < n + 1 {
        let m = (sig - 1) as u64;
        assert((state.pending.0.0 >> m) & 1 == 1);
    }
}

/// Take a pending signal and decide what is to be done about it.
pub fn check_pending_signals(state: &mut SignalState) -> (r: SignalVerdict)
    requires
        old(state).wf(),
    ensures
        (forall|n: u64|
            n < 64 && #[trigger] (old(state).pending.0.0 >> n) & 1 == 1
                ==> (old(state).blocked.0.0 >> n) & 1 == 1 && n != 8 && n != 18)
                ==> r == SignalVerdict::Resume,
        forall|n: u64|
            n < 64 && #[trigger] (old(state).pending.0.0 >> n) & 1 == 1
                && ((old(state).blocked.0.0 >> n) & 1 != 1 || n == 8 || n == 18) && (forall|m: u64|
                m < n && #[trigger] (old(state).pending.0.0 >> m) & 1 == 1
                    ==> (old(state).blocked.0.0 >> m) & 1 == 1 && m != 8 && m != 18) ==> {
                let action = old(state).actions@[n as int];
                &&& n == 8 ==> r == SignalVerdict::Kill(9)
                &&& n == 17 || n == 18 ==> r == SignalVerdict::Resume
                &&& n != 8 && n != 17 && n != 18 ==> {
                    &&& action.handler == 0 && n != 16 ==> r == SignalVerdict::Kill((n + 1) as u8)
                    &&& action.handler == 0 && n == 16 ==> r == SignalVerdict::Resume
                    &&& action.handler == 1 ==> r == SignalVerdict::Resume
                    &&& action.handler > 1 ==> r == SignalVerdict::Handle((n + 1) as u8, action)
                }
            },
        final(state).wf(),
        final(state).actions == old(state).actions,
        final(state).blocked == old(state).blocked,
        final(state).altstack == old(state).altstack,
        (forall|s: u8| legit(s) ==> !#[trigger] old(state).deliverable(s)) ==> r
            == SignalVerdict::Resume && final(state).pending == old(state).pending,
        (exists|s: u8| legit(s) && #[trigger] old(state).deliverable(s)) ==> exists|sig: u8|
            {
                &&& legit(sig)
                &&& #[trigger] old(state).deliverable(sig)
                &&& forall|s: u8| 1 <= s < sig ==> !#[trigger] old(state).deliverable(s)
                &&& r == verdict_for(old(state), sig)
                &&& forall|s: u8|
                    legit(s) ==> #[trigger] final(state).pending.0.has(s) == (
                    old(state).pending.0.has(s) && s != sig)
            },
{
    let sig = match state.dequeue_signal() {
        Some(s) => s,
        None => {
            proof {
                assert forall|n: u64| n < 64
                    && #[trigger] (old(state).pending.0.0 >> n) & 1 == 1
                    implies (old(state).blocked.0.0 >> n) & 1 == 1 && n != 8 && n != 18 by {
                    law_deliverable(old(state), (n + 1) as u8);
                    assert(!old(state).deliverable((n + 1) as u8));
                }
            }
            return SignalVerdict::Resume;
        },
    };
    proof {
        law_deliverable(old(state), sig);
        let v = verdict_for(old(state), sig);
        assert(({
            let n = (sig - 1) as u64;
            (old(state).pending.0.0 >> n) & 1 == 1
        }));
        assert forall|n: u64|
            n < 64 && #[trigger] (old(state).pending.0.0 >> n) & 1 == 1
                && ((old(state).blocked.0.0 >> n) & 1 != 1 || n == 8 || n == 18) && (forall|m: u64|
                m < n && #[trigger] (old(state).pending.0.0 >> m) & 1 == 1
                    ==> (old(state).blocked.0.0 >> m) & 1 == 1 && m != 8 && m != 18) implies {
                let action = old(state).actions@[n as int];
                &&& n == 8 ==> v == SignalVerdict::Kill(9)
                &&& n == 17 || n == 18 ==> v == SignalVerdict::Resume
                &&& n != 8 && n != 17 && n != 18 ==> {
                    &&& action.handler == 0 && n != 16 ==> v == SignalVerdict::Kill((n + 1) as u8)
                    &&& action.handler == 0 && n == 16 ==> v == SignalVerdict::Resume
                    &&& action.handler == 1 ==> v == SignalVerdict::Resume
                    &&& action.handler > 1 ==> v == SignalVerdict::Handle((n + 1) as u8, action)
                }
            } by {
            law_lowest_signal_is_delivered(old(state), n, sig, v);
        }
    }
    if sig == SIGKILL {
        return SignalVerdict::Kill(sig);
    }
    if sig == SIGSTOP || sig == SIGCONT {
        return SignalVerdict::Resume;
    }
    let action = state.actions[sig as usize - 1];
    if action.handler == SIG_DFL {
        match default_action(sig) {
            SigDefault::Terminate => SignalVerdict::Kill(sig),
            _ => SignalVerdict::Resume,
        }
    } else if action.handler == SIG_IGN {
        SignalVerdict::Resume
    } else {
        SignalVerdict::Handle(sig, action)
    }
}

/// What calling a handler came to: a process whose stack cannot be written is killed.
pub fn handler_outcome(sent: Result<(), ()>) -> (r: Result<bool, u8>)
    ensures
        r == if sent is Ok {
            Ok::<bool, u8>(true)
        } else {
            Err::<bool, u8>(SIGILL)
        },
{
    match sent {
        Ok(_) => Ok(true),
        Err(_) => Err(SIGILL),
    }
}

/// A frame was taken for the signal trampoline, and its page was entered, unless no table could
/// be had for it.
pub open spec fn sigcode_made(
    before: &Pmap,
    after: &Pmap,
    pool0: &FramePool,
    pool1: &FramePool,
    cpu: int,
    frame: PhysAddr,
) -> bool {
    let raw = entry_of(frame.0, enter_flags(MapPerm(13), false));
    exists|mid: FramePool| #[trigger]
        frame_allocated(pool0, &mid, cpu, PageRole::SigTrampoline, Some(frame)) && (entered(
            before,
            after,
            &mid,
            pool1,
            cpu,
            SIGCODE_VA as int,
            raw,
            true,
        ) || entered(before, after, &mid, pool1, cpu, SIGCODE_VA as int, raw, false))
}

/// Enter a page for the signal trampoline into a page table.  Returns the frame, to be
/// filled with the trampoline.
pub fn map_sigcode_page(pmap: &mut Pmap, pool: &mut FramePool, cpu: usize) -> (frame: PhysAddr)
    requires
        old(pmap).wf(),
        old(pool).inv(),
        pool_holdable(old(pool)),
        cpu < NUM_MAGAZINES,
        exists|p: int| #[trigger] old(pool).pool_free(p),
        old(pmap).stats.wired_count < usize::MAX,
    ensures
        final(pmap).wf(),
        final(pool).inv(),
        forall|p: int| #[trigger] final(pool).pool_free(p) ==> old(pool).pool_free(p),
        pool_holdable(final(pool)),
        final(pmap).same_identity(old(pmap)),
        sigcode_made(old(pmap), final(pmap), old(pool), final(pool), cpu as int, frame),
{
    let frame = alloc_raw_frame_sync(pool, cpu, PageRole::SigTrampoline).unwrap();
    let ghost mid = *pool;
    proof {
        assert(frame_allocated(
            old(pool),
            &mid,
            cpu as int,
            PageRole::SigTrampoline,
            Some(frame),
        ));
        assert forall|p: int| #[trigger] pool.pool_free(p) implies 0 <= p < 0x1000_0000_0000 by {
            assert(old(pool).pool_free(p));
        }
        lemma_joined();
    }
    let prot = MapPerm::R() | MapPerm::X() | MapPerm::U();
    let _ = pmap_enter(pmap, pool, cpu, VirtAddr::new(SIGCODE_VA), frame, prot, false);
    frame
}

/// The page made for the signal trampoline is a frame that was free, and is translated wherever that is
/// possible, to be read and executed but not written by the user; no other translation changes.
pub proof fn law_trampoline_is_made(
    before: &Pmap,
    after: &Pmap,
    pool0: &FramePool,
    pool1: &FramePool,
    cpu: int,
    frame: PhysAddr,
    v: int,
)
    requires
        sigcode_made(before, after, pool0, pool1, cpu, frame),
        pool_holdable(pool0),
    ensures
        ({
            let at: int = 0x3F_FFFF_F000;
            let raw = after.entry_at(at);
            &&& pool0.pool_free(frame.0 as int / 4096)
            &&& !before.root.large_at(at) && (exists|p: int| #[trigger] pool1.pool_free(p)) ==> raw % 2
                == 1 && raw / 2 % 2 == 1 && raw / 4 % 2 == 0 && raw / 8 % 2 == 1 && raw / 16 % 2 == 1
                && raw as int / 1024 % 0x1000_0000_0000 * 4096 == frame.0 as int / 4096 * 4096
            &&& !same_page(at, v) ==> after.entry_at(v) == before.entry_at(v)
        }),
{
    assert(pool0.pool_free(pfn(frame)));
    lemma_entry_bits(frame.0, MapPerm(13));
    assert(same_page(SIGCODE_VA as int, SIGCODE_VA as int));
}

/// A signal would do something unless it is ignored: by its action or, where that is the default, because
/// it tells of a child.
pub proof fn law_ignored_signals_do_nothing(state: &SignalState, sig: u8)
    requires
        state.wf(),
        1 <= sig <= 64,
    ensures
        ({
            let h = state.actions@[sig - 1].handler;
            state.acts(sig) <==> h > 1 || h == 0 && sig != 17
        }),
{
}

} // verus!
