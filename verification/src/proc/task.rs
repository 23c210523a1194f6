//! Processes.
//!
//! All processes live in a table and are known by their numbers.  Those that can get
//! signals are listed in the registry.
use vstd::prelude::*;
use crate::hal::addr::PhysAddr;
use crate::hal::trap::TrapFrame;
use crate::mm::allocator::buddy::{
    after_split, first_nonempty, fits, in_block, naturally_aligned, MAX_ORDER,
};
use crate::mm::allocator::frame_allocator::{frame_alloc_contiguous, FramePool};
use crate::proc::clone::VforkDone;
use crate::proc::pid::{alloc_pid, PidAllocator};
use crate::proc::signal::{
    legit, AtomicSigSet, SigAction, SigSet, SignalState, SIG_DFL,
};

verus! {

/// A kernel stack has two to the power of this many pages.
pub const KSTACK_ORDER: usize = 2;

/// Size of a kernel stack in bytes.
pub const KSTACK_SIZE: u64 = 16384;

/// State of a process.
#[derive(Debug, Clone, Copy, PartialEq, Eq, Structural)]
pub enum TaskState {
    Running,
    /// Ended, and not yet waited for.
    Zombie,
}

impl TaskState {
    /// The state with the given number.
    pub fn from_u8(v: u8) -> (r: Self)
        ensures
            r == if v == 0 {
                TaskState::Running
            } else {
                TaskState::Zombie
            },
    {
        match v {
            0 => TaskState::Running,
            _ => TaskState::Zombie,
        }
    }
}

/// A process.
pub struct Task {
    pub pid: u32,
    /// Number of the parent.
    pub parent: Option<u32>,
    /// Numbers of the children.
    pub children: Vec<u32>,
    /// Place of the address space.
    pub vm_map: usize,
    /// Place of the file table.
    pub fd_table: usize,
    /// Current directory.
    pub cwd: String,
    pub state: TaskState,
    pub exit_status: i32,
    /// Who waits for a child to end.
    pub parent_waker: Option<u64>,
    pub trap_frame: TrapFrame,
    pub kstack_base: PhysAddr,
    /// Top of the kernel stack.
    pub kernel_sp: u64,
    /// End of the heap.
    pub brk: u64,
    pub signals: SignalState,
    /// Number of the process group.
    pub pgid: u32,
    /// Who runs the process, where it sleeps.
    pub top_level_waker: Option<u64>,
    /// A parent that waits until the child has its own address space or has ended.
    pub vfork_done: Option<VforkDone>,
}

/// Take frames for a kernel stack.  Returns its lowest address and its top.
pub fn alloc_kstack(pool: &mut FramePool) -> (r: (PhysAddr, u64))
    requires
        old(pool).inv(),
        first_nonempty(old(pool).buddy.lists(), 2) <= MAX_ORDER,
    ensures
        final(pool).inv(),
        final(pool).meta == old(pool).meta,
        final(pool).magazines == old(pool).magazines,
        final(pool).buddy.total() == old(pool).buddy.total(),
        final(pool).buddy.lists() == after_split(
            old(pool).buddy.lists(),
            2,
            first_nonempty(old(pool).buddy.lists(), 2),
        ),
        r.1 == r.0.0 + KSTACK_SIZE,
        r.0 == old(pool).buddy.lists()[first_nonempty(old(pool).buddy.lists(), 2)].last(),
        naturally_aligned(r.0, 2),
        fits(r.0, 2),
        forall|p: int| #[trigger]
            final(pool).pool_free(p) <==> old(pool).pool_free(p) && !in_block(r.0, 2, p),
{
    let base = frame_alloc_contiguous(pool, KSTACK_ORDER).unwrap();
    assert(base.0 + KSTACK_SIZE <= u64::MAX) by {
        vstd::arithmetic::power2::lemma2_to64();
        assert(fits(base, 2));
    }
    (base, base.as_u64() + KSTACK_SIZE)
}

impl Task {
    pub open spec fn wf(&self) -> bool {
        self.signals.wf()
    }

    /// A process that runs, with nothing pending and no children.
    pub open spec fn fresh(&self) -> bool {
        &&& self.wf()
        &&& self.children@.len() == 0
        &&& self.cwd@ == "/"@
        &&& self.state == TaskState::Running
        &&& self.exit_status == 0
        &&& self.parent_waker is None
        &&& forall|i: int| 0 <= i < 32 ==> #[trigger] self.trap_frame.x@[i] == 0
        &&& self.trap_frame.sepc == 0
        &&& self.trap_frame.sstatus == 0
        &&& self.brk == 0
        &&& forall|i: int|
            0 <= i < 64 ==> #[trigger] self.signals.actions@[i] == (SigAction {
                handler: SIG_DFL,
                flags: 0,
                restorer: 0,
                mask: 0,
            })
        &&& self.signals.pending.0.0 == 0
        &&& self.signals.blocked.0.0 == 0
        &&& self.signals.altstack == (0u64, 0u64, 0u32)
        &&& self.top_level_waker is None
        &&& self.vfork_done is None
    }

    /// A new process, in the group of its parent, with its own address space, file table
    /// and kernel stack.
    pub fn new(
        parent: Option<&Task>,
        pids: &mut PidAllocator,
        kstack: (PhysAddr, u64),
        vm_map: usize,
        fd_table: usize,
    ) -> (r: Self)
        requires
            old(pids).wf(),
            old(pids).next < u32::MAX,
        ensures
            final(pids).wf(),
            final(pids).next == old(pids).next + 1,
            r.fresh(),
            r.pid == old(pids).next,
            r.parent == match parent {
                Some(p) => Some(p.pid),
                None => None,
            },
            r.pgid == match parent {
                Some(p) => p.pgid,
                None => r.pid,
            },
            r.kstack_base == kstack.0,
            r.kernel_sp == kstack.1,
            r.vm_map == vm_map,
            r.fd_table == fd_table,
            r.state == TaskState::Running,
            r.children@.len() == 0,
            r.cwd@ == "/"@,
            r.signals.actions@.len() == 64,
            forall|i: int| 0 <= i < 64 ==> (#[trigger] r.signals.actions@[i]).handler == 0
                && r.signals.actions@[i].flags == 0,
            r.signals.pending.0.0 == 0,
            r.signals.blocked.0.0 == 0,
    {
        let pid = alloc_pid(pids);
        let (parent_pid, pgid) = match parent {
            Some(p) => (Some(p.pid), p.pgid),
            None => (None, pid),
        };
        Task {
            pid,
            parent: parent_pid,
            children: Vec::new(),
            vm_map,
            fd_table,
            cwd: "/".to_string(),
            state: TaskState::Running,
            exit_status: 0,
            parent_waker: None,
            trap_frame: TrapFrame::zero(),
            kstack_base: kstack.0,
            kernel_sp: kstack.1,
            brk: 0,
            signals: SignalState::new(),
            pgid,
            top_level_waker: None,
            vfork_done: None,
        }
    }

    /// The first process: it has no parent and leads its own group.
    pub fn new_init(
        pids: &mut PidAllocator,
        kstack: (PhysAddr, u64),
        vm_map: usize,
        fd_table: usize,
    ) -> (r: Self)
        requires
            old(pids).wf(),
            old(pids).next < u32::MAX,
        ensures
            final(pids).wf(),
            final(pids).next == old(pids).next + 1,
            r.fresh(),
            r.pid == old(pids).next,
            r.parent is None,
            r.pgid == r.pid,
            r.kstack_base == kstack.0,
            r.kernel_sp == kstack.1,
            r.vm_map == vm_map,
            r.fd_table == fd_table,
    {
        Task::new(None, pids, kstack, vm_map, fd_table)
    }

    pub fn state(&self) -> (r: TaskState)
        ensures
            r == self.state,
    {
        self.state
    }

    /// The process has ended.
    pub fn set_zombie(&mut self)
        ensures
            *final(self) == (Task { state: TaskState::Zombie, ..*old(self) }),
    {
        self.state = TaskState::Zombie;
    }
}

/// The process with a signal pending, and nobody left to wake.
pub open spec fn with_signal(t: Task, sig: u8) -> Task {
    Task {
        signals: SignalState {
            pending: AtomicSigSet(SigSet(t.signals.pending.0.0 | (1u64 << ((sig - 1) as u64)))),
            ..t.signals
        },
        top_level_waker: None,
        ..t
    }
}

/// A process that gets a signal has it pending; nothing else about it changes, but that nobody sleeps for
/// it any more.
pub proof fn law_signal_becomes_pending(t: Task, sig: u8)
    requires
        1 <= sig <= 64,
    ensures
        with_signal(t, sig).signals.pending.0.0 == (t.signals.pending.0.0 | (1u64 << ((sig
            - 1) as u64))),
        with_signal(t, sig) == (Task {
            signals: with_signal(t, sig).signals,
            top_level_waker: None,
            ..t
        }),
        with_signal(t, sig).signals.blocked == t.signals.blocked,
        with_signal(t, sig).signals.actions == t.signals.actions,
{
}

/// All processes.
pub struct TaskTable {
    pub tasks: Vec<Task>,
    /// Numbers of the processes that can get signals.
    pub registry: Vec<u32>,
}

/// Whether the process at `i` has the number.
pub open spec fn is_task(ts: Seq<Task>, i: int, pid: u32) -> bool {
    0 <= i < ts.len() && ts[i].pid == pid
}

/// Whether there is a process with the number.
pub open spec fn exists_task(ts: Seq<Task>, pid: u32) -> bool {
    exists|i: int| #[trigger] is_task(ts, i, pid)
}

/// The place of the process with the number.
pub open spec fn place(ts: Seq<Task>, pid: u32) -> int {
    choose|i: int| #[trigger] is_task(ts, i, pid)
}

/// Every number but one.
pub open spec fn other_than(pid: u32) -> spec_fn(u32) -> bool {
    |x: u32| x != pid
}

/// The numbers but for one.
pub open spec fn without(s: Seq<u32>, pid: u32) -> Seq<u32> {
    s.filter(other_than(pid))
}

/// Keep all numbers but one.
pub fn retain_others(s: &Vec<u32>, pid: u32) -> (r: Vec<u32>)
    ensures
        r@ == without(s@, pid),
{
    let ghost f = other_than(pid);
    let mut r: Vec<u32> = Vec::new();
    let mut i: usize = 0;
    reveal(Seq::filter);
    assert(s@.take(0) =~= Seq::empty());
    while i < s.len()
        invariant
            i <= s@.len(),
            f == other_than(pid),
            r@ == s@.take(i as int).filter(f),
        decreases s@.len() - i,
    {
        proof {
            reveal(Seq::filter);
            assert(s@.take(i + 1).drop_last() =~= s@.take(i as int));
            assert(s@.take(i + 1).last() == s@[i as int]);
        }
        if s[i] != pid {
            r.push(s[i]);
        }
        i += 1;
    }
    assert(s@.take(i as int) =~= s@);
    r
}

/// A number taken out is not there any more, and every other still is.
pub proof fn law_without(s: Seq<u32>, pid: u32, x: u32)
    ensures
        without(s, pid).contains(x) <==> s.contains(x) && x != pid,
    decreases s.len(),
{
    let f = other_than(pid);
    reveal(Seq::filter);
    if s.len() > 0 {
        let pre = s.drop_last();
        law_without(pre, pid, x);
        if s.contains(x) {
            let i = choose|i: int| 0 <= i < s.len() && s[i] == x;
            if i < s.len() - 1 {
                assert(pre[i] == x);
            }
        }
        if pre.contains(x) {
            let i = choose|i: int| 0 <= i < pre.len() && pre[i] == x;
            assert(s[i] == x);
        }
        let a = pre.filter(f);
        if f(s.last()) {
            let b = a.push(s.last());
            assert(s.filter(f) == b);
            if a.contains(x) {
                let i = choose|i: int| 0 <= i < a.len() && a[i] == x;
                assert(b[i] == x);
            }
            if b.contains(x) {
                let i = choose|i: int| 0 <= i < b.len() && b[i] == x;
                if i < a.len() {
                    assert(a[i] == x);
                }
            }
            assert(b[b.len() - 1] == s.last());
            assert(s[s.len() - 1] == s.last());
        }
    } else {
        assert(s.filter(f) =~= Seq::empty());
    }
}

/// Whether a number is in the list.
pub fn has_pid(s: &Vec<u32>, pid: u32) -> (r: bool)
    ensures
        r == s@.contains(pid),
{
    let mut i: usize = 0;
    while i < s.len()
        invariant
            i <= s@.len(),
            forall|j: int| 0 <= j < i ==> s@[j] != pid,
        decreases s@.len() - i,
    {
        if s[i] == pid {
            return true;
        }
        i += 1;
    }
    false
}

impl TaskTable {
    /// Numbers are unique.
    pub open spec fn wf(&self) -> bool {
        &&& forall|i: int, j: int|
            0 <= i < j < self.tasks@.len() ==> (#[trigger] self.tasks@[i]).pid != (
            #[trigger] self.tasks@[j]).pid
        &&& forall|i: int| 0 <= i < self.tasks@.len() ==> (#[trigger] self.tasks@[i]).wf()
    }

    /// Whether the process with the number can get signals.
    pub open spec fn registered(&self, pid: u32) -> bool {
        self.registry@.contains(pid) && exists_task(self.tasks@, pid)
    }

    pub fn new() -> (r: Self)
        ensures
            r.wf(),
            r.tasks@.len() == 0,
            r.registry@.len() == 0,
    {
        TaskTable { tasks: Vec::new(), registry: Vec::new() }
    }

    /// The place of the process with the number.
    pub fn find(&self, pid: u32) -> (r: Option<usize>)
        requires
            self.wf(),
        ensures
            match r {
                Some(i) => is_task(self.tasks@, i as int, pid) && i == place(self.tasks@, pid),
                None => !exists_task(self.tasks@, pid),
            },
    {
        let mut i: usize = 0;
        while i < self.tasks.len()
            invariant
                self.wf(),
                i <= self.tasks@.len(),
                forall|j: int| 0 <= j < i ==> (#[trigger] self.tasks@[j]).pid != pid,
            decreases self.tasks@.len() - i,
        {
            if self.tasks[i].pid == pid {
                proof {
                    assert(is_task(self.tasks@, i as int, pid));
                    let j = place(self.tasks@, pid);
                    assert(is_task(self.tasks@, j, pid));
                }
                return Some(i);
            }
            i += 1;
        }
        None
    }

    /// Add a process.
    pub fn add_task(&mut self, task: Task)
        requires
            old(self).wf(),
            task.wf(),
            !exists_task(old(self).tasks@, task.pid),
        ensures
            final(self).wf(),
            final(self).tasks@ == old(self).tasks@.push(task),
            final(self).registry == old(self).registry,
    {
        let ghost ts = self.tasks@;
        proof {
            assert forall|i: int| 0 <= i < ts.len() implies (#[trigger] ts[i]).pid != task.pid by {
                assert(!is_task(ts, i, task.pid));
            }
        }
        self.tasks.push(task);
    }
}

/// Drop a process from the table.
pub fn remove_task(table: &mut TaskTable, pid: u32) -> (r: Option<Task>)
    requires
        old(table).wf(),
    ensures
        final(table).wf(),
        final(table).registry == old(table).registry,
        match r {
            Some(t) => {
                let i = place(old(table).tasks@, pid);
                &&& is_task(old(table).tasks@, i, pid)
                &&& t == old(table).tasks@[i]
                &&& final(table).tasks@ == old(table).tasks@.remove(i)
            },
            None => !exists_task(old(table).tasks@, pid) && final(table).tasks@ == old(table).tasks@,
        },
{
    match table.find(pid) {
        None => None,
        Some(i) => {
            let ghost ts = table.tasks@;
            let t = table.tasks.remove(i);
            proof {
                let now = table.tasks@;
                assert forall|a: int| 0 <= a < now.len() implies (#[trigger] now[a]).wf() by {
                    assert(now[a] == ts[if a < i {
                        a
                    } else {
                        a + 1
                    }]);
                }
                assert forall|a: int, b: int| 0 <= a < b < now.len() implies (
                #[trigger] now[a]).pid != (#[trigger] now[b]).pid by {
                    assert(now[a] == ts[if a < i {
                        a
                    } else {
                        a + 1
                    }]);
                    assert(now[b] == ts[if b < i {
                        b
                    } else {
                        b + 1
                    }]);
                }
            }
            Some(t)
        },
    }
}

/// Let a process get signals.
pub fn register_task(table: &mut TaskTable, pid: u32)
    ensures
        final(table).registry@ == old(table).registry@.push(pid),
        final(table).tasks == old(table).tasks,
{
    table.registry.push(pid);
}

/// A process gets no more signals.
pub fn unregister_task(table: &mut TaskTable, pid: u32)
    ensures
        final(table).registry@ == without(old(table).registry@, pid),
        final(table).tasks == old(table).tasks,
{
    table.registry = retain_others(&table.registry, pid);
}

/// The place of the process with the number, where it can get signals.
pub fn find_task_by_pid(table: &TaskTable, pid: u32) -> (r: Option<usize>)
    requires
        table.wf(),
    ensures
        r is Some <==> table.registered(pid),
        r matches Some(i) ==> is_task(table.tasks@, i as int, pid) && i == place(table.tasks@, pid),
{
    if !has_pid(&table.registry, pid) {
        return None;
    }
    table.find(pid)
}

/// Number of the parent of a process, zero where it has none any more.
pub fn ppid(table: &TaskTable, task: &Task) -> (r: u32)
    requires
        table.wf(),
    ensures
        r == match task.parent {
            Some(p) => if exists_task(table.tasks@, p) {
                p
            } else {
                0
            },
            None => 0,
        },
{
    match task.parent {
        Some(p) => match table.find(p) {
            Some(_) => p,
            None => 0,
        },
        None => 0,
    }
}

/// Which processes a signal goes to.
#[derive(Debug, Clone, Copy, PartialEq, Eq, Structural)]
pub enum Audience {
    /// Those of a process group.
    Group(u32),
    /// All but the first process.
    Everyone,
}

/// Whether the process is meant.
pub open spec fn meant(t: Task, who: Audience) -> bool {
    match who {
        Audience::Group(g) => t.pgid == g,
        Audience::Everyone => t.pid != 1,
    }
}

/// Whether a signal goes to the process with the number, which is among those that can get
/// signals.
pub open spec fn reached(ts: Seq<Task>, who: Audience, pid: u32) -> bool {
    exists_task(ts, pid) && meant(ts[place(ts, pid)], who)
}

/// Wakers of the processes that get a signal, in the order of the first `n` places of the
/// registry; a process that stands there twice has its waker taken at the first.
pub open spec fn woken(table: &TaskTable, who: Audience, n: int) -> Seq<u64>
    decreases n,
{
    if n <= 0 {
        Seq::empty()
    } else {
        let pid = table.registry@[n - 1];
        let t = table.tasks@[place(table.tasks@, pid)];
        woken(table, who, n - 1) + if reached(table.tasks@, who, pid)
            && !table.registry@.take(n - 1).contains(pid) && t.top_level_waker is Some {
            seq![t.top_level_waker->0]
        } else {
            Seq::empty()
        }
    }
}

/// Whoever gets a signal and sleeps is woken: of the processes that can get signals, those of the
/// group, or all but the first process.
pub proof fn law_signalled_sleeper_is_woken(table: &TaskTable, who: Audience, n: int, i: int, k: int)
    requires
        table.wf(),
        0 <= k < n <= table.registry@.len(),
        0 <= i < table.tasks@.len(),
        table.registry@[k] == table.tasks@[i].pid,
        table.tasks@[i].top_level_waker is Some,
        match who {
            Audience::Group(g) => table.tasks@[i].pgid == g,
            Audience::Everyone => table.tasks@[i].pid != 1,
        },
    ensures
        woken(table, who, n).contains(table.tasks@[i].top_level_waker->0),
    decreases n,
{
    let t = table.tasks@[i];
    let w = t.top_level_waker->0;
    let g = table.registry@;
    let prev = woken(table, who, n - 1);
    let all = woken(table, who, n);
    if g.take(n - 1).contains(t.pid) {
        let h = g.take(n - 1);
        let j = choose|j: int| 0 <= j < h.len() && h[j] == t.pid;
        assert(g[j] == t.pid);
        law_signalled_sleeper_is_woken(table, who, n - 1, i, j);
        let x = choose|x: int| 0 <= x < prev.len() && prev[x] == w;
        assert(all[x] == w);
    } else {
        if k < n - 1 {
            assert(g.take(n - 1)[k] == t.pid);
        }
        assert(is_task(table.tasks@, i, t.pid));
        assert(is_task(table.tasks@, place(table.tasks@, t.pid), t.pid));
        assert(place(table.tasks@, t.pid) == i);
        assert(all[prev.len() as int] == w);
    }
}

/// Nobody is woken who does not get the signal.
pub proof fn law_woken_was_signalled(table: &TaskTable, who: Audience, n: int, w: u64)
    requires
        table.wf(),
        0 <= n <= table.registry@.len(),
        woken(table, who, n).contains(w),
    ensures
        exists|i: int|
            0 <= i < table.tasks@.len() && (#[trigger] table.tasks@[i]).top_level_waker == Some(w)
                && table.registry@.contains(table.tasks@[i].pid) && match who {
                Audience::Group(g) => table.tasks@[i].pgid == g,
                Audience::Everyone => table.tasks@[i].pid != 1,
            },
    decreases n,
{
    if n > 0 {
        let prev = woken(table, who, n - 1);
        let all = woken(table, who, n);
        let x = choose|x: int| 0 <= x < all.len() && all[x] == w;
        if x < prev.len() {
            assert(prev[x] == w);
            law_woken_was_signalled(table, who, n - 1, w);
        } else {
            let pid = table.registry@[n - 1];
            let i = place(table.tasks@, pid);
            assert(is_task(table.tasks@, i, pid));
            assert(table.tasks@[i].top_level_waker == Some(w));
        }
    }
}

/// The process after the first `n` places of the registry were gone through.
pub open spec fn signalled(table: &TaskTable, who: Audience, sig: u8, n: int, i: int) -> Task {
    let t = table.tasks@[i];
    if meant(t, who) && table.registry@.take(n).contains(t.pid) {
        with_signal(t, sig)
    } else {
        t
    }
}

/// One more place of the registry.
proof fn lemma_signalled(table: &TaskTable, who: Audience, sig: u8, n: int, i: int)
    requires
        0 <= n < table.registry@.len(),
    ensures
        signalled(table, who, sig, n + 1, i) == if meant(table.tasks@[i], who)
            && table.tasks@[i].pid == table.registry@[n] {
            with_signal(signalled(table, who, sig, n, i), sig)
        } else {
            signalled(table, who, sig, n, i)
        },
{
    let g = table.registry@;
    let t = table.tasks@[i];
    let bits = t.signals.pending.0.0;
    let b = 1u64 << ((sig - 1) as u64);
    assert((bits | b) | b == bits | b) by (bit_vector);
    let a = g.take(n);
    let c = g.take(n + 1);
    if a.contains(t.pid) {
        let k = choose|k: int| 0 <= k < a.len() && a[k] == t.pid;
        assert(c[k] == t.pid);
    }
    if c.contains(t.pid) {
        let k = choose|k: int| 0 <= k < c.len() && c[k] == t.pid;
        if k < n {
            assert(a[k] == t.pid);
        }
    }
    if t.pid == g[n] {
        assert(c[n] == t.pid);
    }
}

/// Send a signal to every process that is meant and can get signals, in the order of the
/// registry.  Returns the wakers to call.
pub fn post_to(table: &mut TaskTable, who: Audience, sig: u8) -> (r: Vec<u64>)
    requires
        old(table).wf(),
        legit(sig),
    ensures
        final(table).wf(),
        final(table).registry == old(table).registry,
        final(table).tasks@.len() == old(table).tasks@.len(),
        forall|i: int|
            0 <= i < old(table).tasks@.len() ==> #[trigger] final(table).tasks@[i] == if meant(
                old(table).tasks@[i],
                who,
            ) && old(table).registry@.contains(old(table).tasks@[i].pid) {
                with_signal(old(table).tasks@[i], sig)
            } else {
                old(table).tasks@[i]
            },
        r@ == woken(old(table), who, old(table).registry@.len() as int),
{
    let mut r: Vec<u64> = Vec::new();
    let ghost ts = table.tasks@;
    let ghost g = table.registry@;
    let mut n: usize = 0;
    assert forall|i: int| 0 <= i < ts.len() implies #[trigger] ts[i] == signalled(
        table,
        who,
        sig,
        0,
        i,
    ) by {
        assert(g.take(0) =~= Seq::empty());
    }
    while n < table.registry.len()
        invariant
            n <= g.len(),
            legit(sig),
            ts == old(table).tasks@,
            g == old(table).registry@,
            old(table).wf(),
            table.wf(),
            table.registry == old(table).registry,
            table.tasks@.len() == ts.len(),
            forall|i: int|
                0 <= i < ts.len() ==> #[trigger] table.tasks@[i] == signalled(
                    old(table),
                    who,
                    sig,
                    n as int,
                    i,
                ),
            r@ == woken(old(table), who, n as int),
        decreases g.len() - n,
    {
        let pid = table.registry[n];
        let ghost r0 = r@;
        let ghost now = table.tasks@;
        proof {
            assert forall|i: int| 0 <= i < ts.len() implies (#[trigger] now[i]).pid == ts[i].pid
                && now[i].pgid == ts[i].pgid by {}
            assert forall|i: int| is_task(now, i, pid) == #[trigger] is_task(ts, i, pid) by {}
        }
        match table.find(pid) {
            None => {
                proof {
                    assert(!exists_task(ts, pid)) by {
                        if exists_task(ts, pid) {
                            let i = place(ts, pid);
                            assert(is_task(ts, i, pid));
                            assert(is_task(now, i, pid));
                        }
                    }
                    assert(r0 + Seq::<u64>::empty() =~= r0);
                    assert forall|i: int| 0 <= i < ts.len() implies #[trigger] now[i] == signalled(
                        old(table),
                        who,
                        sig,
                        n + 1,
                        i,
                    ) by {
                        lemma_signalled(old(table), who, sig, n as int, i);
                        assert(!is_task(ts, i, pid));
                    }
                }
            },
            Some(at) => {
                let ghost i0 = at as int;
                proof {
                    assert(is_task(ts, i0, pid));
                    let j = place(ts, pid);
                    assert(is_task(ts, j, pid));
                    assert(j == i0);
                }
                let hit = match who {
                    Audience::Group(g) => table.tasks[at].pgid == g,
                    Audience::Everyone => table.tasks[at].pid != 1,
                };
                if hit {
                    if let Some(w) = notify(&mut table.tasks[at], sig) {
                        r.push(w);
                        assert(r@ =~= r0 + seq![w]);
                    } else {
                        assert(r0 + Seq::<u64>::empty() =~= r0);
                    }
                } else {
                    assert(r0 + Seq::<u64>::empty() =~= r0);
                }
                proof {
                    assert(hit == meant(ts[i0], who));
                    assert(now[i0] == signalled(old(table), who, sig, n as int, i0));
                    assert forall|i: int| 0 <= i < ts.len() implies #[trigger] table.tasks@[i]
                        == signalled(old(table), who, sig, n + 1, i) by {
                        lemma_signalled(old(table), who, sig, n as int, i);
                        if i != i0 {
                            assert(table.tasks@[i] == now[i]);
                            assert(ts[i].pid != ts[i0].pid);
                        }
                    }
                    assert forall|i: int| 0 <= i < ts.len() implies (
                    #[trigger] table.tasks@[i]).wf() && table.tasks@[i].pid == ts[i].pid by {
                        assert(now[i].wf());
                        if i != i0 {
                            assert(table.tasks@[i] == now[i]);
                        }
                    }
                }
            },
        }
        n += 1;
    }
    assert(g.take(n as int) =~= g);
    r
}

/// Send a signal to a process.  Returns the waker to call.
pub fn notify(t: &mut Task, sig: u8) -> (r: Option<u64>)
    requires
        legit(sig),
    ensures
        *final(t) == with_signal(*old(t), sig),
        r == old(t).top_level_waker,
{
    t.signals.post_signal(sig);
    t.top_level_waker.take()
}

/// Send a signal to every process of a group; zero sends nothing.
pub fn kill_pgrp(table: &mut TaskTable, pgid: u32, sig: u8) -> (r: Vec<u64>)
    requires
        old(table).wf(),
        sig <= 64,
    ensures
        final(table).wf(),
        final(table).registry == old(table).registry,
        final(table).tasks@.len() == old(table).tasks@.len(),
        forall|i: int|
            0 <= i < old(table).tasks@.len() ==> #[trigger] final(table).tasks@[i] == if sig != 0
                && old(table).tasks@[i].pgid == pgid && old(table).registry@.contains(
                old(table).tasks@[i].pid,
            ) {
                with_signal(old(table).tasks@[i], sig)
            } else {
                old(table).tasks@[i]
            },
        r@ == if sig == 0 {
            Seq::empty()
        } else {
            woken(old(table), Audience::Group(pgid), old(table).registry@.len() as int)
        },
{
    if sig == 0 {
        return Vec::new();
    }
    post_to(table, Audience::Group(pgid), sig)
}

} // verus!
