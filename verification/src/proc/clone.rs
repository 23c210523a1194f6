//! Creation of processes and threads.
use vstd::prelude::*;
use crate::hal::addr::PhysAddr;
use crate::hal::errno::{Errno, KernelResult};
use crate::mm::allocator::frame_allocator::{FramePool, NUM_MAGAZINES};
use crate::mm::pmap::shootdown::ShootdownBatch;
use crate::mm::pmap::table::pool_holdable;
use crate::mm::vm::map::address_map::{backed, handles, refs_of, VmMap};
use crate::mm::vm::map::fork::{accounted, did_cow_fork};
use crate::mm::vm::object::VmObjects;
use crate::proc::pid::PidAllocator;
use crate::proc::signal::{SigAction, SigSet};
use crate::proc::task::{Task, TaskState};

verus! {

/// Tells a parent that its child has ended or has its own address space.
#[derive(Debug, Clone, Copy, PartialEq, Eq, Structural)]
pub struct VforkDone {
    pub done: bool,
    /// The parent, where it sleeps.
    pub waker: Option<u64>,
}

impl VforkDone {
    pub fn new() -> (r: Self)
        ensures
            !r.done,
            r.waker is None,
    {
        VforkDone { done: false, waker: None }
    }

    /// The child has ended or has its own address space.  Returns the waker to call.
    pub fn signal(&mut self) -> (r: Option<u64>)
        ensures
            final(self).done,
            final(self).waker is None,
            r == old(self).waker,
    {
        self.done = true;
        self.waker.take()
    }

    pub fn is_done(&self) -> (r: bool)
        ensures
            r == self.done,
    {
        self.done
    }
}

/// What a new process shares with its parent.
#[derive(Debug, Clone, Copy, PartialEq, Eq, Structural)]
pub struct CloneFlags(pub u64);

impl CloneFlags {
    /// The address space.
    #[allow(non_snake_case)]
    #[verifier::allow_in_spec]
    pub fn VM() -> CloneFlags
        returns
            CloneFlags(0x100),
    {
        CloneFlags(0x100)
    }

    /// The file table.
    #[allow(non_snake_case)]
    #[verifier::allow_in_spec]
    pub fn FILES() -> CloneFlags
        returns
            CloneFlags(0x400),
    {
        CloneFlags(0x400)
    }

    /// Signal actions.
    #[allow(non_snake_case)]
    #[verifier::allow_in_spec]
    pub fn SIGHAND() -> CloneFlags
        returns
            CloneFlags(0x800),
    {
        CloneFlags(0x800)
    }

    /// The parent waits until the child has its own address space or has ended.
    #[allow(non_snake_case)]
    #[verifier::allow_in_spec]
    pub fn VFORK() -> CloneFlags
        returns
            CloneFlags(0x4000),
    {
        CloneFlags(0x4000)
    }

    /// The new process is a thread.
    #[allow(non_snake_case)]
    #[verifier::allow_in_spec]
    pub fn THREAD() -> CloneFlags
        returns
            CloneFlags(0x1_0000),
    {
        CloneFlags(0x1_0000)
    }

    /// The thread pointer is given.
    #[allow(non_snake_case)]
    #[verifier::allow_in_spec]
    pub fn SETTLS() -> CloneFlags
        returns
            CloneFlags(0x8_0000),
    {
        CloneFlags(0x8_0000)
    }

    #[allow(non_snake_case)]
    #[verifier::allow_in_spec]
    pub fn PARENT_SETTID() -> CloneFlags
        returns
            CloneFlags(0x10_0000),
    {
        CloneFlags(0x10_0000)
    }

    #[allow(non_snake_case)]
    #[verifier::allow_in_spec]
    pub fn CHILD_CLEARTID() -> CloneFlags
        returns
            CloneFlags(0x20_0000),
    {
        CloneFlags(0x20_0000)
    }

    #[allow(non_snake_case)]
    #[verifier::allow_in_spec]
    pub fn CHILD_SETTID() -> CloneFlags
        returns
            CloneFlags(0x100_0000),
    {
        CloneFlags(0x100_0000)
    }

    pub open spec fn has(self, other: CloneFlags) -> bool {
        self.0 & other.0 == other.0
    }

    /// Whether every flag of `other` is set.
    pub fn contains(&self, other: CloneFlags) -> (r: bool)
        ensures
            r == self.has(other),
    {
        self.0 & other.0 == other.0
    }
}

/// Whether the flags make no sense: a thread has to share the address space and the signal
/// actions.
pub open spec fn bad_flags(flags: CloneFlags) -> bool {
    flags.has(CloneFlags::THREAD()) && !(flags.has(CloneFlags::VM()) && flags.has(
        CloneFlags::SIGHAND(),
    ))
}

/// The registers with which a child starts: those of the parent after the call, which has
/// returned zero, with its own stack and thread pointer where they are given.
pub open spec fn child_registers(x: Seq<u64>, flags: CloneFlags, stack: u64, tls: u64) -> Seq<u64> {
    let a = x.update(10, 0);
    let b = if stack != 0 {
        a.update(2, stack)
    } else {
        a
    };
    if flags.has(CloneFlags::SETTLS()) && tls != 0 {
        b.update(4, tls)
    } else {
        b
    }
}

/// A child starts with the registers of its parent but for the result of the call, which is zero, and
/// the stack pointer and the thread pointer where others are asked for.
pub proof fn law_child_starts_like_parent(x: Seq<u64>, flags: CloneFlags, stack: u64, tls: u64, i: int)
    requires
        x.len() == 32,
        0 <= i < 32,
    ensures
        child_registers(x, flags, stack, tls).len() == 32,
        child_registers(x, flags, stack, tls)[i] == if i == 10 {
            0
        } else if i == 2 && stack != 0 {
            stack
        } else if i == 4 && tls != 0 && flags.0 & 0x8_0000 != 0 {
            tls
        } else {
            x[i]
        },
{
    let f = flags.0;
    assert((f & 0x8_0000 == 0x8_0000) == (f & 0x8_0000 != 0)) by (bit_vector);
}

/// What a child has from its parent.
pub open spec fn is_child(
    parent: Task,
    child: Task,
    flags: CloneFlags,
    stack: u64,
    tls: u64,
    space: usize,
    files: usize,
    kstack: (PhysAddr, u64),
) -> bool {
    &&& child.wf()
    &&& child.parent == Some(parent.pid)
    &&& child.pgid == parent.pgid
    &&& child.children@.len() == 0
    &&& child.state == TaskState::Running
    &&& child.exit_status == 0
    &&& child.parent_waker is None
    &&& child.top_level_waker is None
    &&& child.kstack_base == kstack.0
    &&& child.kernel_sp == kstack.1
    &&& child.vm_map == if flags.has(CloneFlags::VM()) {
        parent.vm_map
    } else {
        space
    }
    &&& child.fd_table == if flags.has(CloneFlags::FILES()) {
        parent.fd_table
    } else {
        files
    }
    &&& child.cwd@ == parent.cwd@
    &&& child.trap_frame.x@ == child_registers(parent.trap_frame.x@, flags, stack, tls)
    &&& child.trap_frame.sepc == parent.trap_frame.sepc.wrapping_add(4)
    &&& child.trap_frame.sstatus == parent.trap_frame.sstatus
    &&& child.brk == parent.brk
    &&& child.signals.actions@ == parent.signals.actions@
    &&& child.signals.pending.0.0 == 0
    &&& child.signals.blocked.0 == parent.signals.blocked.0
    &&& child.signals.altstack == (0u64, 0u64, 0u32)
    &&& child.vfork_done == if flags.has(CloneFlags::VFORK()) {
        Some(VforkDone { done: false, waker: None })
    } else {
        None
    }
}

/// Copy the actions of a process.
fn copy_actions(s: &Vec<SigAction>) -> (r: Vec<SigAction>)
    ensures
        r@ == s@,
{
    let mut r: Vec<SigAction> = Vec::new();
    let mut i: usize = 0;
    while i < s.len()
        invariant
            i <= s@.len(),
            r@ == s@.take(i as int),
        decreases s@.len() - i,
    {
        assert(s@.take(i + 1) =~= s@.take(i as int).push(s@[i as int]));
        r.push(s[i]);
        i += 1;
    }
    assert(s@.take(i as int) =~= s@);
    r
}

/// What a child takes over from its parent besides memory and files.
pub(crate) fn inherit(parent: &Task, child: &mut Task, flags: CloneFlags, child_stack: u64, tls: u64)
    requires
        parent.wf(),
        old(child).wf(),
    ensures
        *final(child) == (Task {
            cwd: final(child).cwd,
            trap_frame: final(child).trap_frame,
            brk: parent.brk,
            signals: final(child).signals,
            ..*old(child)
        }),
        final(child).wf(),
        final(child).cwd@ == parent.cwd@,
        final(child).trap_frame.x@ == child_registers(parent.trap_frame.x@, flags, child_stack, tls),
        final(child).trap_frame.sepc == parent.trap_frame.sepc.wrapping_add(4),
        final(child).trap_frame.sstatus == parent.trap_frame.sstatus,
        final(child).signals.actions@ == parent.signals.actions@,
        final(child).signals.pending.0.0 == 0,
        final(child).signals.blocked.0 == parent.signals.blocked.0,
        final(child).signals.altstack == old(child).signals.altstack,
{
    child.cwd = parent.cwd.clone();
    child.trap_frame = parent.trap_frame;
    child.trap_frame.set_ret_val(0);
    child.trap_frame.advance_pc();
    if child_stack != 0 {
        child.trap_frame.set_sp(child_stack);
    }
    if flags.contains(CloneFlags::SETTLS()) && tls != 0 {
        child.trap_frame.set_tls(tls);
    }
    child.brk = parent.brk;
    child.signals.pending.store(SigSet::empty());
    child.signals.actions = copy_actions(&parent.signals.actions);
    child.signals.blocked.store(parent.signals.blocked.load());
}

/// What a fork needs of the parent's address space.
pub open spec fn space_ready(
    parent_vm: &VmMap,
    child_vm: &VmMap,
    store: &VmObjects,
    pool: &FramePool,
    cpu: usize,
) -> bool {
    &&& parent_vm.wf()
    &&& child_vm.wf()
    &&& store.wf()
    &&& backed(parent_vm.entries(), store)
    &&& accounted(parent_vm.entries(), store)
    &&& forall|id: int| #[trigger]
        refs_of(store, id) + handles(parent_vm.entries(), id) < usize::MAX
    &&& child_vm.nentries + parent_vm.nentries <= usize::MAX
    &&& pool.inv()
    &&& pool_holdable(pool)
    &&& cpu < NUM_MAGAZINES
    &&& child_vm.pmap.stats.wired_count < usize::MAX
}

/// Create a process.  `space` and `files` are the places of an address space, `child_vm`,
/// and a file table that the child gets where it does not share those of the parent; the
/// files are the caller's to copy.
pub fn do_clone(
    parent: &mut Task,
    parent_vm: &mut VmMap,
    child_vm: &mut VmMap,
    space: usize,
    files: usize,
    kstack: (PhysAddr, u64),
    pids: &mut PidAllocator,
    store: &mut VmObjects,
    pool: &mut FramePool,
    cpu: usize,
    batch: &mut ShootdownBatch,
    flags: CloneFlags,
    child_stack: u64,
    tls: u64,
) -> (r: KernelResult<Task>)
    requires
        old(parent).wf(),
        old(pids).wf(),
        old(pids).next < u32::MAX,
        space_ready(old(parent_vm), old(child_vm), old(store), old(pool), cpu),
    ensures
        final(parent).wf(),
        final(pids).wf(),
        final(parent_vm).wf(),
        final(child_vm).wf(),
        final(store).wf(),
        final(pool).inv(),
        forall|p: int| #[trigger] final(pool).pool_free(p) ==> old(pool).pool_free(p),
        pool_holdable(final(pool)),
        *final(parent) == (Task { children: final(parent).children, ..*old(parent) }),
        bad_flags(flags) ==> r == Err::<Task, Errno>(Errno::Einval) && *final(pids) == *old(pids),
        !bad_flags(flags) ==> final(pids).next == old(pids).next + 1,
        bad_flags(flags) || flags.has(CloneFlags::VM()) ==> {
            &&& *final(parent_vm) == *old(parent_vm)
            &&& *final(child_vm) == *old(child_vm)
            &&& *final(store) == *old(store)
            &&& *final(pool) == *old(pool)
            &&& *final(batch) == *old(batch)
        },
        !bad_flags(flags) && flags.has(CloneFlags::VM()) ==> r is Ok,
        !bad_flags(flags) && !flags.has(CloneFlags::VM()) ==> did_cow_fork(
            old(parent_vm),
            final(parent_vm),
            old(child_vm),
            final(child_vm),
            old(store),
            final(store),
            old(pool),
            final(pool),
            cpu as int,
            old(batch),
            final(batch),
            match r {
                Ok(_) => Ok(()),
                Err(e) => Err(e),
            },
        ),
        match r {
            Ok(child) => {
                &&& child.pid == old(pids).next
                &&& is_child(*old(parent), child, flags, child_stack, tls, space, files, kstack)
                &&& final(parent).children@ == old(parent).children@.push(child.pid)
            },
            Err(_) => final(parent).children@ == old(parent).children@,
        },
        r matches Ok(child) ==> child.parent == Some(old(parent).pid)
            && child.pgid == old(parent).pgid && child.cwd@ == old(parent).cwd@
            && child.brk == old(parent).brk && child.state == TaskState::Running
            && child.trap_frame.sepc == old(parent).trap_frame.sepc.wrapping_add(4)
            && child.signals.actions@ == old(parent).signals.actions@
            && child.signals.pending.0.0 == 0
            && child.signals.blocked.0 == old(parent).signals.blocked.0
            && child.trap_frame.x@.len() == 32 && (forall|i: int|
            0 <= i < 32 ==> #[trigger] child.trap_frame.x@[i] == if i == 10 {
                0
            } else if i == 2 && child_stack != 0 {
                child_stack
            } else if i == 4 && tls != 0 && flags.0 & 0x8_0000 != 0 {
                tls
            } else {
                old(parent).trap_frame.x@[i]
            }),
        r matches Ok(child) ==> (child.vm_map
            == if flags.0 & 0x100 != 0 { old(parent).vm_map } else { space }) && (child.fd_table
            == if flags.0 & 0x400 != 0 { old(parent).fd_table } else { files })
            && (child.vfork_done is Some <==> flags.0 & 0x4000 != 0),
        flags.0 & 0x1_0000 != 0 && flags.0 & 0x900 != 0x900 ==> r == Err::<Task, Errno>(Errno::Einval),
        flags.0 & 0x1_0000 == 0 && flags.0 & 0x100 != 0 ==> r is Ok,
{
    proof {
        let f = flags.0;
        assert((f & 0x100 == 0x100) == (f & 0x100 != 0) && (f & 0x400 == 0x400) == (f & 0x400 != 0) && (f
            & 0x4000 == 0x4000) == (f & 0x4000 != 0) && (f & 0x1_0000 == 0x1_0000) == (f & 0x1_0000
            != 0) && (f & 0x900 == 0x900) == (f & 0x100 == 0x100 && f & 0x800 == 0x800)) by (bit_vector);
        let x = parent.trap_frame.x@;
        assert forall|i: int| 0 <= i < 32 implies #[trigger] child_registers(x, flags, child_stack, tls)[i]
            == if i == 10 {
            0
        } else if i == 2 && child_stack != 0 {
            child_stack
        } else if i == 4 && tls != 0 && flags.0 & 0x8_0000 != 0 {
            tls
        } else {
            x[i]
        } by {
            law_child_starts_like_parent(x, flags, child_stack, tls, i);
        }
    }
    if flags.contains(CloneFlags::THREAD()) && !(flags.contains(CloneFlags::VM())
        && flags.contains(CloneFlags::SIGHAND())) {
        return Err(Errno::Einval);
    }
    let mut child = Task::new(Some(&*parent), pids, kstack, space, files);
    if flags.contains(CloneFlags::VM()) {
        child.vm_map = parent.vm_map;
    } else {
        match parent_vm.cow_fork_into(child_vm, store, pool, cpu, batch) {
            Ok(_) => {},
            Err(e) => {
                return Err(e);
            },
        }
    }
    if flags.contains(CloneFlags::FILES()) {
        child.fd_table = parent.fd_table;
    }
    inherit(parent, &mut child, flags, child_stack, tls);
    if flags.contains(CloneFlags::VFORK()) {
        child.vfork_done = Some(VforkDone::new());
    }
    parent.children.push(child.pid);
    Ok(child)
}

/// A child is of its parent, in its group, in its directory, with its heap, its actions and its blocked
/// signals; nothing is pending for it, it has no children, and it goes on behind the call.  The address
/// space and the files are those of the parent where they are to be shared, and else its own.
pub proof fn law_child_takes_after_parent(
    parent: Task,
    child: Task,
    flags: CloneFlags,
    stack: u64,
    tls: u64,
    space: usize,
    files: usize,
    kstack: (PhysAddr, u64),
)
    requires
        is_child(parent, child, flags, stack, tls, space, files, kstack),
    ensures
        child.parent == Some(parent.pid),
        child.pgid == parent.pgid,
        child.cwd@ == parent.cwd@,
        child.brk == parent.brk,
        child.state == TaskState::Running,
        child.children@.len() == 0,
        child.trap_frame.sepc == parent.trap_frame.sepc.wrapping_add(4),
        child.trap_frame.sstatus == parent.trap_frame.sstatus,
        child.trap_frame.x@[10] == 0,
        child.signals.actions@ == parent.signals.actions@,
        child.signals.blocked.0 == parent.signals.blocked.0,
        child.signals.pending.0.0 == 0,
        flags.0 & 0x100 == 0x100 ==> child.vm_map == parent.vm_map,
        flags.0 & 0x100 != 0x100 ==> child.vm_map == space,
        flags.0 & 0x400 == 0x400 ==> child.fd_table == parent.fd_table,
        flags.0 & 0x400 != 0x400 ==> child.fd_table == files,
        child.vfork_done is Some <==> flags.0 & 0x4000 == 0x4000,
{
}

/// A thread that does not share the address space and the signal actions is refused, and nothing else is.
pub proof fn law_threads_share(flags: CloneFlags)
    ensures
        bad_flags(flags) <==> flags.0 & 0x1_0000 == 0x1_0000 && !(flags.0 & 0x100 == 0x100 && flags.0
            & 0x800 == 0x800),
{
}

} // verus!
