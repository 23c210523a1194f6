//! The end of a process, and waiting for it.
use vstd::prelude::*;
use crate::hal::errno::Errno;
use crate::proc::signal::{AtomicSigSet, SigSet, Signal, SignalState, SA_NOCLDWAIT, SIGCHLD};
use crate::proc::syscall_result::SyscallResult;
use crate::proc::task::{
    exists_task, is_task, law_without, place, retain_others, unregister_task, with_signal, without, Task, TaskState,
    TaskTable,
};

verus! {

/// How a process ended, as those who wait see it.
#[derive(Debug, Clone, Copy, PartialEq, Eq, Structural)]
pub struct WaitStatus(pub i32);

impl WaitStatus {
    /// The process ended with an exit code: its low eight bits, in bits eight to
    /// fifteen.
    pub fn exited(code: i32) -> (r: Self)
        ensures
            r.0 == (code as int % 256) * 256,
    {
        assert((code & 0xffi32) << 8 == (code & 0xffi32) * 256 && 0 <= (code & 0xffi32) < 256 && (
        code as i64 - (code & 0xffi32) as i64) % 256 == 0) by (bit_vector);
        WaitStatus((code & 0xff) << 8)
    }

    /// The process was ended by a signal: its low seven bits.
    pub fn signaled(sig: u8) -> (r: Self)
        ensures
            r.0 == sig as int % 128,
    {
        assert(sig & 0x7fu8 == sig % 128) by (bit_vector);
        WaitStatus((sig & 0x7f) as i32)
    }
}

/// Whether the parent wants no zombies.
pub open spec fn auto_reaps(p: Task) -> bool {
    p.signals.actions@[SIGCHLD - 1].flags & SA_NOCLDWAIT != 0
}

/// The parent that a process still has.
pub open spec fn living_parent(ts: Seq<Task>, t: Task) -> Option<int> {
    match t.parent {
        Some(p) => if exists_task(ts, p) {
            Some(place(ts, p))
        } else {
            None
        },
        None => None,
    }
}

/// What the end of the process at `i` does.
pub open spec fn ended(
    before: &TaskTable,
    after: &TaskTable,
    i: int,
    status: i32,
    reap: bool,
    wakers: Seq<u64>,
) -> bool {
    let ts = before.tasks@;
    let now = after.tasks@;
    let t = ts[i];
    &&& after.registry@ == without(before.registry@, t.pid)
    &&& now.len() == ts.len()
    &&& now[i] == (Task { exit_status: status, state: TaskState::Zombie, ..t })
    &&& match living_parent(ts, t) {
        None => {
            &&& forall|j: int| 0 <= j < ts.len() && j != i ==> #[trigger] now[j] == ts[j]
            &&& wakers.len() == 0
        },
        Some(k) => {
            let p = ts[k];
            &&& forall|j: int| 0 <= j < ts.len() && j != i && j != k ==> #[trigger] now[j] == ts[j]
            &&& now[k] == (Task {
                parent_waker: None,
                children: now[k].children,
                ..with_signal(p, SIGCHLD)
            })
            &&& now[k].children@ == if reap && auto_reaps(p) {
                without(p.children@, t.pid)
            } else {
                p.children@
            }
            &&& wakers == (if p.parent_waker is Some {
                seq![p.parent_waker->0]
            } else {
                Seq::empty()
            }) + (if p.top_level_waker is Some {
                seq![p.top_level_waker->0]
            } else {
                Seq::empty()
            })
        },
    }
}

/// End a process and tell its parent.  Returns the wakers to call.
fn end_task(table: &mut TaskTable, pid: u32, status: WaitStatus, reap: bool) -> (r: Vec<u64>)
    requires
        old(table).wf(),
        exists_task(old(table).tasks@, pid),
        old(table).tasks@[place(old(table).tasks@, pid)].parent != Some(pid),
    ensures
        final(table).wf(),
        ended(old(table), final(table), place(old(table).tasks@, pid), status.0, reap, r@),
{
    let ghost ts = table.tasks@;
    let mut wakers: Vec<u64> = Vec::new();
    if let Some(i) = table.find(pid) {
        let parent = table.tasks[i].parent;
        proof {
            if let Some(p) = parent {
                if exists_task(ts, p) {
                    assert(is_task(ts, place(ts, p), p));
                }
            }
        }
        let k = match parent {
            Some(p) => table.find(p),
            None => None,
        };
        table.tasks[i].exit_status = status.0;
        table.tasks[i].set_zombie();
        unregister_task(table, pid);
        if let Some(k) = k {
            table.tasks[k].signals.post_signal(SIGCHLD);
            if reap && table.tasks[k].signals.actions[SIGCHLD as usize - 1].flags & SA_NOCLDWAIT
                != 0 {
                table.tasks[k].children = retain_others(&table.tasks[k].children, pid);
            }
            if let Some(w) = table.tasks[k].parent_waker.take() {
                wakers.push(w);
            }
            if let Some(w) = table.tasks[k].top_level_waker.take() {
                wakers.push(w);
            }
        }
        proof {
            let now = table.tasks@;
            assert forall|a: int| 0 <= a < ts.len() implies (#[trigger] now[a]).pid == ts[a].pid
                && now[a].wf() by {
                assert(ts[a].wf());
            }
            if let Some(k) = k {
                let p = ts[k as int];
                assert(living_parent(ts, ts[i as int]) == Some(k as int));
                assert(now[k as int].signals.pending.0 == with_signal(p, SIGCHLD).signals.pending.0);
                assert(now[k as int] == (Task {
                    parent_waker: None,
                    children: now[k as int].children,
                    ..with_signal(p, SIGCHLD)
                }));
                assert(wakers@ =~= (if p.parent_waker is Some {
                    seq![p.parent_waker->0]
                } else {
                    Seq::empty()
                }) + (if p.top_level_waker is Some {
                    seq![p.top_level_waker->0]
                } else {
                    Seq::empty()
                }));
            }
        }
    }
    wakers
}

/// The end of a process tells its parent: signal seventeen is pending there, who slept for the parent
/// is woken, and the child can still be waited for, unless its end was to be forgotten and the parent
/// has asked for that.  Nobody else is touched, and the process gets no more signals.
pub proof fn law_exit_tells_parent(
    before: &TaskTable,
    after: &TaskTable,
    i: int,
    k: int,
    status: i32,
    reap: bool,
    wakers: Seq<u64>,
    x: u32,
)
    requires
        before.wf(),
        0 <= i < before.tasks@.len(),
        0 <= k < before.tasks@.len(),
        before.tasks@[i].parent != Some(before.tasks@[i].pid),
        ended(before, after, i, status, reap, wakers),
    ensures
        after.tasks@[i].state == TaskState::Zombie,
        after.tasks@[i].exit_status == status,
        after.tasks@[i].pid == before.tasks@[i].pid,
        before.tasks@[i].parent == Some(before.tasks@[k].pid) ==> ({
            let p = before.tasks@[k];
            let q = after.tasks@[k];
            let pid = before.tasks@[i].pid;
            &&& (q.signals.pending.0.0 >> 16) & 1 == 1
            &&& q.parent_waker is None
            &&& p.parent_waker matches Some(w) ==> wakers.contains(w)
            &&& p.top_level_waker matches Some(w) ==> wakers.contains(w)
            &&& q.children@.contains(pid) <==> p.children@.contains(pid) && (reap
                ==> p.signals.actions@[16].flags / 2 % 2 == 0)
        }),
        k != i && before.tasks@[i].parent != Some(before.tasks@[k].pid) ==> after.tasks@[k]
            == before.tasks@[k],
        after.registry@.contains(x) <==> before.registry@.contains(x) && x != before.tasks@[i].pid,
{
    let ts = before.tasks@;
    let t = ts[i];
    law_without(before.registry@, t.pid, x);
    if let Some(q) = t.parent {
        if exists_task(ts, q) {
            assert(is_task(ts, place(ts, q), q));
        }
    }
    if t.parent == Some(ts[k].pid) {
        let p = ts[k];
        assert(is_task(ts, k, p.pid));
        assert(living_parent(ts, t) == Some(k));
        law_without(p.children@, t.pid, t.pid);
        let bits = p.signals.pending.0.0;
        assert(((bits | (1u64 << 16)) >> 16) & 1 == 1) by (bit_vector);
        let f = p.signals.actions@[16].flags;
        assert((f & 2 != 0) == (f / 2 % 2 == 1)) by (bit_vector);
        let a = if p.parent_waker is Some {
            seq![p.parent_waker->0]
        } else {
            Seq::empty()
        };
        let b = if p.top_level_waker is Some {
            seq![p.top_level_waker->0]
        } else {
            Seq::empty()
        };
        assert(wakers == a + b);
        if p.parent_waker is Some {
            assert(wakers[0] == p.parent_waker->0);
        }
        if p.top_level_waker is Some {
            assert(wakers[a.len() as int] == p.top_level_waker->0);
        }
    }
}

proof fn lemma_ended(
    before: &TaskTable,
    after: &TaskTable,
    pid: u32,
    status: i32,
    reap: bool,
    wakers: Seq<u64>,
)
    requires
        before.wf(),
        exists_task(before.tasks@, pid),
        before.tasks@[place(before.tasks@, pid)].parent != Some(pid),
        ended(before, after, place(before.tasks@, pid), status, reap, wakers),
    ensures
        ({
            let ts = before.tasks@;
            let now = after.tasks@;
            forall|i: int, k: int|
                0 <= i < ts.len() && 0 <= k < ts.len() && (#[trigger] ts[i]).pid == pid ==> {
                    &&& now[i].state == TaskState::Zombie
                    &&& now[i].exit_status == status
                    &&& now[i].pid == pid
                    &&& ts[i].parent == Some((#[trigger] ts[k]).pid) ==> {
                        &&& (now[k].signals.pending.0.0 >> 16) & 1 == 1
                        &&& now[k].parent_waker is None
                        &&& ts[k].parent_waker matches Some(w) ==> wakers.contains(w)
                        &&& ts[k].top_level_waker matches Some(w) ==> wakers.contains(w)
                        &&& now[k].children@.contains(pid) <==> ts[k].children@.contains(pid) && (reap
                            ==> ts[k].signals.actions@[16].flags / 2 % 2 == 0)
                    }
                    &&& k != i && ts[i].parent != Some((#[trigger] ts[k]).pid) ==> now[k] == ts[k]
                }
        }),
        forall|x: u32| #[trigger]
            after.registry@.contains(x) <==> before.registry@.contains(x) && x != pid,
{
    let ts = before.tasks@;
    let now = after.tasks@;
    let p = place(ts, pid);
    assert(is_task(ts, p, pid));
    assert forall|x: u32| #[trigger]
        after.registry@.contains(x) <==> before.registry@.contains(x) && x != pid by {
        law_exit_tells_parent(before, after, p, p, status, reap, wakers, x);
    }
    assert forall|i: int, k: int|
        0 <= i < ts.len() && 0 <= k < ts.len() && (#[trigger] ts[i]).pid == pid implies {
        &&& now[i].state == TaskState::Zombie
        &&& now[i].exit_status == status
        &&& now[i].pid == pid
        &&& ts[i].parent == Some((#[trigger] ts[k]).pid) ==> {
            &&& (now[k].signals.pending.0.0 >> 16) & 1 == 1
            &&& now[k].parent_waker is None
            &&& ts[k].parent_waker matches Some(w) ==> wakers.contains(w)
            &&& ts[k].top_level_waker matches Some(w) ==> wakers.contains(w)
            &&& now[k].children@.contains(pid) <==> ts[k].children@.contains(pid) && (reap
                ==> ts[k].signals.actions@[16].flags / 2 % 2 == 0)
        }
        &&& k != i && ts[i].parent != Some((#[trigger] ts[k]).pid) ==> now[k] == ts[k]
    } by {
        assert(i == p);
        law_exit_tells_parent(before, after, i, k, status, reap, wakers, 0);
    }
}

/// End a process: it is a zombie with this status, gets no more signals, and its parent
/// is told.
pub fn sys_exit(table: &mut TaskTable, pid: u32, status: WaitStatus) -> (r: (SyscallResult, Vec<u64>))
    requires
        old(table).wf(),
        exists_task(old(table).tasks@, pid),
        old(table).tasks@[place(old(table).tasks@, pid)].parent != Some(pid),
    ensures
        final(table).wf(),
        r.0 == SyscallResult::Terminated,
        ended(old(table), final(table), place(old(table).tasks@, pid), status.0, false, r.1@),
        ({
            let ts = old(table).tasks@;
            let now = final(table).tasks@;
            forall|i: int, k: int|
                0 <= i < ts.len() && 0 <= k < ts.len() && (#[trigger] ts[i]).pid == pid ==> {
                    &&& now[i].state == TaskState::Zombie
                    &&& now[i].exit_status == status.0
                    &&& now[i].pid == pid
                    &&& ts[i].parent == Some((#[trigger] ts[k]).pid) ==> {
                        &&& (now[k].signals.pending.0.0 >> 16) & 1 == 1
                        &&& now[k].parent_waker is None
                        &&& ts[k].parent_waker matches Some(w) ==> r.1@.contains(w)
                        &&& ts[k].top_level_waker matches Some(w) ==> r.1@.contains(w)
                        &&& now[k].children@.contains(pid) <==> ts[k].children@.contains(pid) && true
                    }
                    &&& k != i && ts[i].parent != Some((#[trigger] ts[k]).pid) ==> now[k] == ts[k]
                }
        }),
        forall|x: u32| #[trigger] final(table).registry@.contains(x)
            <==> old(table).registry@.contains(x) && x != pid,
{
    let wakers = end_task(table, pid, status, false);
    proof {
        lemma_ended(old(table), table, pid, status.0, false, wakers@);
    }
    (SyscallResult::Terminated, wakers)
}

/// End a process; a parent that wants no zombies does not get one.  The address space and
/// the file table of the process are the caller's to clear.
pub fn do_exit(table: &mut TaskTable, pid: u32, wstatus: WaitStatus) -> (r: Vec<u64>)
    requires
        old(table).wf(),
        exists_task(old(table).tasks@, pid),
        old(table).tasks@[place(old(table).tasks@, pid)].parent != Some(pid),
    ensures
        final(table).wf(),
        ended(old(table), final(table), place(old(table).tasks@, pid), wstatus.0, true, r@),
        ({
            let ts = old(table).tasks@;
            let now = final(table).tasks@;
            forall|i: int, k: int|
                0 <= i < ts.len() && 0 <= k < ts.len() && (#[trigger] ts[i]).pid == pid ==> {
                    &&& now[i].state == TaskState::Zombie
                    &&& now[i].exit_status == wstatus.0
                    &&& now[i].pid == pid
                    &&& ts[i].parent == Some((#[trigger] ts[k]).pid) ==> {
                        &&& (now[k].signals.pending.0.0 >> 16) & 1 == 1
                        &&& now[k].parent_waker is None
                        &&& ts[k].parent_waker matches Some(w) ==> r@.contains(w)
                        &&& ts[k].top_level_waker matches Some(w) ==> r@.contains(w)
                        &&& now[k].children@.contains(pid) <==> ts[k].children@.contains(pid)
                            && (ts[k].signals.actions@[16].flags / 2 % 2 == 0)
                    }
                    &&& k != i && ts[i].parent != Some((#[trigger] ts[k]).pid) ==> now[k] == ts[k]
                }
        }),
        forall|x: u32| #[trigger] final(table).registry@.contains(x)
            <==> old(table).registry@.contains(x) && x != pid,
{
    let wakers = end_task(table, pid, wstatus, true);
    proof {
        lemma_ended(old(table), table, pid, wstatus.0, true, wakers@);
    }
    wakers
}

/// Whether the process is a zombie of those waited for: any where `target` is not
/// positive.
pub open spec fn waited_for(t: Task, target: i64) -> bool {
    t.state == TaskState::Zombie && (target > 0 ==> t.pid == target as int % 0x1_0000_0000)
}

/// The first child, from the `i`-th on, that is a zombie of those waited for.
pub open spec fn first_zombie(ts: Seq<Task>, children: Seq<u32>, target: i64, i: int) -> Option<int>
    decreases children.len() - i,
{
    if i >= children.len() {
        None
    } else if waited_for(ts[place(ts, children[i])], target) {
        Some(place(ts, children[i]))
    } else {
        first_zombie(ts, children, target, i + 1)
    }
}

/// All children are in the table.
pub open spec fn family(ts: Seq<Task>, children: Seq<u32>) -> bool {
    forall|i: int| 0 <= i < children.len() ==> exists_task(ts, #[trigger] children[i])
}

/// Whatever child has ended is found by who waits for any child, and by who waits for its number:
/// nothing is found only where no such child has ended.
pub proof fn law_ended_child_is_collected(
    ts: Seq<Task>,
    children: Seq<u32>,
    target: i64,
    i: int,
    k: int,
    c: int,
)
    requires
        forall|a: int, b: int|
            0 <= a < b < ts.len() ==> (#[trigger] ts[a]).pid != (#[trigger] ts[b]).pid,
        0 <= k < ts.len(),
        0 <= i <= c < children.len(),
        ts[k].pid == children[c],
        ts[k].state == TaskState::Zombie,
        target <= 0 || ts[k].pid == target as int % 0x1_0000_0000,
    ensures
        first_zombie(ts, children, target, i) is Some,
    decreases c - i,
{
    if i < c {
        law_ended_child_is_collected(ts, children, target, i + 1, k, c);
    } else {
        assert(is_task(ts, k, children[c]));
        assert(is_task(ts, place(ts, children[c]), children[c]));
    }
}

/// What a wait finds is a child that has ended, with the number waited for where there is one, and
/// no child before it in the list is such a one.
pub proof fn law_collected_child_has_ended(
    ts: Seq<Task>,
    children: Seq<u32>,
    target: i64,
    i: int,
    k: int,
)
    requires
        forall|a: int, b: int|
            0 <= a < b < ts.len() ==> (#[trigger] ts[a]).pid != (#[trigger] ts[b]).pid,
        family(ts, children),
        0 <= i,
        first_zombie(ts, children, target, i) == Some(k),
    ensures
        0 <= k < ts.len(),
        ts[k].state == TaskState::Zombie,
        target > 0 ==> ts[k].pid == target as int % 0x1_0000_0000,
        children.contains(ts[k].pid),
        exists|c: int|
            i <= c < children.len() && #[trigger] children[c] == ts[k].pid && forall|d: int, j: int|
                i <= d < c && 0 <= j < ts.len() && (#[trigger] ts[j]).pid == #[trigger] children[d]
                    ==> ts[j].state != TaskState::Zombie || target > 0 && ts[j].pid != target as int
                    % 0x1_0000_0000,
    decreases children.len() - i,
{
    let p = place(ts, children[i]);
    assert(exists_task(ts, children[i]));
    assert(is_task(ts, p, children[i]));
    if k == p && ts[p].state == TaskState::Zombie && (target > 0 ==> ts[p].pid == target as int
        % 0x1_0000_0000) {
        assert(children[i] == ts[k].pid);
    } else {
        law_collected_child_has_ended(ts, children, target, i + 1, k);
        let c = choose|c: int|
            i + 1 <= c < children.len() && #[trigger] children[c] == ts[k].pid && forall|
                d: int,
                j: int,
            |
                i + 1 <= d < c && 0 <= j < ts.len() && (#[trigger] ts[j]).pid
                    == #[trigger] children[d] ==> ts[j].state != TaskState::Zombie || target > 0
                    && ts[j].pid != target as int % 0x1_0000_0000;
        assert forall|d: int, j: int|
            i <= d < c && 0 <= j < ts.len() && (#[trigger] ts[j]).pid
                == #[trigger] children[d] implies ts[j].state != TaskState::Zombie || target > 0
            && ts[j].pid != target as int % 0x1_0000_0000 by {
            if d == i {
                assert(is_task(ts, j, children[i]));
                assert(j == p);
            }
        }
        assert(children[c] == ts[k].pid);
    }
}

proof fn lemma_scan(ts: Seq<Task>, children: Seq<u32>, target: i64)
    requires
        forall|a: int, b: int|
            0 <= a < b < ts.len() ==> (#[trigger] ts[a]).pid != (#[trigger] ts[b]).pid,
        family(ts, children),
    ensures
        forall|k: int, c: int|
            0 <= k < ts.len() && 0 <= c < children.len() && (#[trigger] ts[k]).pid
                == #[trigger] children[c] && ts[k].state == TaskState::Zombie && (target <= 0
                || ts[k].pid == target as int % 0x1_0000_0000) ==> first_zombie(
                ts,
                children,
                target,
                0,
            ) is Some,
        first_zombie(ts, children, target, 0) matches Some(k) ==> {
            &&& 0 <= k < ts.len()
            &&& ts[k].state == TaskState::Zombie
            &&& children.contains(ts[k].pid)
            &&& target > 0 ==> ts[k].pid == target as int % 0x1_0000_0000
        },
{
    assert forall|k: int, c: int|
        0 <= k < ts.len() && 0 <= c < children.len() && (#[trigger] ts[k]).pid
            == #[trigger] children[c] && ts[k].state == TaskState::Zombie && (target <= 0 || ts[k].pid
            == target as int % 0x1_0000_0000) implies first_zombie(ts, children, target, 0) is Some by {
        law_ended_child_is_collected(ts, children, target, 0, k, c);
    }
    if let Some(k) = first_zombie(ts, children, target, 0) {
        law_collected_child_has_ended(ts, children, target, 0, k);
    }
}

/// Find the first child that is a zombie of those waited for.
fn scan_children(table: &TaskTable, at: usize, target: i64) -> (r: Option<usize>)
    requires
        table.wf(),
        at < table.tasks@.len(),
        family(table.tasks@, table.tasks@[at as int].children@),
    ensures
        match (r, first_zombie(table.tasks@, table.tasks@[at as int].children@, target, 0)) {
            (Some(i), Some(j)) => i == j && i < table.tasks@.len() && waited_for(
                table.tasks@[i as int],
                target,
            ),
            (None, None) => true,
            _ => false,
        },
        forall|k: int, c: int|
            0 <= k < table.tasks@.len() && 0 <= c < table.tasks@[at as int].children@.len()
                && (#[trigger] table.tasks@[k]).pid == #[trigger] table.tasks@[at as int].children@[c]
                    && table.tasks@[k].state == TaskState::Zombie && (target <= 0
                    || table.tasks@[k].pid == target as int % 0x1_0000_0000) ==> r is Some,
        r matches Some(k) ==> k < table.tasks@.len()
            && table.tasks@[k as int].state == TaskState::Zombie
            && table.tasks@[at as int].children@.contains(table.tasks@[k as int].pid)
            && (target > 0 ==> table.tasks@[k as int].pid == target as int % 0x1_0000_0000),
{
    proof {
        lemma_scan(table.tasks@, table.tasks@[at as int].children@, target);
    }
    let ghost ts = table.tasks@;
    let ghost cs = ts[at as int].children@;
    let children = &table.tasks[at].children;
    let mut i: usize = 0;
    while i < children.len()
        invariant
            table.wf(),
            ts == table.tasks@,
            at < ts.len(),
            cs == ts[at as int].children@,
            cs == children@,
            i <= cs.len(),
            family(ts, cs),
            first_zombie(ts, cs, target, 0) == first_zombie(ts, cs, target, i as int),
            first_zombie(ts, cs, target, 0) matches Some(k) ==> 0 <= k < ts.len() && ts[k].state
                == TaskState::Zombie && cs.contains(ts[k].pid) && (target > 0 ==> ts[k].pid
                == target as int % 0x1_0000_0000),
        decreases cs.len() - i,
    {
        assert(exists_task(ts, cs[i as int]));
        if let Some(c) = table.find(children[i]) {
            let child = &table.tasks[c];
            if child.state() == TaskState::Zombie {
                if !(target > 0 && child.pid as i64 != target % 0x1_0000_0000) {
                    return Some(c);
                }
            }
        }
        i += 1;
    }
    None
}

/// What asking for the end of a child came to.
#[derive(Debug, Clone, Copy, PartialEq, Eq)]
pub enum WaitPoll {
    /// The number of the child and its status; nothing where there is no child, or where a
    /// signal came first.
    Ready(Option<(u32, i32)>),
    Pending,
}

/// Ask whether a child of the process at `at` has ended.  Where it has not, `waker` is kept,
/// to be called when one does.
pub fn poll_wait_child(table: &mut TaskTable, at: usize, target_pid: i64, waker: u64) -> (r: WaitPoll)
    requires
        old(table).wf(),
        at < old(table).tasks@.len(),
        family(old(table).tasks@, old(table).tasks@[at as int].children@),
    ensures
        final(table).wf(),
        final(table).registry == old(table).registry,
        ({
            let ts = old(table).tasks@;
            let now = final(table).tasks@;
            let p = ts[at as int];
            let z = first_zombie(ts, p.children@, target_pid, 0);
            let interrupted = exists|s: u8|
                1 <= s <= 64 && #[trigger] p.signals.deliverable(s) && p.signals.acts(s);
            &&& now == ts.update(at as int, now[at as int])
            &&& now[at as int] == (Task {
                parent_waker: if r == WaitPoll::Pending {
                    Some(waker)
                } else {
                    None
                },
                children: now[at as int].children,
                ..p
            })
            &&& match z {
                Some(i) => {
                    &&& r == WaitPoll::Ready(Some((ts[i].pid, ts[i].exit_status)))
                    &&& now[at as int].children@ == without(p.children@, ts[i].pid)
                },
                None => {
                    &&& r == if p.children@.len() == 0 || interrupted {
                        WaitPoll::Ready(None)
                    } else {
                        WaitPoll::Pending
                    }
                    &&& now[at as int].children@ == p.children@
                },
            }
        }),
        forall|k: int, c: int|
            0 <= k < old(table).tasks@.len()
                && 0 <= c < old(table).tasks@[at as int].children@.len()
                && (#[trigger] old(table).tasks@[k]).pid == #[trigger] old(table).tasks@[at as int].children@[c]
                    && old(table).tasks@[k].state == TaskState::Zombie && (target_pid <= 0
                    || old(table).tasks@[k].pid == target_pid as int % 0x1_0000_0000) ==> r is Ready
                    && r->Ready_0 is Some,
        r matches WaitPoll::Ready(Some((n, status))) ==> exists|k: int|
            0 <= k < old(table).tasks@.len() && (#[trigger] old(table).tasks@[k]).pid == n
                && old(table).tasks@[k].exit_status == status
                && old(table).tasks@[k].state == TaskState::Zombie
                && old(table).tasks@[at as int].children@.contains(n) && (target_pid > 0
                ==> n == target_pid as int % 0x1_0000_0000),
        r matches WaitPoll::Ready(Some((n, status))) ==> forall|x: u32| #[trigger]
            final(table).tasks@[at as int].children@.contains(x)
                <==> old(table).tasks@[at as int].children@.contains(x) && x != n,
{
    let ghost ts = table.tasks@;
    proof {
        lemma_scan(ts, ts[at as int].children@, target_pid);
        if let Some(k) = first_zombie(ts, ts[at as int].children@, target_pid, 0) {
            lemma_without(ts[at as int].children@, ts[k].pid);
        }
    }
    assert(ts[at as int].wf());
    if table.tasks[at].children.len() == 0 {
        table.tasks[at].parent_waker = None;
        assert(table.tasks@ =~= ts.update(at as int, table.tasks@[at as int]));
        proof {
            lemma_same_pids(ts, table.tasks@, at as int);
        }
        return WaitPoll::Ready(None);
    }
    if let Some(c) = scan_children(table, at, target_pid) {
        let pid = table.tasks[c].pid;
        let status = table.tasks[c].exit_status;
        table.tasks[at].children = retain_others(&table.tasks[at].children, pid);
        table.tasks[at].parent_waker = None;
        assert(table.tasks@ =~= ts.update(at as int, table.tasks@[at as int]));
        proof {
            lemma_same_pids(ts, table.tasks@, at as int);
        }
        return WaitPoll::Ready(Some((pid, status)));
    }
    if table.tasks[at].signals.has_actionable_pending() {
        table.tasks[at].parent_waker = None;
        assert(table.tasks@ =~= ts.update(at as int, table.tasks@[at as int]));
        proof {
            lemma_same_pids(ts, table.tasks@, at as int);
        }
        return WaitPoll::Ready(None);
    }
    table.tasks[at].parent_waker = Some(waker);
    assert(table.tasks@ =~= ts.update(at as int, table.tasks@[at as int]));
    proof {
        lemma_same_pids(ts, table.tasks@, at as int);
    }
    WaitPoll::Pending
}

/// Changing one process without its number keeps the table in order.
pub proof fn lemma_same_pids(ts: Seq<Task>, now: Seq<Task>, at: int)
    requires
        0 <= at < ts.len(),
        now == ts.update(at, now[at]),
        now[at].pid == ts[at].pid,
        now[at].wf(),
        forall|i: int, j: int|
            0 <= i < j < ts.len() ==> (#[trigger] ts[i]).pid != (#[trigger] ts[j]).pid,
        forall|i: int| 0 <= i < ts.len() ==> (#[trigger] ts[i]).wf(),
    ensures
        forall|i: int, j: int|
            0 <= i < j < now.len() ==> (#[trigger] now[i]).pid != (#[trigger] now[j]).pid,
        forall|i: int| 0 <= i < now.len() ==> (#[trigger] now[i]).wf(),
{
    assert forall|i: int| 0 <= i < now.len() implies (#[trigger] now[i]).pid == ts[i].pid
        && now[i].wf() by {}
}

/// What is left of a list without a number.
pub proof fn lemma_without(s: Seq<u32>, pid: u32)
    ensures
        forall|x: u32| #[trigger] without(s, pid).contains(x) <==> s.contains(x) && x != pid,
{
    assert forall|x: u32| #[trigger] without(s, pid).contains(x) <==> s.contains(x) && x != pid by {
        law_without(s, pid, x);
    }
}

/// The process without a pending signal from its children.
pub open spec fn sigchld_consumed(t: Task) -> Task {
    Task {
        signals: SignalState {
            pending: AtomicSigSet(
                SigSet(t.signals.pending.0.0 & !(0u64 | (1u64 << ((SIGCHLD - 1) as u64)))),
            ),
            ..t.signals
        },
        ..t
    }
}

/// The signal that told of a child has done its work.
fn consume_sigchld(t: &mut Task)
    ensures
        *final(t) == sigchld_consumed(*old(t)),
{
    let mut sig_chld = SigSet::empty();
    sig_chld.add(Signal::new_unchecked(SIGCHLD));
    let _ = t.signals.pending.fetch_difference(sig_chld);
}

/// Look for a child that has ended, without waiting.  The error is that there is no child.
pub fn wait_nohang(table: &mut TaskTable, at: usize, target_pid: i64) -> (r: Result<
    Option<(u32, i32)>,
    Errno,
>)
    requires
        old(table).wf(),
        at < old(table).tasks@.len(),
        family(old(table).tasks@, old(table).tasks@[at as int].children@),
    ensures
        final(table).wf(),
        final(table).registry == old(table).registry,
        ({
            let ts = old(table).tasks@;
            let now = final(table).tasks@;
            let p = ts[at as int];
            match first_zombie(ts, p.children@, target_pid, 0) {
                Some(i) => {
                    &&& r == Ok::<Option<(u32, i32)>, Errno>(Some((ts[i].pid, ts[i].exit_status)))
                    &&& now == ts.update(at as int, now[at as int])
                    &&& now[at as int] == (Task {
                        children: now[at as int].children,
                        ..sigchld_consumed(p)
                    })
                    &&& now[at as int].children@ == without(p.children@, ts[i].pid)
                },
                None => {
                    &&& r == if p.children@.len() == 0 {
                        Err::<Option<(u32, i32)>, Errno>(Errno::Echild)
                    } else {
                        Ok(None)
                    }
                    &&& now == ts
                },
            }
        }),
        forall|k: int, c: int|
            0 <= k < old(table).tasks@.len()
                && 0 <= c < old(table).tasks@[at as int].children@.len()
                && (#[trigger] old(table).tasks@[k]).pid == #[trigger] old(table).tasks@[at as int].children@[c]
                    && old(table).tasks@[k].state == TaskState::Zombie && (target_pid <= 0
                    || old(table).tasks@[k].pid == target_pid as int % 0x1_0000_0000) ==> r is Ok
                    && r->Ok_0 is Some,
        r matches Ok(Some((n, status))) ==> exists|k: int|
            0 <= k < old(table).tasks@.len() && (#[trigger] old(table).tasks@[k]).pid == n
                && old(table).tasks@[k].exit_status == status
                && old(table).tasks@[k].state == TaskState::Zombie
                && old(table).tasks@[at as int].children@.contains(n) && (target_pid > 0
                ==> n == target_pid as int % 0x1_0000_0000),
        r matches Ok(Some((n, status))) ==> forall|x: u32| #[trigger]
            final(table).tasks@[at as int].children@.contains(x)
                <==> old(table).tasks@[at as int].children@.contains(x) && x != n,
{
    let ghost ts = table.tasks@;
    proof {
        lemma_scan(ts, ts[at as int].children@, target_pid);
        if let Some(k) = first_zombie(ts, ts[at as int].children@, target_pid, 0) {
            lemma_without(ts[at as int].children@, ts[k].pid);
        }
    }
    assert(ts[at as int].wf());
    if table.tasks[at].children.len() == 0 {
        return Err(Errno::Echild);
    }
    match scan_children(table, at, target_pid) {
        None => Ok(None),
        Some(c) => {
            let pid = table.tasks[c].pid;
            let status = table.tasks[c].exit_status;
            table.tasks[at].children = retain_others(&table.tasks[at].children, pid);
            consume_sigchld(&mut table.tasks[at]);
            assert(table.tasks@ =~= ts.update(at as int, table.tasks@[at as int]));
            proof {
                lemma_same_pids(ts, table.tasks@, at as int);
            }
            Ok(Some((pid, status)))
        },
    }
}

/// What a wait that has come to its end returns.  The error is an interruption by a signal,
/// or that there is no child.
pub fn wait_result(task: &mut Task, result: Option<(u32, i32)>) -> (r: Result<(u32, i32), Errno>)
    requires
        old(task).wf(),
    ensures
        match result {
            Some(x) => r == Ok::<(u32, i32), Errno>(x) && *final(task) == sigchld_consumed(
                *old(task),
            ),
            None => {
                &&& *final(task) == *old(task)
                &&& r == if exists|s: u8|
                    1 <= s <= 64 && #[trigger] old(task).signals.deliverable(s)
                        && old(task).signals.acts(s) {
                    Err::<(u32, i32), Errno>(Errno::Eintr)
                } else {
                    Err(Errno::Echild)
                }
            },
        },
{
    match result {
        Some(x) => {
            consume_sigchld(task);
            Ok(x)
        },
        None => {
            if task.signals.has_actionable_pending() {
                Err(Errno::Eintr)
            } else {
                Err(Errno::Echild)
            }
        },
    }
}

/// A child that has ended can be waited for by its number, and then no longer is a child.
pub proof fn law_zombie_is_found(
    ts: Seq<Task>,
    children: Seq<u32>,
    i: int,
    c: int,
)
    requires
        family(ts, children),
        0 <= i <= c < children.len(),
        ts[place(ts, children[c])].state == TaskState::Zombie,
        children[c] > 0,
        forall|j: int|
            i <= j < c ==> ts[place(ts, #[trigger] children[j])].pid != children[c]
                || ts[place(ts, children[j])].state != TaskState::Zombie,
    ensures
        first_zombie(ts, children, children[c] as i64, i) == Some(place(ts, children[c])),
        !without(children, children[c]).contains(children[c]),
    decreases c - i,
{
    assert(exists_task(ts, children[c]));
    assert(is_task(ts, place(ts, children[c]), children[c]));
    law_without(children, children[c], children[c]);
    if i < c {
        assert(exists_task(ts, children[i]));
        assert(is_task(ts, place(ts, children[i]), children[i]));
        law_zombie_is_found(ts, children, i + 1, c);
    }
}

/// A parent that waits is woken by the end of each of its children.
pub proof fn law_exit_wakes_parent(
    before: &TaskTable,
    after: &TaskTable,
    i: int,
    k: int,
    status: i32,
    reap: bool,
    wakers: Seq<u64>,
    w: u64,
)
    requires
        ended(before, after, i, status, reap, wakers),
        living_parent(before.tasks@, before.tasks@[i]) == Some(k),
        before.tasks@[k].parent_waker == Some(w),
    ensures
        wakers.contains(w),
        after.tasks@[i].state == TaskState::Zombie,
        after.tasks@[i].exit_status == status,
{
    assert(wakers[0] == w);
}

/// Once a child was collected the signal that told of it is no longer pending; every other still is.
pub proof fn law_collecting_clears_the_news(t: Task, n: u64)
    requires
        n < 64,
    ensures
        ({
            let now = sigchld_consumed(t);
            (now.signals.pending.0.0 >> n) & 1 == 1 <==> (t.signals.pending.0.0 >> n) & 1 == 1 && n != 16
        }),
        sigchld_consumed(t).signals.blocked == t.signals.blocked,
        sigchld_consumed(t).signals.actions == t.signals.actions,
        sigchld_consumed(t).children == t.children,
        sigchld_consumed(t).pid == t.pid,
{
    let b = t.signals.pending.0.0;
    assert(((b & !(0u64 | (1u64 << 16))) >> n) & 1 == 1 <==> (b >> n) & 1 == 1 && n != 16) by (bit_vector)
        requires
            n < 64,
    ;
}

} // verus!
