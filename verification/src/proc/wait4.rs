//! The system call that waits for children.
use vstd::prelude::*;
use crate::hal::errno::Errno;
use crate::proc::exit_wait::{
    family, first_zombie, lemma_same_pids, poll_wait_child, sigchld_consumed, wait_nohang,
    wait_result, WaitPoll,
};
use crate::proc::task::{without, Task, TaskState, TaskTable};

verus! {

/// Do not wait.
pub const WNOHANG: u64 = 1;

/// What is to be done for the call.
#[derive(Debug, Clone, Copy, PartialEq, Eq)]
pub enum Wait4Step {
    /// It returns.
    Done(Result<u32, Errno>),
    /// The child has ended with this status, which is to be copied out.
    Copy { pid: u32, status: i32 },
    /// Sleep until a child ends or a signal comes, and look again.
    Sleep,
}

/// Whether the call asks not to wait.
pub open spec fn nohang(options: u64) -> bool {
    options % 2 == 1
}

/// The process at `at` once its child at `i` was collected.
pub open spec fn collected(ts: Seq<Task>, now: Seq<Task>, at: int, i: int) -> bool {
    let p = ts[at];
    &&& now == ts.update(at, now[at])
    &&& now[at].children@ == without(p.children@, ts[i].pid)
}

/// Start the call: it ends at once where there is no child, or where it may not wait.
pub fn sys_wait4(table: &mut TaskTable, at: usize, pid: i64, options: u64) -> (r: Wait4Step)
    requires
        old(table).wf(),
        at < old(table).tasks@.len(),
        family(old(table).tasks@, old(table).tasks@[at as int].children@),
    ensures
        final(table).wf(),
        final(table).registry == old(table).registry,
        ({
            let ts = old(table).tasks@;
            let now = final(table).tasks@;
            let p = ts[at as int];
            if p.children@.len() == 0 {
                &&& r == Wait4Step::Done(Err(Errno::Echild))
                &&& now == ts
            } else if !nohang(options) {
                &&& r == Wait4Step::Sleep
                &&& now == ts
            } else {
                match first_zombie(ts, p.children@, pid, 0) {
                    Some(i) => {
                        &&& r == (Wait4Step::Copy { pid: ts[i].pid, status: ts[i].exit_status })
                        &&& collected(ts, now, at as int, i)
                        &&& now[at as int] == (Task {
                            children: now[at as int].children,
                            ..sigchld_consumed(p)
                        })
                    },
                    None => {
                        &&& r == Wait4Step::Done(Ok(0))
                        &&& now == ts
                    },
                }
            }
        }),
        forall|k: int, c: int|
            0 <= k < old(table).tasks@.len()
                && 0 <= c < old(table).tasks@[at as int].children@.len()
                && (#[trigger] old(table).tasks@[k]).pid == #[trigger] old(table).tasks@[at as int].children@[c]
                    && old(table).tasks@[k].state == TaskState::Zombie && (pid <= 0
                    || old(table).tasks@[k].pid == pid as int % 0x1_0000_0000) ==> (r is Copy
                    || options % 2 == 0),
        r matches Wait4Step::Copy { pid: n, status } ==> exists|k: int|
            0 <= k < old(table).tasks@.len() && (#[trigger] old(table).tasks@[k]).pid == n
                && old(table).tasks@[k].exit_status == status
                && old(table).tasks@[k].state == TaskState::Zombie
                && old(table).tasks@[at as int].children@.contains(n) && (pid > 0
                ==> n == pid as int % 0x1_0000_0000),
        r matches Wait4Step::Copy { pid: n, status } ==> forall|x: u32| #[trigger]
            final(table).tasks@[at as int].children@.contains(x)
                <==> old(table).tasks@[at as int].children@.contains(x) && x != n,
{
    if table.tasks[at].children.len() == 0 {
        return Wait4Step::Done(Err(Errno::Echild));
    }
    if options % 2 == 0 {
        return Wait4Step::Sleep;
    }
    match wait_nohang(table, at, pid) {
        Err(e) => Wait4Step::Done(Err(e)),
        Ok(None) => Wait4Step::Done(Ok(0)),
        Ok(Some((pid, status))) => Wait4Step::Copy { pid, status },
    }
}

/// Look again: a child that has ended is collected; without one the call ends where a signal
/// came or where no child is left.
pub fn wait4_poll(table: &mut TaskTable, at: usize, pid: i64, waker: u64) -> (r: Wait4Step)
    requires
        old(table).wf(),
        at < old(table).tasks@.len(),
        family(old(table).tasks@, old(table).tasks@[at as int].children@),
    ensures
        final(table).wf(),
        final(table).registry == old(table).registry,
        ({
            let ts = old(table).tasks@;
            let now = final(table).tasks@;
            let p = ts[at as int];
            let interrupted = exists|s: u8|
                1 <= s <= 64 && #[trigger] p.signals.deliverable(s) && p.signals.acts(s);
            match first_zombie(ts, p.children@, pid, 0) {
                Some(i) => {
                    &&& r == (Wait4Step::Copy { pid: ts[i].pid, status: ts[i].exit_status })
                    &&& collected(ts, now, at as int, i)
                    &&& now[at as int] == (Task {
                        parent_waker: None,
                        children: now[at as int].children,
                        ..sigchld_consumed(p)
                    })
                },
                None => {
                    &&& r == if interrupted {
                        Wait4Step::Done(Err(Errno::Eintr))
                    } else if p.children@.len() == 0 {
                        Wait4Step::Done(Err(Errno::Echild))
                    } else {
                        Wait4Step::Sleep
                    }
                    &&& now == ts.update(at as int, now[at as int])
                    &&& now[at as int] == (Task {
                        parent_waker: if r is Sleep {
                            Some(waker)
                        } else {
                            None
                        },
                        children: now[at as int].children,
                        ..p
                    })
                    &&& now[at as int].children@ == p.children@
                },
            }
        }),
        forall|k: int, c: int|
            0 <= k < old(table).tasks@.len()
                && 0 <= c < old(table).tasks@[at as int].children@.len()
                && (#[trigger] old(table).tasks@[k]).pid == #[trigger] old(table).tasks@[at as int].children@[c]
                    && old(table).tasks@[k].state == TaskState::Zombie && (pid <= 0
                    || old(table).tasks@[k].pid == pid as int % 0x1_0000_0000) ==> r is Copy,
        r matches Wait4Step::Copy { pid: n, status } ==> exists|k: int|
            0 <= k < old(table).tasks@.len() && (#[trigger] old(table).tasks@[k]).pid == n
                && old(table).tasks@[k].exit_status == status
                && old(table).tasks@[k].state == TaskState::Zombie
                && old(table).tasks@[at as int].children@.contains(n) && (pid > 0
                ==> n == pid as int % 0x1_0000_0000),
        r matches Wait4Step::Copy { pid: n, status } ==> forall|x: u32| #[trigger]
            final(table).tasks@[at as int].children@.contains(x)
                <==> old(table).tasks@[at as int].children@.contains(x) && x != n,
{
    let ghost ts = table.tasks@;
    let ghost p = ts[at as int];
    match poll_wait_child(table, at, pid, waker) {
        WaitPoll::Pending => Wait4Step::Sleep,
        WaitPoll::Ready(result) => {
            let ghost mid = table.tasks@;
            assert(mid[at as int].wf());
            let ended = wait_result(&mut table.tasks[at], result);
            proof {
                let now = table.tasks@;
                assert(now =~= mid.update(at as int, now[at as int]));
                assert(now =~= ts.update(at as int, now[at as int]));
                lemma_same_pids(mid, now, at as int);
                assert forall|s: u8| #[trigger]
                    mid[at as int].signals.deliverable(s) == p.signals.deliverable(s) by {}
            }
            match ended {
                Err(e) => Wait4Step::Done(Err(e)),
                Ok((pid, status)) => Wait4Step::Copy { pid, status },
            }
        },
    }
}

/// What the call returns once the status was copied out, where that was asked for.
pub fn wait4_copied(pid: u32, copied: Option<bool>) -> (r: Result<u32, Errno>)
    ensures
        r == if copied == Some(false) {
            Err::<u32, Errno>(Errno::Efault)
        } else {
            Ok(pid)
        },
{
    match copied {
        Some(false) => Err(Errno::Efault),
        _ => Ok(pid),
    }
}

/// The lowest bit of the options asks not to wait.
pub proof fn law_lowest_option_asks_not_to_wait(options: u64)
    ensures
        nohang(options) <==> options as int % 2 == 1,
        !nohang(0),
        nohang(WNOHANG),
{
}

} // verus!
