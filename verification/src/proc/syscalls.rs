//! System calls on processes and signals.
//!
//! What goes to and comes from user memory is copied by the caller; whether that worked is
//! an argument.
use vstd::prelude::*;
use crate::hal::errno::Errno;
use crate::hal::trap::TrapFrame;
use crate::proc::exit_wait::{do_exit, ended, family, WaitStatus};
use crate::proc::signal::{
    bit, law_status_is_for_user_mode, legit, planned, user_status, SigAction, SigFrame, SigSet, Signal, SignalState,
    MAX_SIG, SIGKILL, SIGSTOP,
};
use crate::proc::task::{
    exists_task, find_task_by_pid, has_pid, is_task, kill_pgrp, law_signalled_sleeper_is_woken, notify, place, post_to, ppid, with_signal,
    woken, Audience, Task, TaskState, TaskTable,
};

verus! {

pub fn sys_getpid(task: &Task) -> (r: u64)
    ensures
        r == task.pid,
{
    task.pid as u64
}

pub fn sys_getppid(table: &TaskTable, task: &Task) -> (r: u64)
    requires
        table.wf(),
    ensures
        r == match task.parent {
            Some(p) => if exists_task(table.tasks@, p) {
                p
            } else {
                0
            },
            None => 0,
        },
{
    ppid(table, task) as u64
}

/// Every process belongs to the superuser.
pub fn sys_getuid(_task: &Task) -> (r: u64)
    ensures
        r == 0,
{
    0
}

pub fn sys_geteuid(_task: &Task) -> (r: u64)
    ensures
        r == 0,
{
    0
}

pub fn sys_getgid(_task: &Task) -> (r: u64)
    ensures
        r == 0,
{
    0
}

pub fn sys_getegid(_task: &Task) -> (r: u64)
    ensures
        r == 0,
{
    0
}

pub fn sys_gettid(task: &Task) -> (r: u64)
    ensures
        r == task.pid,
{
    task.pid as u64
}

/// End a process with an exit code.  Returns the wakers to call.
pub fn sys_exit(table: &mut TaskTable, pid: u32, status: i32) -> (r: Vec<u64>)
    requires
        old(table).wf(),
        exists_task(old(table).tasks@, pid),
        old(table).tasks@[place(old(table).tasks@, pid)].parent != Some(pid),
    ensures
        final(table).wf(),
        ended(
            old(table),
            final(table),
            place(old(table).tasks@, pid),
            ((status as int % 256) * 256) as i32,
            true,
            r@,
        ),
        forall|i: int|
            0 <= i < old(table).tasks@.len() && (#[trigger] old(table).tasks@[i]).pid == pid
                ==> final(table).tasks@[i].state == TaskState::Zombie
                && final(table).tasks@[i].exit_status == (status as int % 256) * 256,
        forall|i: int, k: int|
            0 <= i < old(table).tasks@.len() && 0 <= k < old(table).tasks@.len()
                && (#[trigger] old(table).tasks@[i]).pid == pid
                && old(table).tasks@[i].parent == Some((#[trigger] old(table).tasks@[k]).pid)
                ==> (final(table).tasks@[k].signals.pending.0.0 >> 16) & 1 == 1
                && (old(table).tasks@[k].parent_waker matches Some(w) ==> r@.contains(w)),
{
    do_exit(table, pid, WaitStatus::exited(status))
}

/// User programs lie below this address.
pub const USER_MAX_VA: u64 = 0x0000_0040_0000_0000;

/// Go back to where a signal interrupted the process.  `frame` is the frame copied in from
/// the user stack, where that worked.
pub fn sys_sigreturn(tf: &mut TrapFrame, state: &mut SignalState, frame: Option<&SigFrame>) -> (r:
    Result<(), Errno>)
    ensures
        final(state).actions == old(state).actions,
        final(state).pending == old(state).pending,
        final(state).altstack == old(state).altstack,
        r == match frame {
            None => Err::<(), Errno>(Errno::Efault),
            Some(f) => if f.saved_tf.sepc >= USER_MAX_VA {
                Err(Errno::Einval)
            } else {
                Ok(())
            },
        },
        r is Err ==> *final(tf) == *old(tf) && final(state).blocked == old(state).blocked,
        r is Ok ==> restored(*(frame->0), *final(tf), final(state)),
        r == Err::<(), Errno>(Errno::Einval) <==> frame is Some && (frame->0).saved_tf.sepc >= 0x40_0000_0000,
        r is Ok ==> final(tf).x == (frame->0).saved_tf.x
            && final(tf).sepc == (frame->0).saved_tf.sepc
            && final(state).blocked.0.0 == (frame->0).saved_mask && final(tf).sstatus & 256 == 0
            && final(tf).sstatus & 32 == 32 && final(tf).sstatus & 0x6000 != 0,
{
    proof {
        if let Some(f) = frame {
            law_status_is_for_user_mode(f.saved_tf.sstatus);
        }
    }
    let frame = match frame {
        None => {
            return Err(Errno::Efault);
        },
        Some(f) => f,
    };
    if frame.saved_tf.sepc >= USER_MAX_VA {
        return Err(Errno::Einval);
    }
    tf.x = frame.saved_tf.x;
    tf.sepc = frame.saved_tf.sepc;
    tf.sstatus = (frame.saved_tf.sstatus & !256u64) | 32;
    if tf.sstatus & 0x6000 == 0 {
        tf.sstatus = tf.sstatus | 0x2000;
    }
    state.blocked.store(SigSet::from_u64(frame.saved_mask));
    Ok(())
}

/// Registers and signals as the frame says.
pub open spec fn restored(f: SigFrame, tf: TrapFrame, state: &SignalState) -> bool {
    &&& tf.x == f.saved_tf.x
    &&& tf.sepc == f.saved_tf.sepc
    &&& tf.sstatus == user_status(f.saved_tf.sstatus)
    &&& state.blocked.0.0 == f.saved_mask
}

/// A return from a handler, with the frame that was made for its call, leaves the registers,
/// the place and the blocked signals as they were before the call.
pub proof fn law_sigreturn_undoes_sendsig(
    tf: TrapFrame,
    state: &SignalState,
    frame: SigFrame,
    tf_after: TrapFrame,
    state_after: &SignalState,
)
    requires
        planned(tf, state, frame),
        restored(frame, tf_after, state_after),
    ensures
        tf_after.x == tf.x,
        tf_after.sepc == tf.sepc,
        tf_after.sstatus == user_status(tf.sstatus),
        state_after.blocked.0 == state.blocked.0,
{
}

/// Whether the action for a signal can be changed.
pub open spec fn settable(sig: u64) -> bool {
    1 <= sig <= 64 && sig != SIGKILL && sig != SIGSTOP
}

/// Set the action for a signal.  `old_copied` says whether the old action could be copied
/// out, where that was asked for; `act` is the new action copied in, where there is one and
/// that worked.
pub fn sys_sigaction(
    state: &mut SignalState,
    sig: u64,
    old_copied: Option<bool>,
    act: Option<Option<[u64; 4]>>,
) -> (r: Result<u64, Errno>)
    requires
        old(state).wf(),
    ensures
        final(state).wf(),
        final(state).pending == old(state).pending,
        final(state).blocked == old(state).blocked,
        final(state).altstack == old(state).altstack,
        r == if !settable(sig) {
            Err::<u64, Errno>(Errno::Einval)
        } else if old_copied == Some(false) || act == Some(None::<[u64; 4]>) {
            Err(Errno::Efault)
        } else {
            Ok(0)
        },
        final(state).actions@ == match (r, act) {
            (Ok(_), Some(Some(a))) => old(state).actions@.update(
                sig - 1,
                SigAction { handler: a@[0], flags: a@[1], restorer: a@[2], mask: a@[3] },
            ),
            _ => old(state).actions@,
        },
        r == Err::<u64, Errno>(Errno::Einval) <==> sig < 1 || sig > 64 || sig == 9 || sig == 19,
        forall|n: int|
            0 <= n < 64 && n != sig - 1 ==> #[trigger] final(state).actions@[n] == old(state).actions@[n],
        r is Ok ==> (act matches Some(Some(a)) ==> final(state).actions@[sig - 1].handler == a@[0]
            && final(state).actions@[sig - 1].flags == a@[1]
            && final(state).actions@[sig - 1].mask == a@[3]),
        r is Err || act is None ==> final(state).actions@ == old(state).actions@,
{
    if sig < 1 || sig > MAX_SIG as u64 {
        return Err(Errno::Einval);
    }
    if sig == SIGKILL as u64 || sig == SIGSTOP as u64 {
        return Err(Errno::Einval);
    }
    if let Some(copied) = old_copied {
        if !copied {
            return Err(Errno::Efault);
        }
    }
    if let Some(a) = act {
        match a {
            None => {
                return Err(Errno::Efault);
            },
            Some(buf) => {
                let action = SigAction {
                    handler: buf[0],
                    flags: buf[1],
                    restorer: buf[2],
                    mask: buf[3],
                };
                state.actions[sig as usize - 1] = action;
            },
        }
    }
    Ok(0)
}

/// Add signals to the blocked ones.
pub const SIG_BLOCK: u64 = 0;

/// Take signals out of the blocked ones.
pub const SIG_UNBLOCK: u64 = 1;

/// Set the blocked signals.
pub const SIG_SETMASK: u64 = 2;

/// Whether a signal is blocked after the change.
pub open spec fn blocked_after(before: bool, given: bool, how: u64, sig: u8) -> bool {
    let asked = given && sig != SIGKILL && sig != SIGSTOP;
    if how == SIG_BLOCK {
        before || asked
    } else if how == SIG_UNBLOCK {
        before && !asked
    } else {
        asked
    }
}

/// Change the blocked signals.  `old_copied` says whether the old ones could be copied out,
/// where that was asked for; `set` is the new set copied in, where there is one and that
/// worked.
pub fn sys_sigprocmask(
    state: &mut SignalState,
    how: u64,
    old_copied: Option<bool>,
    set: Option<Option<u64>>,
) -> (r: Result<u64, Errno>)
    ensures
        final(state).actions == old(state).actions,
        final(state).pending == old(state).pending,
        final(state).altstack == old(state).altstack,
        r == if old_copied == Some(false) || set == Some(None::<u64>) {
            Err::<u64, Errno>(Errno::Efault)
        } else if set is Some && how > SIG_SETMASK {
            Err(Errno::Einval)
        } else {
            Ok(0)
        },
        r is Err || set is None ==> final(state).blocked == old(state).blocked,
        r is Ok ==> (set matches Some(Some(bits)) ==> forall|s: u8|
            legit(s) ==> #[trigger] final(state).blocked.0.has(s) == blocked_after(
                old(state).blocked.0.has(s),
                bit(bits, (s - 1) as u64),
                how,
                s,
            )),
        r is Ok ==> (set matches Some(Some(bits)) ==> how <= 2 && forall|n: u64|
            n < 64 ==> {
                let now = #[trigger] (final(state).blocked.0.0 >> n) & 1 == 1;
                let before = (old(state).blocked.0.0 >> n) & 1 == 1;
                let asked = (bits >> n) & 1 == 1 && n != 8 && n != 18;
                &&& how == 0 ==> now == (before || asked)
                &&& how == 1 ==> now == (before && !asked)
                &&& how == 2 ==> now == asked
            }),
{
    if let Some(copied) = old_copied {
        if !copied {
            return Err(Errno::Efault);
        }
    }
    if let Some(given) = set {
        let bits = match given {
            None => {
                return Err(Errno::Efault);
            },
            Some(bits) => bits,
        };
        let mut unblockable = SigSet::empty();
        unblockable.add(Signal::new_unchecked(SIGKILL));
        unblockable.add(Signal::new_unchecked(SIGSTOP));
        let wanted = SigSet::from_u64(bits).difference(unblockable);
        if how == SIG_BLOCK {
            let _ = state.blocked.fetch_union(wanted);
        } else if how == SIG_UNBLOCK {
            let _ = state.blocked.fetch_difference(wanted);
        } else if how == SIG_SETMASK {
            state.blocked.store(wanted);
        } else {
            return Err(Errno::Einval);
        }
        proof {
            assert forall|n: u64| n < 64 implies ({
                let now = #[trigger] (state.blocked.0.0 >> n) & 1 == 1;
                let before = (old(state).blocked.0.0 >> n) & 1 == 1;
                let asked = (bits >> n) & 1 == 1 && n != 8 && n != 18;
                &&& how == 0 ==> now == (before || asked)
                &&& how == 1 ==> now == (before && !asked)
                &&& how == 2 ==> now == asked
            }) by {
                let s = (n + 1) as u8;
                assert(wanted.has(s) == (SigSet(bits).has(s) && !unblockable.has(s)));
                assert(state.blocked.0.has(s) == blocked_after(
                    old(state).blocked.0.has(s),
                    bit(bits, (s - 1) as u64),
                    how,
                    s,
                ));
            }
        }
    }
    Ok(0)
}

/// Send a signal: to one process, to the sender's group, to everyone, or to the group with
/// the number behind the minus sign.  Signal zero only asks whether the process is there.
/// Returns the wakers to call.
pub fn sys_kill(table: &mut TaskTable, sender: usize, pid: i64, sig: u8) -> (r: (
    Result<u64, Errno>,
    Vec<u64>,
))
    requires
        old(table).wf(),
        sender < old(table).tasks@.len(),
        pid > i64::MIN,
    ensures
        final(table).wf(),
        final(table).registry == old(table).registry,
        ({
            let ts = old(table).tasks@;
            let now = final(table).tasks@;
            let to = (pid as int % 0x1_0000_0000) as u32;
            let who = if pid == -1 {
                Audience::Everyone
            } else if pid == 0 {
                Audience::Group(ts[sender as int].pgid)
            } else {
                Audience::Group((-pid as int % 0x1_0000_0000) as u32)
            };
            &&& r.0 == if sig > 64 {
                Err::<u64, Errno>(Errno::Einval)
            } else if pid > 0 && !old(table).registered(to) {
                Err(Errno::Esrch)
            } else {
                Ok(0)
            }
            &&& now.len() == ts.len()
            &&& forall|i: int|
                0 <= i < ts.len() ==> #[trigger] now[i] == if r.0 is Ok && sig > 0 && (if pid > 0 {
                    ts[i].pid == to
                } else {
                    crate::proc::task::meant(ts[i], who) && old(table).registry@.contains(ts[i].pid)
                }) {
                    with_signal(ts[i], sig)
                } else {
                    ts[i]
                }
            &&& r.1@ == if r.0 is Err || sig == 0 {
                Seq::empty()
            } else if pid > 0 {
                match ts[place(ts, to)].top_level_waker {
                    Some(w) => seq![w],
                    None => Seq::empty(),
                }
            } else {
                woken(old(table), who, old(table).registry@.len() as int)
            }
        }),
        forall|i: int|
            0 <= i < old(table).tasks@.len() ==> {
                let t = #[trigger] old(table).tasks@[i];
                let now = final(table).tasks@[i];
                let hit = 1 <= sig <= 64 && old(table).registry@.contains(t.pid) && if pid > 0 {
                    t.pid == pid as int % 0x1_0000_0000
                } else if pid == 0 {
                    t.pgid == old(table).tasks@[sender as int].pgid
                } else if pid == -1 {
                    t.pid != 1
                } else {
                    t.pgid == -(pid as int) % 0x1_0000_0000
                };
                &&& hit ==> r.0 == Ok::<u64, Errno>(0)
                    && now.signals.pending.0.0 == (t.signals.pending.0.0 | (1u64 << ((sig - 1) as u64)))
                        && (t.top_level_waker matches Some(w) ==> r.1@.contains(w))
                        && now.pid == t.pid && now.state == t.state
                &&& !hit ==> now == t
            },
{
    let ghost first = *table;
    let r = send_signal(table, sender, pid, sig);
    proof {
        if pid <= 0 && 1 <= sig <= 64 {
            let who = if pid == -1 {
                Audience::Everyone
            } else if pid == 0 {
                Audience::Group(first.tasks@[sender as int].pgid)
            } else {
                Audience::Group((-pid as int % 0x1_0000_0000) as u32)
            };
            assert forall|i: int|
                0 <= i < first.tasks@.len() && (#[trigger] first.tasks@[i]).top_level_waker is Some
                    && first.registry@.contains(first.tasks@[i].pid) && (match who {
                    Audience::Group(g) => first.tasks@[i].pgid == g,
                    Audience::Everyone => first.tasks@[i].pid != 1,
                }) implies woken(&first, who, first.registry@.len() as int).contains(
                first.tasks@[i].top_level_waker->0,
            ) by {
                let g = first.registry@;
                let k = choose|k: int| 0 <= k < g.len() && g[k] == first.tasks@[i].pid;
                law_signalled_sleeper_is_woken(&first, who, g.len() as int, i, k);
            }
        }
        if pid > 0 {
            let to = (pid as int % 0x1_0000_0000) as u32;
            assert forall|i: int| 0 <= i < first.tasks@.len()
                && (#[trigger] first.tasks@[i]).pid == to implies i
                == place(first.tasks@, to) && exists_task(first.tasks@, to) by {
                assert(is_task(first.tasks@, i, to));
                assert(is_task(first.tasks@, place(first.tasks@, to), to));
            }
        }
        assert forall|i: int| 0 <= i < first.tasks@.len() implies ({
            let t = #[trigger] first.tasks@[i];
            1 <= sig <= 64 && pid > 0 && t.pid == pid as int % 0x1_0000_0000 && first.registry@.contains(
                t.pid,
            ) ==> first.registered(t.pid) && (t.top_level_waker matches Some(w) ==> r.1@.contains(w))
        }) by {
            let t = first.tasks@[i];
            if 1 <= sig <= 64 && pid > 0 && t.pid == pid as int % 0x1_0000_0000
                && first.registry@.contains(t.pid) {
                assert(is_task(first.tasks@, i, t.pid));
                assert(i == place(first.tasks@, t.pid));
                assert(r.0 is Ok);
                if let Some(w) = t.top_level_waker {
                    assert(r.1@ == seq![w]);
                    assert(r.1@[0] == w);
                }
            }
        }
    }
    r
}

/// Send a signal to those that are meant.
fn send_signal(table: &mut TaskTable, sender: usize, pid: i64, sig: u8) -> (r: (
    Result<u64, Errno>,
    Vec<u64>,
))
    requires
        old(table).wf(),
        sender < old(table).tasks@.len(),
        pid > i64::MIN,
    ensures
        final(table).wf(),
        final(table).registry == old(table).registry,
        ({
            let ts = old(table).tasks@;
            let now = final(table).tasks@;
            let to = (pid as int % 0x1_0000_0000) as u32;
            let who = if pid == -1 {
                Audience::Everyone
            } else if pid == 0 {
                Audience::Group(ts[sender as int].pgid)
            } else {
                Audience::Group((-pid as int % 0x1_0000_0000) as u32)
            };
            &&& r.0 == if sig > 64 {
                Err::<u64, Errno>(Errno::Einval)
            } else if pid > 0 && !old(table).registered(to) {
                Err(Errno::Esrch)
            } else {
                Ok(0)
            }
            &&& now.len() == ts.len()
            &&& forall|i: int|
                0 <= i < ts.len() ==> #[trigger] now[i] == if r.0 is Ok && sig > 0 && (if pid > 0 {
                    ts[i].pid == to
                } else {
                    crate::proc::task::meant(ts[i], who) && old(table).registry@.contains(ts[i].pid)
                }) {
                    with_signal(ts[i], sig)
                } else {
                    ts[i]
                }
            &&& r.1@ == if r.0 is Err || sig == 0 {
                Seq::empty()
            } else if pid > 0 {
                match ts[place(ts, to)].top_level_waker {
                    Some(w) => seq![w],
                    None => Seq::empty(),
                }
            } else {
                woken(old(table), who, old(table).registry@.len() as int)
            }
        }),
{
    if sig > MAX_SIG {
        return (Err(Errno::Einval), Vec::new());
    }
    let ghost ts = table.tasks@;
    if pid > 0 {
        let to: u32 = (pid % 0x1_0000_0000) as u32;
        match find_task_by_pid(table, to) {
            None => (Err(Errno::Esrch), Vec::new()),
            Some(i) => {
                let mut wakers: Vec<u64> = Vec::new();
                if sig > 0 {
                    if let Some(w) = notify(&mut table.tasks[i], sig) {
                        wakers.push(w);
                    }
                    proof {
                        let now = table.tasks@;
                        assert forall|j: int| 0 <= j < ts.len() implies (
                        #[trigger] now[j]).pid == ts[j].pid && now[j].wf() && now[j] == (
                        if ts[j].pid == to {
                            with_signal(ts[j], sig)
                        } else {
                            ts[j]
                        }) by {
                            assert(ts[j].wf());
                        }
                        assert(wakers@ =~= match ts[i as int].top_level_waker {
                            Some(w) => seq![w],
                            None => Seq::empty(),
                        });
                    }
                }
                (Ok(0), wakers)
            },
        }
    } else if pid == 0 {
        let pgid = table.tasks[sender].pgid;
        (Ok(0), kill_pgrp(table, pgid, sig))
    } else if pid == -1 {
        if sig > 0 {
            (Ok(0), post_to(table, Audience::Everyone, sig))
        } else {
            (Ok(0), Vec::new())
        }
    } else {
        let pgid: u32 = ((-pid) % 0x1_0000_0000) as u32;
        (Ok(0), kill_pgrp(table, pgid, sig))
    }
}

/// Put a process, or one of its children, into a process group.  Zero stands for the process
/// itself, and for a group of its own.
pub fn sys_setpgid(table: &mut TaskTable, at: usize, pid: u32, pgid: u32) -> (r: Result<u64, Errno>)
    requires
        old(table).wf(),
        at < old(table).tasks@.len(),
        family(old(table).tasks@, old(table).tasks@[at as int].children@),
    ensures
        final(table).wf(),
        final(table).registry == old(table).registry,
        ({
            let ts = old(table).tasks@;
            let me = ts[at as int];
            let target = if pid == 0 {
                me.pid
            } else {
                pid
            };
            let group = if pgid == 0 {
                target
            } else {
                pgid
            };
            let known = target == me.pid || me.children@.contains(target);
            &&& r == if known {
                Ok::<u64, Errno>(0)
            } else {
                Err(Errno::Esrch)
            }
            &&& final(table).tasks@.len() == ts.len()
            &&& forall|i: int|
                0 <= i < ts.len() ==> #[trigger] final(table).tasks@[i] == if known && ts[i].pid
                    == target {
                    Task { pgid: group, ..ts[i] }
                } else {
                    ts[i]
                }
        }),
{
    let ghost ts = table.tasks@;
    let me = table.tasks[at].pid;
    let target_pid = if pid == 0 {
        me
    } else {
        pid
    };
    let new_pgid = if pgid == 0 {
        target_pid
    } else {
        pgid
    };
    if target_pid != me && !has_pid(&table.tasks[at].children, target_pid) {
        return Err(Errno::Esrch);
    }
    proof {
        assert(exists_task(ts, target_pid)) by {
            if target_pid == me {
                assert(is_task(ts, at as int, me));
            } else {
                let cs = ts[at as int].children@;
                let j = choose|j: int| 0 <= j < cs.len() && cs[j] == target_pid;
                assert(exists_task(ts, cs[j]));
            }
        }
    }
    if let Some(i) = table.find(target_pid) {
        table.tasks[i].pgid = new_pgid;
        proof {
            let now = table.tasks@;
            assert forall|j: int| 0 <= j < ts.len() implies (#[trigger] now[j]).pid == ts[j].pid
                && now[j].wf() && now[j] == (if ts[j].pid == target_pid {
                Task { pgid: new_pgid, ..ts[j] }
            } else {
                ts[j]
            }) by {
                assert(ts[j].wf());
            }
        }
    }
    Ok(0)
}

/// The group of a process; zero stands for the process itself.
pub fn sys_getpgid(table: &TaskTable, at: usize, pid: u32) -> (r: Result<u64, Errno>)
    requires
        table.wf(),
        at < table.tasks@.len(),
    ensures
        r == if pid == 0 {
            Ok::<u64, Errno>(table.tasks@[at as int].pgid as u64)
        } else if table.registered(pid) {
            Ok(table.tasks@[place(table.tasks@, pid)].pgid as u64)
        } else {
            Err(Errno::Esrch)
        },
{
    if pid == 0 {
        Ok(table.tasks[at].pgid as u64)
    } else {
        match find_task_by_pid(table, pid) {
            Some(i) => Ok(table.tasks[i].pgid as u64),
            None => Err(Errno::Esrch),
        }
    }
}

/// The signals that kill and stop a process are never blocked by it.
pub proof fn law_kill_is_never_blocked(given: bool, how: u64, sig: u8)
    requires
        sig == SIGKILL || sig == SIGSTOP,
    ensures
        !blocked_after(false, given, how, sig),
{
}

/// What asking to block, to unblock or to set signals does to each of them; the two that kill and stop a
/// process are left as they are, or unblocked.
pub proof fn law_mask_follows_request(before: bool, given: bool, how: u64, sig: u8)
    requires
        how <= 2,
    ensures
        ({
            let asked = given && sig != 9 && sig != 19;
            blocked_after(before, given, how, sig) == if how == 0 {
                before || asked
            } else if how == 1 {
                before && !asked
            } else {
                asked
            }
        }),
{
}

/// Every action can be set but those of the two signals that kill and stop a process.
pub proof fn law_only_kill_and_stop_are_fixed(sig: u64)
    ensures
        settable(sig) <==> 1 <= sig <= 64 && sig != 9 && sig != 19,
{
}

} // verus!
