//! What a process keeps when it starts a new program.
use vstd::prelude::*;
use crate::hal::addr::VirtAddr;
use crate::proc::clone::VforkDone;
use crate::proc::signal::{SigAction, SigSet, SignalState, SIG_DFL, SIG_IGN};
use crate::proc::task::Task;

verus! {

/// The action that a new program starts with: handlers are gone, ignored signals stay
/// ignored.
pub open spec fn exec_action(a: SigAction) -> SigAction {
    if a.handler != SIG_DFL && a.handler != SIG_IGN {
        SigAction { handler: SIG_DFL, flags: 0, mask: 0, ..a }
    } else {
        a
    }
}

/// A new program has no handlers: a signal that called one has its default action again, and one that
/// was ignored still is.
pub proof fn law_handlers_end_with_program(a: SigAction)
    ensures
        a.handler == 0 || a.handler == 1 ==> exec_action(a) == a,
        a.handler > 1 ==> exec_action(a).handler == 0 && exec_action(a).flags == 0 && exec_action(
            a,
        ).mask == 0,
{
}

/// Forget handlers, pending and blocked signals.
pub fn reset_signals(signals: &mut SignalState)
    ensures
        final(signals).actions@.len() == old(signals).actions@.len(),
        forall|i: int|
            0 <= i < old(signals).actions@.len() ==> #[trigger] final(signals).actions@[i] == exec_action(
                old(signals).actions@[i],
            ),
        forall|i: int|
            0 <= i < old(signals).actions@.len() ==> {
                let a = #[trigger] old(signals).actions@[i];
                let b = final(signals).actions@[i];
                &&& a.handler <= 1 ==> b == a
                &&& a.handler > 1 ==> b.handler == 0 && b.flags == 0 && b.mask == 0
            },
        final(signals).pending.0.0 == 0,
        final(signals).blocked.0.0 == 0,
        final(signals).altstack == old(signals).altstack,
{
    let ghost before = signals.actions@;
    let mut i: usize = 0;
    while i < signals.actions.len()
        invariant
            i <= before.len(),
            before == old(signals).actions@,
            signals.actions@.len() == before.len(),
            signals.altstack == old(signals).altstack,
            forall|j: int| 0 <= j < i ==> #[trigger] signals.actions@[j] == exec_action(before[j]),
            forall|j: int| i <= j < before.len() ==> #[trigger] signals.actions@[j] == before[j],
        decreases before.len() - i,
    {
        let mut act = signals.actions[i];
        if act.handler != SIG_DFL && act.handler != SIG_IGN {
            act.handler = SIG_DFL;
            act.flags = 0;
            act.mask = 0;
        }
        signals.actions[i] = act;
        i += 1;
    }
    signals.pending.store(SigSet::from_u64(0));
    signals.blocked.store(SigSet::from_u64(0));
}

/// The process has a new program: its heap starts at `brk`, signals start afresh, and a parent
/// that waits for this may go on.  Returns the waker to call.  The address spaces are the
/// caller's to exchange, and the files that end with the old program the caller's to close.
pub fn commit(task: &mut Task, brk: VirtAddr) -> (r: Option<u64>)
    requires
        old(task).wf(),
    ensures
        final(task).wf(),
        *final(task) == (Task {
            brk: brk.0,
            signals: final(task).signals,
            vfork_done: match old(task).vfork_done {
                Some(_) => Some(VforkDone { done: true, waker: None }),
                None => None,
            },
            ..*old(task)
        }),
        forall|i: int|
            0 <= i < 64 ==> #[trigger] final(task).signals.actions@[i] == exec_action(
                old(task).signals.actions@[i],
            ),
        forall|i: int|
            0 <= i < 64 ==> {
                let a = #[trigger] old(task).signals.actions@[i];
                let b = final(task).signals.actions@[i];
                &&& a.handler <= 1 ==> b == a
                &&& a.handler > 1 ==> b.handler == 0 && b.flags == 0 && b.mask == 0
            },
        final(task).signals.pending.0.0 == 0,
        final(task).signals.blocked.0.0 == 0,
        final(task).signals.altstack == old(task).signals.altstack,
        r == match old(task).vfork_done {
            Some(v) => v.waker,
            None => None,
        },
{
    task.brk = brk.as_u64();
    reset_signals(&mut task.signals);
    match task.vfork_done {
        Some(v) => {
            let mut done = v;
            let w = done.signal();
            task.vfork_done = Some(done);
            w
        },
        None => None,
    }
}

} // verus!
