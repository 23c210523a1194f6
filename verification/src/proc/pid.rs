//! Process numbers.
use vstd::prelude::*;

verus! {

/// Source of process numbers: the first is one, that of the first process, and zero is
/// never given out.
pub struct PidAllocator {
    pub next: u32,
}

impl PidAllocator {
    pub open spec fn wf(&self) -> bool {
        self.next >= 1
    }

    pub fn new() -> (r: Self)
        ensures
            r.wf(),
            r.next == 1,
    {
        PidAllocator { next: 1 }
    }
}

/// Take the next process number.
pub fn alloc_pid(pids: &mut PidAllocator) -> (r: u32)
    requires
        old(pids).wf(),
        old(pids).next < u32::MAX,
    ensures
        final(pids).wf(),
        r == old(pids).next,
        r != 0,
        final(pids).next == r + 1,
        final(pids).next == pid_later(old(pids).next as int, 1),
{
    let r = pids.next;
    pids.next = r + 1;
    assert(pid_later(r as int, 1) == pid_later(r as int, 0) + 1);
    r
}

/// The number that is given out after `n` others.
pub open spec fn pid_later(next: int, n: nat) -> int
    decreases n,
{
    if n == 0 {
        next
    } else {
        pid_later(next, (n - 1) as nat) + 1
    }
}

/// No two processes get the same number, and none gets zero.
pub proof fn law_pids_are_unique(next: int, m: nat, n: nat)
    requires
        next >= 1,
        m != n,
    ensures
        pid_later(next, m) != pid_later(next, n),
        pid_later(next, m) != 0,
{
    lemma_pid_later(next, m);
    lemma_pid_later(next, n);
}

proof fn lemma_pid_later(next: int, n: nat)
    ensures
        pid_later(next, n) == next + n,
    decreases n,
{
    if n > 0 {
        lemma_pid_later(next, (n - 1) as nat);
    }
}

} // verus!
