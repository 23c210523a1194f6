//! Wait queues: for each token, the sleepers that wait on it, in the order in
//! which they came.
use std::collections::BTreeMap;
use vstd::prelude::*;

verus! {

/// All wait queues.  A sleeper is known by the number of its waker.
pub struct WaitQueues {
    queues: BTreeMap<usize, Vec<u64>>,
}

impl WaitQueues {
    /// The sleepers on `token`.
    pub closed spec fn waiters(&self, token: usize) -> Seq<u64> {
        if self.queues@.dom().contains(token) {
            self.queues@[token]@
        } else {
            Seq::empty()
        }
    }

    /// Tokens no one waits on take no room.
    pub closed spec fn wf(&self) -> bool {
        forall|t: usize| #[trigger]
            self.queues@.dom().contains(t) ==> self.queues@[t]@.len() > 0
    }

    /// The other queues are as they were.
    pub open spec fn others_kept(&self, before: &WaitQueues, token: usize) -> bool {
        forall|t: usize| t != token ==> #[trigger] self.waiters(t) == before.waiters(t)
    }

    pub fn new() -> (r: Self)
        ensures
            r.wf(),
            forall|t: usize| #[trigger] r.waiters(t).len() == 0,
    {
        WaitQueues { queues: BTreeMap::new() }
    }
}

/// Take every sleeper off `token`; they are returned to be woken, in order.
pub fn wake_all(q: &mut WaitQueues, token: usize) -> (r: Vec<u64>)
    requires
        old(q).wf(),
    ensures
        final(q).wf(),
        r@ == old(q).waiters(token),
        final(q).waiters(token).len() == 0,
        final(q).others_kept(old(q), token),
{
    match q.queues.remove(&token) {
        Some(waiters) => waiters,
        None => Vec::new(),
    }
}

/// Add a sleeper to `token`.
pub fn register_waker(q: &mut WaitQueues, token: usize, waker: u64)
    requires
        old(q).wf(),
    ensures
        final(q).wf(),
        final(q).waiters(token) == old(q).waiters(token).push(waker),
        final(q).others_kept(old(q), token),
{
    let mut waiters = match q.queues.remove(&token) {
        Some(waiters) => waiters,
        None => Vec::new(),
    };
    waiters.push(waker);
    q.queues.insert(token, waiters);
}

/// `s` without its first `x`.
pub open spec fn without_first(s: Seq<u64>, x: u64) -> Seq<u64>
    decreases s.len(),
{
    if s.len() == 0 {
        s
    } else if s[0] == x {
        s.drop_first()
    } else {
        seq![s[0]] + without_first(s.drop_first(), x)
    }
}

proof fn lemma_without_first(s: Seq<u64>, x: u64, i: int)
    requires
        0 <= i <= s.len(),
        forall|j: int| 0 <= j < i ==> s[j] != x,
        i < s.len() ==> s[i] == x,
    ensures
        without_first(s, x) == if i < s.len() {
            s.remove(i)
        } else {
            s
        },
    decreases s.len(),
{
    if s.len() > 0 && i > 0 {
        assert(s[0] != x);
        lemma_without_first(s.drop_first(), x, i - 1);
        if i < s.len() {
            assert(seq![s[0]] + s.drop_first().remove(i - 1) =~= s.remove(i));
        } else {
            assert(seq![s[0]] + s.drop_first() =~= s);
        }
    } else if s.len() > 0 {
        assert(s.remove(0) =~= s.drop_first());
    }
}

/// Take one sleeper off `token` before it is woken.
pub fn remove_waker(q: &mut WaitQueues, token: usize, waker: u64)
    requires
        old(q).wf(),
    ensures
        final(q).wf(),
        final(q).waiters(token) == without_first(old(q).waiters(token), waker),
        final(q).others_kept(old(q), token),
{
    if let Some(found) = q.queues.remove(&token) {
        let mut waiters = found;
        let mut i: usize = 0;
        while i < waiters.len() && waiters[i] != waker
            invariant
                i <= waiters@.len(),
                forall|j: int| 0 <= j < i ==> waiters@[j] != waker,
            decreases waiters@.len() - i,
        {
            i += 1;
        }
        proof {
            lemma_without_first(waiters@, waker, i as int);
        }
        if i < waiters.len() {
            waiters.remove(i);
        }
        if !waiters.is_empty() {
            q.queues.insert(token, waiters);
        }
    }
}

/// A sleeper that registers and is then taken off again, without having waited
/// already, leaves the queue as it was.
pub proof fn law_register_then_remove(before: Seq<u64>, waker: u64)
    requires
        !before.contains(waker),
    ensures
        without_first(before.push(waker), waker) == before,
{
    let s = before.push(waker);
    assert forall|j: int| 0 <= j < before.len() implies s[j] != waker by {
        assert(before.contains(before[j]));
    }
    lemma_without_first(s, waker, before.len() as int);
    assert(s.remove(before.len() as int) =~= before);
}

} // verus!
