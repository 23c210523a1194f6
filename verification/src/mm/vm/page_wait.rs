//! Waiting for a page that someone else has for itself.
use vstd::prelude::*;
use crate::mm::vm::page::{Busy, VmPage};
use crate::mm::vm::wait_queue::{register_waker, remove_waker, without_first, WaitQueues};

verus! {

/// A wait for the end of the exclusive use of a page.
#[derive(Debug, Clone, Copy, PartialEq, Eq, Structural)]
pub struct PageWait {
    /// The sleeper has been put into the queue.
    pub yielded: bool,
}

impl PageWait {
    pub fn new() -> (r: Self)
        ensures
            !r.yielded,
    {
        PageWait { yielded: false }
    }

    /// The first time the sleeper is put into the queue of the page and the page is marked,
    /// so that its user wakes those who sleep; the second time the wait is over, and the
    /// sleeper is in the queue no more.
    pub fn wait_for_exclusive_unlock(
        &mut self,
        page: &mut VmPage,
        queues: &mut WaitQueues,
        token: usize,
        waker: u64,
    ) -> (ready: bool)
        requires
            old(queues).wf(),
        ensures
            final(queues).wf(),
            final(queues).others_kept(old(queues), token),
            final(self).yielded,
            ready == old(self).yielded,
            !ready ==> {
                &&& final(queues).waiters(token) == old(queues).waiters(token).push(waker)
                &&& final(page).busy() == (Busy { wanted: true, ..old(page).busy() })
                &&& final(page).same_but_busy(old(page))
            },
            ready ==> {
                &&& final(queues).waiters(token) == without_first(old(queues).waiters(token), waker)
                &&& *final(page) == *old(page)
            },
    {
        if self.yielded {
            remove_waker(queues, token, waker);
            return true;
        }
        register_waker(queues, token, waker);
        page.mark_wanted();
        self.yielded = true;
        false
    }
}

/// An attempt to get a page for oneself: it is tried again after each wait.
pub struct PageAcquire {
    /// The wait that goes on.
    pub wait: Option<PageWait>,
}

impl PageAcquire {
    pub fn new() -> (r: Self)
        ensures
            r.wait is None,
    {
        PageAcquire { wait: None }
    }

    /// Try to get the page, unless a wait has just begun.  Returns whether it was got; where
    /// it was not, the sleeper is in the queue of the page.
    pub fn acquire_exclusive_blocking(
        &mut self,
        page: &mut VmPage,
        queues: &mut WaitQueues,
        token: usize,
        waker: u64,
    ) -> (got: bool)
        requires
            old(queues).wf(),
            old(self).wait matches Some(w) ==> w.yielded,
        ensures
            final(queues).wf(),
            final(queues).others_kept(old(queues), token),
            got <==> !old(page).busy().exclusive && old(page).busy().readers == 0,
            got <==> final(self).wait is None,
            final(self).wait matches Some(w) ==> w.yielded,
            final(page).same_but_busy(old(page)),
            final(page).busy() == if got {
                Busy { exclusive: true, ..old(page).busy() }
            } else {
                Busy { wanted: true, ..old(page).busy() }
            },
            final(queues).waiters(token) == ({
                let left = if old(self).wait is Some {
                    without_first(old(queues).waiters(token), waker)
                } else {
                    old(queues).waiters(token)
                };
                if got {
                    left
                } else {
                    left.push(waker)
                }
            }),
    {
        if let Some(w) = self.wait {
            let mut wait = w;
            let _ = wait.wait_for_exclusive_unlock(page, queues, token, waker);
            self.wait = None;
        }
        if page.try_acquire_exclusive() {
            return true;
        }
        let mut wait = PageWait::new();
        let _ = wait.wait_for_exclusive_unlock(page, queues, token, waker);
        self.wait = Some(wait);
        false
    }
}

} // verus!
