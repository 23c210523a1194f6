//! Per-CPU cache of single frames.
//!
//! A magazine is a small stack of frames.  It refills from the buddy allocator
//! in a batch and drains half of itself back when it is full.
use vstd::prelude::*;
use vstd::arithmetic::power2::*;
use crate::hal::addr::PhysAddr;
use crate::mm::allocator::buddy::{
    after_free, after_split, covers, first_nonempty, fits, in_block, is_free, lemma_first_nonempty,
    lemma_first_nonempty_found, lemma_weight_empty, lemma_weight_nonneg, naturally_aligned, BuddyAllocator, Lists, MAX_ORDER,
};

verus! {

/// Number of frames a magazine can hold.
pub const MAGAZINE_CAPACITY: usize = 32;

/// The frames handed out by `n` allocations of a single page, in order, or by
/// as many as succeed.
pub open spec fn drawn(lists: Lists, n: nat) -> Seq<PhysAddr>
    decreases n,
{
    let from = first_nonempty(lists, 0);
    if n == 0 || from > MAX_ORDER {
        Seq::empty()
    } else {
        seq![lists[from].last()] + drawn(after_split(lists, 0, from), (n - 1) as nat)
    }
}

/// The free lists after `n` allocations of a single page, or after as many as
/// succeed.
pub open spec fn after_draw(lists: Lists, n: nat) -> Lists
    decreases n,
{
    let from = first_nonempty(lists, 0);
    if n == 0 || from > MAX_ORDER {
        lists
    } else {
        after_draw(after_split(lists, 0, from), (n - 1) as nat)
    }
}

/// The free lists after `frames` are given back one by one, the last first.
pub open spec fn after_return(lists: Lists, frames: Seq<PhysAddr>) -> Lists
    decreases frames.len(),
{
    if frames.len() == 0 {
        lists
    } else {
        after_return(after_free(lists, frames.last(), 0), frames.drop_last())
    }
}

/// Each frame is page-aligned and ends below `2^64`.
pub open spec fn all_fit(frames: Seq<PhysAddr>) -> bool {
    forall|i: int| 0 <= i < frames.len() ==> fits(#[trigger] frames[i], 0)
}

/// Whether `page` is one of `frames`.
pub open spec fn holds_page(frames: Seq<PhysAddr>, page: int) -> bool {
    exists|i: int| 0 <= i < frames.len() && (#[trigger] frames[i]).0 as int / 4096 == page
}

/// No page occurs twice in `frames`.
pub open spec fn distinct_pages(frames: Seq<PhysAddr>) -> bool {
    forall|i: int, j: int|
        0 <= i < j < frames.len() ==> (#[trigger] frames[i]).0 as int / 4096 != (
        #[trigger] frames[j]).0 as int / 4096
}

/// How many frames a magazine that holds `len` takes where `count` are offered.
pub open spec fn wanted(len: int, count: int) -> nat {
    if count <= MAGAZINE_CAPACITY - len {
        count as nat
    } else {
        (MAGAZINE_CAPACITY - len) as nat
    }
}

/// `frames` can be given back: they are distinct and none is free.
pub open spec fn returnable(lists: Lists, frames: Seq<PhysAddr>) -> bool {
    &&& distinct_pages(frames)
    &&& forall|p: int| #[trigger] holds_page(frames, p) ==> !is_free(lists, p)
}

/// A block of a single page holds that page only.
pub proof fn lemma_single(a: PhysAddr)
    ensures
        forall|p: int| #[trigger] in_block(a, 0, p) <==> p == a.0 as int / 4096,
        naturally_aligned(a, 0),
        pow2(0) == 1,
{
    lemma2_to64();
}

/// Something is free exactly when some list is not empty.
pub proof fn lemma_empty_iff(lists: Lists)
    requires
        lists.len() == MAX_ORDER + 1,
    ensures
        first_nonempty(lists, 0) > MAX_ORDER ==> forall|p: int| !is_free(lists, p),
        first_nonempty(lists, 0) <= MAX_ORDER ==> exists|p: int| is_free(lists, p),
{
    lemma_first_nonempty(lists, 0);
    if first_nonempty(lists, 0) > MAX_ORDER {
        assert forall|p: int| !is_free(lists, p) by {
            if is_free(lists, p) {
                let (k, i) = choose|k: int, i: int| #[trigger] covers(lists, k, i, p);
                assert(lists[k].len() == 0);
            }
        }
    } else {
        lemma_first_nonempty_found(lists, 0);
        let k = first_nonempty(lists, 0);
        lemma_pow2_pos(k as nat);
        assert(covers(lists, k, 0, lists[k][0].0 as int / 4096));
        assert(is_free(lists, lists[k][0].0 as int / 4096));
    }
}

/// Fixed-size stack of physical frame addresses.
pub struct Magazine {
    frames: Vec<PhysAddr>,
}

impl View for Magazine {
    type V = Seq<PhysAddr>;

    closed spec fn view(&self) -> Seq<PhysAddr> {
        self.frames@
    }
}

impl Magazine {
    /// A magazine never holds more than its capacity.
    pub open spec fn wf(&self) -> bool {
        self@.len() <= MAGAZINE_CAPACITY
    }

    /// Create an empty magazine.
    pub fn new() -> (r: Self)
        ensures
            r.wf(),
            r@ == Seq::<PhysAddr>::empty(),
    {
        Magazine { frames: Vec::new() }
    }

    /// Take the frame that was put in last.
    pub fn pop(&mut self) -> (r: Option<PhysAddr>)
        requires
            old(self).wf(),
        ensures
            final(self).wf(),
            match r {
                None => old(self)@.len() == 0 && final(self)@ == old(self)@,
                Some(a) => old(self)@.len() > 0 && a == old(self)@.last() && final(self)@ == old(self)@.drop_last(),
            },
    {
        self.frames.pop()
    }

    /// Put a frame in.  A full magazine hands it back.
    pub fn push(&mut self, addr: PhysAddr) -> (r: Result<(), PhysAddr>)
        requires
            old(self).wf(),
        ensures
            final(self).wf(),
            match r {
                Ok(_) => old(self)@.len() < MAGAZINE_CAPACITY && final(self)@ == old(self)@.push(
                    addr,
                ),
                Err(a) => old(self)@.len() == MAGAZINE_CAPACITY && a == addr && final(self)@ == old(self)@,
            },
    {
        if self.frames.len() >= MAGAZINE_CAPACITY {
            return Err(addr);
        }
        self.frames.push(addr);
        Ok(())
    }

    /// Take up to `count` single frames from the buddy allocator, as many as
    /// there is room for and as it can give.
    pub fn refill(&mut self, buddy: &mut BuddyAllocator, count: usize)
        requires
            old(self).wf(),
            old(buddy).inv(),
        ensures
            final(self).wf(),
            final(buddy).inv(),
            ({
                let n = wanted(old(self)@.len() as int, count as int);
                let taken = drawn(old(buddy).lists(), n);
                &&& final(self)@ == old(self)@ + taken
                &&& final(buddy).lists() == after_draw(old(buddy).lists(), n)
                &&& taken.len() == if n <= old(buddy).available() { n as int } else { old(buddy).available() }
                &&& final(buddy).available() == old(buddy).available() - taken.len()
                &&& final(buddy).total() == old(buddy).total()
                &&& all_fit(taken)
                &&& old(buddy).wf() ==> final(buddy).wf() && distinct_pages(taken) && (forall|p: int| #[trigger]
                    holds_page(taken, p) ==> is_free(old(buddy).lists(), p)) && forall|p: int| #[trigger]
                    is_free(final(buddy).lists(), p) <==> is_free(old(buddy).lists(), p)
                        && !holds_page(taken, p)
            }),
    {
        let room: usize = MAGAZINE_CAPACITY - self.frames.len();
        let to_fill: usize = if count <= room {
            count
        } else {
            room
        };
        let ghost lists0 = buddy.lists();
        let ghost mine = self@;
        let mut i: usize = 0;
        let mut going = true;
        let ghost mut taken: Seq<PhysAddr> = Seq::empty();
        while going && i < to_fill
            invariant
                i <= to_fill,
                going ==> taken.len() == i,
                taken.len() <= i,
                mine.len() + to_fill <= MAGAZINE_CAPACITY,
                self@ == mine + taken,
                buddy.inv(),
                buddy.total() == old(buddy).total(),
                buddy.available() == old(buddy).available() - taken.len(),
                lists0 == old(buddy).lists(),
                !going ==> buddy.available() == 0 && i < to_fill && taken.len() == i,
                all_fit(taken),
                drawn(lists0, to_fill as nat) == taken + drawn(buddy.lists(), (to_fill - i) as nat),
                after_draw(lists0, to_fill as nat) == after_draw(
                    buddy.lists(),
                    (to_fill - i) as nat,
                ),
                !going ==> first_nonempty(buddy.lists(), 0) > MAX_ORDER,
                old(buddy).wf() ==> buddy.wf(),
                old(buddy).wf() ==> distinct_pages(taken),
                old(buddy).wf() ==> forall|p: int| #[trigger]
                    holds_page(taken, p) ==> is_free(lists0, p),
                old(buddy).wf() ==> forall|p: int| #[trigger]
                    is_free(buddy.lists(), p) <==> is_free(lists0, p) && !holds_page(taken, p),
            decreases to_fill - i, if going { 1int } else { 0 },
        {
            let ghost before = buddy.lists();
            let ghost taken0 = taken;
            match buddy.alloc_block(0) {
                Some(addr) => {
                    self.frames.push(addr);
                    proof {
                        lemma_single(addr);
                        taken = taken0.push(addr);
                        assert(mine + taken =~= (mine + taken0).push(addr));
                        let rest = drawn(buddy.lists(), (to_fill - i - 1) as nat);
                        assert(taken0 + (seq![addr] + rest) =~= taken + rest);
                        lemma_holds_push(taken0, addr);
                        if old(buddy).wf() {
                            assert(in_block(addr, 0, addr.0 as int / 4096));
                            assert forall|x: int, y: int|
                                0 <= x < y < taken.len() implies (#[trigger] taken[x]).0 as int / 4096 != (
                            #[trigger] taken[y]).0 as int / 4096 by {
                                if y == taken0.len() {
                                    assert(holds_page(taken0, taken0[x].0 as int / 4096));
                                    assert(is_free(before, addr.0 as int / 4096));
                                }
                            }
                        }
                    }
                    i += 1;
                },
                None => {
                    proof {
                        lemma_first_nonempty(before, 0);
                        lemma_weight_empty(before, MAX_ORDER + 1);
                    }
                    going = false;
                },
            }
        }
        proof {
            lemma_weight_nonneg(buddy.lists(), MAX_ORDER + 1);
            assert(drawn(buddy.lists(), (to_fill - i) as nat) =~= Seq::empty());
            assert(taken + Seq::<PhysAddr>::empty() =~= taken);
        }
    }

    /// Give all frames back to the buddy allocator, the last first.
    pub fn drain(&mut self, buddy: &mut BuddyAllocator)
        requires
            old(self).wf(),
            all_fit(old(self)@),
            old(buddy).inv(),
            old(buddy).available() + old(self)@.len() <= usize::MAX,
        ensures
            final(self).wf(),
            final(self)@.len() == 0,
            final(buddy).inv(),
            final(buddy).lists() == after_return(old(buddy).lists(), old(self)@),
            final(buddy).available() == old(buddy).available() + old(self)@.len(),
            final(buddy).total() == old(buddy).total(),
            old(buddy).wf() && returnable(old(buddy).lists(), old(self)@) ==> final(buddy).wf()
                && forall|p: int| #[trigger]
                is_free(final(buddy).lists(), p) <==> is_free(old(buddy).lists(), p) || holds_page(
                    old(self)@,
                    p,
                ),
    {
        self.give_back(buddy, 0);
    }

    /// Give half of the frames back to the buddy allocator, the last first.
    pub fn drain_half(&mut self, buddy: &mut BuddyAllocator)
        requires
            old(self).wf(),
            all_fit(old(self)@),
            old(buddy).inv(),
            old(buddy).available() + old(self)@.len() <= usize::MAX,
        ensures
            final(self).wf(),
            final(buddy).inv(),
            final(buddy).total() == old(buddy).total(),
            ({
                let keep = old(self)@.len() - old(self)@.len() / 2;
                let back = old(self)@.skip(keep);
                &&& final(self)@ == old(self)@.take(keep)
                &&& final(buddy).lists() == after_return(old(buddy).lists(), back)
                &&& final(buddy).available() == old(buddy).available() + back.len()
                &&& old(buddy).wf() && returnable(old(buddy).lists(), back) ==> final(buddy).wf()
                    && forall|p: int| #[trigger]
                    is_free(final(buddy).lists(), p) <==> is_free(old(buddy).lists(), p)
                        || holds_page(back, p)
            }),
    {
        let keep: usize = self.frames.len() - self.frames.len() / 2;
        self.give_back(buddy, keep);
    }

    /// Give back all frames but the first `keep`.
    fn give_back(&mut self, buddy: &mut BuddyAllocator, keep: usize)
        requires
            old(self).wf(),
            keep <= old(self)@.len(),
            all_fit(old(self)@),
            old(buddy).inv(),
            old(buddy).available() + old(self)@.len() <= usize::MAX,
        ensures
            final(self).wf(),
            final(self)@ == old(self)@.take(keep as int),
            final(buddy).inv(),
            final(buddy).total() == old(buddy).total(),
            final(buddy).lists() == after_return(old(buddy).lists(), old(self)@.skip(keep as int)),
            final(buddy).available() == old(buddy).available() + old(self)@.len() - keep,
            old(buddy).wf() && returnable(old(buddy).lists(), old(self)@.skip(keep as int))
                ==> final(buddy).wf() && forall|p: int| #[trigger]
                is_free(final(buddy).lists(), p) <==> is_free(old(buddy).lists(), p) || holds_page(
                    old(self)@.skip(keep as int),
                    p,
                ),
            keep == 0 ==> old(self)@.skip(keep as int) == old(self)@,
    {
        let ghost all = self@;
        let ghost back = all.skip(keep as int);
        let ghost lists0 = buddy.lists();
        let ghost good = old(buddy).wf() && returnable(lists0, back);
        while self.frames.len() > keep
            invariant
                keep <= self@.len() <= all.len() <= MAGAZINE_CAPACITY,
                all == old(self)@,
                lists0 == old(buddy).lists(),
                back == all.skip(keep as int),
                self@ == all.take(self@.len() as int),
                all_fit(all),
                buddy.inv(),
                buddy.total() == old(buddy).total(),
                buddy.available() == old(buddy).available() + all.len() - self@.len(),
                old(buddy).available() + all.len() <= usize::MAX,
                after_return(lists0, back) == after_return(
                    buddy.lists(),
                    self@.skip(keep as int),
                ),
                good == (old(buddy).wf() && returnable(lists0, back)),
                good ==> buddy.wf() && returnable(buddy.lists(), self@.skip(keep as int)),
                good ==> forall|p: int|
                    #![trigger is_free(buddy.lists(), p)]
                    #![trigger is_free(lists0, p)]
                    #![trigger holds_page(back, p)]
                    is_free(buddy.lists(), p) || holds_page(self@.skip(keep as int), p) <==> is_free(
                        lists0,
                        p,
                    ) || holds_page(back, p),
            decreases self@.len(),
        {
            let ghost rest = self@.skip(keep as int);
            let ghost before = buddy.lists();
            let ghost n = self@.len() as int;
            let popped = self.frames.pop();
            if let Some(addr) = popped {
                proof {
                    assert(addr == all[n - 1]);
                    assert(rest.last() == addr);
                    assert(self@.skip(keep as int) =~= rest.drop_last());
                    assert(self@ =~= all.take(n - 1));
                    lemma_single(addr);
                    assert(rest =~= rest.drop_last().push(addr));
                    lemma_holds_push(rest.drop_last(), addr);
                    if good {
                        assert(holds_page(rest, addr.0 as int / 4096));
                    }
                }
                buddy.free(addr, 0);
                proof {
                    if good {
                        let now = rest.drop_last();
                        assert forall|p: int| #[trigger] holds_page(now, p) implies !is_free(
                            buddy.lists(),
                            p,
                        ) by {
                            assert(holds_page(rest, p));
                            let i = choose|i: int|
                                0 <= i < now.len() && (#[trigger] now[i]).0 as int / 4096 == p;
                            assert(rest[i] == now[i]);
                            assert(rest[rest.len() - 1] == addr);
                            assert(p != addr.0 as int / 4096);
                            assert(!in_block(addr, 0, p));
                        }
                        assert(returnable(buddy.lists(), now));
                        assert forall|p: int|
                            #![trigger is_free(buddy.lists(), p)]
                            is_free(buddy.lists(), p) || holds_page(now, p) <==> is_free(before, p)
                                || holds_page(rest, p) by {
                            assert(in_block(addr, 0, p) <==> p == addr.0 as int / 4096);
                        }
                    }
                }
            }
        }
        proof {
            assert(self@.skip(keep as int) =~= Seq::<PhysAddr>::empty());
            if keep == 0 {
                assert(all.skip(0) =~= all);
            }
        }
    }

    /// Number of frames currently held.
    pub fn len(&self) -> (r: usize)
        ensures
            r == self@.len(),
    {
        self.frames.len()
    }

    /// Whether the magazine is empty.
    pub fn is_empty(&self) -> (r: bool)
        ensures
            r == (self@.len() == 0),
    {
        self.frames.len() == 0
    }

    /// Whether the magazine is full.
    pub fn is_full(&self) -> (r: bool)
        ensures
            r == (self@.len() >= MAGAZINE_CAPACITY),
    {
        self.frames.len() >= MAGAZINE_CAPACITY
    }
}

/// Pushing a frame adds its page.
pub proof fn lemma_holds_push(frames: Seq<PhysAddr>, a: PhysAddr)
    ensures
        forall|p: int|
            #![trigger holds_page(frames.push(a), p)]
            #![trigger holds_page(frames, p)]
            holds_page(frames.push(a), p) <==> holds_page(frames, p) || p == a.0 as int / 4096,
{
    let s = frames.push(a);
    assert forall|p: int|
        #![trigger holds_page(s, p)]
        #![trigger holds_page(frames, p)]
        holds_page(s, p) <==> holds_page(frames, p) || p == a.0 as int / 4096 by {
        if holds_page(s, p) {
            let i = choose|i: int| 0 <= i < s.len() && (#[trigger] s[i]).0 as int / 4096 == p;
            if i < frames.len() {
                assert(frames[i] == s[i]);
            }
        }
        if holds_page(frames, p) {
            let i = choose|i: int|
                0 <= i < frames.len() && (#[trigger] frames[i]).0 as int / 4096 == p;
            assert(s[i] == frames[i]);
        }
        assert(s[frames.len() as int] == a);
    }
}

} // verus!
