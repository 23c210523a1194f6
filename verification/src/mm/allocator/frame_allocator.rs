//! Frame allocation: per-CPU magazines in front of the buddy allocator, and the
//! metadata of every frame.
use vstd::prelude::*;
use vstd::arithmetic::power2::*;
use crate::hal::addr::{PhysAddr, PAGE_SIZE};
use crate::mm::allocator::buddy::{
    after_free, after_init, after_split, first_nonempty, fits, free_set, in_block, is_free,
    law_alloc_then_free_restores, law_weight_counts_free_pages, naturally_aligned, BuddyAllocator,
    Lists, MAX_ORDER,
};
use crate::mm::allocator::history::lemma_given_back_can_be_had;
use crate::mm::allocator::magazine::{
    after_return, all_fit, distinct_pages, holds_page, lemma_empty_iff, lemma_holds_push, lemma_single,
    returnable, Magazine, MAGAZINE_CAPACITY,
};
use crate::mm::allocator::types::{frame_index, pfn, role_byte, PageRole};
use crate::mm::vm::page::VmPage;

verus! {

/// Number of CPUs that have a magazine.
pub const NUM_MAGAZINES: usize = 8;

/// All free frames and the metadata of every frame.
pub struct FramePool {
    pub buddy: BuddyAllocator,
    pub magazines: Vec<Magazine>,
    pub meta: Vec<VmPage>,
}

/// Contents of each magazine.
pub type Stacks = Seq<Seq<PhysAddr>>;

/// Number of frames in the first `n` magazines.
pub open spec fn held(stacks: Stacks, n: int) -> int
    decreases n,
{
    if n <= 0 {
        0
    } else {
        held(stacks, n - 1) + stacks[n - 1].len()
    }
}

/// Whether some magazine holds `page`.
pub open spec fn cached(stacks: Stacks, page: int) -> bool {
    exists|c: int| 0 <= c < stacks.len() && holds_page(#[trigger] stacks[c], page)
}

/// The free lists after the first `n` magazines, but for that of `cpu`, were
/// drained in turn.
pub open spec fn reclaimed(lists: Lists, stacks: Stacks, cpu: int, n: int) -> Lists
    decreases n,
{
    if n <= 0 {
        lists
    } else {
        let before = reclaimed(lists, stacks, cpu, n - 1);
        if n - 1 == cpu {
            before
        } else {
            after_return(before, stacks[n - 1])
        }
    }
}

/// The magazines after all but that of `cpu` were drained.
pub open spec fn emptied(stacks: Stacks, cpu: int) -> Stacks {
    Seq::new(
        stacks.len(),
        |c: int|
            if c == cpu {
                stacks[c]
            } else {
                Seq::empty()
            },
    )
}

/// The metadata after the frame at `addr` was handed out for `role`.
pub open spec fn finalized(meta: Seq<VmPage>, addr: PhysAddr, role: PageRole) -> Seq<VmPage> {
    if pfn(addr) < meta.len() {
        let m = meta[pfn(addr)];
        meta.update(
            pfn(addr),
            VmPage { role_flags: role_byte(role), refs: m.refs.wrapping_add(1), ..m },
        )
    } else {
        meta
    }
}

/// The frame that the next single-frame allocation on `cpu` hands out: from its
/// own magazine, else from the buddy allocator, else from what the other
/// magazines hold.
pub open spec fn next_frame(lists: Lists, stacks: Stacks, cpu: int) -> Option<PhysAddr> {
    let drained = reclaimed(lists, stacks, cpu, stacks.len() as int);
    if stacks[cpu].len() > 0 {
        Some(stacks[cpu].last())
    } else if first_nonempty(lists, 0) <= MAX_ORDER {
        Some(lists[first_nonempty(lists, 0)].last())
    } else if first_nonempty(drained, 0) <= MAX_ORDER {
        Some(drained[first_nonempty(drained, 0)].last())
    } else {
        None
    }
}

/// The free lists after that allocation.
pub open spec fn lists_after(lists: Lists, stacks: Stacks, cpu: int) -> Lists {
    let drained = reclaimed(lists, stacks, cpu, stacks.len() as int);
    if stacks[cpu].len() > 0 {
        lists
    } else if first_nonempty(lists, 0) <= MAX_ORDER {
        after_split(lists, 0, first_nonempty(lists, 0))
    } else if first_nonempty(drained, 0) <= MAX_ORDER {
        after_split(drained, 0, first_nonempty(drained, 0))
    } else {
        drained
    }
}

/// The magazines after that allocation.
pub open spec fn stacks_after(lists: Lists, stacks: Stacks, cpu: int) -> Stacks {
    if stacks[cpu].len() > 0 {
        stacks.update(cpu, stacks[cpu].drop_last())
    } else if first_nonempty(lists, 0) <= MAX_ORDER {
        stacks
    } else {
        emptied(stacks, cpu)
    }
}

impl FramePool {
    /// Contents of each magazine.
    pub open spec fn stacks(&self) -> Stacks {
        Seq::new(self.magazines@.len(), |c: int| self.magazines@[c]@)
    }

    /// Whether `page` is free: in the buddy allocator or in a magazine.
    pub open spec fn pool_free(&self, page: int) -> bool {
        is_free(self.buddy.lists(), page) || cached(self.stacks(), page)
    }

    /// Number of free frames.
    pub open spec fn free_count(&self) -> int {
        self.buddy.available() + held(self.stacks(), NUM_MAGAZINES as int)
    }

    /// A free frame is in one place only, and nothing refers to it.
    pub open spec fn inv(&self) -> bool {
        &&& self.buddy.wf()
        &&& self.magazines@.len() == NUM_MAGAZINES
        &&& forall|c: int| 0 <= c < NUM_MAGAZINES ==> (#[trigger] self.magazines@[c]).wf()
        &&& sound(self.stacks())
        &&& forall|p: int| #[trigger] cached(self.stacks(), p) ==> !is_free(self.buddy.lists(), p)
        &&& self.free_count() <= usize::MAX
        &&& self.unreferenced()
    }

    /// No free frame has references.
    pub open spec fn unreferenced(&self) -> bool {
        forall|p: int|
            0 <= p < self.meta@.len() && #[trigger] self.pool_free(p) ==> self.meta@[p].refs == 0
    }
}

/// Every cached frame can be given back and is in one magazine only.
pub open spec fn sound(stacks: Stacks) -> bool {
    &&& forall|c: int| 0 <= c < stacks.len() ==> all_fit(#[trigger] stacks[c])
    &&& forall|c: int| 0 <= c < stacks.len() ==> distinct_pages(#[trigger] stacks[c])
    &&& forall|c: int, d: int, p: int|
        #![trigger holds_page(stacks[c], p), holds_page(stacks[d], p)]
        0 <= c < stacks.len() && 0 <= d < stacks.len() && holds_page(stacks[c], p) && holds_page(
            stacks[d],
            p,
        ) ==> c == d
}

proof fn lemma_held_update(stacks: Stacks, c: int, s: Seq<PhysAddr>, n: int)
    requires
        0 <= c < stacks.len(),
        n <= stacks.len(),
    ensures
        held(stacks.update(c, s), n) == held(stacks, n) + if c < n {
            s.len() - stacks[c].len()
        } else {
            0
        },
    decreases n,
{
    if n > 0 {
        lemma_held_update(stacks, c, s, n - 1);
    }
}

proof fn lemma_held_at_least(stacks: Stacks, c: int, n: int)
    requires
        0 <= c < n <= stacks.len(),
    ensures
        held(stacks, n) >= stacks[c].len(),
    decreases n,
{
    if c < n - 1 {
        lemma_held_at_least(stacks, c, n - 1);
    } else {
        lemma_held_nonneg(stacks, n - 1);
    }
}

proof fn lemma_held_nonneg(stacks: Stacks, n: int)
    ensures
        held(stacks, n) >= 0,
    decreases n,
{
    if n > 0 {
        lemma_held_nonneg(stacks, n - 1);
    }
}

/// Which pages are cached once one magazine holds `s` instead.
proof fn lemma_cached_update(stacks: Stacks, c: int, s: Seq<PhysAddr>)
    requires
        0 <= c < stacks.len(),
        sound(stacks),
    ensures
        forall|p: int| #[trigger]
            cached(stacks.update(c, s), p) <==> holds_page(s, p) || cached(stacks, p)
                && !holds_page(stacks[c], p),
        (forall|p: int| #[trigger]
            holds_page(s, p) ==> holds_page(stacks[c], p) || !cached(stacks, p)) && all_fit(s)
            && distinct_pages(s) ==> sound(stacks.update(c, s)),
{
    let after = stacks.update(c, s);
    assert forall|p: int| #[trigger]
        cached(after, p) <==> holds_page(s, p) || cached(stacks, p) && !holds_page(stacks[c], p) by {
        if cached(after, p) {
            let d = choose|d: int| 0 <= d < after.len() && holds_page(#[trigger] after[d], p);
            if d != c {
                assert(holds_page(stacks[d], p));
                assert(cached(stacks, p));
            }
        }
        if holds_page(s, p) {
            assert(holds_page(after[c], p));
        }
        if cached(stacks, p) && !holds_page(stacks[c], p) {
            let d = choose|d: int| 0 <= d < stacks.len() && holds_page(#[trigger] stacks[d], p);
            assert(holds_page(after[d], p));
        }
    }
    if (forall|p: int| #[trigger]
        holds_page(s, p) ==> holds_page(stacks[c], p) || !cached(stacks, p)) && all_fit(s)
        && distinct_pages(s) {
        assert forall|i: int, j: int, p: int|
            #![trigger holds_page(after[i], p), holds_page(after[j], p)]
            0 <= i < after.len() && 0 <= j < after.len() && holds_page(after[i], p) && holds_page(
                after[j],
                p,
            ) implies i == j by {
            if i == c && j != c {
                assert(holds_page(stacks[j], p));
                assert(cached(stacks, p));
                assert(holds_page(stacks[c], p));
            }
            if j == c && i != c {
                assert(holds_page(stacks[i], p));
                assert(cached(stacks, p));
                assert(holds_page(stacks[c], p));
            }
            if i != c && j != c {
                assert(holds_page(stacks[i], p) && holds_page(stacks[j], p));
            }
        }
    }
}

/// What taking the last frame off a magazine leaves in it.
proof fn lemma_drop_last(s: Seq<PhysAddr>)
    requires
        s.len() > 0,
        distinct_pages(s),
        all_fit(s),
    ensures
        distinct_pages(s.drop_last()),
        all_fit(s.drop_last()),
        forall|p: int| #[trigger]
            holds_page(s.drop_last(), p) <==> holds_page(s, p) && p != s.last().0 as int / 4096,
{
    let t = s.drop_last();
    assert(s =~= t.push(s.last()));
    lemma_holds_push(t, s.last());
    assert forall|p: int| #[trigger] holds_page(t, p) implies p != s.last().0 as int / 4096 by {
        let i = choose|i: int| 0 <= i < t.len() && (#[trigger] t[i]).0 as int / 4096 == p;
        assert(s[i] == t[i]);
        assert(s[s.len() - 1] == s.last());
    }
}

/// A stack of frames is its lower part and its upper part.
proof fn lemma_cut(s: Seq<PhysAddr>, k: int)
    requires
        0 <= k <= s.len(),
        distinct_pages(s),
        all_fit(s),
    ensures
        distinct_pages(s.take(k)),
        distinct_pages(s.skip(k)),
        all_fit(s.take(k)),
        all_fit(s.skip(k)),
        forall|p: int| #[trigger]
            holds_page(s, p) <==> holds_page(s.take(k), p) || holds_page(s.skip(k), p),
        forall|p: int| !(#[trigger] holds_page(s.take(k), p) && holds_page(s.skip(k), p)),
{
    let a = s.take(k);
    let b = s.skip(k);
    assert forall|i: int| 0 <= i < b.len() implies fits(#[trigger] b[i], 0) by {
        assert(b[i] == s[i + k]);
    }
    assert forall|i: int, j: int| 0 <= i < j < b.len() implies (#[trigger] b[i]).0 as int / 4096 != (
    #[trigger] b[j]).0 as int / 4096 by {
        assert(b[i] == s[i + k] && b[j] == s[j + k]);
    }
    assert forall|p: int| #[trigger] holds_page(s, p) <==> holds_page(a, p) || holds_page(b, p) by {
        if holds_page(s, p) {
            let i = choose|i: int| 0 <= i < s.len() && (#[trigger] s[i]).0 as int / 4096 == p;
            if i < k {
                assert(a[i] == s[i]);
            } else {
                assert(b[i - k] == s[i]);
            }
        }
        if holds_page(a, p) {
            let i = choose|i: int| 0 <= i < a.len() && (#[trigger] a[i]).0 as int / 4096 == p;
            assert(a[i] == s[i]);
        }
        if holds_page(b, p) {
            let i = choose|i: int| 0 <= i < b.len() && (#[trigger] b[i]).0 as int / 4096 == p;
            assert(b[i] == s[i + k]);
        }
    }
    assert forall|p: int| !(#[trigger] holds_page(a, p) && holds_page(b, p)) by {
        if holds_page(a, p) && holds_page(b, p) {
            let i = choose|i: int| 0 <= i < a.len() && (#[trigger] a[i]).0 as int / 4096 == p;
            let j = choose|j: int| 0 <= j < b.len() && (#[trigger] b[j]).0 as int / 4096 == p;
            assert(a[i] == s[i] && b[j] == s[j + k]);
        }
    }
}

/// Record that the frame at `addr` was handed out for `role`.
fn finalize_alloc(pool: &mut FramePool, addr: PhysAddr, role: PageRole) -> (r: PhysAddr)
    requires
        pfn(addr) < old(pool).meta@.len() ==> old(pool).meta@[pfn(addr)].refs == 0,
    ensures
        r == addr,
        final(pool).buddy == old(pool).buddy,
        final(pool).magazines == old(pool).magazines,
        final(pool).meta@ == finalized(old(pool).meta@, addr, role),
{
    if let Some(i) = frame_index(pool.meta.len(), addr) {
        pool.meta[i].set_role(role);
        let _ = pool.meta[i].inc_ref();
        assert(pool.meta@ =~= finalized(old(pool).meta@, addr, role));
    }
    addr
}

/// Move all frames from the magazine of `c` to the buddy allocator.
fn drain_magazine(pool: &mut FramePool, c: usize)
    requires
        old(pool).inv(),
        c < NUM_MAGAZINES,
    ensures
        final(pool).inv(),
        final(pool).free_count() == old(pool).free_count(),
        final(pool).meta == old(pool).meta,
        final(pool).stacks() == old(pool).stacks().update(c as int, Seq::empty()),
        final(pool).buddy.lists() == after_return(
            old(pool).buddy.lists(),
            old(pool).stacks()[c as int],
        ),
        final(pool).buddy.total() == old(pool).buddy.total(),
        forall|p: int| #[trigger] final(pool).pool_free(p) <==> old(pool).pool_free(p),
{
    let ghost stacks0 = pool.stacks();
    let ghost lists0 = pool.buddy.lists();
    let ghost s = stacks0[c as int];
    proof {
        assert(stacks0[c as int] == pool.magazines@[c as int]@);
        lemma_held_at_least(stacks0, c as int, NUM_MAGAZINES as int);
        lemma_held_update(stacks0, c as int, Seq::empty(), NUM_MAGAZINES as int);
        lemma_cached_update(stacks0, c as int, Seq::empty());
        assert forall|p: int| #[trigger] holds_page(s, p) implies !is_free(lists0, p) by {
            assert(holds_page(stacks0[c as int], p));
            assert(cached(stacks0, p));
        }
        assert(returnable(lists0, s));
    }
    pool.magazines[c].drain(&mut pool.buddy);
    proof {
        assert(pool.magazines@[c as int]@ =~= Seq::empty());
        assert(pool.stacks() =~~= stacks0.update(c as int, Seq::empty()));
        assert forall|p: int| #[trigger] pool.pool_free(p) <==> old(pool).pool_free(p) by {
            if holds_page(s, p) {
                assert(holds_page(stacks0[c as int], p));
                assert(cached(stacks0, p));
            }
        }
        assert forall|p: int|
            0 <= p < pool.meta@.len() && #[trigger] pool.pool_free(p) implies pool.meta@[p].refs == 0 by {
            assert(old(pool).pool_free(p));
        }
    }
}

/// Last resort: drain the magazines of all other CPUs, then take a single frame
/// from the buddy allocator.
pub fn emergency_reclaim_sync(pool: &mut FramePool, cpu: usize) -> (r: Option<PhysAddr>)
    requires
        old(pool).inv(),
        cpu < NUM_MAGAZINES,
    ensures
        final(pool).inv(),
        final(pool).meta == old(pool).meta,
        final(pool).buddy.total() == old(pool).buddy.total(),
        final(pool).free_count() == old(pool).free_count() - if r is Some {
            1int
        } else {
            0
        },
        final(pool).stacks() == emptied(old(pool).stacks(), cpu as int),
        ({
            let drained = reclaimed(
                old(pool).buddy.lists(),
                old(pool).stacks(),
                cpu as int,
                NUM_MAGAZINES as int,
            );
            let from = first_nonempty(drained, 0);
            &&& r is Some <==> from <= MAX_ORDER
            &&& r matches Some(a) ==> a == drained[from].last() && fits(a, 0)
                && final(pool).buddy.lists() == after_split(drained, 0, from)
            &&& r is None ==> final(pool).buddy.lists() == drained
        }),
        r is None ==> forall|p: int| !is_free(final(pool).buddy.lists(), p),
        r is None ==> forall|p: int| #[trigger] final(pool).pool_free(p) <==> old(pool).pool_free(p),
        r matches Some(a) ==> old(pool).pool_free(pfn(a)) && forall|p: int| #[trigger]
            final(pool).pool_free(p) <==> old(pool).pool_free(p) && p != pfn(a),
{
    let ghost stacks0 = pool.stacks();
    let ghost lists0 = pool.buddy.lists();
    let mut i: usize = 0;
    while i < NUM_MAGAZINES
        invariant
            i <= NUM_MAGAZINES,
            cpu < NUM_MAGAZINES,
            pool.inv(),
            pool.meta == old(pool).meta,
            pool.free_count() == old(pool).free_count(),
            pool.buddy.total() == old(pool).buddy.total(),
            stacks0 == old(pool).stacks(),
            stacks0.len() == NUM_MAGAZINES,
            lists0 == old(pool).buddy.lists(),
            pool.stacks().len() == NUM_MAGAZINES,
            forall|c: int|
                0 <= c < NUM_MAGAZINES ==> #[trigger] pool.stacks()[c] == if c < i && c != cpu {
                    Seq::empty()
                } else {
                    stacks0[c]
                },
            pool.buddy.lists() == reclaimed(lists0, stacks0, cpu as int, i as int),
            forall|p: int| #[trigger] pool.pool_free(p) <==> old(pool).pool_free(p),
        decreases NUM_MAGAZINES - i,
    {
        if i != cpu {
            let ghost stacks1 = pool.stacks();
            let ghost lists1 = pool.buddy.lists();
            assert(stacks1[i as int] == stacks0[i as int]);
            if !pool.magazines[i].is_empty() {
                drain_magazine(pool, i);
            } else {
                proof {
                    assert(stacks1[i as int] =~= Seq::empty());
                    assert(after_return(lists1, stacks0[i as int]) == lists1);
                }
            }
        }
        i += 1;
    }
    proof {
        assert(pool.stacks() =~~= emptied(stacks0, cpu as int));
    }
    let ghost mid = *pool;
    let r = pool.buddy.alloc_block(0);
    proof {
        lemma2_to64();
        assert(pool.stacks() =~= mid.stacks());
        match r {
            Some(a) => {
                lemma_single(a);
                assert(in_block(a, 0, pfn(a)));
                assert(mid.pool_free(pfn(a)));
                assert forall|p: int| #[trigger]
                    pool.pool_free(p) <==> old(pool).pool_free(p) && p != pfn(a) by {
                    assert(mid.pool_free(p) <==> old(pool).pool_free(p));
                    assert(in_block(a, 0, p) <==> p == pfn(a));
                    if p == pfn(a) {
                        assert(!cached(mid.stacks(), p));
                    }
                }
            },
            None => {
                lemma_empty_iff(pool.buddy.lists());
                assert forall|p: int| #[trigger] pool.pool_free(p) <==> old(pool).pool_free(p) by {
                    assert(mid.pool_free(p) <==> old(pool).pool_free(p));
                }
            },
        }
        assert forall|p: int|
            0 <= p < pool.meta@.len() && #[trigger] pool.pool_free(p) implies pool.meta@[p].refs == 0 by {
            assert(old(pool).pool_free(p));
        }
    }
    r
}

/// What a single-frame allocation on `cpu` for `role` does to the pool.
pub open spec fn frame_allocated(
    before: &FramePool,
    after: &FramePool,
    cpu: int,
    role: PageRole,
    r: Option<PhysAddr>,
) -> bool {
    let lists = before.buddy.lists();
    let stacks = before.stacks();
    &&& r == next_frame(lists, stacks, cpu)
    &&& after.buddy.lists() == lists_after(lists, stacks, cpu)
    &&& after.stacks() == stacks_after(lists, stacks, cpu)
    &&& after.buddy.total() == before.buddy.total()
    &&& after.free_count() == before.free_count() - if r is Some {
        1int
    } else {
        0
    }
    &&& r is None ==> after.meta@ == before.meta@ && (forall|p: int| !#[trigger] before.pool_free(p))
        && forall|p: int| !#[trigger] after.pool_free(p)
    &&& r matches Some(a) ==> {
        &&& fits(a, 0)
        &&& after.meta@ == finalized(before.meta@, a, role)
        &&& before.pool_free(pfn(a))
        &&& forall|p: int| #[trigger]
            after.pool_free(p) <==> before.pool_free(p) && p != pfn(a)
    }
}

/// Take the frame that the magazine of `cpu` or the buddy allocator has at hand.
fn take_at_hand(pool: &mut FramePool, cpu: usize) -> (r: Option<PhysAddr>)
    requires
        old(pool).inv(),
        cpu < NUM_MAGAZINES,
    ensures
        final(pool).inv(),
        final(pool).meta == old(pool).meta,
        final(pool).buddy.total() == old(pool).buddy.total(),
        final(pool).free_count() == old(pool).free_count() - if r is Some {
            1int
        } else {
            0
        },
        r is None <==> old(pool).stacks()[cpu as int].len() == 0 && first_nonempty(
            old(pool).buddy.lists(),
            0,
        ) > MAX_ORDER,
        r is None ==> final(pool).stacks() == old(pool).stacks() && final(pool).buddy.lists() == old(pool).buddy.lists(),
        r matches Some(a) ==> {
            &&& r == next_frame(old(pool).buddy.lists(), old(pool).stacks(), cpu as int)
            &&& final(pool).buddy.lists() == lists_after(
                old(pool).buddy.lists(),
                old(pool).stacks(),
                cpu as int,
            )
            &&& final(pool).stacks() == stacks_after(
                old(pool).buddy.lists(),
                old(pool).stacks(),
                cpu as int,
            )
            &&& fits(a, 0)
            &&& old(pool).pool_free(pfn(a))
            &&& forall|p: int| #[trigger]
                final(pool).pool_free(p) <==> old(pool).pool_free(p) && p != pfn(a)
        },
{
    let ghost stacks0 = pool.stacks();
    let ghost lists0 = pool.buddy.lists();
    let ghost c = cpu as int;
    assert(stacks0[c] == pool.magazines@[c]@);
    if !pool.magazines[cpu].is_empty() {
        let ghost s = stacks0[c];
        proof {
            lemma_drop_last(s);
            lemma_cached_update(stacks0, c, s.drop_last());
            lemma_held_update(stacks0, c, s.drop_last(), NUM_MAGAZINES as int);
        }
        let r = pool.magazines[cpu].pop();
        proof {
            let a = r->0;
            assert(pool.stacks() =~~= stacks0.update(c, s.drop_last()));
            assert(holds_page(s, pfn(a))) by {
                assert(s[s.len() - 1] == a);
            }
            assert(holds_page(stacks0[c], pfn(a)));
            assert(cached(stacks0, pfn(a)));
            assert(all_fit(stacks0[c]));
            assert(fits(s[s.len() - 1], 0));
            assert forall|p: int| #[trigger]
                pool.pool_free(p) <==> old(pool).pool_free(p) && p != pfn(a) by {
                if holds_page(stacks0[c], p) {
                    assert(cached(stacks0, p));
                }
            }
            assert forall|p: int|
                0 <= p < pool.meta@.len() && #[trigger] pool.pool_free(p) implies pool.meta@[p].refs
                == 0 by {
                assert(old(pool).pool_free(p));
            }
            assert forall|p: int| #[trigger] cached(pool.stacks(), p) implies !is_free(
                pool.buddy.lists(),
                p,
            ) by {
                assert(old(pool).pool_free(p));
                if holds_page(stacks0[c], p) {
                    assert(cached(stacks0, p));
                }
            }
        }
        return r;
    }
    let r = pool.buddy.alloc_block(0);
    proof {
        lemma2_to64();
        assert(pool.stacks() =~= stacks0);
        if let Some(a) = r {
            lemma_single(a);
            assert(in_block(a, 0, pfn(a)));
            assert(is_free(lists0, pfn(a)));
            assert(old(pool).pool_free(pfn(a)));
            assert forall|p: int| #[trigger]
                pool.pool_free(p) <==> old(pool).pool_free(p) && p != pfn(a) by {
                assert(in_block(a, 0, p) <==> p == pfn(a));
                if p == pfn(a) {
                    assert(!cached(stacks0, p));
                }
            }
        }
        assert forall|p: int|
            0 <= p < pool.meta@.len() && #[trigger] pool.pool_free(p) implies pool.meta@[p].refs == 0 by {
            assert(old(pool).pool_free(p));
        }
    }
    r
}

/// Allocate a single frame on `cpu`: from its magazine, else from the buddy
/// allocator, else by emergency reclaim.  `None` exactly where no frame is free
/// anywhere.
pub fn alloc_raw_frame_sync(pool: &mut FramePool, cpu: usize, role: PageRole) -> (r: Option<PhysAddr>)
    requires
        old(pool).inv(),
        cpu < NUM_MAGAZINES,
    ensures
        final(pool).inv(),
        frame_allocated(old(pool), final(pool), cpu as int, role, r),
{
    let first = take_at_hand(pool, cpu);
    let ghost mid = *pool;
    let taken = match first {
        Some(addr) => Some(addr),
        None => {
            proof {
                assert forall|p: int| #[trigger] mid.pool_free(p) <==> old(pool).pool_free(p) by {}
            }
            emergency_reclaim_sync(pool, cpu)
        },
    };
    let ghost end = *pool;
    proof {
        if taken is None {
            assert(pool.stacks() =~= emptied(old(pool).stacks(), cpu as int));
            assert forall|p: int| !#[trigger] old(pool).pool_free(p) by {
                if old(pool).pool_free(p) {
                    assert(mid.pool_free(p));
                    assert(pool.pool_free(p));
                    assert(cached(pool.stacks(), p));
                    let c = choose|c: int|
                        0 <= c < pool.stacks().len() && holds_page(#[trigger] pool.stacks()[c], p);
                    assert(pool.stacks()[c].len() == 0);
                }
            }
            assert forall|p: int| !#[trigger] pool.pool_free(p) by {
                assert(pool.pool_free(p) ==> mid.pool_free(p));
                assert(mid.pool_free(p) ==> old(pool).pool_free(p));
            }
        }
    }
    match taken {
        Some(addr) => {
            assert(mid.pool_free(pfn(addr)) || old(pool).pool_free(pfn(addr)));
            assert(old(pool).pool_free(pfn(addr)));
            let r = finalize_alloc(pool, addr, role);
            proof {
                assert(pool.stacks() =~= end.stacks());
                assert forall|p: int| #[trigger]
                    pool.pool_free(p) <==> old(pool).pool_free(p) && p != pfn(addr) by {
                    assert(end.pool_free(p) <==> pool.pool_free(p));
                    assert(mid.pool_free(p) ==> old(pool).pool_free(p));
                }
                assert forall|p: int|
                    0 <= p < pool.meta@.len() && #[trigger] pool.pool_free(p) implies pool.meta@[p].refs
                    == 0 by {
                    assert(end.pool_free(p));
                }
            }
            Some(r)
        },
        None => None,
    }
}

/// Allocate a single frame where the caller may have waited for pages to be
/// reclaimed: the buddy allocator is asked again before the emergency reclaim.
pub fn alloc_raw_frame(pool: &mut FramePool, cpu: usize, role: PageRole) -> (r: Option<PhysAddr>)
    requires
        old(pool).inv(),
        cpu < NUM_MAGAZINES,
    ensures
        final(pool).inv(),
        frame_allocated(old(pool), final(pool), cpu as int, role, r),
{
    alloc_raw_frame_sync(pool, cpu, role)
}

/// Allocate a single frame for anonymous user memory.
pub fn frame_alloc_sync(pool: &mut FramePool, cpu: usize) -> (r: Option<PhysAddr>)
    requires
        old(pool).inv(),
        cpu < NUM_MAGAZINES,
    ensures
        final(pool).inv(),
        frame_allocated(old(pool), final(pool), cpu as int, PageRole::UserAnon, r),
{
    alloc_raw_frame_sync(pool, cpu, PageRole::UserAnon)
}

/// The frame at `addr` was given back: it is on top of the magazine of `cpu`, of which half
/// was drained where it was full.
pub open spec fn frame_returned(
    before: &FramePool,
    after: &FramePool,
    cpu: int,
    addr: PhysAddr,
) -> bool {
    let s = before.stacks()[cpu];
    let keep = s.len() - s.len() / 2;
    &&& after.buddy.total() == before.buddy.total()
    &&& if s.len() < MAGAZINE_CAPACITY {
        &&& after.stacks() == before.stacks().update(cpu, s.push(addr))
        &&& after.buddy == before.buddy
    } else {
        &&& after.stacks() == before.stacks().update(cpu, s.take(keep).push(addr))
        &&& after.buddy.lists() == after_return(before.buddy.lists(), s.skip(keep))
    }
}

/// One reference to the frame at `addr` was dropped; with the last one it was given back, as
/// was a frame without metadata.
pub open spec fn reference_dropped(
    before: &FramePool,
    after: &FramePool,
    cpu: int,
    addr: PhysAddr,
) -> bool {
    let i = pfn(addr);
    let m = before.meta@[i];
    let known = i < before.meta@.len();
    let last = known ==> m.refs == 1;
    &&& known ==> after.meta@ == before.meta@.update(
        i,
        VmPage {
            refs: (m.refs - 1) as u32,
            role_flags: if last {
                role_byte(PageRole::Free)
            } else {
                m.role_flags
            },
            ..m
        },
    )
    &&& !known ==> after.meta == before.meta
    &&& last ==> frame_returned(before, after, cpu, addr)
    &&& !last ==> after.buddy == before.buddy && after.magazines == before.magazines
    &&& forall|p: int| #[trigger]
        after.pool_free(p) <==> before.pool_free(p) || (last && p == i)
    &&& after.free_count() == before.free_count() + if last {
        1int
    } else {
        0
    }
}

/// Give the frame at `addr` back through the magazine of `cpu`, which drains
/// half of itself first where it is full.
pub fn free_raw_frame(pool: &mut FramePool, cpu: usize, addr: PhysAddr)
    requires
        old(pool).inv(),
        cpu < NUM_MAGAZINES,
        fits(addr, 0),
        !old(pool).pool_free(pfn(addr)),
        pfn(addr) < old(pool).meta@.len() ==> old(pool).meta@[pfn(addr)].refs == 0,
        old(pool).free_count() < usize::MAX,
    ensures
        final(pool).inv(),
        final(pool).meta == old(pool).meta,
        final(pool).buddy.total() == old(pool).buddy.total(),
        frame_returned(old(pool), final(pool), cpu as int, addr),
        forall|p: int| #[trigger]
            final(pool).pool_free(p) <==> old(pool).pool_free(p) || p == pfn(addr),
        final(pool).free_count() == old(pool).free_count() + 1,
{
    let ghost c = cpu as int;
    let ghost stacks0 = pool.stacks();
    let ghost lists0 = pool.buddy.lists();
    let ghost s = stacks0[c];
    let ghost keep = s.len() - s.len() / 2;
    proof {
        assert(s == pool.magazines@[c]@);
        lemma_cut(s, keep);
        lemma_held_at_least(stacks0, c, NUM_MAGAZINES as int);
        assert forall|p: int| #[trigger] holds_page(s, p) implies cached(stacks0, p) by {
            assert(holds_page(stacks0[c], p));
        }
    }
    if pool.magazines[cpu].is_full() {
        let ghost low = s.take(keep);
        let ghost back = s.skip(keep);
        proof {
            assert(returnable(lists0, back)) by {
                assert forall|p: int| #[trigger] holds_page(back, p) implies !is_free(lists0, p) by {
                    assert(holds_page(s, p));
                    assert(cached(stacks0, p));
                }
            }
            lemma_held_update(stacks0, c, low, NUM_MAGAZINES as int);
            lemma_cached_update(stacks0, c, low);
            assert forall|p: int| #[trigger] holds_page(low, p) implies holds_page(stacks0[c], p)
                || !cached(stacks0, p) by {
                assert(holds_page(s, p));
            }
        }
        pool.magazines[cpu].drain_half(&mut pool.buddy);
        proof {
            assert(pool.stacks() =~~= stacks0.update(c, low));
            assert forall|p: int| #[trigger] pool.pool_free(p) <==> old(pool).pool_free(p) by {
                if holds_page(s, p) {
                    assert(cached(stacks0, p));
                }
                assert(holds_page(s, p) <==> holds_page(low, p) || holds_page(back, p));
            }
            assert forall|p: int| #[trigger] cached(pool.stacks(), p) implies !is_free(
                pool.buddy.lists(),
                p,
            ) by {
                assert(holds_page(low, p) || cached(stacks0, p) && !holds_page(s, p));
                assert(holds_page(low, p) ==> holds_page(s, p));
                assert(cached(stacks0, p));
            }
        }
    } else {
        proof {
            assert(stacks0.update(c, s) =~~= stacks0);
        }
    }
    let ghost mid = *pool;
    let ghost stacks1 = pool.stacks();
    let ghost s1 = stacks1[c];
    proof {
        assert(s1 == pool.magazines@[c]@);
        assert(mid.pool_free(pfn(addr)) <==> old(pool).pool_free(pfn(addr)));
        lemma_held_update(stacks1, c, s1.push(addr), NUM_MAGAZINES as int);
        lemma_cached_update(stacks1, c, s1.push(addr));
        lemma_holds_push(s1, addr);
        assert(!holds_page(s1, pfn(addr))) by {
            if holds_page(s1, pfn(addr)) {
                assert(holds_page(stacks1[c], pfn(addr)));
                assert(cached(stacks1, pfn(addr)));
            }
        }
        assert forall|x: int, y: int| 0 <= x < y < s1.push(addr).len() implies (
        #[trigger] s1.push(addr)[x]).0 as int / 4096 != (#[trigger] s1.push(addr)[y]).0 as int
            / 4096 by {
            assert(distinct_pages(stacks1[c]));
            if y == s1.len() {
                assert(s1[x].0 as int / 4096 != pfn(addr));
            } else {
                assert(s1[x] == s1.push(addr)[x] && s1[y] == s1.push(addr)[y]);
            }
        }
        assert(all_fit(s1.push(addr))) by {
            assert(all_fit(stacks1[c]));
        }
    }
    let _ = pool.magazines[cpu].push(addr);
    proof {
        assert(pool.stacks() =~~= stacks1.update(c, s1.push(addr)));
        assert(pool.stacks() =~~= stacks0.update(c, s1.push(addr)));
        assert forall|p: int| #[trigger]
            pool.pool_free(p) <==> old(pool).pool_free(p) || p == pfn(addr) by {
            assert(mid.pool_free(p) <==> old(pool).pool_free(p));
            if holds_page(s1, p) {
                assert(holds_page(stacks1[c], p));
                assert(cached(stacks1, p));
            }
        }
        assert forall|p: int| #[trigger] cached(pool.stacks(), p) implies !is_free(
            pool.buddy.lists(),
            p,
        ) by {
            if holds_page(s1, p) {
                assert(holds_page(stacks1[c], p));
                assert(cached(stacks1, p));
            }
            if p == pfn(addr) {
                assert(!mid.pool_free(p));
            }
        }
        assert forall|p: int|
            0 <= p < pool.meta@.len() && #[trigger] pool.pool_free(p) implies pool.meta@[p].refs == 0 by {
            assert(old(pool).pool_free(p) || p == pfn(addr));
        }
    }
}

/// Drop one reference to the frame at `addr`; the last one gives it back.
pub fn frame_free(pool: &mut FramePool, cpu: usize, addr: PhysAddr)
    requires
        old(pool).inv(),
        cpu < NUM_MAGAZINES,
        fits(addr, 0),
        pfn(addr) < old(pool).meta@.len() ==> old(pool).meta@[pfn(addr)].refs > 0,
        !old(pool).pool_free(pfn(addr)),
        old(pool).free_count() < usize::MAX,
    ensures
        final(pool).inv(),
        reference_dropped(old(pool), final(pool), cpu as int, addr),
{
    let ghost i0 = pfn(addr);
    if let Some(i) = frame_index(pool.meta.len(), addr) {
        let old_ref = pool.meta[i].dec_ref();
        if old_ref > 1 {
            proof {
                assert(pool.stacks() =~= old(pool).stacks());
                assert forall|p: int| #[trigger] pool.pool_free(p) <==> old(pool).pool_free(p) by {}
                assert forall|p: int|
                    0 <= p < pool.meta@.len() && #[trigger] pool.pool_free(p) implies pool.meta@[p].refs
                    == 0 by {
                    assert(old(pool).pool_free(p));
                }
                assert(pool.meta@ =~= old(pool).meta@.update(i0, pool.meta@[i0]));
            }
            return;
        }
        pool.meta[i].set_role(PageRole::Free);
        assert(pool.meta@ =~= old(pool).meta@.update(i0, pool.meta@[i0]));
    }
    proof {
        assert(pool.stacks() =~= old(pool).stacks());
        assert forall|p: int| #[trigger] pool.pool_free(p) <==> old(pool).pool_free(p) by {}
        assert forall|p: int|
            0 <= p < pool.meta@.len() && #[trigger] pool.pool_free(p) implies pool.meta@[p].refs == 0 by {
            assert(old(pool).pool_free(p));
        }
        assert(!pool.pool_free(i0));
    }
    let ghost mid = *pool;
    free_raw_frame(pool, cpu, addr);
    proof {
        assert forall|p: int| #[trigger]
            pool.pool_free(p) <==> old(pool).pool_free(p) || p == i0 by {
            assert(mid.pool_free(p) <==> old(pool).pool_free(p));
        }
    }
}

/// Drop one usage of the frame at `addr`.
pub fn frame_free_usage(pool: &mut FramePool, cpu: usize, addr: PhysAddr)
    requires
        old(pool).inv(),
        cpu < NUM_MAGAZINES,
        fits(addr, 0),
        pfn(addr) < old(pool).meta@.len() ==> old(pool).meta@[pfn(addr)].refs > 0,
        !old(pool).pool_free(pfn(addr)),
        old(pool).free_count() < usize::MAX,
    ensures
        final(pool).inv(),
        reference_dropped(old(pool), final(pool), cpu as int, addr),
{
    frame_free(pool, cpu, addr);
}

/// One reference to each of `frames` was dropped, one after the other.
pub open spec fn references_dropped(
    before: &FramePool,
    after: &FramePool,
    cpu: int,
    frames: Seq<PhysAddr>,
) -> bool {
    exists|pools: Seq<FramePool>| #[trigger]
        drops_in_turn(pools, cpu, frames) && pools[0] == *before && pools[frames.len() as int]
            == *after
}

/// Each frame takes one pool to the next.
pub open spec fn drops_in_turn(pools: Seq<FramePool>, cpu: int, frames: Seq<PhysAddr>) -> bool {
    &&& pools.len() == frames.len() + 1
    &&& forall|i: int|
        0 <= i < frames.len() ==> reference_dropped(
            &pools[i],
            &pools[i + 1],
            cpu,
            #[trigger] frames[i],
        )
}

/// Drop one reference to each of `frames`.
pub fn release_frames(pool: &mut FramePool, cpu: usize, frames: &Vec<PhysAddr>)
    requires
        old(pool).inv(),
        cpu < NUM_MAGAZINES,
        distinct_pages(frames@),
        all_fit(frames@),
        forall|p: int| #[trigger] holds_page(frames@, p) ==> !old(pool).pool_free(p),
        forall|p: int|
            0 <= p < old(pool).meta@.len() && #[trigger] holds_page(frames@, p) ==> old(pool).meta@[p].refs > 0,
        old(pool).free_count() + frames@.len() <= usize::MAX,
    ensures
        final(pool).inv(),
        references_dropped(old(pool), final(pool), cpu as int, frames@),
        final(pool).meta@.len() == old(pool).meta@.len(),
        forall|p: int|
            0 <= p < old(pool).meta@.len() ==> (#[trigger] final(pool).meta@[p]).refs == old(pool).meta@[p].refs - if holds_page(frames@, p) {
                1int
            } else {
                0
            },
        forall|p: int| #[trigger]
            final(pool).pool_free(p) <==> old(pool).pool_free(p) || holds_page(frames@, p) && (p
                < old(pool).meta@.len() ==> old(pool).meta@[p].refs == 1),
{
    let mut i: usize = 0;
    let ghost mut pools = seq![*pool];
    assert(frames@.take(0) =~= Seq::empty());
    while i < frames.len()
        invariant
            i <= frames@.len(),
            cpu < NUM_MAGAZINES,
            pool.inv(),
            drops_in_turn(pools, cpu as int, frames@.take(i as int)),
            pools[0] == *old(pool),
            pools[i as int] == *pool,
            distinct_pages(frames@),
            all_fit(frames@),
            forall|p: int| #[trigger] holds_page(frames@, p) ==> !old(pool).pool_free(p),
            forall|p: int|
                0 <= p < old(pool).meta@.len() && #[trigger] holds_page(frames@, p) ==> old(pool).meta@[p].refs > 0,
            old(pool).free_count() + frames@.len() <= usize::MAX,
            pool.free_count() <= old(pool).free_count() + i,
            pool.meta@.len() == old(pool).meta@.len(),
            forall|p: int|
                0 <= p < old(pool).meta@.len() ==> (#[trigger] pool.meta@[p]).refs == old(pool).meta@[p].refs - if holds_page(frames@.take(i as int), p) {
                    1int
                } else {
                    0
                },
            forall|p: int| #[trigger]
                pool.pool_free(p) <==> old(pool).pool_free(p) || holds_page(
                    frames@.take(i as int),
                    p,
                ) && (p < old(pool).meta@.len() ==> old(pool).meta@[p].refs == 1),
        decreases frames@.len() - i,
    {
        let addr = frames[i];
        let ghost done = frames@.take(i as int);
        let ghost before = *pool;
        proof {
            let p = pfn(addr);
            assert(frames@[i as int] == addr);
            assert(holds_page(frames@, p));
            assert(!holds_page(done, p)) by {
                if holds_page(done, p) {
                    let j = choose|j: int|
                        0 <= j < done.len() && (#[trigger] done[j]).0 as int / 4096 == p;
                    assert(done[j] == frames@[j]);
                }
            }
            assert(!old(pool).pool_free(p));
            assert(!pool.pool_free(p));
            assert(frames@.take(i + 1) =~= done.push(addr));
            lemma_holds_push(done, addr);
        }
        frame_free(pool, cpu, addr);
        proof {
            let was = pools;
            pools = pools.push(*pool);
            assert forall|j: int| 0 <= j < i + 1 implies reference_dropped(
                &pools[j],
                &pools[j + 1],
                cpu as int,
                #[trigger] frames@.take(i + 1)[j],
            ) by {
                if j < i {
                    assert(frames@.take(i as int)[j] == frames@.take(i + 1)[j]);
                    assert(pools[j] == was[j] && pools[j + 1] == was[j + 1]);
                } else {
                    assert(pools[j] == before);
                }
            }
            assert forall|p: int| #[trigger]
                pool.pool_free(p) <==> old(pool).pool_free(p) || holds_page(
                    frames@.take(i + 1),
                    p,
                ) && (p < old(pool).meta@.len() ==> old(pool).meta@[p].refs == 1) by {
                assert(before.pool_free(p) <==> old(pool).pool_free(p) || holds_page(done, p) && (p
                    < old(pool).meta@.len() ==> old(pool).meta@[p].refs == 1));
            }
        }
        i += 1;
    }
    assert(frames@.take(frames@.len() as int) =~= frames@);
}

/// Allocate `2^order` contiguous pages straight from the buddy allocator.
pub fn frame_alloc_contiguous(pool: &mut FramePool, order: usize) -> (r: Option<PhysAddr>)
    requires
        old(pool).inv(),
        order <= MAX_ORDER,
    ensures
        final(pool).inv(),
        final(pool).meta == old(pool).meta,
        final(pool).magazines == old(pool).magazines,
        final(pool).buddy.total() == old(pool).buddy.total(),
        ({
            let from = first_nonempty(old(pool).buddy.lists(), order as int);
            &&& r is Some <==> from <= MAX_ORDER
            &&& r is None ==> final(pool).buddy.lists() == old(pool).buddy.lists()
            &&& r matches Some(a) ==> {
                &&& a == old(pool).buddy.lists()[from].last()
                &&& naturally_aligned(a, order as int)
                &&& fits(a, order as int)
                &&& final(pool).buddy.lists() == after_split(
                    old(pool).buddy.lists(),
                    order as int,
                    from,
                )
                &&& forall|p: int| #[trigger]
                    final(pool).pool_free(p) <==> old(pool).pool_free(p) && !in_block(
                        a,
                        order as int,
                        p,
                    )
                &&& forall|p: int| #[trigger]
                    in_block(a, order as int, p) ==> is_free(old(pool).buddy.lists(), p)
            }
        }),
{
    let r = pool.buddy.alloc_block(order);
    proof {
        assert(pool.stacks() =~= old(pool).stacks());
        lemma_pow2_pos(order as nat);
        if let Some(a) = r {
            assert forall|p: int| #[trigger]
                pool.pool_free(p) <==> old(pool).pool_free(p) && !in_block(a, order as int, p) by {}
        }
        assert forall|p: int|
            0 <= p < pool.meta@.len() && #[trigger] pool.pool_free(p) implies pool.meta@[p].refs == 0 by {
            assert(old(pool).pool_free(p));
        }
    }
    r
}

/// Give `2^order` contiguous pages back to the buddy allocator.
pub fn frame_free_contiguous(pool: &mut FramePool, addr: PhysAddr, order: usize)
    requires
        old(pool).inv(),
        order <= MAX_ORDER,
        fits(addr, order as int),
        naturally_aligned(addr, order as int),
        forall|p: int| #[trigger] in_block(addr, order as int, p) ==> !old(pool).pool_free(p),
        forall|p: int|
            0 <= p < old(pool).meta@.len() && #[trigger] in_block(addr, order as int, p) ==> old(pool).meta@[p].refs == 0,
        old(pool).free_count() + pow2(order as nat) <= usize::MAX,
    ensures
        final(pool).inv(),
        final(pool).meta == old(pool).meta,
        final(pool).magazines == old(pool).magazines,
        final(pool).buddy.lists() == after_free(old(pool).buddy.lists(), addr, order as int),
        final(pool).buddy.total() == old(pool).buddy.total(),
        forall|p: int| #[trigger]
            final(pool).pool_free(p) <==> old(pool).pool_free(p) || in_block(addr, order as int, p),
{
    proof {
        lemma_held_nonneg(pool.stacks(), NUM_MAGAZINES as int);
        assert forall|p: int| #[trigger] in_block(addr, order as int, p) implies !is_free(
            pool.buddy.lists(),
            p,
        ) by {
            assert(!pool.pool_free(p));
        }
    }
    pool.buddy.free(addr, order);
    proof {
        assert(pool.stacks() =~= old(pool).stacks());
        assert forall|p: int| #[trigger]
            pool.pool_free(p) <==> old(pool).pool_free(p) || in_block(addr, order as int, p) by {}
        assert forall|p: int| #[trigger] cached(pool.stacks(), p) implies !is_free(
            pool.buddy.lists(),
            p,
        ) by {
            assert(old(pool).pool_free(p));
        }
        assert forall|p: int|
            0 <= p < pool.meta@.len() && #[trigger] pool.pool_free(p) implies pool.meta@[p].refs == 0 by {
            assert(old(pool).pool_free(p) || in_block(addr, order as int, p));
        }
    }
}

/// Contiguous pages that were allocated and are given back: the buddy allocator has as many
/// pages as before, the same ones, and the order can be allocated again.
pub proof fn law_contiguous_pages_come_back(
    before: &FramePool,
    taken: &FramePool,
    back: &FramePool,
    addr: PhysAddr,
    order: int,
)
    requires
        before.inv(),
        back.inv(),
        0 <= order <= MAX_ORDER,
        first_nonempty(before.buddy.lists(), order) <= MAX_ORDER,
        addr == before.buddy.lists()[first_nonempty(before.buddy.lists(), order)].last(),
        taken.buddy.lists() == after_split(
            before.buddy.lists(),
            order,
            first_nonempty(before.buddy.lists(), order),
        ),
        back.buddy.lists() == after_free(taken.buddy.lists(), addr, order),
    ensures
        back.buddy.available() == before.buddy.available(),
        forall|p: int| #[trigger]
            is_free(back.buddy.lists(), p) <==> is_free(before.buddy.lists(), p),
        first_nonempty(back.buddy.lists(), order) <= MAX_ORDER,
{
    law_alloc_then_free_restores(before.buddy.lists(), order);
    law_weight_counts_free_pages(before.buddy.lists());
    law_weight_counts_free_pages(back.buddy.lists());
    assert(free_set(back.buddy.lists()) =~= free_set(before.buddy.lists()));
    lemma_given_back_can_be_had(taken.buddy.lists(), addr, order, order);
}

/// Number of free pages in the buddy allocator, without those in magazines.
pub fn available_pages(pool: &FramePool) -> (r: usize)
    ensures
        r == pool.buddy.available(),
{
    pool.buddy.available_pages()
}

/// Pages taken by the metadata of `max_pfn` frames of `entry_size` bytes each.
pub open spec fn meta_pages(max_pfn: int, entry_size: int) -> int {
    (max_pfn * entry_size + 4095) / 4096
}

/// Set the pool up over `[start, end)`: the metadata of all frames below `end`
/// comes first, `entry_size` bytes each, and the rest is free.
pub fn init_frame_allocator(start: PhysAddr, end: PhysAddr, entry_size: u64) -> (r: FramePool)
    requires
        start.is_page_aligned(),
        end.is_page_aligned(),
        end.0 as int / 4096 * entry_size + 4095 <= u64::MAX,
        end.0 as int / 4096 <= usize::MAX,
        start.0 + meta_pages(end.0 as int / 4096, entry_size as int) * 4096 < end.0,
    ensures
        r.inv(),
        ({
            let first = start.0 + meta_pages(end.0 as int / 4096, entry_size as int) * 4096;
            &&& r.buddy.lists() == after_init(
                Seq::new((MAX_ORDER + 1) as nat, |k: int| Seq::<PhysAddr>::empty()),
                first,
                end.0 as int,
            )
            &&& r.buddy.total() == (end.0 - first) / 4096
            &&& r.buddy.available() == (end.0 - first) / 4096
            &&& r.free_count() == (end.0 - first) / 4096
            &&& forall|p: int| #[trigger]
                r.pool_free(p) <==> first / 4096 <= p < end.0 as int / 4096
        }),
        r.meta@.len() == end.0 as int / 4096,
        forall|i: int|
            0 <= i < r.meta@.len() ==> (#[trigger] r.meta@[i]).phys_addr.0 == i * 4096
                && r.meta@[i].refs == 0 && r.meta@[i].busy_state == 0 && r.meta@[i].role_flags == 0
                && r.meta@[i].object is None,
        forall|c: int| 0 <= c < NUM_MAGAZINES ==> (#[trigger] r.stacks()[c]).len() == 0,
{
    let max_pfn: u64 = end.0 / PAGE_SIZE;
    proof {
        assert(max_pfn * entry_size >= 0) by (nonlinear_arith);
    }
    let meta_size_bytes: u64 = max_pfn * entry_size;
    let n_meta: u64 = (meta_size_bytes + (PAGE_SIZE - 1)) / PAGE_SIZE;
    let buddy_start = PhysAddr::new(start.0 + n_meta * PAGE_SIZE);
    let mut buddy = BuddyAllocator::new();
    buddy.init(buddy_start, end);
    let mut meta: Vec<VmPage> = Vec::new();
    let mut i: u64 = 0;
    while i < max_pfn
        invariant
            i <= max_pfn,
            max_pfn == end.0 / 4096,
            meta@.len() == i,
            forall|j: int|
                0 <= j < i ==> (#[trigger] meta@[j]).phys_addr.0 == j * 4096 && meta@[j].refs == 0
                    && meta@[j].busy_state == 0 && meta@[j].role_flags == 0 && meta@[j].object is None,
        decreases max_pfn - i,
    {
        let mut m = VmPage::new();
        m.phys_addr = PhysAddr::new(i * PAGE_SIZE);
        meta.push(m);
        i += 1;
    }
    let mut magazines: Vec<Magazine> = Vec::new();
    let mut c: usize = 0;
    while c < NUM_MAGAZINES
        invariant
            c <= NUM_MAGAZINES,
            magazines@.len() == c,
            forall|d: int|
                0 <= d < c ==> (#[trigger] magazines@[d]).wf() && magazines@[d]@.len() == 0,
        decreases NUM_MAGAZINES - c,
    {
        magazines.push(Magazine::new());
        c += 1;
    }
    let r = FramePool { buddy, magazines, meta };
    proof {
        let stacks = r.stacks();
        assert forall|p: int| !#[trigger] cached(stacks, p) by {
            if cached(stacks, p) {
                let c = choose|c: int| 0 <= c < stacks.len() && holds_page(#[trigger] stacks[c], p);
                assert(stacks[c].len() == 0);
            }
        }
        lemma_held_empty(stacks, NUM_MAGAZINES as int);
        assert forall|c: int, d: int, p: int|
            #![trigger holds_page(stacks[c], p), holds_page(stacks[d], p)]
            0 <= c < stacks.len() && 0 <= d < stacks.len() && holds_page(stacks[c], p) && holds_page(
                stacks[d],
                p,
            ) implies c == d by {
            assert(stacks[c].len() == 0);
        }
    }
    r
}

proof fn lemma_held_empty(stacks: Stacks, n: int)
    requires
        n <= stacks.len(),
        forall|c: int| 0 <= c < n ==> (#[trigger] stacks[c]).len() == 0,
    ensures
        held(stacks, n) == 0,
    decreases n,
{
    if n > 0 {
        lemma_held_empty(stacks, n - 1);
        assert(stacks[n - 1].len() == 0);
    }
}

/// Two frames taken one after the other are different, and neither is free afterwards.
pub proof fn law_frames_differ(
    before: &FramePool,
    between: &FramePool,
    after: &FramePool,
    cpu1: int,
    cpu2: int,
    role1: PageRole,
    role2: PageRole,
    a: PhysAddr,
    b: PhysAddr,
)
    requires
        frame_allocated(before, between, cpu1, role1, Some(a)),
        frame_allocated(between, after, cpu2, role2, Some(b)),
    ensures
        pfn(a) != pfn(b),
        !after.pool_free(pfn(a)),
        !after.pool_free(pfn(b)),
{
    assert(!between.pool_free(pfn(a)));
}

/// The pages of frames.
pub open spec fn page_set(frames: Seq<PhysAddr>) -> Set<int> {
    Set::new(|p: int| holds_page(frames, p))
}

/// The pages in the first `n` magazines.
pub open spec fn cached_set(stacks: Stacks, n: int) -> Set<int> {
    Set::new(|p: int| exists|c: int| 0 <= c < n && holds_page(#[trigger] stacks[c], p))
}

proof fn lemma_page_set(frames: Seq<PhysAddr>)
    requires
        distinct_pages(frames),
    ensures
        page_set(frames).finite(),
        page_set(frames).len() == frames.len(),
    decreases frames.len(),
{
    if frames.len() == 0 {
        assert(page_set(frames) =~= Set::empty());
    } else {
        let rest = frames.drop_last();
        let n = rest.len() as int;
        let last = frames[n].0 as int / 4096;
        lemma_page_set(rest);
        assert(!holds_page(rest, last)) by {
            if holds_page(rest, last) {
                let i = choose|i: int| 0 <= i < rest.len() && (#[trigger] rest[i]).0 as int / 4096 == last;
                assert(frames[i] == rest[i]);
            }
        }
        assert forall|p: int| holds_page(frames, p) <==> holds_page(rest, p) || p == last by {
            if holds_page(frames, p) {
                let i = choose|i: int| 0 <= i < frames.len() && (#[trigger] frames[i]).0 as int / 4096 == p;
                if i < n {
                    assert(rest[i] == frames[i]);
                }
            }
            if holds_page(rest, p) {
                let i = choose|i: int| 0 <= i < rest.len() && (#[trigger] rest[i]).0 as int / 4096 == p;
                assert(frames[i] == rest[i]);
            }
            if p == last {
                assert(frames[n].0 as int / 4096 == p);
            }
        }
        assert(page_set(frames) =~= page_set(rest).insert(last));
    }
}

proof fn lemma_cached_set(stacks: Stacks, n: int)
    requires
        sound(stacks),
        0 <= n <= stacks.len(),
    ensures
        cached_set(stacks, n).finite(),
        cached_set(stacks, n).len() == held(stacks, n),
    decreases n,
{
    if n == 0 {
        assert(cached_set(stacks, n) =~= Set::empty());
    } else {
        lemma_cached_set(stacks, n - 1);
        let s = stacks[n - 1];
        assert(distinct_pages(stacks[n - 1]));
        lemma_page_set(s);
        let before = cached_set(stacks, n - 1);
        assert forall|p: int| cached_set(stacks, n).contains(p) <==> before.contains(p)
            || page_set(s).contains(p) by {
            if page_set(s).contains(p) {
                assert(holds_page(stacks[n - 1], p));
            }
        }
        assert(cached_set(stacks, n) =~= before.union(page_set(s)));
        assert(before.disjoint(page_set(s))) by {
            assert forall|p: int| !(before.contains(p) && page_set(s).contains(p)) by {
                if before.contains(p) && page_set(s).contains(p) {
                    let c = choose|c: int| 0 <= c < n - 1 && holds_page(#[trigger] stacks[c], p);
                    assert(holds_page(stacks[c], p) && holds_page(stacks[n - 1], p));
                }
            }
        }
        vstd::set_lib::lemma_set_disjoint_lens(before, page_set(s));
    }
}

/// The set of all free pages of a pool.
pub open spec fn pool_set(pool: &FramePool) -> Set<int> {
    Set::new(|p: int| pool.pool_free(p))
}

/// The number of free frames of a pool is the number of pages that are free.
pub proof fn law_free_count_counts(pool: &FramePool)
    requires
        pool.inv(),
    ensures
        pool_set(pool).finite(),
        pool_set(pool).len() == pool.free_count(),
{
    let lists = pool.buddy.lists();
    let stacks = pool.stacks();
    let n = NUM_MAGAZINES as int;
    law_weight_counts_free_pages(lists);
    lemma_cached_set(stacks, n);
    assert forall|p: int| pool_set(pool).contains(p) <==> free_set(lists).contains(p) || cached_set(
        stacks,
        n,
    ).contains(p) by {
        if cached_set(stacks, n).contains(p) {
            let c = choose|c: int| 0 <= c < n && holds_page(#[trigger] stacks[c], p);
            assert(cached(stacks, p));
        }
    }
    assert(pool_set(pool) =~= free_set(lists).union(cached_set(stacks, n)));
    assert(free_set(lists).disjoint(cached_set(stacks, n))) by {
        assert forall|p: int| !(free_set(lists).contains(p) && cached_set(stacks, n).contains(p)) by {
            if cached_set(stacks, n).contains(p) {
                let c = choose|c: int| 0 <= c < n && holds_page(#[trigger] stacks[c], p);
                assert(cached(stacks, p));
            }
        }
    }
    vstd::set_lib::lemma_set_disjoint_lens(free_set(lists), cached_set(stacks, n));
}

/// Where only pages below `n` are free, and one of those is not, there is room for it.
pub proof fn law_room_to_free(pool: &FramePool, n: int, p: int)
    requires
        pool.inv(),
        forall|q: int| #[trigger] pool.pool_free(q) ==> 0 <= q < n,
        0 <= p < n,
        !pool.pool_free(p),
    ensures
        pool.free_count() < n,
{
    law_free_count_counts(pool);
    let all = vstd::set_lib::set_int_range(0, n);
    vstd::set_lib::lemma_int_range(0, n);
    let free = pool_set(pool);
    assert(free.insert(p).subset_of(all));
    vstd::set_lib::lemma_len_subset(free.insert(p), all);
}

/// A frame that was given back is what the same CPU gets next.
pub proof fn law_freed_frame_comes_next(
    before: &FramePool,
    after: &FramePool,
    cpu: int,
    addr: PhysAddr,
)
    requires
        before.inv(),
        0 <= cpu < NUM_MAGAZINES,
        reference_dropped(before, after, cpu, addr),
        pfn(addr) < before.meta@.len() ==> before.meta@[pfn(addr)].refs == 1,
    ensures
        next_frame(after.buddy.lists(), after.stacks(), cpu) == Some(addr),
        pfn(addr) < before.meta@.len() ==> after.meta@[pfn(addr)].role_flags == role_byte(
            PageRole::Free,
        ),
{
    let s = before.stacks()[cpu];
    let keep = s.len() - s.len() / 2;
    assert(s.push(addr).last() == addr);
    assert(s.take(keep).push(addr).last() == addr);
}

/// A frame is handed out exactly while one is free; it was free and is so no longer, whatever else is free
/// stays so, and its metadata count one reference more and name its role, while those of no other frame
/// change.
pub proof fn law_allocated_frame_was_free(
    before: &FramePool,
    after: &FramePool,
    cpu: int,
    role: PageRole,
    r: Option<PhysAddr>,
    p: int,
)
    requires
        frame_allocated(before, after, cpu, role, r),
        0 <= p,
    ensures
        r is None ==> !before.pool_free(p),
        r matches Some(a) ==> {
            let i = a.0 as int / 4096;
            &&& before.pool_free(i) && !after.pool_free(i)
            &&& p != i ==> (after.pool_free(p) <==> before.pool_free(p))
            &&& after.meta@.len() == before.meta@.len()
            &&& i < before.meta@.len() && before.meta@[i].refs < u32::MAX ==> after.meta@[i].refs
                == before.meta@[i].refs + 1
            &&& p != i && p < before.meta@.len() ==> after.meta@[p] == before.meta@[p]
        },
{
}

/// A frame is free again exactly when its last reference is dropped; until then only the count of its
/// references changes, and nothing of any other frame ever does.
pub proof fn law_last_reference_frees(
    before: &FramePool,
    after: &FramePool,
    cpu: int,
    addr: PhysAddr,
    p: int,
)
    requires
        reference_dropped(before, after, cpu, addr),
        addr.0 as int / 4096 < before.meta@.len(),
        before.meta@[addr.0 as int / 4096].refs > 0,
        0 <= p,
    ensures
        ({
            let i = addr.0 as int / 4096;
            &&& after.meta@[i].refs == before.meta@[i].refs - 1
            &&& before.meta@[i].refs == 1 ==> after.pool_free(i)
            &&& before.meta@[i].refs > 1 ==> (after.pool_free(i) <==> before.pool_free(i))
            &&& p != i ==> (after.pool_free(p) <==> before.pool_free(p))
            &&& p != i && p < before.meta@.len() ==> after.meta@[p] == before.meta@[p]
        }),
{
}

} // verus!
