//! Buddy system frame allocator.
//!
//! Blocks of `2^k` contiguous pages are kept in one free list per order `k`.
//! Allocation splits larger blocks and freeing merges a block with its buddy,
//! the neighbour from which it differs in bit `k` of the page number.
use vstd::prelude::*;
use vstd::arithmetic::power2::*;
use crate::hal::addr::{PhysAddr, PAGE_SIZE};

verus! {

/// Largest order: blocks of `2^11` pages.
pub const MAX_ORDER: usize = 11;

/// Free lists, one per order.
pub type Lists = Seq<Seq<PhysAddr>>;

/// Whether `page` lies in the block of `2^order` pages at `addr`.
pub open spec fn in_block(addr: PhysAddr, order: int, page: int) -> bool {
    addr.0 as int / 4096 <= page < addr.0 as int / 4096 + pow2(order as nat)
}

/// The page numbers of the block of `2^order` pages at `addr`.
pub open spec fn block_set(addr: PhysAddr, order: int) -> Set<int> {
    vstd::set_lib::set_int_range(
        addr.0 as int / 4096,
        addr.0 as int / 4096 + pow2(order as nat),
    )
}

/// Whether list `k` has an entry `i`.
pub open spec fn listed(lists: Lists, k: int, i: int) -> bool {
    0 <= k < lists.len() && 0 <= i < lists[k].len()
}

/// Whether `page` lies in the block that entry `i` of list `k` stands for.
pub open spec fn covers(lists: Lists, k: int, i: int, page: int) -> bool {
    listed(lists, k, i) && in_block(lists[k][i], k, page)
}

/// Whether some listed block holds `page`.
pub open spec fn is_free(lists: Lists, page: int) -> bool {
    exists|k: int, i: int| #[trigger] covers(lists, k, i, page)
}

/// No page lies in two listed blocks.
pub open spec fn disjoint(lists: Lists) -> bool {
    forall|k: int, i: int, l: int, j: int, p: int|
        #[trigger] covers(lists, k, i, p) && #[trigger] covers(lists, l, j, p) ==> k == l && i == j
}

/// Every listed address is page-aligned and its block ends below `2^64`.
pub open spec fn addressable(lists: Lists) -> bool {
    forall|k: int, i: int|
        #[trigger] listed(lists, k, i) ==> fits(lists[k][i], k)
}

/// `addr` is page-aligned and `2^order` pages at it end below `2^64`.
pub open spec fn fits(addr: PhysAddr, order: int) -> bool {
    addr.0 as int % 4096 == 0 && addr.0 + pow2(order as nat) * 4096 <= u64::MAX
}

/// Every listed block is aligned to its own size.
pub open spec fn aligned(lists: Lists) -> bool {
    forall|k: int, i: int| #[trigger] listed(lists, k, i) ==> naturally_aligned(lists[k][i], k)
}

/// `addr` is a multiple of the size of a block of `2^order` pages.
pub open spec fn naturally_aligned(addr: PhysAddr, order: int) -> bool {
    (addr.0 as int / 4096) % (pow2(order as nat) as int) == 0
}

/// Number of pages in the first `n` lists.
pub open spec fn weight(lists: Lists, n: int) -> int
    decreases n,
{
    if n <= 0 {
        0
    } else {
        weight(lists, n - 1) + lists[n - 1].len() * pow2((n - 1) as nat)
    }
}

/// The least order from `order` up whose list is not empty, or the number of
/// lists where there is none.
pub open spec fn first_nonempty(lists: Lists, order: int) -> int
    decreases lists.len() - order,
{
    if order >= lists.len() {
        lists.len() as int
    } else if lists[order].len() > 0 {
        order
    } else {
        first_nonempty(lists, order + 1)
    }
}

/// The lists after one block of `order` is cut from the last block of list
/// `from`: every order in between gains the upper half left over there.
pub open spec fn after_split(lists: Lists, order: int, from: int) -> Lists {
    Seq::new(
        lists.len(),
        |k: int|
            if k == from {
                lists[from].drop_last()
            } else if order <= k < from {
                lists[k].push(upper_half(lists[from].last(), k))
            } else {
                lists[k]
            },
    )
}

/// The upper half of a block of `2^(k+1)` pages at `addr`.
pub open spec fn upper_half(addr: PhysAddr, k: int) -> PhysAddr {
    PhysAddr((addr.0 + pow2(k as nat) * 4096) as u64)
}

/// The block that merges with the one of `2^order` pages at `addr`: the page
/// number with bit `order` flipped.
pub open spec fn buddy_of(addr: PhysAddr, order: int) -> PhysAddr {
    if (addr.0 as int / 4096 / (pow2(order as nat) as int)) % 2 == 0 {
        PhysAddr((addr.0 + pow2(order as nat) * 4096) as u64)
    } else {
        PhysAddr((addr.0 - pow2(order as nat) * 4096) as u64)
    }
}

/// `i` is the first place of `x` in `s`.
pub open spec fn is_first(s: Seq<PhysAddr>, x: PhysAddr, i: int) -> bool {
    0 <= i < s.len() && s[i] == x && forall|j: int| 0 <= j < i ==> s[j] != x
}

/// `s` with its last entry moved into place `i`.
pub open spec fn swap_out(s: Seq<PhysAddr>, i: int) -> Seq<PhysAddr> {
    s.update(i, s.last()).drop_last()
}

/// The lists after the block of `2^order` pages at `addr` is given back:
/// as long as its buddy is free the two merge into one block of the next order.
pub open spec fn after_free(lists: Lists, addr: PhysAddr, order: int) -> Lists
    decreases MAX_ORDER - order,
{
    let buddy = buddy_of(addr, order);
    if order < MAX_ORDER && lists[order].contains(buddy) {
        let i = choose|i: int| is_first(lists[order], buddy, i);
        after_free(
            lists.update(order, swap_out(lists[order], i)),
            if addr.0 <= buddy.0 {
                addr
            } else {
                buddy
            },
            order + 1,
        )
    } else {
        lists.update(order, lists[order].push(addr))
    }
}

/// The largest order up to `order` whose block at `addr` is aligned to its own
/// size and does not pass `end`.
pub open spec fn fitting_order(addr: int, end: int, order: int) -> int
    decreases order,
{
    if order <= 0 || (pow2(order as nat) <= (end - addr) / 4096 && (addr / 4096) % (pow2(
        order as nat,
    ) as int) == 0) {
        order
    } else {
        fitting_order(addr, end, order - 1)
    }
}

/// The lists after `[addr, end)` is cut, from the low end, into the largest
/// aligned blocks and each is listed.
pub open spec fn after_init(lists: Lists, addr: int, end: int) -> Lists
    decreases end - addr,
{
    if addr >= end {
        lists
    } else {
        let k = fitting_order(addr, end, MAX_ORDER as int);
        let n = pow2(k as nat) * 4096;
        if n <= 0 || addr + n > end {
            lists
        } else {
            after_init(lists.update(k, lists[k].push(PhysAddr(addr as u64))), addr + n, end)
        }
    }
}

/// `1 << k` as a power of two.
pub proof fn lemma_shift(k: usize)
    requires
        k <= MAX_ORDER,
    ensures
        (1usize << k) == pow2(k as nat),
        (1u64 << k) == pow2(k as nat),
        1 <= pow2(k as nat) <= 2048,
        k < MAX_ORDER ==> pow2((k + 1) as nat) == 2 * pow2(k as nat),
{
    lemma2_to64();
    lemma_pow2_pos(k as nat);
    if k < MAX_ORDER {
        lemma_pow2_unfold((k + 1) as nat);
        lemma_pow2_strictly_increases(k as nat, 11);
    }
    vstd::bits::lemma_usize_shl_is_mul(1, k);
    vstd::bits::lemma_u64_shl_is_mul(1, k as u64);
}

/// Flipping bit `k` of a page number moves by `2^k` pages, up or down.
proof fn lemma_flip(page: u64, k: usize)
    requires
        k < MAX_ORDER,
        page < 0x10_0000_0000_0000,
    ensures
        (page as int / (pow2(k as nat) as int)) % 2 == 0 ==> (page ^ (1u64 << k)) == page + pow2(
            k as nat,
        ),
        (page as int / (pow2(k as nat) as int)) % 2 != 0 ==> (page ^ (1u64 << k)) == page - pow2(
            k as nat,
        ),
{
    lemma_shift(k);
    let s: u64 = k as u64;
    vstd::bits::lemma_u64_shr_is_div(page, s);
    assert((page >> s) % 2 == 0 ==> (page ^ (1u64 << s)) == page + (1u64 << s)) by (bit_vector)
        requires
            s < 11,
            page < 0x10_0000_0000_0000,
    ;
    assert((page >> s) % 2 != 0 ==> (page ^ (1u64 << s)) == page - (1u64 << s)) by (bit_vector)
        requires
            s < 11,
            page < 0x10_0000_0000_0000,
    ;
}

proof fn lemma_weight_update(lists: Lists, k: int, s: Seq<PhysAddr>, n: int)
    requires
        0 <= k < lists.len(),
        n <= lists.len(),
    ensures
        weight(lists.update(k, s), n) == weight(lists, n) + if k < n {
            (s.len() - lists[k].len()) * pow2(k as nat)
        } else {
            0
        },
    decreases n,
{
    if n > 0 {
        lemma_weight_update(lists, k, s, n - 1);
        if k == n - 1 {
            let a = s.len() as int;
            let b = lists[k].len() as int;
            let w = pow2(k as nat) as int;
            assert(a * w == b * w + (a - b) * w) by (nonlinear_arith);
        }
    }
}

pub proof fn lemma_weight_nonneg(lists: Lists, n: int)
    requires
        n <= lists.len(),
    ensures
        weight(lists, n) >= 0,
    decreases n,
{
    if n > 0 {
        lemma_weight_nonneg(lists, n - 1);
        let a = lists[n - 1].len() as int;
        let w = pow2((n - 1) as nat) as int;
        assert(a * w >= 0) by (nonlinear_arith)
            requires
                a >= 0,
                w >= 0,
        ;
    }
}

/// Unlisting one block of disjoint lists takes exactly its pages away.
pub proof fn lemma_unlist(lists: Lists, k: int, i: int)
    requires
        listed(lists, k, i),
    ensures
        ({
            let after = lists.update(k, swap_out(lists[k], i));
            &&& addressable(lists) ==> addressable(after)
            &&& aligned(lists) ==> aligned(after)
            &&& disjoint(lists) ==> disjoint(after) && forall|p: int|
                is_free(after, p) <==> is_free(lists, p) && !in_block(lists[k][i], k, p)
        }),
{
    let s = lists[k];
    let after = lists.update(k, swap_out(s, i));
    let last = s.len() - 1;
    // Where an entry of the new lists stood before.
    let was = |l: int, j: int| if l == k && j == i { last } else { j };
    assert forall|l: int, j: int| #[trigger] listed(after, l, j) implies listed(
        lists,
        l,
        was(l, j),
    ) && after[l][j] == lists[l][was(l, j)] by {}
    assert forall|l: int, j: int, p: int| #[trigger] covers(after, l, j, p) implies covers(
        lists,
        l,
        was(l, j),
        p,
    ) by {
        assert(listed(after, l, j));
    }
    if disjoint(lists) {
        assert forall|l: int, j: int, m: int, h: int, p: int| #[trigger]
            covers(after, l, j, p) && #[trigger] covers(after, m, h, p) implies l == m && j == h by {
            assert(covers(lists, l, was(l, j), p));
            assert(covers(lists, m, was(m, h), p));
        }
        assert forall|p: int|
            is_free(after, p) <==> is_free(lists, p) && !in_block(s[i], k, p) by {
            if is_free(after, p) {
                let (l, j) = choose|l: int, j: int| #[trigger] covers(after, l, j, p);
                assert(covers(lists, l, was(l, j), p));
                if in_block(s[i], k, p) {
                    assert(covers(lists, k, i, p));
                }
            }
            if is_free(lists, p) && !in_block(s[i], k, p) {
                let (l, j) = choose|l: int, j: int| #[trigger] covers(lists, l, j, p);
                if l == k && j == last {
                    assert(covers(after, l, i, p));
                } else {
                    assert(covers(after, l, j, p));
                }
            }
        }
    }
}

/// Listing a block none of whose pages is listed adds exactly its pages.
pub proof fn lemma_list(lists: Lists, k: int, a: PhysAddr)
    requires
        0 <= k < lists.len(),
    ensures
        ({
            let after = lists.update(k, lists[k].push(a));
            &&& addressable(lists) && fits(a, k) ==> addressable(after)
            &&& aligned(lists) && naturally_aligned(a, k) ==> aligned(after)
            &&& forall|p: int| is_free(after, p) <==> is_free(lists, p) || in_block(a, k, p)
            &&& disjoint(lists) && (forall|p: int| #[trigger]
                in_block(a, k, p) ==> !is_free(lists, p)) ==> disjoint(after)
        }),
{
    let s = lists[k];
    let after = lists.update(k, s.push(a));
    let n = s.len() as int;
    assert forall|l: int, j: int| #[trigger] listed(after, l, j) && !(l == k && j == n) implies listed(
        lists,
        l,
        j,
    ) && after[l][j] == lists[l][j] by {}
    assert(listed(after, k, n) && after[k][n] == a);
    assert forall|l: int, j: int, p: int| #[trigger]
        covers(after, l, j, p) && !(l == k && j == n) implies covers(lists, l, j, p) by {
        assert(listed(after, l, j));
    }
    assert forall|p: int| is_free(after, p) <==> is_free(lists, p) || in_block(a, k, p) by {
        if is_free(after, p) {
            let (l, j) = choose|l: int, j: int| #[trigger] covers(after, l, j, p);
            if !(l == k && j == n) {
                assert(covers(lists, l, j, p));
            }
        }
        if is_free(lists, p) {
            let (l, j) = choose|l: int, j: int| #[trigger] covers(lists, l, j, p);
            assert(covers(after, l, j, p));
        }
        if in_block(a, k, p) {
            assert(covers(after, k, n, p));
        }
    }
    if disjoint(lists) && (forall|p: int| #[trigger] in_block(a, k, p) ==> !is_free(lists, p)) {
        assert forall|l: int, j: int, m: int, h: int, p: int| #[trigger]
            covers(after, l, j, p) && #[trigger] covers(after, m, h, p) implies l == m && j == h by {
            if !(l == k && j == n) {
                assert(covers(lists, l, j, p));
            }
            if !(m == k && h == n) {
                assert(covers(lists, m, h, p));
            }
        }
    }
}

/// Buddy system allocator for physical page frames.
pub struct BuddyAllocator {
    free_lists: Vec<Vec<PhysAddr>>,
    total_pages: usize,
    free_pages: usize,
}

impl BuddyAllocator {
    /// The free lists, one per order.
    pub closed spec fn lists(&self) -> Lists {
        Seq::new(self.free_lists@.len(), |k: int| self.free_lists@[k]@)
    }

    /// Pages handed over to the allocator so far.
    pub closed spec fn total(&self) -> int {
        self.total_pages as int
    }

    /// Pages that are free.
    pub closed spec fn available(&self) -> int {
        self.free_pages as int
    }

    /// What holds of every allocator: there is a list for each order, every
    /// listed block is addressable, and the free count is the size of all
    /// listed blocks together.
    pub open spec fn inv(&self) -> bool {
        &&& self.lists().len() == MAX_ORDER + 1
        &&& addressable(self.lists())
        &&& self.available() == weight(self.lists(), MAX_ORDER + 1)
    }

    /// What holds as long as callers give back only what they were given: no
    /// page is listed twice and every block is aligned to its size.
    pub open spec fn wf(&self) -> bool {
        &&& self.inv()
        &&& disjoint(self.lists())
        &&& aligned(self.lists())
    }

    /// Create an empty buddy allocator.
    pub fn new() -> (r: Self)
        ensures
            r.wf(),
            r.lists() == Seq::new((MAX_ORDER + 1) as nat, |k: int| Seq::<PhysAddr>::empty()),
            forall|p: int| !is_free(r.lists(), p),
            r.total() == 0,
            r.available() == 0,
    {
        let mut free_lists: Vec<Vec<PhysAddr>> = Vec::new();
        let mut k: usize = 0;
        while k <= MAX_ORDER
            invariant
                k <= MAX_ORDER + 1,
                free_lists@.len() == k,
                forall|j: int| 0 <= j < k ==> (#[trigger] free_lists@[j])@.len() == 0,
            decreases MAX_ORDER + 1 - k,
        {
            free_lists.push(Vec::new());
            k += 1;
        }
        let r = BuddyAllocator { free_lists, total_pages: 0, free_pages: 0 };
        proof {
            assert(r.lists() =~~= Seq::new(
                (MAX_ORDER + 1) as nat,
                |k: int| Seq::<PhysAddr>::empty(),
            ));
            lemma_weight_empty(r.lists(), MAX_ORDER + 1);
        }
        r
    }

    /// Hand over the physical memory range `[start, end)`.
    pub fn init(&mut self, start: PhysAddr, end: PhysAddr)
        requires
            old(self).inv(),
            start.is_page_aligned(),
            end.is_page_aligned(),
            start.0 < end.0,
            old(self).total() + (end.0 - start.0) / 4096 <= usize::MAX,
            old(self).available() + (end.0 - start.0) / 4096 <= usize::MAX,
        ensures
            final(self).inv(),
            final(self).lists() == after_init(old(self).lists(), start.0 as int, end.0 as int),
            final(self).total() == old(self).total() + (end.0 - start.0) / 4096,
            final(self).available() == old(self).available() + (end.0 - start.0) / 4096,
            forall|p: int|
                is_free(final(self).lists(), p) <==> is_free(old(self).lists(), p) || start.0 as int
                    / 4096 <= p < end.0 as int / 4096,
            old(self).wf() && (forall|p: int|
                start.0 as int / 4096 <= p < end.0 as int / 4096 ==> !is_free(
                    old(self).lists(),
                    p,
                )) ==> final(self).wf(),
    {
        let end_addr = end.0;
        let mut addr = start.0;
        let total: usize = ((end_addr - addr) / PAGE_SIZE) as usize;
        self.total_pages = self.total_pages + total;
        let ghost apart = disjoint(old(self).lists()) && aligned(old(self).lists()) && forall|p: int|
            start.0 as int / 4096 <= p < end.0 as int / 4096 ==> !is_free(old(self).lists(), p);
        assert(self.lists() == old(self).lists());
        while addr < end_addr
            invariant
                self.inv(),
                start.0 <= addr <= end_addr,
                end_addr == end.0,
                addr as int % 4096 == 0,
                start.0 as int % 4096 == 0,
                end_addr as int % 4096 == 0,
                self.total() == old(self).total() + (end.0 - start.0) / 4096,
                self.available() == old(self).available() + (addr - start.0) / 4096,
                old(self).available() + (end.0 - start.0) / 4096 <= usize::MAX,
                after_init(old(self).lists(), start.0 as int, end.0 as int) == after_init(
                    self.lists(),
                    addr as int,
                    end.0 as int,
                ),
                forall|p: int|
                    is_free(self.lists(), p) <==> is_free(old(self).lists(), p) || start.0 as int
                        / 4096 <= p < addr as int / 4096,
                apart == (disjoint(old(self).lists()) && aligned(old(self).lists()) && forall|p: int|
                    start.0 as int / 4096 <= p < end.0 as int / 4096 ==> !is_free(
                        old(self).lists(),
                        p,
                    )),
                apart ==> disjoint(self.lists()) && aligned(self.lists()),
            decreases end_addr - addr,
        {
            let pages_left: u64 = (end_addr - addr) / PAGE_SIZE;
            let mut order: usize = MAX_ORDER;
            proof {
                lemma_shift(order);
            }
            while order > 0 && !((1u64 << order) <= pages_left && (addr / PAGE_SIZE) % (1u64
                << order) == 0)
                invariant
                    order <= MAX_ORDER,
                    addr <= end_addr,
                    pages_left == (end_addr - addr) / 4096,
                    fitting_order(addr as int, end_addr as int, MAX_ORDER as int) == fitting_order(
                        addr as int,
                        end_addr as int,
                        order as int,
                    ),
                    1u64 << order == pow2(order as nat),
                    1 <= pow2(order as nat) <= 2048,
                decreases order,
            {
                order -= 1;
                proof {
                    lemma_shift(order);
                }
            }
            let ghost before = self.lists();
            let ghost k = order as int;
            let ghost a = PhysAddr(addr);
            proof {
                lemma_shift(order);
                assert(pow2(0) == 1) by {
                    lemma2_to64();
                }
                assert(k == fitting_order(addr as int, end_addr as int, MAX_ORDER as int));
                assert(pow2(order as nat) <= pages_left);
                lemma_list(before, k, a);
                lemma_weight_update(before, k, before[k].push(a), MAX_ORDER + 1);
                assert(naturally_aligned(a, k));
                assert(fits(a, k));
                assert(1 * pow2(k as nat) == pow2(k as nat)) by (nonlinear_arith);
            }
            self.free_lists[order].push(PhysAddr::new(addr));
            self.free_pages = self.free_pages + (1usize << order);
            addr = addr + (1u64 << order) * PAGE_SIZE;
            proof {
                assert(self.lists() =~~= before.update(k, before[k].push(a)));
                assert forall|p: int| apart && #[trigger] in_block(a, k, p) implies !is_free(before, p) by {}
            }
        }
    }

    /// Allocate a block of `2^order` contiguous pages: the last block of the
    /// smallest order that has one, split down to `order`.  `None` where every
    /// list from `order` up is empty.
    pub fn alloc_block(&mut self, order: usize) -> (r: Option<PhysAddr>)
        requires
            old(self).inv(),
            order <= MAX_ORDER,
        ensures
            final(self).inv(),
            final(self).total() == old(self).total(),
            r is Some <==> first_nonempty(old(self).lists(), order as int) <= MAX_ORDER,
            match r {
                None => final(self).lists() == old(self).lists() && final(self).available()
                    == old(self).available(),
                Some(a) => {
                    let from = first_nonempty(old(self).lists(), order as int);
                    &&& a == old(self).lists()[from].last()
                    &&& fits(a, order as int)
                    &&& final(self).lists() == after_split(old(self).lists(), order as int, from)
                    &&& final(self).available() == old(self).available() - pow2(order as nat)
                },
            },
            old(self).wf() ==> final(self).wf() && (r matches Some(a) ==> naturally_aligned(
                a,
                order as int,
            ) && (forall|p: int| #[trigger]
                in_block(a, order as int, p) ==> is_free(old(self).lists(), p)) && forall|p: int| #[trigger]
                is_free(final(self).lists(), p) <==> is_free(old(self).lists(), p) && !in_block(
                    a,
                    order as int,
                    p,
                )),
    {
        let mut current_order: usize = order;
        while current_order <= MAX_ORDER
            invariant
                order <= current_order <= MAX_ORDER + 1,
                self.inv(),
                self.lists() == old(self).lists(),
                self.total_pages == old(self).total_pages,
                self.free_pages == old(self).free_pages,
                first_nonempty(self.lists(), order as int) == first_nonempty(
                    self.lists(),
                    current_order as int,
                ),
            decreases MAX_ORDER + 1 - current_order,
        {
            let ghost lists0 = self.lists();
            let ghost from = current_order as int;
            let popped = self.free_lists[current_order].pop();
            assert(self.free_lists@.len() == lists0.len());
            if let Some(block) = popped {
                let addr = block.0;
                let mut split_order: usize = current_order;
                proof {
                    assert(lists0[from].last() == block);
                    assert(listed(lists0, from, lists0[from].len() - 1));
                    lemma_unlist(lists0, from, lists0[from].len() - 1);
                    assert(swap_out(lists0[from], lists0[from].len() - 1) =~= lists0[from].drop_last());
                    let after = lists0.update(from, lists0[from].drop_last());
                    assert(self.lists() =~~= after);
                    lemma_weight_update(lists0, from, lists0[from].drop_last(), MAX_ORDER + 1);
                    lemma_shift(current_order);
                    assert(self.lists() =~~= after_split(lists0, from, from));
                    assert((-1) * pow2(from as nat) == -pow2(from as nat)) by (nonlinear_arith);
                    lemma_first_nonempty(lists0, order as int);
                    assert forall|p: int| #[trigger] in_block(block, from, p) implies is_free(
                        lists0,
                        p,
                    ) by {
                        assert(covers(lists0, from, lists0[from].len() - 1, p));
                    }
                }
                while split_order > order
                    invariant
                        order <= split_order <= current_order <= MAX_ORDER,
                        lists0.len() == MAX_ORDER + 1,
                        lists0 == old(self).lists(),
                        from == current_order,
                        addr == block.0,
                        lists0[from].len() > 0,
                        lists0[from].last() == block,
                        forall|j: int| order <= j < from ==> (#[trigger] lists0[j]).len() == 0,
                        self.lists() == after_split(lists0, split_order as int, from),
                        self.total_pages == old(self).total_pages,
                        self.free_pages == old(self).free_pages,
                        self.available() == weight(self.lists(), MAX_ORDER + 1) + pow2(
                            split_order as nat,
                        ),
                        addressable(self.lists()),
                        fits(block, split_order as int),
                        fits(block, from),
                        old(self).wf() ==> disjoint(self.lists()) && aligned(self.lists())
                            && naturally_aligned(block, split_order as int),
                        forall|p: int| #[trigger]
                            in_block(block, split_order as int, p) ==> is_free(lists0, p),
                        old(self).wf() ==> forall|p: int| #[trigger]
                            is_free(self.lists(), p) <==> is_free(lists0, p) && !in_block(
                                block,
                                split_order as int,
                                p,
                            ),
                    decreases split_order,
                {
                    let ghost before = self.lists();
                    split_order -= 1;
                    let ghost k = split_order as int;
                    let ghost half = upper_half(block, k);
                    proof {
                        lemma_shift(split_order);
                        lemma_list(before, k, half);
                        lemma_weight_update(before, k, before[k].push(half), MAX_ORDER + 1);
                        lemma_halves(block, k);
                    }
                    let buddy_addr: u64 = addr + (1u64 << split_order) * PAGE_SIZE;
                    self.free_lists[split_order].push(PhysAddr::new(buddy_addr));
                    proof {
                        assert(self.lists() =~~= before.update(k, before[k].push(half)));
                        assert(self.lists() =~~= after_split(lists0, k, from));
                        assert(1 * pow2(k as nat) == pow2(k as nat)) by (nonlinear_arith);
                        assert(old(self).wf() ==> forall|p: int| #[trigger]
                            in_block(half, k, p) ==> !is_free(before, p));
                    }
                }
                proof {
                    lemma_shift(order);
                    lemma_weight_nonneg(self.lists(), MAX_ORDER + 1);
                }
                self.free_pages = self.free_pages - (1usize << order);
                return Some(PhysAddr::new(addr));
            }
            assert(self.lists() =~~= lists0);
            current_order += 1;
        }
        None
    }

    /// Give back a block of `2^order` contiguous pages at `addr`, merging it
    /// with its buddy as long as that is free.
    pub fn free(&mut self, addr: PhysAddr, order: usize)
        requires
            old(self).inv(),
            order <= MAX_ORDER,
            fits(addr, order as int),
            old(self).available() + pow2(order as nat) <= usize::MAX,
        ensures
            final(self).inv(),
            final(self).lists() == after_free(old(self).lists(), addr, order as int),
            final(self).total() == old(self).total(),
            final(self).available() == old(self).available() + pow2(order as nat),
            old(self).wf() && (forall|p: int| #[trigger]
                in_block(addr, order as int, p) ==> !is_free(old(self).lists(), p)) ==> {
                &&& naturally_aligned(addr, order as int) ==> final(self).wf()
                &&& forall|p: int| #[trigger]
                    is_free(final(self).lists(), p) <==> is_free(old(self).lists(), p) || in_block(
                        addr,
                        order as int,
                        p,
                    )
            },
    {
        let mut current_addr: u64 = addr.0;
        let mut current_order: usize = order;
        let mut merging = true;
        let ghost fresh = disjoint(old(self).lists()) && forall|p: int| #[trigger]
            in_block(addr, order as int, p) ==> !is_free(old(self).lists(), p);
        while merging && current_order < MAX_ORDER
            invariant
                order <= current_order <= MAX_ORDER,
                self.lists().len() == MAX_ORDER + 1,
                self.total_pages == old(self).total_pages,
                self.free_pages == old(self).free_pages,
                addressable(self.lists()),
                fits(PhysAddr(current_addr), current_order as int),
                self.available() + pow2(order as nat) == weight(self.lists(), MAX_ORDER + 1) + pow2(
                    current_order as nat,
                ),
                after_free(old(self).lists(), addr, order as int) == after_free(
                    self.lists(),
                    PhysAddr(current_addr),
                    current_order as int,
                ),
                !merging && current_order < MAX_ORDER ==> !self.lists()[current_order as int].contains(
                    buddy_of(PhysAddr(current_addr), current_order as int),
                ),
                fresh == (disjoint(old(self).lists()) && forall|p: int| #[trigger]
                    in_block(addr, order as int, p) ==> !is_free(old(self).lists(), p)),
                fresh ==> disjoint(self.lists()),
                fresh ==> forall|p: int| #[trigger]
                    in_block(PhysAddr(current_addr), current_order as int, p) ==> !is_free(
                        self.lists(),
                        p,
                    ),
                fresh ==> forall|p: int|
                    #![trigger is_free(self.lists(), p)]
                    #![trigger is_free(old(self).lists(), p)]
                    #![trigger in_block(addr, order as int, p)]
                    is_free(self.lists(), p) || in_block(
                        PhysAddr(current_addr),
                        current_order as int,
                        p,
                    ) <==> is_free(old(self).lists(), p) || in_block(addr, order as int, p),
                aligned(old(self).lists()) ==> aligned(self.lists()),
                aligned(old(self).lists()) && naturally_aligned(addr, order as int)
                    ==> naturally_aligned(PhysAddr(current_addr), current_order as int),
            decreases MAX_ORDER - current_order, if merging { 1int } else { 0 },
        {
            let page_num: u64 = current_addr / PAGE_SIZE;
            let ghost k = current_order as int;
            let ghost cur = PhysAddr(current_addr);
            proof {
                lemma_flip(page_num, current_order);
                lemma_shift(current_order);
                lemma_buddy(cur, k);
            }
            let buddy_page: u64 = page_num ^ (1u64 << current_order);
            let buddy_addr: u64 = buddy_page * PAGE_SIZE;
            let buddy_phys = PhysAddr::new(buddy_addr);
            assert(buddy_phys == buddy_of(cur, k));
            match position(&self.free_lists[current_order], buddy_phys) {
                Some(pos) => {
                    let ghost before = self.lists();
                    proof {
                        assert(listed(before, k, pos as int));
                        lemma_unlist(before, k, pos as int);
                        lemma_weight_update(
                            before,
                            k,
                            swap_out(before[k], pos as int),
                            MAX_ORDER + 1,
                        );
                        assert((-1) * pow2(k as nat) == -pow2(k as nat)) by (nonlinear_arith);
                        assert(before[k].contains(buddy_phys));
                        assert(is_first(before[k], buddy_phys, pos as int));
                        let i = choose|i: int| is_first(before[k], buddy_phys, i);
                        assert(i == pos);
                    }
                    self.free_lists[current_order].swap_remove(pos);
                    proof {
                        assert(self.lists() =~~= before.update(k, swap_out(before[k], pos as int)));
                        lemma_merge(cur, k);
                        assert(fresh ==> forall|p: int|
                            in_block(buddy_phys, k, p) ==> covers(before, k, pos as int, p));
                    }
                    if buddy_addr < current_addr {
                        current_addr = buddy_addr;
                    }
                    current_order += 1;
                },
                None => {
                    merging = false;
                },
            }
        }
        proof {
            let k = current_order as int;
            let cur = PhysAddr(current_addr);
            lemma_list(self.lists(), k, cur);
            lemma_weight_update(self.lists(), k, self.lists()[k].push(cur), MAX_ORDER + 1);
            assert(1 * pow2(k as nat) == pow2(k as nat)) by (nonlinear_arith);
            lemma_shift(order);
        }
        let ghost before = self.lists();
        self.free_lists[current_order].push(PhysAddr::new(current_addr));
        self.free_pages = self.free_pages + (1usize << order);
        assert(self.lists() =~~= before.update(
            current_order as int,
            before[current_order as int].push(PhysAddr(current_addr)),
        ));
    }

    /// Total free pages across all orders.
    pub fn available_pages(&self) -> (r: usize)
        ensures
            r == self.available(),
    {
        self.free_pages
    }

    /// Total pages managed by this allocator.
    pub fn total_pages(&self) -> (r: usize)
        ensures
            r == self.total(),
    {
        self.total_pages
    }
}

/// The place of `x` in `list`, the first where there are several.
fn position(list: &Vec<PhysAddr>, x: PhysAddr) -> (r: Option<usize>)
    ensures
        match r {
            Some(i) => is_first(list@, x, i as int),
            None => !list@.contains(x),
        },
{
    let mut i: usize = 0;
    while i < list.len()
        invariant
            i <= list@.len(),
            forall|j: int| 0 <= j < i ==> list@[j] != x,
        decreases list@.len() - i,
    {
        if list[i] == x {
            return Some(i);
        }
        i += 1;
    }
    None
}

/// All lists from `order` up to the first non-empty one are empty.
pub proof fn lemma_first_nonempty(lists: Lists, order: int)
    requires
        0 <= order,
    ensures
        forall|j: int|
            order <= j < first_nonempty(lists, order) && j < lists.len() ==> (
            #[trigger] lists[j]).len() == 0,
        order <= lists.len() ==> order <= first_nonempty(lists, order) <= lists.len(),
    decreases lists.len() - order,
{
    if order < lists.len() && lists[order].len() == 0 {
        lemma_first_nonempty(lists, order + 1);
    }
}

/// A block of `2^(k+1)` pages is its lower half and its upper half.
proof fn lemma_halves(a: PhysAddr, k: int)
    requires
        0 <= k < MAX_ORDER,
        fits(a, k + 1),
    ensures
        fits(a, k),
        fits(upper_half(a, k), k),
        forall|p: int|
            #![trigger in_block(a, k + 1, p)]
            #![trigger in_block(a, k, p)]
            #![trigger in_block(upper_half(a, k), k, p)]
            in_block(a, k + 1, p) <==> in_block(a, k, p) || in_block(upper_half(a, k), k, p),
        forall|p: int|
            !(#[trigger] in_block(a, k, p) && in_block(upper_half(a, k), k, p)),
        naturally_aligned(a, k + 1) ==> naturally_aligned(a, k) && naturally_aligned(
            upper_half(a, k),
            k,
        ),
{
    lemma_shift(k as usize);
    let w = pow2(k as nat) as int;
    let q = a.0 as int / 4096;
    assert(upper_half(a, k).0 as int / 4096 == q + w);
    if naturally_aligned(a, k + 1) {
        assert(q % w == 0 && (q + w) % w == 0) by (nonlinear_arith)
            requires
                q % (2 * w) == 0,
                w >= 1,
                q >= 0,
        {
            let t = q / (2 * w);
            assert(q == (2 * w) * t);
            assert(q == w * (2 * t)) by (nonlinear_arith)
                requires
                    q == (2 * w) * t,
            ;
            vstd::arithmetic::div_mod::lemma_mod_multiples_basic(2 * t, w);
            vstd::arithmetic::div_mod::lemma_mod_multiples_basic(2 * t + 1, w);
            assert((2 * t) * w == q) by (nonlinear_arith)
                requires
                    q == w * (2 * t),
            ;
            assert((2 * t + 1) * w == q + w) by (nonlinear_arith)
                requires
                    q == w * (2 * t),
            ;
        }
    }
}

/// Where the buddy lies.
pub proof fn lemma_buddy(a: PhysAddr, k: int)
    requires
        0 <= k < MAX_ORDER,
        fits(a, k),
    ensures
        buddy_of(a, k).0 as int % 4096 == 0,
        ({
            let w = pow2(k as nat) as int;
            let q = a.0 as int / 4096;
            if (q / w) % 2 == 0 {
                buddy_of(a, k).0 == a.0 + w * 4096
            } else {
                a.0 >= w * 4096 && buddy_of(a, k).0 == a.0 - w * 4096
            }
        }),
{
    lemma_shift(k as usize);
    let w = pow2(k as nat) as int;
    let q = a.0 as int / 4096;
    if (q / w) % 2 != 0 {
        assert(q >= w) by (nonlinear_arith)
            requires
                q / w >= 1,
                w >= 1,
                q >= 0,
        {
            vstd::arithmetic::div_mod::lemma_fundamental_div_mod(q, w);
            assert(w * (q / w) >= w) by (nonlinear_arith)
                requires
                    q / w >= 1,
                    w >= 1,
            ;
        }
    }
}

/// The block that starts lower.
pub open spec fn lower_of(a: PhysAddr, b: PhysAddr) -> PhysAddr {
    if a.0 <= b.0 {
        a
    } else {
        b
    }
}

/// A block and its buddy make up the block of the next order at the lower of
/// the two addresses.
pub proof fn lemma_merge(a: PhysAddr, k: int)
    requires
        0 <= k < MAX_ORDER,
        fits(a, k),
        fits(buddy_of(a, k), k),
    ensures
        ({
            let b = buddy_of(a, k);
            let m = lower_of(a, b);
            &&& fits(m, k + 1)
            &&& forall|p: int|
                #![trigger in_block(m, k + 1, p)]
                #![trigger in_block(a, k, p)]
                #![trigger in_block(b, k, p)]
                in_block(m, k + 1, p) <==> in_block(a, k, p) || in_block(b, k, p)
            &&& naturally_aligned(a, k) ==> naturally_aligned(m, k + 1)
        }),
{
    lemma_buddy(a, k);
    lemma_shift(k as usize);
    let w = pow2(k as nat) as int;
    let q = a.0 as int / 4096;
    if naturally_aligned(a, k) {
        vstd::arithmetic::div_mod::lemma_fundamental_div_mod(q, w);
        let t = q / w;
        assert(q == w * t);
        let h = t / 2;
        let m = if t % 2 == 0 { q } else { q - w };
        assert(m == h * (2 * w)) by (nonlinear_arith)
            requires
                q == w * t,
                t == 2 * h || t == 2 * h + 1,
                m == if t % 2 == 0 { q } else { q - w },
        {
            if t == 2 * h {
                assert(w * (2 * h) == h * (2 * w)) by (nonlinear_arith);
            } else {
                assert(w * (2 * h + 1) - w == h * (2 * w)) by (nonlinear_arith);
            }
        }
        vstd::arithmetic::div_mod::lemma_mod_multiples_basic(h, 2 * w);
    }
}

pub proof fn lemma_weight_empty(lists: Lists, n: int)
    requires
        n <= lists.len(),
        forall|k: int| 0 <= k < n ==> (#[trigger] lists[k]).len() == 0,
    ensures
        weight(lists, n) == 0,
    decreases n,
{
    if n > 0 {
        lemma_weight_empty(lists, n - 1);
        assert(lists[n - 1].len() == 0);
        let w = pow2((n - 1) as nat);
        assert(0 * w == 0) by (nonlinear_arith);
    }
}

/// Splitting takes away exactly the block handed out.
pub proof fn lemma_after_split(lists: Lists, order: int, from: int)
    requires
        lists.len() == MAX_ORDER + 1,
        0 <= order <= from <= MAX_ORDER,
        lists[from].len() > 0,
        addressable(lists),
        aligned(lists),
        disjoint(lists),
    ensures
        ({
            let after = after_split(lists, order, from);
            let block = lists[from].last();
            &&& addressable(after)
            &&& aligned(after)
            &&& disjoint(after)
            &&& fits(block, order)
            &&& naturally_aligned(block, order)
            &&& forall|p: int| #[trigger]
                is_free(after, p) <==> is_free(lists, p) && !in_block(block, order, p)
            &&& forall|p: int| #[trigger] in_block(block, order, p) ==> is_free(lists, p)
        }),
    decreases from - order,
{
    let block = lists[from].last();
    let last = lists[from].len() - 1;
    assert(listed(lists, from, last));
    if order == from {
        lemma_unlist(lists, from, last);
        assert(swap_out(lists[from], last) =~= lists[from].drop_last());
        assert(lists.update(from, lists[from].drop_last()) =~~= after_split(lists, from, from));
        assert forall|p: int| #[trigger] in_block(block, from, p) implies is_free(lists, p) by {
            assert(covers(lists, from, last, p));
        }
    } else {
        lemma_after_split(lists, order + 1, from);
        let before = after_split(lists, order + 1, from);
        let half = upper_half(block, order);
        lemma_halves(block, order);
        lemma_list(before, order, half);
        assert(before.update(order, before[order].push(half)) =~~= after_split(lists, order, from));
    }
}

/// Giving a block back adds exactly its pages.
pub proof fn lemma_after_free(lists: Lists, addr: PhysAddr, order: int)
    requires
        lists.len() == MAX_ORDER + 1,
        0 <= order <= MAX_ORDER,
        addressable(lists),
        aligned(lists),
        disjoint(lists),
        fits(addr, order),
        naturally_aligned(addr, order),
        forall|p: int| #[trigger] in_block(addr, order, p) ==> !is_free(lists, p),
    ensures
        ({
            let after = after_free(lists, addr, order);
            &&& addressable(after)
            &&& aligned(after)
            &&& disjoint(after)
            &&& forall|p: int| #[trigger]
                is_free(after, p) <==> is_free(lists, p) || in_block(addr, order, p)
        }),
    decreases MAX_ORDER - order,
{
    let buddy = buddy_of(addr, order);
    if order < MAX_ORDER && lists[order].contains(buddy) {
        lemma_first_exists(lists[order], buddy);
        let i = choose|i: int| is_first(lists[order], buddy, i);
        assert(listed(lists, order, i));
        lemma_unlist(lists, order, i);
        lemma_merge(addr, order);
        assert forall|p: int| in_block(buddy, order, p) implies is_free(lists, p) by {
            assert(covers(lists, order, i, p));
        }
        let merged = if addr.0 <= buddy.0 {
            addr
        } else {
            buddy
        };
        let rest = lists.update(order, swap_out(lists[order], i));
        assert forall|p: int| #[trigger] in_block(merged, order + 1, p) implies !is_free(rest, p) by {
            assert(in_block(addr, order, p) || in_block(buddy, order, p));
        }
        lemma_after_free(rest, merged, order + 1);
        assert forall|p: int| #[trigger]
            is_free(after_free(lists, addr, order), p) <==> is_free(lists, p) || in_block(
                addr,
                order,
                p,
            ) by {
            assert(in_block(merged, order + 1, p) <==> in_block(addr, order, p) || in_block(
                buddy,
                order,
                p,
            ));
        }
    } else {
        lemma_list(lists, order, addr);
    }
}

pub proof fn lemma_first_exists(s: Seq<PhysAddr>, x: PhysAddr)
    requires
        s.contains(x),
    ensures
        exists|i: int| is_first(s, x, i),
    decreases s.len(),
{
    let i = choose|i: int| 0 <= i < s.len() && s[i] == x;
    if !is_first(s, x, i) {
        let t = s.take(i);
        let j = choose|j: int| 0 <= j < i && s[j] == x;
        assert(t[j] == x);
        lemma_first_exists(t, x);
        let h = choose|h: int| is_first(t, x, h);
        assert forall|m: int| 0 <= m < h implies s[m] != x by {
            assert(t[m] != x);
        }
        assert(t[h] == s[h]);
        assert(is_first(s, x, h));
    }
}

/// Giving back a block that was just handed out makes exactly the pages free
/// that were free before.
pub proof fn law_alloc_then_free_restores(lists: Lists, order: int)
    requires
        lists.len() == MAX_ORDER + 1,
        addressable(lists),
        aligned(lists),
        disjoint(lists),
        0 <= order <= MAX_ORDER,
        first_nonempty(lists, order) <= MAX_ORDER,
    ensures
        ({
            let from = first_nonempty(lists, order);
            let handed_out = after_split(lists, order, from);
            let back = after_free(handed_out, lists[from].last(), order);
            &&& disjoint(back)
            &&& aligned(back)
            &&& forall|p: int| #[trigger] is_free(back, p) <==> is_free(lists, p)
        }),
{
    lemma_first_nonempty(lists, order);
    lemma_first_nonempty_found(lists, order);
    let from = first_nonempty(lists, order);
    lemma_after_split(lists, order, from);
    lemma_after_free(after_split(lists, order, from), lists[from].last(), order);
}

pub proof fn lemma_first_nonempty_found(lists: Lists, order: int)
    requires
        0 <= order <= lists.len(),
        first_nonempty(lists, order) < lists.len(),
    ensures
        lists[first_nonempty(lists, order)].len() > 0,
    decreases lists.len() - order,
{
    if order < lists.len() && lists[order].len() == 0 {
        lemma_first_nonempty_found(lists, order + 1);
    }
}

/// Two blocks handed out one after the other share no page.
pub proof fn law_allocations_are_disjoint(lists: Lists, order1: int, order2: int)
    requires
        lists.len() == MAX_ORDER + 1,
        addressable(lists),
        aligned(lists),
        disjoint(lists),
        0 <= order1 <= MAX_ORDER,
        0 <= order2 <= MAX_ORDER,
        first_nonempty(lists, order1) <= MAX_ORDER,
        first_nonempty(
            after_split(lists, order1, first_nonempty(lists, order1)),
            order2,
        ) <= MAX_ORDER,
    ensures
        ({
            let from1 = first_nonempty(lists, order1);
            let rest = after_split(lists, order1, from1);
            let from2 = first_nonempty(rest, order2);
            forall|p: int|
                !(#[trigger] in_block(lists[from1].last(), order1, p) && in_block(
                    rest[from2].last(),
                    order2,
                    p,
                ))
        }),
{
    lemma_first_nonempty(lists, order1);
    lemma_first_nonempty_found(lists, order1);
    let from1 = first_nonempty(lists, order1);
    lemma_after_split(lists, order1, from1);
    let rest = after_split(lists, order1, from1);
    lemma_first_nonempty(rest, order2);
    lemma_first_nonempty_found(rest, order2);
    let from2 = first_nonempty(rest, order2);
    lemma_after_split(rest, order2, from2);
    assert forall|p: int|
        !(#[trigger] in_block(lists[from1].last(), order1, p) && in_block(
            rest[from2].last(),
            order2,
            p,
        )) by {
        if in_block(rest[from2].last(), order2, p) {
            assert(is_free(rest, p));
        }
    }
}

/// The set of all free pages.
pub open spec fn free_set(lists: Lists) -> Set<int> {
    Set::new(|p: int| is_free(lists, p))
}

/// Of disjoint lists, the total size of the listed blocks is the number of
/// pages that are free.
pub proof fn law_weight_counts_free_pages(lists: Lists)
    requires
        lists.len() == MAX_ORDER + 1,
        disjoint(lists),
    ensures
        free_set(lists).finite(),
        free_set(lists).len() == weight(lists, MAX_ORDER + 1),
    decreases weight(lists, MAX_ORDER + 1),
{
    let n = MAX_ORDER + 1;
    lemma_weight_nonneg(lists, n);
    if forall|k: int| 0 <= k < n ==> (#[trigger] lists[k]).len() == 0 {
        lemma_weight_empty(lists, n);
        assert(free_set(lists) =~= Set::empty());
    } else {
        let k = choose|k: int| 0 <= k < n && (#[trigger] lists[k]).len() != 0;
        let i = lists[k].len() - 1;
        let rest = lists.update(k, swap_out(lists[k], i));
        let block = lists[k][i];
        assert(listed(lists, k, i));
        lemma_unlist(lists, k, i);
        lemma_weight_update(lists, k, swap_out(lists[k], i), n);
        lemma_pow2_pos(k as nat);
        assert((-1) * pow2(k as nat) == -pow2(k as nat)) by (nonlinear_arith);
        lemma_weight_nonneg(rest, n);
        law_weight_counts_free_pages(rest);
        let b = block_set(block, k);
        vstd::set_lib::lemma_int_range(
            block.0 as int / 4096,
            block.0 as int / 4096 + pow2(k as nat),
        );
        assert forall|p: int| is_free(lists, p) <==> is_free(rest, p) || in_block(block, k, p) by {
            if in_block(block, k, p) {
                assert(covers(lists, k, i, p));
            }
        }
        assert(free_set(lists) =~= free_set(rest).union(b));
        assert(free_set(rest).disjoint(b));
        vstd::set_lib::lemma_set_disjoint_lens(free_set(rest), b);
    }
}

} // verus!
