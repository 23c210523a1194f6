//! What holds of the buddy allocator over any sequence of calls.
use vstd::prelude::*;
use vstd::arithmetic::power2::*;
use crate::hal::addr::PhysAddr;
use crate::mm::allocator::buddy::{
    addressable, after_free, after_init, after_split, aligned, buddy_of, covers, disjoint,
    first_nonempty, fits, fitting_order, free_set, in_block, is_first, is_free,
    law_weight_counts_free_pages, lemma_after_free, lemma_after_split, lemma_buddy,
    lemma_first_exists, lemma_first_nonempty, lemma_first_nonempty_found, lemma_list, lemma_merge,
    lemma_shift, lemma_unlist, lemma_weight_empty, listed, naturally_aligned, swap_out, weight,
    Lists, MAX_ORDER,
};

verus! {

/// No two listed blocks of one order below the largest are buddies.
pub open spec fn no_buddies(lists: Lists) -> bool {
    forall|k: int, a: PhysAddr|
        0 <= k < MAX_ORDER && lists[k].contains(a) ==> !#[trigger] lists[k].contains(
            buddy_of(a, k),
        )
}

/// The same blocks are listed, in whatever order.
pub open spec fn same_blocks(lists: Lists, other: Lists) -> bool {
    &&& lists.len() == other.len()
    &&& forall|k: int, a: PhysAddr|
        0 <= k < lists.len() ==> (#[trigger] lists[k].contains(a) <==> other[k].contains(a))
}

/// What a buddy allocator was given and has handed out.
pub struct Ledger {
    /// The free lists.
    pub lists: Lists,
    /// Pages handed over to the allocator.
    pub total: int,
    /// The blocks that were handed out and not given back, with their orders.
    pub out: Seq<(PhysAddr, int)>,
}

/// A call of the allocator that does something.
pub enum Call {
    /// Memory is handed over.
    Init(PhysAddr, PhysAddr),
    /// A block of an order is handed out.
    Alloc(int),
    /// A block that was handed out is given back: its place among those.
    Free(int),
}

/// Before any call.
pub open spec fn no_calls() -> Ledger {
    Ledger {
        lists: Seq::new((MAX_ORDER + 1) as nat, |k: int| Seq::<PhysAddr>::empty()),
        total: 0,
        out: Seq::empty(),
    }
}

/// Whether the block at place `i` of those handed out holds `page`.
pub open spec fn out_covers(out: Seq<(PhysAddr, int)>, i: int, page: int) -> bool {
    0 <= i < out.len() && in_block(out[i].0, out[i].1, page)
}

/// Whether a page is free or in a block that was handed out.
pub open spec fn held(l: Ledger, page: int) -> bool {
    is_free(l.lists, page) || exists|i: int| #[trigger] out_covers(l.out, i, page)
}

/// Number of pages in the blocks handed out.
pub open spec fn out_pages(out: Seq<(PhysAddr, int)>) -> int
    decreases out.len(),
{
    if out.len() == 0 {
        0
    } else {
        out_pages(out.drop_last()) + pow2(out.last().1 as nat)
    }
}

/// Whether a call may be made, and does something: memory is handed over once, a block is there
/// to be had, and what is given back was handed out.
pub open spec fn callable(l: Ledger, c: Call) -> bool {
    match c {
        Call::Init(start, end) => {
            &&& start.is_page_aligned()
            &&& end.is_page_aligned()
            &&& start.0 < end.0
            &&& forall|p: int|
                start.0 as int / 4096 <= p < end.0 as int / 4096 ==> !#[trigger] held(l, p)
        },
        Call::Alloc(order) => 0 <= order <= MAX_ORDER && first_nonempty(l.lists, order)
            <= MAX_ORDER,
        Call::Free(i) => 0 <= i < l.out.len(),
    }
}

/// What a call makes of the allocator.
pub open spec fn after_call(l: Ledger, c: Call) -> Ledger {
    match c {
        Call::Init(start, end) => Ledger {
            lists: after_init(l.lists, start.0 as int, end.0 as int),
            total: l.total + (end.0 - start.0) / 4096,
            out: l.out,
        },
        Call::Alloc(order) => {
            let from = first_nonempty(l.lists, order);
            Ledger {
                lists: after_split(l.lists, order, from),
                total: l.total,
                out: l.out.push((l.lists[from].last(), order)),
            }
        },
        Call::Free(i) => Ledger {
            lists: after_free(l.lists, l.out[i].0, l.out[i].1),
            total: l.total,
            out: l.out.remove(i),
        },
    }
}

/// The allocator after the first `n` calls.
pub open spec fn after_calls(calls: Seq<Call>, n: int) -> Ledger
    decreases n,
{
    if n <= 0 {
        no_calls()
    } else {
        after_call(after_calls(calls, n - 1), calls[n - 1])
    }
}

/// Each of the first `n` calls may be made when its turn comes.
pub open spec fn history(calls: Seq<Call>, n: int) -> bool {
    forall|i: int| 0 <= i < n ==> callable(after_calls(calls, i), #[trigger] calls[i])
}

/// Blocks handed out are aligned, share no page with each other and none with the free lists.
pub open spec fn apart(l: Ledger) -> bool {
    &&& forall|i: int|
        0 <= i < l.out.len() ==> {
            &&& 0 <= (#[trigger] l.out[i]).1 <= MAX_ORDER
            &&& fits(l.out[i].0, l.out[i].1)
            &&& naturally_aligned(l.out[i].0, l.out[i].1)
        }
    &&& forall|i: int, j: int, p: int| #[trigger]
        out_covers(l.out, i, p) && #[trigger] out_covers(l.out, j, p) ==> i == j
    &&& forall|i: int, p: int| #[trigger] out_covers(l.out, i, p) ==> !is_free(l.lists, p)
}

/// What holds of the lists: they have every order, and their blocks are addressable, aligned and
/// disjoint.
pub open spec fn sound(lists: Lists) -> bool {
    &&& lists.len() == MAX_ORDER + 1
    &&& addressable(lists)
    &&& aligned(lists)
    &&& disjoint(lists)
}

/// Where a range of pages is all that two lists differ in, their sizes differ by it.
proof fn lemma_weight_grows(lists: Lists, more: Lists, lo: int, hi: int)
    requires
        lists.len() == MAX_ORDER + 1,
        more.len() == MAX_ORDER + 1,
        disjoint(lists),
        disjoint(more),
        lo <= hi,
        forall|p: int| #[trigger] is_free(more, p) <==> is_free(lists, p) || lo <= p < hi,
        forall|p: int| lo <= p < hi ==> !#[trigger] is_free(lists, p),
    ensures
        weight(more, MAX_ORDER + 1) == weight(lists, MAX_ORDER + 1) + (hi - lo),
{
    law_weight_counts_free_pages(lists);
    law_weight_counts_free_pages(more);
    let range = vstd::set_lib::set_int_range(lo, hi);
    vstd::set_lib::lemma_int_range(lo, hi);
    assert(free_set(more) =~= free_set(lists).union(range));
    assert(free_set(lists).disjoint(range));
    vstd::set_lib::lemma_set_disjoint_lens(free_set(lists), range);
}

/// The order that fits does fit, and no larger one does.
proof fn lemma_fitting(addr: int, end: int, order: int)
    requires
        0 <= order <= MAX_ORDER,
        addr % 4096 == 0,
        end % 4096 == 0,
        0 <= addr < end,
    ensures
        ({
            let k = fitting_order(addr, end, order);
            &&& 0 <= k <= order
            &&& pow2(k as nat) <= (end - addr) / 4096
            &&& (addr / 4096) % (pow2(k as nat) as int) == 0
            &&& forall|o: int|
                k < o <= order ==> !(#[trigger] pow2(o as nat) <= (end - addr) / 4096 && (addr
                    / 4096) % (pow2(o as nat) as int) == 0)
        }),
    decreases order,
{
    lemma2_to64();
    if order > 0 {
        if !(pow2(order as nat) <= (end - addr) / 4096 && (addr / 4096) % (pow2(order as nat) as int)
            == 0) {
            lemma_fitting(addr, end, order - 1);
        }
    } else {
        assert((addr / 4096) % 1 == 0);
        assert((end - addr) / 4096 >= 1);
    }
}

/// Handing memory over adds exactly its pages.
proof fn lemma_after_init(lists: Lists, addr: int, end: int)
    requires
        sound(lists),
        addr % 4096 == 0,
        end % 4096 == 0,
        0 <= addr <= end <= u64::MAX,
        forall|p: int| addr / 4096 <= p < end / 4096 ==> !#[trigger] is_free(lists, p),
    ensures
        sound(after_init(lists, addr, end)),
        forall|p: int| #[trigger]
            is_free(after_init(lists, addr, end), p) <==> is_free(lists, p) || addr / 4096 <= p
                < end / 4096,
    decreases end - addr,
{
    if addr < end {
        let k = fitting_order(addr, end, MAX_ORDER as int);
        let a = PhysAddr(addr as u64);
        lemma_fitting(addr, end, MAX_ORDER as int);
        lemma_shift(k as usize);
        let n = pow2(k as nat) * 4096;
        let next = lists.update(k, lists[k].push(a));
        assert((end - addr) / 4096 * 4096 == end - addr);
        assert(addr + n <= end);
        assert(fits(a, k));
        assert(naturally_aligned(a, k));
        lemma_list(lists, k, a);
        assert((addr + n) / 4096 == addr / 4096 + pow2(k as nat));
        assert forall|p: int| #[trigger] in_block(a, k, p) implies !is_free(lists, p) by {}
        assert forall|p: int| (addr + n) / 4096 <= p < end / 4096 implies !#[trigger] is_free(
            next,
            p,
        ) by {
            assert(!is_free(lists, p));
        }
        lemma_after_init(next, addr + n, end);
    }
}

/// What is so at first is so after handing memory over to an allocator that has none: each block
/// is the largest that fits where it starts.
spec fn largest(lists: Lists, end: int) -> bool {
    forall|k: int, i: int| #[trigger]
        listed(lists, k, i) ==> {
            let a = lists[k][i].0 as int;
            &&& k == fitting_order(a, end, MAX_ORDER as int)
            &&& a % 4096 == 0
            &&& a + pow2(k as nat) * 4096 <= end
        }
}

proof fn lemma_largest(lists: Lists, addr: int, end: int)
    requires
        lists.len() == MAX_ORDER + 1,
        largest(lists, end),
        addr % 4096 == 0,
        end % 4096 == 0,
        0 <= addr <= end <= u64::MAX,
    ensures
        largest(after_init(lists, addr, end), end),
        after_init(lists, addr, end).len() == lists.len(),
    decreases end - addr,
{
    if addr < end {
        let k = fitting_order(addr, end, MAX_ORDER as int);
        let a = PhysAddr(addr as u64);
        lemma_fitting(addr, end, MAX_ORDER as int);
        lemma_shift(k as usize);
        let n = pow2(k as nat) * 4096;
        let next = lists.update(k, lists[k].push(a));
        assert((end - addr) / 4096 * 4096 == end - addr);
        assert(addr + n <= end);
        assert forall|l: int, i: int| #[trigger] listed(next, l, i) implies {
            let b = next[l][i].0 as int;
            &&& l == fitting_order(b, end, MAX_ORDER as int)
            &&& b % 4096 == 0
            &&& b + pow2(l as nat) * 4096 <= end
        } by {
            if l == k && i == lists[k].len() {
                assert(next[l][i] == a);
            } else {
                assert(listed(lists, l, i));
                assert(next[l][i] == lists[l][i]);
            }
        }
        lemma_largest(next, addr + n, end);
    }
}

/// A multiple of a large power of two is one of a smaller.
proof fn lemma_coarser(a: int, k: int, l: int)
    requires
        0 <= k <= l,
        a % (pow2(l as nat) as int) == 0,
    ensures
        a % (pow2(k as nat) as int) == 0,
{
    let w = pow2(k as nat) as int;
    let m = pow2((l - k) as nat) as int;
    let big = pow2(l as nat) as int;
    lemma_pow2_adds(k as nat, (l - k) as nat);
    lemma_pow2_pos(k as nat);
    lemma_pow2_pos(l as nat);
    vstd::arithmetic::div_mod::lemma_fundamental_div_mod(a, big);
    let t = a / big;
    assert(a == (m * t) * w) by (nonlinear_arith)
        requires
            a == big * t,
            big == w * m,
    ;
    vstd::arithmetic::div_mod::lemma_mod_multiples_basic(m * t, w);
}

/// Multiples that differ do so by a whole step.
proof fn lemma_gap(a: int, b: int, w: int)
    requires
        w > 0,
        a % w == 0,
        b % w == 0,
        a > b,
    ensures
        a >= b + w,
{
    vstd::arithmetic::div_mod::lemma_fundamental_div_mod(a, w);
    vstd::arithmetic::div_mod::lemma_fundamental_div_mod(b, w);
    let x = a / w;
    let y = b / w;
    assert(x > y) by (nonlinear_arith)
        requires
            w * x > w * y,
            w > 0,
    ;
    assert(w * x >= w * y + w) by (nonlinear_arith)
        requires
            x >= y + 1,
            w > 0,
    ;
}

/// Halves of an aligned block of `2^(k+1)` pages: they are aligned, and the lower has an even
/// number.
proof fn lemma_aligned_halves(q: int, k: int)
    requires
        0 <= k,
        q >= 0,
        q % (pow2((k + 1) as nat) as int) == 0,
    ensures
        pow2((k + 1) as nat) == 2 * pow2(k as nat),
        q % (pow2(k as nat) as int) == 0,
        (q + pow2(k as nat)) % (pow2(k as nat) as int) == 0,
        (q / (pow2(k as nat) as int)) % 2 == 0,
{
    let w = pow2(k as nat) as int;
    lemma_pow2_unfold((k + 1) as nat);
    lemma_pow2_pos(k as nat);
    let t = q / (2 * w);
    vstd::arithmetic::div_mod::lemma_fundamental_div_mod(q, 2 * w);
    assert(q == w * (2 * t) && q == (2 * t) * w && q + w == (2 * t + 1) * w) by (nonlinear_arith)
        requires
            q == (2 * w) * t,
    ;
    vstd::arithmetic::div_mod::lemma_mod_multiples_basic(2 * t, w);
    vstd::arithmetic::div_mod::lemma_mod_multiples_basic(2 * t + 1, w);
    vstd::arithmetic::div_mod::lemma_div_multiples_vanish(2 * t, w);
}

/// Where all pages of an aligned block are free and no buddies are listed, one listed block
/// holds it whole.
proof fn lemma_whole_block(lists: Lists, k: int, q: int) -> (r: (int, int))
    requires
        sound(lists),
        no_buddies(lists),
        0 <= k <= MAX_ORDER,
        q >= 0,
        q % (pow2(k as nat) as int) == 0,
        forall|p: int| q <= p < q + pow2(k as nat) ==> #[trigger] is_free(lists, p),
    ensures
        listed(lists, r.0, r.1),
        k <= r.0,
        lists[r.0][r.1].0 as int / 4096 <= q,
        q + pow2(k as nat) <= lists[r.0][r.1].0 as int / 4096 + pow2(r.0 as nat),
    decreases k,
{
    lemma2_to64();
    if k == 0 {
        assert(is_free(lists, q));
        let (l, i) = choose|l: int, i: int| #[trigger] covers(lists, l, i, q);
        (l, i)
    } else {
        let w = pow2((k - 1) as nat) as int;
        lemma_aligned_halves(q, k - 1);
        lemma_pow2_pos((k - 1) as nat);
        let r1 = lemma_whole_block(lists, k - 1, q);
        let r2 = lemma_whole_block(lists, k - 1, q + w);
        let b1 = lists[r1.0][r1.1];
        let b2 = lists[r2.0][r2.1];
        let q1 = b1.0 as int / 4096;
        let q2 = b2.0 as int / 4096;
        if r1.0 >= k {
            let e = q1 + pow2(r1.0 as nat);
            lemma_coarser(q1, k, r1.0);
            lemma_pow2_pos(r1.0 as nat);
            vstd::arithmetic::div_mod::lemma_mod_self_0(pow2(r1.0 as nat) as int);
            lemma_coarser(pow2(r1.0 as nat) as int, k, r1.0);
            vstd::arithmetic::div_mod::lemma_add_mod_noop(
                q1,
                pow2(r1.0 as nat) as int,
                pow2(k as nat) as int,
            );
            lemma_pow2_pos(k as nat);
            vstd::arithmetic::div_mod::lemma_small_mod(0, pow2(k as nat));
            lemma_gap(e, q, pow2(k as nat) as int);
            r1
        } else if r2.0 >= k {
            lemma_coarser(q2, k, r2.0);
            if q2 > q {
                lemma_gap(q2, q, pow2(k as nat) as int);
            }
            r2
        } else {
            assert(q1 == q && q2 == q + w);
            assert(fits(b1, k - 1) && fits(b2, k - 1));
            lemma_buddy(b1, k - 1);
            assert(buddy_of(b1, k - 1).0 == b2.0);
            assert(lists[k - 1].contains(b1));
            assert(lists[k - 1].contains(b2));
            assert(lists[k - 1].contains(buddy_of(b1, k - 1)));
            assert(false);
            r1
        }
    }
}

/// A block listed in one is listed in the other, where the same pages are free in both and no
/// buddies are listed in either.
proof fn lemma_listed_in_both(lists: Lists, other: Lists, k: int, a: PhysAddr)
    requires
        sound(lists),
        sound(other),
        no_buddies(lists),
        no_buddies(other),
        forall|p: int| is_free(lists, p) <==> is_free(other, p),
        0 <= k <= MAX_ORDER,
        lists[k].contains(a),
    ensures
        other[k].contains(a),
{
    let i = choose|i: int| 0 <= i < lists[k].len() && lists[k][i] == a;
    let q = a.0 as int / 4096;
    assert(listed(lists, k, i));
    lemma_pow2_pos(k as nat);
    assert forall|p: int| q <= p < q + pow2(k as nat) implies #[trigger] is_free(other, p) by {
        assert(covers(lists, k, i, p));
        assert(is_free(lists, p));
    }
    let (l, j) = lemma_whole_block(other, k, q);
    let b = other[l][j];
    let r = b.0 as int / 4096;
    assert forall|p: int| r <= p < r + pow2(l as nat) implies #[trigger] is_free(lists, p) by {
        assert(covers(other, l, j, p));
        assert(is_free(other, p));
    }
    lemma_pow2_pos(l as nat);
    let (m, h) = lemma_whole_block(lists, l, r);
    assert(covers(lists, m, h, q));
    assert(covers(lists, k, i, q));
    assert(l == k);
    assert(r == q);
    assert(fits(a, k) && fits(b, k));
    assert(a.0 == b.0);
    assert(other[k][j] == a);
}

/// Which pages are free decides which blocks are listed, where no buddies are.
pub proof fn law_free_pages_decide_blocks(lists: Lists, other: Lists)
    requires
        sound(lists),
        sound(other),
        no_buddies(lists),
        no_buddies(other),
        forall|p: int| is_free(lists, p) <==> is_free(other, p),
    ensures
        same_blocks(lists, other),
{
    assert forall|k: int, a: PhysAddr| 0 <= k < lists.len() implies (
    #[trigger] lists[k].contains(a) <==> other[k].contains(a)) by {
        if lists[k].contains(a) {
            lemma_listed_in_both(lists, other, k, a);
        }
        if other[k].contains(a) {
            lemma_listed_in_both(other, lists, k, a);
        }
    }
}

/// The buddy of the buddy is the block itself.
proof fn lemma_buddy_twice(a: PhysAddr, k: int)
    requires
        0 <= k < MAX_ORDER,
        fits(a, k),
        fits(buddy_of(a, k), k),
    ensures
        buddy_of(buddy_of(a, k), k) == a,
        buddy_of(a, k) != a,
{
    lemma_buddy(a, k);
    lemma_shift(k as usize);
    let w = pow2(k as nat) as int;
    let q = a.0 as int / 4096;
    let b = buddy_of(a, k);
    lemma_buddy(b, k);
    if (q / w) % 2 == 0 {
        assert(b.0 as int / 4096 == q + w);
        vstd::arithmetic::div_mod::lemma_div_plus_one(q, w);
    } else {
        assert(b.0 as int / 4096 == q - w);
        vstd::arithmetic::div_mod::lemma_div_minus_one(q, w);
    }
}

/// Cutting a block leaves no buddies.
proof fn lemma_split_no_buddies(lists: Lists, order: int, from: int)
    requires
        sound(lists),
        no_buddies(lists),
        0 <= order <= from <= MAX_ORDER,
        lists[from].len() > 0,
        forall|j: int| order <= j < from ==> (#[trigger] lists[j]).len() == 0,
    ensures
        no_buddies(after_split(lists, order, from)),
{
    let after = after_split(lists, order, from);
    lemma_after_split(lists, order, from);
    assert forall|k: int, a: PhysAddr|
        0 <= k < MAX_ORDER && after[k].contains(a) implies !#[trigger] after[k].contains(
        buddy_of(a, k),
    ) by {
        let i = choose|i: int| 0 <= i < after[k].len() && after[k][i] == a;
        assert(listed(after, k, i));
        if k == from {
            assert(lists[k][i] == a);
            assert(lists[k].contains(a));
            if after[k].contains(buddy_of(a, k)) {
                let j = choose|j: int| 0 <= j < after[k].len() && after[k][j] == buddy_of(a, k);
                assert(lists[k][j] == buddy_of(a, k));
                assert(lists[k].contains(buddy_of(a, k)));
            }
        } else if order <= k < from {
            assert(lists[k].len() == 0);
            assert(after[k].len() == 1);
            if after[k].contains(buddy_of(a, k)) {
                lemma_buddy_twice(a, k);
            }
        } else {
            assert(after[k] == lists[k]);
        }
    }
}

/// Giving a block back leaves no buddies.
proof fn lemma_free_no_buddies(lists: Lists, addr: PhysAddr, order: int)
    requires
        sound(lists),
        no_buddies(lists),
        0 <= order <= MAX_ORDER,
        fits(addr, order),
        naturally_aligned(addr, order),
        forall|p: int| #[trigger] in_block(addr, order, p) ==> !is_free(lists, p),
    ensures
        no_buddies(after_free(lists, addr, order)),
    decreases MAX_ORDER - order,
{
    let buddy = buddy_of(addr, order);
    if order < MAX_ORDER && lists[order].contains(buddy) {
        lemma_first_exists(lists[order], buddy);
        let i = choose|i: int| is_first(lists[order], buddy, i);
        assert(listed(lists, order, i));
        let rest = lists.update(order, swap_out(lists[order], i));
        lemma_unlist(lists, order, i);
        lemma_merge(addr, order);
        let merged = if addr.0 <= buddy.0 {
            addr
        } else {
            buddy
        };
        assert forall|p: int| #[trigger] in_block(merged, order + 1, p) implies !is_free(rest, p) by {
            assert(in_block(addr, order, p) || in_block(buddy, order, p));
        }
        assert forall|k: int, a: PhysAddr|
            0 <= k < MAX_ORDER && rest[k].contains(a) implies !#[trigger] rest[k].contains(
            buddy_of(a, k),
        ) by {
            lemma_swapped_contains(lists, order, i, k, a);
            if rest[k].contains(buddy_of(a, k)) {
                lemma_swapped_contains(lists, order, i, k, buddy_of(a, k));
            }
        }
        lemma_free_no_buddies(rest, merged, order + 1);
    } else {
        let after = lists.update(order, lists[order].push(addr));
        lemma_list(lists, order, addr);
        assert forall|k: int, a: PhysAddr|
            0 <= k < MAX_ORDER && after[k].contains(a) implies !#[trigger] after[k].contains(
            buddy_of(a, k),
        ) by {
            if k == order && after[k].contains(buddy_of(a, k)) {
                let b = buddy_of(a, k);
                let i = choose|i: int| 0 <= i < after[k].len() && after[k][i] == a;
                let j = choose|j: int| 0 <= j < after[k].len() && after[k][j] == b;
                assert(listed(after, k, i));
                assert(listed(after, k, j));
                lemma_buddy_twice(a, k);
                let n = lists[k].len() as int;
                if i < n {
                    assert(lists[k][i] == a);
                    assert(lists[k].contains(a));
                }
                if j < n {
                    assert(lists[k][j] == b);
                    assert(lists[k].contains(b));
                }
            } else if k != order {
                assert(after[k] == lists[k]);
            }
        }
    }
}

proof fn lemma_swapped_contains(lists: Lists, order: int, i: int, k: int, a: PhysAddr)
    requires
        listed(lists, order, i),
        0 <= k < lists.len(),
        lists.update(order, swap_out(lists[order], i))[k].contains(a),
    ensures
        lists[k].contains(a),
{
    let rest = lists.update(order, swap_out(lists[order], i));
    let j = choose|j: int| 0 <= j < rest[k].len() && rest[k][j] == a;
    if k == order {
        let from = if j == i {
            lists[k].len() - 1
        } else {
            j
        };
        assert(lists[k][from] == a);
    }
}

/// Memory handed over to an allocator that has none is cut so that no buddies are listed.
proof fn lemma_init_no_buddies(addr: int, end: int)
    requires
        addr % 4096 == 0,
        end % 4096 == 0,
        0 <= addr <= end <= u64::MAX,
    ensures
        no_buddies(after_init(no_calls().lists, addr, end)),
{
    let lists = no_calls().lists;
    let after = after_init(lists, addr, end);
    lemma_largest(lists, addr, end);
    assert forall|k: int, a: PhysAddr|
        0 <= k < MAX_ORDER && after[k].contains(a) implies !#[trigger] after[k].contains(
        buddy_of(a, k),
    ) by {
        if after[k].contains(buddy_of(a, k)) {
            let b = buddy_of(a, k);
            let i = choose|i: int| 0 <= i < after[k].len() && after[k][i] == a;
            let j = choose|j: int| 0 <= j < after[k].len() && after[k][j] == b;
            assert(listed(after, k, i));
            assert(listed(after, k, j));
            lemma_shift(k as usize);
            lemma_buddy(a, k);
            lemma_buddy_twice(a, k);
            lemma_buddy(b, k);
            let m = if a.0 < b.0 {
                a
            } else {
                b
            };
            let s = m.0 as int;
            let q = s / 4096;
            let w = pow2(k as nat) as int;
            lemma_fitting(s, end, MAX_ORDER as int);
            assert(k == fitting_order(s, end, MAX_ORDER as int));
            assert(q % w == 0);
            assert((q / w) % 2 == 0);
            assert(q % (2 * w) == 0) by {
                vstd::arithmetic::div_mod::lemma_fundamental_div_mod(q, w);
                let t = q / w / 2;
                assert(q == t * (2 * w)) by (nonlinear_arith)
                    requires
                        q == w * (q / w),
                        q / w == 2 * t,
                ;
                vstd::arithmetic::div_mod::lemma_mod_multiples_basic(t, 2 * w);
            }
            assert(s + 2 * w * 4096 <= end);
            assert((end - s) / 4096 >= 2 * w);
            assert(pow2((k + 1) as nat) == 2 * w);
        }
    }
}

/// The lists of two are empty at the same orders: the same orders can be had.
proof fn lemma_same_orders(lists: Lists, other: Lists, order: int)
    requires
        same_blocks(lists, other),
        0 <= order,
    ensures
        first_nonempty(lists, order) == first_nonempty(other, order),
    decreases lists.len() - order,
{
    if order < lists.len() {
        if lists[order].len() > 0 {
            assert(lists[order].contains(lists[order][0]));
        }
        if other[order].len() > 0 {
            assert(lists[order].contains(other[order][0]));
        }
        lemma_same_orders(lists, other, order + 1);
    }
}

proof fn lemma_out_removed(out: Seq<(PhysAddr, int)>, i: int)
    requires
        0 <= i < out.len(),
    ensures
        out_pages(out.remove(i)) == out_pages(out) - pow2(out[i].1 as nat),
    decreases out.len(),
{
    if i == out.len() - 1 {
        assert(out.remove(i) =~= out.drop_last());
    } else {
        lemma_out_removed(out.drop_last(), i);
        assert(out.remove(i).drop_last() =~= out.drop_last().remove(i));
        assert(out.remove(i).last() == out.last());
    }
}

/// Whatever the calls: blocks handed out are apart, and pages that are free and pages that are
/// handed out are together the pages handed over.
pub open spec fn balanced(l: Ledger) -> bool {
    &&& sound(l.lists)
    &&& apart(l)
    &&& weight(l.lists, MAX_ORDER + 1) + out_pages(l.out) == l.total
}

proof fn lemma_call(l: Ledger, c: Call)
    requires
        balanced(l),
        callable(l, c),
    ensures
        balanced(after_call(l, c)),
        !(c is Init) ==> forall|p: int| #[trigger] held(after_call(l, c), p) <==> held(l, p),
        c matches Call::Init(start, end) ==> forall|p: int| #[trigger]
            held(after_call(l, c), p) <==> held(l, p) || start.0 as int / 4096 <= p < end.0 as int
                / 4096,
        !(c is Init) && no_buddies(l.lists) ==> no_buddies(after_call(l, c).lists),
{
    let n = after_call(l, c);
    match c {
        Call::Init(start, end) => {
            let lo = start.0 as int / 4096;
            let hi = end.0 as int / 4096;
            assert forall|p: int| lo <= p < hi implies !#[trigger] is_free(l.lists, p) by {
                assert(!held(l, p));
            }
            lemma_after_init(l.lists, start.0 as int, end.0 as int);
            lemma_weight_grows(l.lists, n.lists, lo, hi);
            assert((end.0 - start.0) / 4096 == hi - lo);
            assert forall|i: int, p: int| #[trigger] out_covers(n.out, i, p) implies !is_free(
                n.lists,
                p,
            ) by {
                assert(out_covers(l.out, i, p));
                if lo <= p < hi {
                    assert(!held(l, p));
                }
            }
            assert forall|p: int| #[trigger] held(n, p) <==> held(l, p) || lo <= p < hi by {
                assert(is_free(n.lists, p) <==> is_free(l.lists, p) || lo <= p < hi);
            }
        },
        Call::Alloc(order) => {
            let from = first_nonempty(l.lists, order);
            lemma_first_nonempty(l.lists, order);
            lemma_first_nonempty_found(l.lists, order);
            lemma_after_split(l.lists, order, from);
            let block = l.lists[from].last();
            let q = block.0 as int / 4096;
            assert forall|p: int| #[trigger] is_free(l.lists, p) <==> is_free(n.lists, p) || q <= p
                < q + pow2(order as nat) by {
                assert(in_block(block, order, p) <==> q <= p < q + pow2(order as nat));
                assert(is_free(n.lists, p) <==> is_free(l.lists, p) && !in_block(block, order, p));
            }
            assert forall|p: int| q <= p < q + pow2(order as nat) implies !#[trigger] is_free(
                n.lists,
                p,
            ) by {
                assert(in_block(block, order, p));
            }
            lemma_weight_grows(n.lists, l.lists, q, q + pow2(order as nat));
            let m = l.out.len() as int;
            assert(n.out.drop_last() =~= l.out);
            assert(n.out.last() == (block, order));
            assert forall|i: int, p: int| #[trigger] out_covers(n.out, i, p) implies (if i < m {
                out_covers(l.out, i, p)
            } else {
                in_block(block, order, p)
            }) by {}
            assert forall|i: int, j: int, p: int| #[trigger]
                out_covers(n.out, i, p) && #[trigger] out_covers(n.out, j, p) implies i == j by {
                if i < m && j == m {
                    assert(out_covers(l.out, i, p));
                    assert(is_free(l.lists, p));
                }
                if j < m && i == m {
                    assert(out_covers(l.out, j, p));
                    assert(is_free(l.lists, p));
                }
                if i < m && j < m {
                    assert(out_covers(l.out, i, p) && out_covers(l.out, j, p));
                }
            }
            assert forall|i: int, p: int| #[trigger] out_covers(n.out, i, p) implies !is_free(
                n.lists,
                p,
            ) by {
                if i < m {
                    assert(out_covers(l.out, i, p));
                }
            }
            assert forall|i: int| 0 <= i < n.out.len() implies {
                &&& 0 <= (#[trigger] n.out[i]).1 <= MAX_ORDER
                &&& fits(n.out[i].0, n.out[i].1)
                &&& naturally_aligned(n.out[i].0, n.out[i].1)
            } by {
                if i < m {
                    assert(n.out[i] == l.out[i]);
                }
            }
            assert forall|p: int| #[trigger] held(n, p) <==> held(l, p) by {
                if exists|i: int| #[trigger] out_covers(n.out, i, p) {
                    let i = choose|i: int| #[trigger] out_covers(n.out, i, p);
                    if i < m {
                        assert(out_covers(l.out, i, p));
                    } else {
                        assert(in_block(block, order, p));
                        assert(is_free(l.lists, p));
                    }
                }
                if exists|i: int| #[trigger] out_covers(l.out, i, p) {
                    let i = choose|i: int| #[trigger] out_covers(l.out, i, p);
                    assert(out_covers(n.out, i, p));
                }
                if is_free(l.lists, p) && !is_free(n.lists, p) {
                    assert(in_block(block, order, p));
                    assert(out_covers(n.out, m, p));
                }
                if is_free(n.lists, p) {
                    assert(is_free(l.lists, p));
                }
            }
            if no_buddies(l.lists) {
                lemma_split_no_buddies(l.lists, order, from);
            }
        },
        Call::Free(i) => {
            let (addr, order) = l.out[i];
            let q = addr.0 as int / 4096;
            assert forall|p: int| #[trigger] in_block(addr, order, p) implies !is_free(
                l.lists,
                p,
            ) by {
                assert(out_covers(l.out, i, p));
            }
            lemma_after_free(l.lists, addr, order);
            lemma_free_keeps_length(l.lists, addr, order);
            assert forall|p: int| #[trigger] is_free(n.lists, p) <==> is_free(l.lists, p) || q <= p
                < q + pow2(order as nat) by {
                assert(in_block(addr, order, p) <==> q <= p < q + pow2(order as nat));
            }
            assert forall|p: int| q <= p < q + pow2(order as nat) implies !#[trigger] is_free(
                l.lists,
                p,
            ) by {
                assert(in_block(addr, order, p));
            }
            lemma_weight_grows(l.lists, n.lists, q, q + pow2(order as nat));
            lemma_out_removed(l.out, i);
            // Where a block stood before.
            let was = |j: int| if j < i { j } else { j + 1 };
            assert forall|j: int, p: int| #[trigger] out_covers(n.out, j, p) implies out_covers(
                l.out,
                was(j),
                p,
            ) by {}
            assert forall|h: int, j: int, p: int| #[trigger]
                out_covers(n.out, h, p) && #[trigger] out_covers(n.out, j, p) implies h == j by {
                assert(out_covers(l.out, was(h), p) && out_covers(l.out, was(j), p));
            }
            assert forall|j: int, p: int| #[trigger] out_covers(n.out, j, p) implies !is_free(
                n.lists,
                p,
            ) by {
                assert(out_covers(l.out, was(j), p));
                if in_block(addr, order, p) {
                    assert(out_covers(l.out, i, p));
                }
            }
            assert forall|j: int| 0 <= j < n.out.len() implies {
                &&& 0 <= (#[trigger] n.out[j]).1 <= MAX_ORDER
                &&& fits(n.out[j].0, n.out[j].1)
                &&& naturally_aligned(n.out[j].0, n.out[j].1)
            } by {
                assert(n.out[j] == l.out[was(j)]);
            }
            assert forall|p: int| #[trigger] held(n, p) <==> held(l, p) by {
                if exists|j: int| #[trigger] out_covers(n.out, j, p) {
                    let j = choose|j: int| #[trigger] out_covers(n.out, j, p);
                    assert(out_covers(l.out, was(j), p));
                }
                if exists|j: int| #[trigger] out_covers(l.out, j, p) {
                    let j = choose|j: int| #[trigger] out_covers(l.out, j, p);
                    if j == i {
                        assert(in_block(addr, order, p));
                        assert(is_free(n.lists, p));
                    } else if j < i {
                        assert(out_covers(n.out, j, p));
                    } else {
                        assert(out_covers(n.out, j - 1, p));
                    }
                }
                if is_free(n.lists, p) && in_block(addr, order, p) {
                    assert(out_covers(l.out, i, p));
                }
                if is_free(l.lists, p) {
                    assert(is_free(n.lists, p));
                }
            }
            if no_buddies(l.lists) {
                lemma_free_no_buddies(l.lists, addr, order);
            }
        },
    }
}

proof fn lemma_free_keeps_length(lists: Lists, addr: PhysAddr, order: int)
    requires
        lists.len() == MAX_ORDER + 1,
        0 <= order <= MAX_ORDER,
    ensures
        after_free(lists, addr, order).len() == lists.len(),
    decreases MAX_ORDER - order,
{
    let buddy = buddy_of(addr, order);
    if order < MAX_ORDER && lists[order].contains(buddy) {
        let i = choose|i: int| is_first(lists[order], buddy, i);
        lemma_free_keeps_length(
            lists.update(order, swap_out(lists[order], i)),
            if addr.0 <= buddy.0 {
                addr
            } else {
                buddy
            },
            order + 1,
        );
    }
}

/// An order that is listed, or a smaller one, can be had.
proof fn lemma_listed_can_be_had(lists: Lists, order: int, k: int)
    requires
        0 <= order <= k < lists.len(),
        lists[k].len() > 0,
    ensures
        first_nonempty(lists, order) <= k,
    decreases k - order,
{
    if order < k {
        lemma_listed_can_be_had(lists, order + 1, k);
    }
}

/// A block that was given back can be had again.
pub proof fn lemma_given_back_can_be_had(lists: Lists, addr: PhysAddr, order: int, wanted: int)
    requires
        lists.len() == MAX_ORDER + 1,
        0 <= wanted <= order <= MAX_ORDER,
    ensures
        first_nonempty(after_free(lists, addr, order), wanted) <= MAX_ORDER,
    decreases MAX_ORDER - order,
{
    let buddy = buddy_of(addr, order);
    if order < MAX_ORDER && lists[order].contains(buddy) {
        let i = choose|i: int| is_first(lists[order], buddy, i);
        lemma_given_back_can_be_had(
            lists.update(order, swap_out(lists[order], i)),
            if addr.0 <= buddy.0 {
                addr
            } else {
                buddy
            },
            order + 1,
            wanted,
        );
    } else {
        lemma_listed_can_be_had(after_free(lists, addr, order), wanted, order);
    }
}

proof fn lemma_no_calls()
    ensures
        balanced(no_calls()),
        forall|p: int| !#[trigger] held(no_calls(), p),
{
    let l = no_calls();
    lemma_weight_empty(l.lists, MAX_ORDER + 1);
    assert forall|p: int| !#[trigger] held(l, p) by {
        if is_free(l.lists, p) {
            let (k, i) = choose|k: int, i: int| #[trigger] covers(l.lists, k, i, p);
            assert(listed(l.lists, k, i));
        }
    }
}

/// Free pages and the pages of the blocks handed out are together the pages handed over, and
/// no page is both or in two blocks: after any calls that hand over memory that was not handed
/// over before, hand out blocks and give back what was handed out.
pub proof fn law_no_page_is_lost(calls: Seq<Call>, n: int)
    requires
        0 <= n <= calls.len(),
        history(calls, n),
    ensures
        balanced(after_calls(calls, n)),
    decreases n,
{
    if n == 0 {
        lemma_no_calls();
    } else {
        law_no_page_is_lost(calls, n - 1);
        lemma_call(after_calls(calls, n - 1), calls[n - 1]);
    }
}

/// Memory is handed over by the first call and by no other.
pub open spec fn one_init(calls: Seq<Call>, n: int) -> bool {
    &&& n >= 1
    &&& calls[0] is Init
    &&& forall|i: int| 0 < i < n ==> !((#[trigger] calls[i]) is Init)
}

/// Once memory was handed over, in one range, no two free blocks of one order below the largest
/// are buddies.
pub proof fn law_buddies_are_merged(calls: Seq<Call>, n: int)
    requires
        0 <= n <= calls.len(),
        history(calls, n),
        one_init(calls, n),
    ensures
        no_buddies(after_calls(calls, n).lists),
        forall|p: int| #[trigger]
            held(after_calls(calls, n), p) <==> held(after_calls(calls, 1), p),
    decreases n,
{
    law_no_page_is_lost(calls, n - 1);
    if n == 1 {
        assert(callable(after_calls(calls, 0), calls[0]));
        assert(after_calls(calls, 0) == no_calls());
        assert(after_calls(calls, 1) == after_call(after_calls(calls, 0), calls[0]));
        if let Call::Init(start, end) = calls[0] {
            lemma_init_no_buddies(start.0 as int, end.0 as int);
        }
    } else {
        law_buddies_are_merged(calls, n - 1);
        assert(callable(after_calls(calls, n - 1), calls[n - 1]));
        lemma_call(after_calls(calls, n - 1), calls[n - 1]);
    }
}

/// Once all blocks are given back, in whatever order, the allocator is as it was right after
/// memory was handed over: all of it is available, in the same free blocks, and the same orders
/// can be had.
pub proof fn law_all_given_back_restores(calls: Seq<Call>, n: int)
    requires
        0 <= n <= calls.len(),
        history(calls, n),
        one_init(calls, n),
        after_calls(calls, n).out.len() == 0,
    ensures
        same_blocks(after_calls(calls, n).lists, after_calls(calls, 1).lists),
        weight(after_calls(calls, n).lists, MAX_ORDER + 1) == after_calls(calls, n).total,
        after_calls(calls, n).total == after_calls(calls, 1).total,
        forall|order: int|
            0 <= order ==> #[trigger] first_nonempty(after_calls(calls, n).lists, order)
                == first_nonempty(after_calls(calls, 1).lists, order),
        no_buddies(after_calls(calls, n).lists),
{
    let l = after_calls(calls, n);
    let first = after_calls(calls, 1);
    law_no_page_is_lost(calls, n);
    law_no_page_is_lost(calls, 1);
    law_buddies_are_merged(calls, n);
    law_buddies_are_merged(calls, 1);
    assert(first == after_call(after_calls(calls, 0), calls[0]));
    assert(after_calls(calls, 0) == no_calls());
    assert(first.out.len() == 0);
    assert forall|p: int| is_free(l.lists, p) <==> is_free(first.lists, p) by {
        assert(held(l, p) <==> held(first, p));
        assert(forall|i: int| !#[trigger] out_covers(l.out, i, p));
        assert(forall|i: int| !#[trigger] out_covers(first.out, i, p));
    }
    law_free_pages_decide_blocks(l.lists, first.lists);
    lemma_total_stays(calls, n);
    assert forall|order: int| 0 <= order implies #[trigger] first_nonempty(l.lists, order)
        == first_nonempty(first.lists, order) by {
        lemma_same_orders(l.lists, first.lists, order);
    }
}

proof fn lemma_total_stays(calls: Seq<Call>, n: int)
    requires
        one_init(calls, n),
    ensures
        after_calls(calls, n).total == after_calls(calls, 1).total,
    decreases n,
{
    if n > 1 {
        lemma_total_stays(calls, n - 1);
    }
}

} // verus!
