//! What a fork keeps apart: memory that can be written is seen by parent and child through objects
//! of their own, and neither can write a page that the other sees.
use vstd::prelude::*;
use crate::hal::addr::page_floor;
use crate::hal::errno::Errno;
use crate::mm::allocator::frame_allocator::FramePool;
use crate::mm::pmap::pte::{addr_of, entry_of, flags_for};
use crate::mm::pmap::shootdown::ShootdownBatch;
use crate::mm::pmap::space::{enter_flags, maps, reprotected, step_addr, touches, Pmap};
use crate::mm::pmap::table::same_page;
use crate::mm::vm::map::address_map::{handles, Entries, VmMap};
use crate::mm::vm::map::entry::{object_of, offset_of, remapped, same_kind, VmMapEntry, VmMapping};
use crate::mm::vm::map::fork::{
    blocked, child_after, child_part, cow_handles, cow_pte, cows, did_cow_fork, dirty_pages, fork_steps,
    fork_stop,
    forked_in_turn, forked_store, is_cow, is_shadow, law_changed_page_is_flushed, lemma_cow_handles,
    lemma_cows_bound, lemma_stop, parent_after, read_only, share_steps, stepped,
};
use crate::mm::vm::map::perm::{lemma_strip_write, MapPerm};
use crate::mm::vm::map::splay::rank;
use crate::mm::vm::object::VmObjects;
use crate::mm::vm::page_ref::PageRef;
use crate::mm::vm::shadow::{Objects, PagerRef};

verus! {

/// Every kind of mapping but a guard has the object and the offset that it names, and keeps its kind
/// when it gets others.
pub proof fn law_mappings_name_their_object(object: usize, offset: u64, o: usize, f: u64)
    ensures
        object_of(VmMapping::AnonPrivate { object, offset }) == Some(object),
        object_of(VmMapping::FilePrivate { object, offset }) == Some(object),
        object_of(VmMapping::FileShared { object, offset }) == Some(object),
        object_of(VmMapping::Heap { object, offset }) == Some(object),
        object_of(VmMapping::Shared { object, offset }) == Some(object),
        object_of(VmMapping::Guard) is None,
        offset_of(VmMapping::AnonPrivate { object, offset }) == offset,
        offset_of(VmMapping::FilePrivate { object, offset }) == offset,
        offset_of(VmMapping::FileShared { object, offset }) == offset,
        offset_of(VmMapping::Heap { object, offset }) == offset,
        offset_of(VmMapping::Shared { object, offset }) == offset,
        remapped(VmMapping::AnonPrivate { object, offset }, o, f) == (VmMapping::AnonPrivate {
            object: o,
            offset: f,
        }),
        remapped(VmMapping::FilePrivate { object, offset }, o, f) == (VmMapping::FilePrivate {
            object: o,
            offset: f,
        }),
        remapped(VmMapping::FileShared { object, offset }, o, f) == (VmMapping::FileShared {
            object: o,
            offset: f,
        }),
        remapped(VmMapping::Heap { object, offset }, o, f) == (VmMapping::Heap {
            object: o,
            offset: f,
        }),
        remapped(VmMapping::Shared { object, offset }, o, f) == (VmMapping::Shared {
            object: o,
            offset: f,
        }),
{
}

/// The right to write, in numbers.
pub proof fn lemma_write_bit(p: MapPerm)
    ensures
        p.has(MapPerm::W()) == (p.0 / 2 % 2 == 1),
        read_only(p).0 / 2 % 2 == 0,
{
    let w = p.0;
    assert((w & 2 == 2) == (w / 2 % 2 == 1) && (w & (!2u8 & 15)) / 2 % 2 == 0) by (bit_vector);
}

/// An entry for a page that may not be written, in numbers.
pub proof fn lemma_no_write(pa: u64, p: MapPerm)
    requires
        p.0 / 2 % 2 == 0,
        pa % 4096 == 0,
        pa < 0x100_0000_0000_0000,
    ensures
        ({
            let raw = entry_of(pa, enter_flags(p, false));
            &&& raw % 2 == 1
            &&& raw / 4 % 2 == 0
            &&& raw as int / 1024 % 0x1000_0000_0000 == pa as int / 4096
        }),
{
    lemma_write_bit(p);
    let f = flags_for(p).0 as int;
    let q = pa as int / 4096;
    let raw = entry_of(pa, enter_flags(p, false)) as int;
    assert(raw == q * 1024 + f);
    assert(raw / 4 == q * 256 + f / 4);
    assert(raw / 1024 == q);
}

/// An entry that has lost the right to write, in numbers.
proof fn lemma_lost_write(raw: u64, p: MapPerm)
    requires
        p.0 / 2 % 2 == 0,
    ensures
        ({
            let now = reprotected(raw, p);
            &&& now % 2 == 1 && now / 2 % 8 != 0 ==> now / 4 % 2 == 0
            &&& now as int / 1024 % 0x1000_0000_0000 == raw as int / 1024 % 0x1000_0000_0000
            &&& now % 2 == raw % 2
        }),
{
    lemma_write_bit(p);
    if maps(raw) {
        let q = raw as int / 1024 % 0x1000_0000_0000;
        let f = flags_for(p).0 as int + raw as int % 1024 / 256 * 256;
        let now = reprotected(raw, p) as int;
        assert(addr_of(raw) as int == q * 4096);
        assert(addr_of(raw) as int / 4096 == q);
        assert(now == q * 1024 + f);
        assert(now / 4 == q * 256 + f / 4);
        assert(now / 1024 == q);
    }
}

/// What the parent translates an address to after a fork: the same page, and where the address lies
/// in an entry that has an object and can be written, without the right to write.
pub proof fn law_parent_keeps_page(es: Entries, n: int, raw: u64, v: int)
    requires
        0 <= n <= es.len(),
        0 <= v,
    ensures
        ({
            let now = cow_pte(es, n, raw, v);
            &&& now as int / 1024 % 0x1000_0000_0000 == raw as int / 1024 % 0x1000_0000_0000
            &&& now % 2 == raw % 2
            &&& forall|i: int|
                0 <= i < n && (#[trigger] es[i]).lo <= v < es[i].hi && es[i].protection.0 / 2 % 2 == 1
                    && object_of(es[i].mapping) is Some && now % 2 == 1 && now / 2 % 8 != 0 ==> now / 4
                    % 2 == 0
        }),
    decreases n,
{
    if n > 0 {
        law_parent_keeps_page(es, n - 1, raw, v);
        let e = es[n - 1];
        let prev = cow_pte(es, n - 1, raw, v);
        lemma_write_bit(e.protection);
        lemma_lost_write(prev, read_only(e.protection));
        if e.lo <= v < e.hi {
            lemma_within(e.lo as int, e.hi as int, v);
        }
    }
}

/// A walk over a range touches the page of each of its addresses.
proof fn lemma_within(lo: int, hi: int, v: int)
    requires
        0 <= lo <= v < hi,
    ensures
        touches(page_floor(lo), hi, v),
{
    let s = page_floor(lo);
    let k = (v - s) / 4096;
    assert(s % 4096 == 0);
    assert(step_addr(s, k) <= v < step_addr(s, k) + 4096);
    let a = step_addr(s, k);
    assert(a % 4096 == 0);
    assert(a / 4096 == v / 4096);
    assert(a / 0x20_0000 == v / 0x20_0000);
    assert(a / 0x4000_0000 == v / 0x4000_0000);
    assert(same_page(a, v));
}

/// Every page whose translation in the parent a fork changes is among those to be flushed.
pub proof fn law_every_changed_page_is_flushed(parent: &Pmap, es: Entries, n: int, v: int)
    requires
        0 <= n <= es.len(),
        cow_pte(es, n, parent.entry_at(v), v) != parent.entry_at(v),
    ensures
        exists|x: u64| #[trigger] dirty_pages(parent, es, n).contains(x) && same_page(x as int, v),
    decreases n,
{
    let raw = parent.entry_at(v);
    let e = es[n - 1];
    let all = dirty_pages(parent, es, n);
    let prev = dirty_pages(parent, es, n - 1);
    if cow_pte(es, n - 1, raw, v) != raw {
        law_every_changed_page_is_flushed(parent, es, n - 1, v);
        let x = choose|x: u64| #[trigger] prev.contains(x) && same_page(x as int, v);
        let j = choose|j: int| 0 <= j < prev.len() && prev[j] == x;
        assert(all[j] == x);
        assert(all.contains(x));
    } else {
        let s = page_floor(e.lo as int);
        let k = choose|k: int|
            0 <= k && #[trigger] step_addr(s, k) < e.hi as int && same_page(step_addr(s, k), v);
        let a = step_addr(s, k);
        assert(parent.entry_at(a) == parent.entry_at(v));
        lemma_cow_same(es, n - 1, raw, a, v);
        assert(maps(cow_pte(es, n - 1, raw, a)));
        assert(a == s + 4096 * k);
        law_changed_page_is_flushed(parent, es, n, n - 1, k);
        assert(all.contains(a as u64));
    }
}

proof fn lemma_cow_same(es: Entries, n: int, raw: u64, a: int, b: int)
    requires
        same_page(a, b),
    ensures
        cow_pte(es, n, raw, a) == cow_pte(es, n, raw, b),
    decreases n,
{
    if n > 0 {
        lemma_cow_same(es, n - 1, raw, a, b);
        let e = es[n - 1];
        crate::mm::pmap::space::lemma_touch_same(page_floor(e.lo as int), e.hi as int, a, b);
    }
}

/// Where sharing pages has changed a translation of the child, it is to the parent's page, with the
/// protection asked for.
pub proof fn lemma_shared_entry(
    parent: &Pmap,
    spaces: Seq<Pmap>,
    pools: Seq<FramePool>,
    cpu: int,
    s: int,
    e: int,
    perm: MapPerm,
    m: int,
    v: int,
)
    requires
        share_steps(parent, spaces, pools, cpu, s, e, perm),
        0 <= m < spaces.len(),
    ensures
        spaces[m].entry_at(v) == spaces[0].entry_at(v) || maps(parent.entry_at(v))
            && spaces[m].entry_at(v) == entry_of(
            addr_of(parent.entry_at(v)),
            enter_flags(perm, false),
        ),
    decreases m,
{
    if m > 0 {
        lemma_shared_entry(parent, spaces, pools, cpu, s, e, perm, m - 1, v);
        let a = step_addr(s, m - 1);
        assert(a < e);
        if same_page(a, v) {
            assert(parent.entry_at(a) == parent.entry_at(v));
        }
    }
}

proof fn lemma_stepped_entry(
    parent: &Pmap,
    parents: Seq<Pmap>,
    spaces: Seq<Pmap>,
    pools: Seq<FramePool>,
    cpu: int,
    es: Entries,
    n: int,
    m: int,
    v: int,
)
    requires
        fork_steps(parent, parents, spaces, pools, cpu, es, n),
        0 <= m <= n <= es.len(),
        0 <= v,
    ensures
        ({
            let own = spaces[0].entry_at(v);
            let raw = parent.entry_at(v);
            let now = spaces[m].entry_at(v);
            now == own || now % 2 == 1 && now / 4 % 2 == 0 && raw % 2 == 1 && now as int / 1024
                % 0x1000_0000_0000 == raw as int / 1024 % 0x1000_0000_0000
        }),
    decreases m,
{
    if m > 0 {
        lemma_stepped_entry(parent, parents, spaces, pools, cpu, es, n, m - 1, v);
        let e = es[m - 1];
        let p = parents[m - 1];
        assert(p.entry_at(v) == cow_pte(es, m - 1, parent.entry_at(v), v));
        law_parent_keeps_page(es, m - 1, parent.entry_at(v), v);
        if object_of(e.mapping) is Some {
            let perm = crate::mm::vm::map::fork::fork_perm(e);
            let s = page_floor(e.lo as int);
            let (ss, qs) = choose|ss: Seq<Pmap>, qs: Seq<FramePool>| #[trigger]
                share_steps(&p, ss, qs, cpu, s, e.hi as int, perm) && ss[0] == spaces[m - 1]
                    && ss.last() == spaces[m] && qs[0] == pools[m - 1] && qs.last() == pools[m];
            lemma_shared_entry(&p, ss, qs, cpu, s, e.hi as int, perm, ss.len() - 1, v);
            lemma_write_bit(e.protection);
            let q = p.entry_at(v);
            assert(addr_of(q) % 4096 == 0);
            lemma_no_write(addr_of(q), perm);
        }
    }
}

/// Every translation that a fork gives the child is to the page of the parent, and does not allow to
/// write.
pub proof fn law_child_gets_pages_to_read(
    parent: &Pmap,
    before: &Pmap,
    after: &Pmap,
    pool0: &FramePool,
    pool1: &FramePool,
    cpu: int,
    es: Entries,
    n: int,
    v: int,
)
    requires
        forked_in_turn(parent, before, after, pool0, pool1, cpu, es, n),
        0 <= n <= es.len(),
        0 <= v,
    ensures
        ({
            let now = after.entry_at(v);
            let raw = parent.entry_at(v);
            now == before.entry_at(v) || now % 2 == 1 && now / 4 % 2 == 0 && raw % 2 == 1 && now as int
                / 1024 % 0x1000_0000_0000 == raw as int / 1024 % 0x1000_0000_0000
        }),
{
    let (parents, spaces, pools) = choose|
        parents: Seq<Pmap>,
        spaces: Seq<Pmap>,
        pools: Seq<FramePool>,
    | #[trigger]
        fork_steps(parent, parents, spaces, pools, cpu, es, n) && spaces[0] == *before && spaces[n]
            == *after && pools[0] == *pool0 && pools[n] == *pool1;
    lemma_stepped_entry(parent, parents, spaces, pools, cpu, es, n, n, v);
}

proof fn lemma_rank_within(s: Entries, addr: int)
    ensures
        0 <= rank(s, addr) <= s.len(),
    decreases s.len(),
{
    if s.len() > 0 {
        lemma_rank_within(s.drop_last(), addr);
    }
}

/// The child has its part of every entry that has an object.
proof fn lemma_child_has(ces: Entries, es: Entries, base: int, n: int, i: int)
    requires
        0 <= i < n <= es.len(),
        object_of(es[i].mapping) is Some,
    ensures
        child_after(ces, es, base, n).contains(child_part(es, base, i)),
    decreases n,
{
    let prev = child_after(ces, es, base, n - 1);
    let x = child_part(es, base, i);
    let now = child_after(ces, es, base, n);
    let r = rank(prev, es[n - 1].lo as int);
    lemma_rank_within(prev, es[n - 1].lo as int);
    if i == n - 1 {
        assert(now[r] == x);
    } else {
        lemma_child_has(ces, es, base, n - 1, i);
        let j = choose|j: int| 0 <= j < prev.len() && prev[j] == x;
        if object_of(es[n - 1].mapping) is Some {
            if j < r {
                assert(now[j] == x);
            } else {
                assert(now[j + 1] == x);
            }
        }
    }
}

/// What has become of an entry that has an object, in parent and child.
pub proof fn lemma_written_memory_is_separate(
    a: Objects<PageRef>,
    b: Objects<PageRef>,
    es: Entries,
    n: int,
    ces: Entries,
    i: int,
)
    requires
        0 <= i < n <= es.len(),
        object_of(es[i].mapping) is Some,
        b.len() <= usize::MAX,
        b.len() >= a.len() + 2 * cows(es, n),
        is_cow(es[i]) ==> ({
            let at = a.len() + 2 * cows(es, i);
            let o = object_of(es[i].mapping)->0;
            let pager = match (a[o as int]->0).pager {
                Some(PagerRef::Vnode(q)) => Some(PagerRef::Vnode(q)),
                _ => Some(PagerRef::Anon),
            };
            &&& b[at] is Some && (b[at]->0).pages@ == Map::<u64, PageRef>::empty() && (b[at]->0).backing
                == Some(o) && (b[at]->0).pager == pager
            &&& b[at + 1] is Some && (b[at + 1]->0).pages@ == Map::<u64, PageRef>::empty() && (b[at
                + 1]->0).backing == Some(o) && (b[at + 1]->0).pager == pager
        }),
        ces.contains(child_part(es, a.len() as int, i)),
    ensures
        ({
            let o = object_of(es[i].mapping)->0;
            let p = parent_after(es, a.len() as int, n)[i];
            &&& p.lo == es[i].lo && p.hi == es[i].hi && p.protection == es[i].protection
            &&& offset_of(p.mapping) == offset_of(es[i].mapping) && same_kind(p.mapping, es[i].mapping)
            &&& es[i].protection.0 / 2 % 2 == 0 ==> p.mapping == es[i].mapping && exists|j: int|
                0 <= j < ces.len() && (#[trigger] ces[j]).lo == es[i].lo && ces[j].hi == es[i].hi
                    && ces[j].protection == es[i].protection && ces[j].mapping == es[i].mapping
            &&& es[i].protection.0 / 2 % 2 == 1 ==> {
                &&& object_of(p.mapping) matches Some(mine) && mine >= a.len() && mine < b.len()
                    && b[mine as int] is Some && (b[mine as int]->0).pages@ == Map::<
                    u64,
                    PageRef,
                >::empty() && (b[mine as int]->0).backing == Some(o)
                    && (b[mine as int]->0).pager == (match (a[o as int]->0).pager { Some(PagerRef::Vnode(q)) => Some(PagerRef::Vnode(q)), _ => Some(PagerRef::Anon) })
                &&& exists|j: int|
                    0 <= j < ces.len() && (#[trigger] ces[j]).lo == es[i].lo && ces[j].hi == es[i].hi
                        && ces[j].protection == es[i].protection && offset_of(ces[j].mapping)
                        == offset_of(es[i].mapping) && same_kind(ces[j].mapping, es[i].mapping) && (
                    object_of(ces[j].mapping) matches Some(theirs) && theirs != object_of(p.mapping)->0
                        && theirs >= a.len() && theirs < b.len() && b[theirs as int] is Some && (
                    b[theirs as int]->0).pages@ == Map::<u64, PageRef>::empty() && (
                    b[theirs as int]->0).backing == Some(o)
                        && (b[theirs as int]->0).pager == (match (a[o as int]->0).pager { Some(PagerRef::Vnode(q)) => Some(PagerRef::Vnode(q)), _ => Some(PagerRef::Anon) }))
            }
        }),
{
    let base = a.len() as int;
    let x = child_part(es, base, i);
    lemma_write_bit(es[i].protection);
    lemma_cows_bound(es, 0, i);
    lemma_cows_bound(es, i, n);
    let j = choose|j: int| 0 <= j < ces.len() && ces[j] == x;
    assert(ces[j].lo == es[i].lo);
}

/// After a fork neither parent nor child can write a page that the other sees: in the parent no address
/// of an entry that has an object and can be written translates to a page that may be written, every
/// address still translates to the same page, and whatever translation the child has got is to the page
/// of the parent, and not to be written.
pub proof fn law_forked_pages_cannot_be_written(
    parent0: &Pmap,
    parent1: &Pmap,
    child0: &Pmap,
    child1: &Pmap,
    pool0: &FramePool,
    pool1: &FramePool,
    cpu: int,
    es: Entries,
)
    requires
        forall|v: int| #[trigger]
            parent1.entry_at(v) == cow_pte(es, es.len() as int, parent0.entry_at(v), v),
        forked_in_turn(parent0, child0, child1, pool0, pool1, cpu, es, es.len() as int),
    ensures
        forall|i: int, v: int|
            0 <= i < es.len() && (#[trigger] es[i]).lo <= v < es[i].hi
                && es[i].protection.0 / 2 % 2 == 1 && object_of(es[i].mapping) is Some
                && parent1.entry_at(v) % 2 == 1 && parent1.entry_at(v) / 2 % 8 != 0
                ==> (#[trigger] parent1.entry_at(v)) / 4 % 2 == 0,
        forall|v: int| 0 <= v ==> (#[trigger] parent1.entry_at(v)) % 2 == parent0.entry_at(v) % 2
            && parent1.entry_at(v) as int / 1024 % 0x1000_0000_0000 == parent0.entry_at(v) as int / 1024 % 0x1000_0000_0000,
        forall|v: int| 0 <= v ==> (#[trigger] child1.entry_at(v)) == child0.entry_at(v)
            || child1.entry_at(v) % 2 == 1 && child1.entry_at(v) / 4 % 2 == 0
            && parent0.entry_at(v) % 2 == 1
            && child1.entry_at(v) as int / 1024 % 0x1000_0000_0000 == parent0.entry_at(v) as int / 1024 % 0x1000_0000_0000,
{
    let n = es.len() as int;
    assert forall|i: int, v: int|
        0 <= i < es.len() && (#[trigger] es[i]).lo <= v < es[i].hi && es[i].protection.0 / 2 % 2 == 1
            && object_of(es[i].mapping) is Some && parent1.entry_at(v) % 2 == 1 && parent1.entry_at(v)
            / 2 % 8 != 0 implies (#[trigger] parent1.entry_at(v)) / 4 % 2 == 0 by {
        law_parent_keeps_page(es, n, parent0.entry_at(v), v);
    }
    assert forall|v: int| 0 <= v implies (#[trigger] parent1.entry_at(v)) % 2 == parent0.entry_at(v)
        % 2 && parent1.entry_at(v) as int / 1024 % 0x1000_0000_0000 == parent0.entry_at(v) as int
        / 1024 % 0x1000_0000_0000 by {
        law_parent_keeps_page(es, n, parent0.entry_at(v), v);
    }
    assert forall|v: int| 0 <= v implies (#[trigger] child1.entry_at(v)) == child0.entry_at(v)
        || child1.entry_at(v) % 2 == 1 && child1.entry_at(v) / 4 % 2 == 0 && parent0.entry_at(v) % 2
        == 1 && child1.entry_at(v) as int / 1024 % 0x1000_0000_0000 == parent0.entry_at(v) as int
        / 1024 % 0x1000_0000_0000 by {
        law_child_gets_pages_to_read(parent0, child0, child1, pool0, pool1, cpu, es, n, v);
    }
}

/// After a fork, an entry that has an object and can be written, of whatever kind, has another object
/// in the parent and yet another in the child: both are new, without pages, and see through to the
/// object that the parent had, and to its file where it has one.  One that cannot be written has the
/// same object on both sides.  Nothing else about an entry changes.
pub proof fn law_fork_separates_memory(
    parent0: &VmMap,
    parent1: &VmMap,
    child0: &VmMap,
    child1: &VmMap,
    store0: &VmObjects,
    store1: &VmObjects,
    pool0: &FramePool,
    pool1: &FramePool,
    cpu: int,
    batch0: &ShootdownBatch,
    batch1: &ShootdownBatch,
    r: Result<(), Errno>,
    i: int,
)
    requires
        did_cow_fork(
            parent0,
            parent1,
            child0,
            child1,
            store0,
            store1,
            pool0,
            pool1,
            cpu,
            batch0,
            batch1,
            r,
        ),
        r is Ok,
        0 <= i < parent0.entries().len(),
        object_of(parent0.entries()[i].mapping) is Some,
    ensures
        ({
            let o = object_of(parent0.entries()[i].mapping)->0;
            let p = parent1.entries()[i];
            &&& p.lo == parent0.entries()[i].lo && p.hi == parent0.entries()[i].hi
                && p.protection == parent0.entries()[i].protection
            &&& offset_of(p.mapping) == offset_of(parent0.entries()[i].mapping)
                && same_kind(p.mapping, parent0.entries()[i].mapping)
            &&& parent0.entries()[i].protection.0 / 2 % 2 == 0
                ==> p.mapping == parent0.entries()[i].mapping && exists|j: int|
                0 <= j < child1.entries().len()
                    && (#[trigger] child1.entries()[j]).lo == parent0.entries()[i].lo
                    && child1.entries()[j].hi == parent0.entries()[i].hi
                    && child1.entries()[j].protection == parent0.entries()[i].protection
                    && child1.entries()[j].mapping == parent0.entries()[i].mapping
            &&& parent0.entries()[i].protection.0 / 2 % 2 == 1 ==> {
                &&& object_of(p.mapping) matches Some(mine) && mine >= store0.objects@.len()
                    && mine < store1.objects@.len() && store1.objects@[mine as int] is Some
                    && (store1.objects@[mine as int]->0).pages@ == Map::<u64, PageRef>::empty()
                    && (store1.objects@[mine as int]->0).backing == Some(o)
                    && (store1.objects@[mine as int]->0).pager == (match (store0.objects@[o as int]->0).pager { Some(PagerRef::Vnode(q)) => Some(PagerRef::Vnode(q)), _ => Some(PagerRef::Anon) })
                &&& exists|j: int|
                    0 <= j < child1.entries().len()
                        && (#[trigger] child1.entries()[j]).lo == parent0.entries()[i].lo
                        && child1.entries()[j].hi == parent0.entries()[i].hi
                        && child1.entries()[j].protection == parent0.entries()[i].protection
                        && offset_of(child1.entries()[j].mapping) == offset_of(parent0.entries()[i].mapping)
                            && same_kind(child1.entries()[j].mapping, parent0.entries()[i].mapping)
                            && (object_of(child1.entries()[j].mapping) matches Some(theirs)
                            && theirs != object_of(p.mapping)->0 && theirs >= store0.objects@.len()
                            && theirs < store1.objects@.len()
                            && store1.objects@[theirs as int] is Some
                            && (store1.objects@[theirs as int]->0).pages@ == Map::<u64, PageRef>::empty()
                            && (store1.objects@[theirs as int]->0).backing == Some(o)
                            && (store1.objects@[theirs as int]->0).pager == (match (store0.objects@[o as int]->0).pager { Some(PagerRef::Vnode(q)) => Some(PagerRef::Vnode(q)), _ => Some(PagerRef::Anon) }))
            }
        }),
{
    let es = parent0.entries();
    let n = es.len() as int;
    let a = store0.objects@;
    let b = store1.objects@;
    assert(store1.objects.len() == b.len());
    lemma_child_has(child0.entries(), es, a.len() as int, n, i);
    if is_cow(es[i]) {
        let o = object_of(es[i].mapping)->0;
        let at = a.len() + 2 * cows(es, i);
        assert(is_shadow(b[at], o, a[o as int]->0));
        assert(is_shadow(b[at + 1], o, a[o as int]->0));
    }
    lemma_written_memory_is_separate(a, b, es, n, child1.entries(), i);
}

/// A fork takes no page from an object and puts nothing else behind it.
pub proof fn law_fork_keeps_objects(a: Objects<PageRef>, b: Objects<PageRef>, es: Entries, n: int, id: int)
    requires
        forked_store(a, b, es, n),
        0 <= id < a.len(),
        0 <= n <= es.len(),
    ensures
        a[id] is Some <==> b[id] is Some,
        a[id] is Some ==> (b[id]->0).pages == (a[id]->0).pages && (b[id]->0).backing == (a[id]->0).backing
            && (b[id]->0).pager == (a[id]->0).pager && (b[id]->0).size == (a[id]->0).size,
{
}

/// A page that may no longer be written may still be read, executed and used by the user as before.
pub proof fn law_only_write_is_lost(p: MapPerm)
    ensures
        read_only(p).0 & 2 != 2,
        (read_only(p).0 & 1 == 1) == (p.0 & 1 == 1),
        (read_only(p).0 & 4 == 4) == (p.0 & 4 == 4),
        (read_only(p).0 & 8 == 8) == (p.0 & 8 == 8),
{
    lemma_strip_write(p);
}

/// Whether the entry has the object.
pub open spec fn of_object(id: int) -> spec_fn(VmMapEntry) -> bool {
    |e: VmMapEntry| object_of(e.mapping) == Some(id as usize)
}

/// Whether the entry has the object and can be written.
pub open spec fn of_written_object(id: int) -> spec_fn(VmMapEntry) -> bool {
    |e: VmMapEntry| object_of(e.mapping) == Some(id as usize) && e.protection.0 / 2 % 2 == 1
}

/// A fork gives an object one handle more for every entry that has it, and two shadows for every such
/// entry that can be written; an object that no entry has stays as it was.
pub proof fn law_fork_counts_handles(
    a: Objects<PageRef>,
    b: Objects<PageRef>,
    es: Entries,
    n: int,
    id: int,
)
    requires
        forked_store(a, b, es, n),
        0 <= id < a.len() <= usize::MAX,
        0 <= n <= es.len(),
        a[id] is Some,
        (a[id]->0).refs + n <= usize::MAX,
        (a[id]->0).shadow_count + 2 * n <= usize::MAX,
    ensures
        (b[id]->0).refs == (a[id]->0).refs + es.take(n).filter(of_object(id)).len(),
        (b[id]->0).shadow_count == (a[id]->0).shadow_count + 2 * es.take(n).filter(
            of_written_object(id),
        ).len(),
{
    lemma_handles_counted(es, n, id);
    assert(b[id] == stepped(a[id], handles(es.take(n), id), 2 * cow_handles(es.take(n), id)));
}

proof fn lemma_handles_counted(es: Entries, n: int, id: int)
    requires
        0 <= n <= es.len(),
        0 <= id <= usize::MAX,
    ensures
        handles(es.take(n), id) == es.take(n).filter(of_object(id)).len(),
        cow_handles(es.take(n), id) == es.take(n).filter(of_written_object(id)).len(),
        handles(es.take(n), id) <= n,
        cow_handles(es.take(n), id) <= n,
    decreases n,
{
    reveal(Seq::filter);
    let f = of_object(id);
    let g = of_written_object(id);
    if n == 0 {
        lemma_cow_handles(es, id, 0);
        assert(es.take(0).filter(f) =~= Seq::empty());
        assert(es.take(0).filter(g) =~= Seq::empty());
    } else {
        lemma_handles_counted(es, n - 1, id);
        lemma_cow_handles(es, id, n - 1);
        lemma_write_bit(es[n - 1].protection);
        let t = es.take(n);
        assert(t.drop_last() =~= es.take(n - 1));
        assert(t.last() == es[n - 1]);
    }
}

/// A fork into an empty address space takes every entry that is made of whole pages.
pub proof fn law_fork_into_empty_space_succeeds(es: Entries)
    requires
        forall|i: int|
            0 <= i < es.len() ==> (#[trigger] es[i]).lo < es[i].hi && es[i].lo % 4096 == 0 && es[i].hi
                % 4096 == 0,
    ensures
        fork_stop(Seq::empty(), es, 0) == es.len(),
{
    let none: Entries = Seq::empty();
    assert forall|j: int| 0 <= j < es.len() implies !blocked(none, #[trigger] es[j]) by {}
    lemma_stop(none, es, 0, es.len() as int);
}

} // verus!
