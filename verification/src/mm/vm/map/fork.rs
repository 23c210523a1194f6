//! Copy-on-write fork of an address map.
use vstd::prelude::*;
use crate::hal::addr::{page_floor, VirtAddr, PAGE_SIZE};
use crate::hal::errno::Errno;
use crate::mm::allocator::frame_allocator::{FramePool, NUM_MAGAZINES};
use crate::mm::pmap::container::ShootdownToken;
use crate::mm::pmap::pte::{addr_of, entry_of, flags_of, law_perm_shows_in_flags, lemma_entry, PteFlags};
use crate::mm::pmap::shootdown::ShootdownBatch;
use crate::mm::pmap::space::{
    enter_flags, entered, law_protect_sets_access, lemma_reprotect_twice, lemma_same_entry,
    lemma_touches_end, lemma_touches_step, maps, pmap_protect, reprotected, step_addr, touches,
    Pmap,
};
use crate::mm::pmap::table::{
    lemma_upper_trans, pool_holdable, same_page,
};
use crate::mm::vm::map::address_map::{
    backed, handle, handles, insertable, lemma_place, mapped, meets, new_entry, place_of, raised,
    range_free, refs_of, sum_of, Entries, VmMap,
};
use crate::mm::vm::map::entry::{
    object_of, offset_of, remapped, same_kind, VmMapEntry, VmMapping,
};
use crate::mm::vm::map::perm::{lemma_strip_write, MapPerm};
use crate::mm::vm::map::separation::{law_forked_pages_cannot_be_written, law_fork_separates_memory};
use crate::mm::vm::map::splay::{found, lemma_insert_ordered, lemma_rank, ordered, rank, Ranged};
use crate::mm::vm::object::VmObjects;
use crate::mm::vm::page_ref::{PageRef, PhysPage};
use crate::mm::vm::shadow::{live, lookup, object_wf, store_wf, Object, Objects, PagerRef};

verus! {

/// What the child has for a page: what it had, or the parent's page.
pub open spec fn shared(child: u64, parent: u64, perm: MapPerm) -> u64 {
    if maps(parent) && !maps(child) {
        entry_of(addr_of(parent), enter_flags(perm, false))
    } else {
        child
    }
}

/// The addresses from `s` to `e`, page by page, that `pmap` maps.
pub open spec fn mapped_vas(pmap: &Pmap, s: int, e: int) -> Seq<u64>
    decreases (if s < e { e - s } else { 0 }),
{
    if s >= e {
        Seq::empty()
    } else {
        (if maps(pmap.entry_at(s)) {
            seq![s as u64]
        } else {
            Seq::empty()
        }) + mapped_vas(pmap, s + 4096, e)
    }
}

/// Whether every page from `s` to `e` can be entered: a frame is left for tables, and no large
/// page is in the way.
pub open spec fn all_enter(pmap: &Pmap, pool: &FramePool, s: int, e: int) -> bool {
    &&& exists|p: int| #[trigger] pool.pool_free(p)
    &&& forall|v: int| touches(s, e, v) ==> !#[trigger] pmap.root.large_at(v)
}

/// Whether every page of the first `n` entries that have an object can be entered.
pub open spec fn entries_enter(pmap: &Pmap, pool: &FramePool, es: Entries, n: int) -> bool {
    &&& exists|p: int| #[trigger] pool.pool_free(p)
    &&& forall|i: int, v: int|
        0 <= i < n && object_of((#[trigger] es[i]).mapping) is Some && touches(
            page_floor(es[i].lo as int),
            es[i].hi as int,
            v,
        ) ==> !#[trigger] pmap.root.large_at(v)
}

/// What sharing the page of `va` does to the child: where the parent maps it and the child does
/// not, it is entered, unless no table could be had for it.
pub open spec fn page_shared(
    parent: &Pmap,
    before: &Pmap,
    after: &Pmap,
    pool0: &FramePool,
    pool1: &FramePool,
    cpu: int,
    va: int,
    perm: MapPerm,
) -> bool {
    if maps(parent.entry_at(va)) && !maps(before.entry_at(va)) {
        let raw = entry_of(addr_of(parent.entry_at(va)), enter_flags(perm, false));
        ||| entered(before, after, pool0, pool1, cpu, va, raw, true)
        ||| entered(before, after, pool0, pool1, cpu, va, raw, false)
    } else {
        *after == *before && *pool1 == *pool0
    }
}

/// The pages from `s` to `e` were shared one after the other.
pub open spec fn share_steps(
    parent: &Pmap,
    spaces: Seq<Pmap>,
    pools: Seq<FramePool>,
    cpu: int,
    s: int,
    e: int,
    perm: MapPerm,
) -> bool {
    let n = spaces.len() - 1;
    &&& n >= 0
    &&& pools.len() == spaces.len()
    &&& forall|j: int|
        0 <= j < n ==> #[trigger] step_addr(s, j) < e && page_shared(
            parent,
            &spaces[j],
            &spaces[j + 1],
            &pools[j],
            &pools[j + 1],
            cpu,
            step_addr(s, j),
            perm,
        )
    &&& step_addr(s, n) >= e
}

/// What sharing the pages from `s` to `e`, one after the other, has done to the child and to the
/// pool.
pub open spec fn shared_in_turn(
    parent: &Pmap,
    before: &Pmap,
    after: &Pmap,
    pool0: &FramePool,
    pool1: &FramePool,
    cpu: int,
    s: int,
    e: int,
    perm: MapPerm,
) -> bool {
    exists|spaces: Seq<Pmap>, pools: Seq<FramePool>| #[trigger]
        share_steps(parent, spaces, pools, cpu, s, e, perm) && spaces[0] == *before
            && spaces.last() == *after && pools[0] == *pool0 && pools.last() == *pool1
}

/// What sharing the pages up to `e` has done to the child.
pub open spec fn pages_shared(
    parent: &Pmap,
    before: &Pmap,
    after: &Pmap,
    pool: &FramePool,
    s: int,
    e: int,
    perm: MapPerm,
) -> bool {
    &&& forall|v: int| #[trigger]
        after.entry_at(v) == before.entry_at(v) || touches(s, e, v) && after.entry_at(v) == shared(
            before.entry_at(v),
            parent.entry_at(v),
            perm,
        )
    &&& all_enter(after, pool, s, e) ==> forall|v: int| #[trigger]
        after.entry_at(v) == if touches(s, e, v) {
            shared(before.entry_at(v), parent.entry_at(v), perm)
        } else {
            before.entry_at(v)
        }
}

/// Enter every page that `parent` maps in `[start, end)` into `child` with the
/// protection `perm`, where it maps nothing there; pages that cannot be entered are
/// left to faults.  Returns the addresses that the parent maps.
#[verifier::rlimit(40)]
pub fn share_pages(
    parent: &Pmap,
    child: &mut Pmap,
    pool: &mut FramePool,
    cpu: usize,
    start: VirtAddr,
    end: VirtAddr,
    perm: MapPerm,
) -> (r: Vec<u64>)
    requires
        parent.wf(),
        old(child).wf(),
        old(pool).inv(),
        pool_holdable(old(pool)),
        cpu < NUM_MAGAZINES,
        end.0 + 4095 <= u64::MAX,
        old(child).stats.wired_count < usize::MAX,
    ensures
        final(child).wf(),
        final(pool).inv(),
        pool_holdable(final(pool)),
        final(child).same_identity(old(child)),
        final(child).stats.wired_count == old(child).stats.wired_count,
        forall|p: int| #[trigger] final(pool).pool_free(p) ==> old(pool).pool_free(p),
        forall|v: int| #[trigger] final(child).root.large_at(v) == old(child).root.large_at(v),
        pages_shared(
            parent,
            old(child),
            final(child),
            final(pool),
            page_floor(start.0 as int),
            end.0 as int,
            perm,
        ),
        shared_in_turn(
            parent,
            old(child),
            final(child),
            old(pool),
            final(pool),
            cpu as int,
            page_floor(start.0 as int),
            end.0 as int,
            perm,
        ),
        r@ == mapped_vas(parent, page_floor(start.0 as int), end.0 as int),
{
    let mut r: Vec<u64> = Vec::new();
    let mut va: u64 = start.page_align_down().as_u64();
    let ghost s = page_floor(start.0 as int);
    let ghost e = end.0 as int;
    let ghost mut k: int = 0;
    let ghost mut spaces = seq![*child];
    let ghost mut pools = seq![*pool];
    proof {
        assert forall|v: int| !#[trigger] touches(s, step_addr(s, 0), v) by {
            lemma_touches_step(s, 0, v);
        }
        assert(r@ + mapped_vas(parent, s, e) =~= mapped_vas(parent, s, e));
    }
    while va < end.0
        invariant
            parent.wf(),
            child.wf(),
            pool.inv(),
            pool_holdable(pool),
            cpu < NUM_MAGAZINES,
            end.0 + 4095 <= u64::MAX,
            e == end.0,
            s >= 0,
            k >= 0,
            va == step_addr(s, k),
            k > 0 ==> step_addr(s, k - 1) < e,
            spaces.len() == k + 1,
            pools.len() == k + 1,
            spaces[0] == *old(child),
            pools[0] == *old(pool),
            spaces[k] == *child,
            pools[k] == *pool,
            forall|j: int|
                0 <= j < k ==> #[trigger] step_addr(s, j) < e && page_shared(
                    parent,
                    &spaces[j],
                    &spaces[j + 1],
                    &pools[j],
                    &pools[j + 1],
                    cpu as int,
                    step_addr(s, j),
                    perm,
                ),
            child.stats.wired_count == old(child).stats.wired_count,
            old(child).stats.wired_count < usize::MAX,
            child.same_identity(old(child)),
            forall|p: int| #[trigger] pool.pool_free(p) ==> old(pool).pool_free(p),
            forall|v: int| #[trigger] child.root.large_at(v) == old(child).root.large_at(v),
            pages_shared(parent, old(child), child, pool, s, step_addr(s, k), perm),
            r@ + mapped_vas(parent, va as int, e) == mapped_vas(parent, s, e),
        decreases (if va < end.0 { end.0 - va } else { 0 }),
    {
        let ghost before = *child;
        let ghost pool0 = *pool;
        let ghost r0 = r@;
        let ghost cur = va as int;
        match parent.get(VirtAddr::new(va)) {
            Some(page) => {
                let _ = child.entry_or_insert(pool, cpu, VirtAddr::new(va), page.pa(), perm);
                r.push(va);
                assert(r@ + mapped_vas(parent, cur + 4096, e) =~= r0 + (seq![va] + mapped_vas(
                    parent,
                    cur + 4096,
                    e,
                )));
            },
            None => {
                assert(r0 + mapped_vas(parent, cur + 4096, e) =~= r0 + (Seq::empty() + mapped_vas(
                    parent,
                    cur + 4096,
                    e,
                )));
            },
        }
        proof {
            let now = step_addr(s, k + 1);
            lemma_touches_step(s, k, cur);
            if all_enter(child, pool, s, now) {
                let p = choose|p: int| #[trigger] pool.pool_free(p);
                assert(pool0.pool_free(p));
                assert(all_enter(&before, &pool0, s, step_addr(s, k))) by {
                    assert forall|v: int| touches(s, step_addr(s, k), v) implies !#[trigger]
                        before.root.large_at(v) by {
                        lemma_touches_step(s, k, v);
                        assert(!child.root.large_at(v));
                    }
                }
                assert(!child.root.large_at(cur));
            }
            assert(page_shared(parent, &before, child, &pool0, pool, cpu as int, cur, perm));
            let (ss, qs) = (spaces, pools);
            spaces = spaces.push(*child);
            pools = pools.push(*pool);
            assert forall|j: int| 0 <= j < k + 1 implies #[trigger] step_addr(s, j) < e
                && page_shared(
                parent,
                &spaces[j],
                &spaces[j + 1],
                &pools[j],
                &pools[j + 1],
                cpu as int,
                step_addr(s, j),
                perm,
            ) by {
                if j < k {
                    assert(spaces[j] == ss[j] && spaces[j + 1] == ss[j + 1]);
                    assert(pools[j] == qs[j] && pools[j + 1] == qs[j + 1]);
                }
            }
            lemma_one_shared(parent, old(child), &before, child, pool, s, k, perm);
        }
        va = va + PAGE_SIZE;
        proof {
            k = k + 1;
        }
    }
    proof {
        assert forall|v: int| #[trigger] touches(s, e, v) == touches(s, step_addr(s, k), v) by {
            lemma_touches_end(s, e, k, v);
        }
        if all_enter(child, pool, s, e) {
            assert(all_enter(child, pool, s, step_addr(s, k))) by {
                assert forall|v: int| touches(s, step_addr(s, k), v) implies !#[trigger]
                    child.root.large_at(v) by {
                    assert(touches(s, e, v));
                }
            }
        }
        assert(share_steps(parent, spaces, pools, cpu as int, s, e, perm));
        assert(r@ + Seq::<u64>::empty() =~= r@);
    }
    r
}

/// Entering one more page.
proof fn lemma_one_shared(
    parent: &Pmap,
    first: &Pmap,
    before: &Pmap,
    after: &Pmap,
    pool: &FramePool,
    s: int,
    k: int,
    perm: MapPerm,
)
    requires
        k >= 0,
        parent.wf(),
        forall|v: int| #[trigger]
            before.entry_at(v) == first.entry_at(v) || touches(s, step_addr(s, k), v)
                && before.entry_at(v) == shared(first.entry_at(v), parent.entry_at(v), perm),
        all_enter(after, pool, s, step_addr(s, k + 1)) ==> forall|v: int| #[trigger]
            before.entry_at(v) == if touches(s, step_addr(s, k), v) {
                shared(first.entry_at(v), parent.entry_at(v), perm)
            } else {
                first.entry_at(v)
            },
        ({
            let cur = step_addr(s, k);
            ||| forall|v: int| #[trigger]
                after.entry_at(v) == if same_page(cur, v) {
                    shared(before.entry_at(cur), parent.entry_at(cur), perm)
                } else {
                    before.entry_at(v)
                }
            ||| !all_enter(after, pool, s, step_addr(s, k + 1)) && forall|v: int| #[trigger]
                after.entry_at(v) == before.entry_at(v)
        }),
    ensures
        pages_shared(parent, first, after, pool, s, step_addr(s, k + 1), perm),
{
    let cur = step_addr(s, k);
    assert forall|v: int| #[trigger] touches(s, step_addr(s, k + 1), v) == (touches(
        s,
        step_addr(s, k),
        v,
    ) || same_page(cur, v)) by {
        lemma_touches_step(s, k, v);
    }
    assert forall|v: int| same_page(cur, v) implies #[trigger] before.entry_at(v)
        == before.entry_at(cur) && parent.entry_at(v) == parent.entry_at(cur) && first.entry_at(v)
        == first.entry_at(cur) by {
        lemma_same_entry(&before.root, cur, v);
        lemma_same_entry(&parent.root, cur, v);
        lemma_same_entry(&first.root, cur, v);
    }
    assert forall|v: int| #[trigger]
        after.entry_at(v) == first.entry_at(v) || touches(s, step_addr(s, k + 1), v)
            && after.entry_at(v) == shared(first.entry_at(v), parent.entry_at(v), perm) by {
        assert(before.entry_at(v) == first.entry_at(v) || touches(s, step_addr(s, k), v)
            && before.entry_at(v) == shared(first.entry_at(v), parent.entry_at(v), perm));
        assert(touches(s, step_addr(s, k + 1), v) == (touches(s, step_addr(s, k), v) || same_page(
            cur,
            v,
        )));
    }
    if all_enter(after, pool, s, step_addr(s, k + 1)) {
        assert forall|v: int| #[trigger]
            after.entry_at(v) == if touches(s, step_addr(s, k + 1), v) {
                shared(first.entry_at(v), parent.entry_at(v), perm)
            } else {
                first.entry_at(v)
            } by {
            assert(before.entry_at(v) == if touches(s, step_addr(s, k), v) {
                shared(first.entry_at(v), parent.entry_at(v), perm)
            } else {
                first.entry_at(v)
            });
            assert(touches(s, step_addr(s, k + 1), v) == (touches(s, step_addr(s, k), v)
                || same_page(cur, v)));
        }
    }
}

/// Whether a fork copies the entry on write: it has an object and can be written.
pub open spec fn is_cow(e: VmMapEntry) -> bool {
    object_of(e.mapping) is Some && e.protection.has(MapPerm::W())
}

/// The protection without the right to write.
pub open spec fn read_only(p: MapPerm) -> MapPerm {
    MapPerm(p.0 & (!2u8 & 15))
}

/// The protection with which a fork enters pages of the entry into the child.
pub open spec fn fork_perm(e: VmMapEntry) -> MapPerm {
    if is_cow(e) {
        read_only(e.protection)
    } else {
        e.protection
    }
}

/// How many of the first `n` entries are copied on write.
pub open spec fn cows(es: Entries, n: int) -> int
    decreases n,
{
    if n <= 0 {
        0
    } else {
        cows(es, n - 1) + if is_cow(es[n - 1]) {
            1int
        } else {
            0
        }
    }
}

/// The pager of a shadow: that of a file goes on, else the anonymous one.
pub open spec fn inherited(pager: Option<PagerRef>) -> Option<PagerRef> {
    match pager {
        Some(PagerRef::Vnode(i)) => Some(PagerRef::Vnode(i)),
        _ => Some(PagerRef::Anon),
    }
}

/// An empty shadow of the object at `o`, which is `p`.
pub open spec fn is_shadow(slot: Option<Object<PageRef>>, o: usize, p: Object<PageRef>) -> bool {
    slot matches Some(s) && {
        &&& s.pages@ == Map::<u64, PageRef>::empty()
        &&& s.backing == Some(o)
        &&& s.pager == inherited(p.pager)
        &&& s.size == p.size
        &&& s.shadow_count == 0
        &&& s.resident_count == 0
        &&& s.generation == 0
        &&& s.clean_generation == 0
        &&& s.refs == 1
    }
}

/// The object with more handles and more shadows.
pub open spec fn stepped<P>(slot: Option<Object<P>>, refs: int, shadows: int) -> Option<Object<P>> {
    match slot {
        None => None,
        Some(x) => Some(
            Object {
                refs: (x.refs + refs) as usize,
                shadow_count: (x.shadow_count + shadows) as usize,
                ..x
            },
        ),
    }
}

/// What forking the entry `e` does to the objects; without `ok` the child could not
/// take the entry.
pub open spec fn store_step(
    a: Objects<PageRef>,
    b: Objects<PageRef>,
    e: VmMapEntry,
    ok: bool,
) -> bool {
    let new = if !is_cow(e) {
        0int
    } else if ok {
        2
    } else {
        1
    };
    &&& b.len() == a.len() + new
    &&& forall|id: int|
        0 <= id < a.len() ==> #[trigger] b[id] == stepped(
            a[id],
            if ok {
                handle(e, id)
            } else {
                0
            },
            new * handle(e, id),
        )
    &&& is_cow(e) ==> {
        let o = object_of(e.mapping)->0;
        &&& is_shadow(b[a.len() as int], o, a[o as int]->0)
        &&& ok ==> is_shadow(b[a.len() as int + 1], o, a[o as int]->0)
    }
}

/// Handles that the entries copied on write have to the object at `id`.
#[verifier::opaque]
pub open spec fn cow_handles(es: Entries, id: int) -> int {
    sum_of(
        es,
        |e: VmMapEntry|
            if is_cow(e) {
                handle(e, id)
            } else {
                0
            },
    )
}

/// What forking the first `n` entries does to the objects: every entry copied on
/// write gets two shadows, the parent's and then the child's.
pub open spec fn forked_store(
    a: Objects<PageRef>,
    b: Objects<PageRef>,
    es: Entries,
    n: int,
) -> bool {
    &&& b.len() == a.len() + 2 * cows(es, n)
    &&& forall|id: int|
        0 <= id < a.len() ==> #[trigger] b[id] == stepped(
            a[id],
            handles(es.take(n), id),
            2 * cow_handles(es.take(n), id),
        )
    &&& forall|i: int|
        0 <= i < n && is_cow(#[trigger] es[i]) ==> {
            let o = object_of(es[i].mapping)->0;
            let at = a.len() + 2 * cows(es, i);
            &&& is_shadow(b[at], o, a[o as int]->0)
            &&& is_shadow(b[at + 1], o, a[o as int]->0)
        }
}

/// The parent's entries after the first `n` were forked.
pub open spec fn parent_after(es: Entries, base: int, n: int) -> Entries {
    Seq::new(
        es.len(),
        |i: int|
            if i < n && is_cow(es[i]) {
                VmMapEntry {
                    mapping: remapped(
                        es[i].mapping,
                        (base + 2 * cows(es, i)) as usize,
                        offset_of(es[i].mapping),
                    ),
                    ..es[i]
                }
            } else {
                es[i]
            },
    )
}

/// What the child gets of entry `i`.
pub open spec fn child_part(es: Entries, base: int, i: int) -> VmMapEntry {
    new_entry(
        VirtAddr(es[i].lo),
        VirtAddr(es[i].hi),
        es[i].protection,
        if is_cow(es[i]) {
            remapped(
                es[i].mapping,
                (base + 2 * cows(es, i) + 1) as usize,
                offset_of(es[i].mapping),
            )
        } else {
            es[i].mapping
        },
    )
}

/// The child's entries, `ces` at first, after the first `n` were forked.
pub open spec fn child_after(ces: Entries, es: Entries, base: int, n: int) -> Entries
    decreases n,
{
    if n <= 0 {
        ces
    } else {
        let prev = child_after(ces, es, base, n - 1);
        if object_of(es[n - 1].mapping) is None {
            prev
        } else {
            prev.insert(rank(prev, es[n - 1].lo as int), child_part(es, base, n - 1))
        }
    }
}

/// Whether the child cannot take the entry.
pub open spec fn blocked(ces: Entries, e: VmMapEntry) -> bool {
    object_of(e.mapping) is Some && !insertable(ces, e)
}

/// Where a fork stops: the first entry from `i` on that the child cannot take, or
/// the end.
pub open spec fn fork_stop(ces: Entries, es: Entries, i: int) -> int
    decreases es.len() - i,
{
    if i >= es.len() {
        es.len() as int
    } else if blocked(ces, es[i]) {
        i
    } else {
        fork_stop(ces, es, i + 1)
    }
}

/// The parent's translation of `v` after the first `n` entries were forked.
pub open spec fn cow_pte(es: Entries, n: int, raw: u64, v: int) -> u64
    decreases n,
{
    if n <= 0 {
        raw
    } else {
        let prev = cow_pte(es, n - 1, raw, v);
        let e = es[n - 1];
        if is_cow(e) && touches(page_floor(e.lo as int), e.hi as int, v) {
            reprotected(prev, read_only(e.protection))
        } else {
            prev
        }
    }
}

/// The child's translation of `v` after the first `n` entries were forked, the
/// parent's having been `raw` and the child's own `own`.
pub open spec fn child_pte(es: Entries, n: int, raw: u64, own: u64, v: int) -> u64
    decreases n,
{
    if n <= 0 {
        own
    } else {
        let prev = child_pte(es, n - 1, raw, own, v);
        let e = es[n - 1];
        if object_of(e.mapping) is Some && touches(page_floor(e.lo as int), e.hi as int, v) {
            shared(prev, cow_pte(es, n - 1, raw, v), fork_perm(e))
        } else {
            prev
        }
    }
}

/// Every handle that the entries have is counted, besides those of the shadows.
pub open spec fn accounted(es: Entries, store: &VmObjects) -> bool {
    forall|id: int| #[trigger]
        live(store.objects@, id) ==> store.obj(id).shadow_count + handles(es, id) <= refs_of(
            store,
            id,
        )
}

/// Put a shadow in front of the object at `o`, which takes over one handle to it.
fn cow_shadow(store: &mut VmObjects, o: usize) -> (r: usize)
    requires
        old(store).wf(),
        old(store).has(o as int),
        old(store).obj(o as int).shadow_count < old(store).obj(o as int).refs,
    ensures
        final(store).wf(),
        final(store).pagers == old(store).pagers,
        r == old(store).objects@.len(),
        final(store).objects@.len() == r + 1,
        is_shadow(final(store).objects@[r as int], o, old(store).obj(o as int)),
        forall|id: int|
            0 <= id < r ==> #[trigger] final(store).objects@[id] == stepped(
                old(store).objects@[id],
                0,
                if id == o {
                    1
                } else {
                    0
                },
            ),
{
    assert(live(store.objects@, o as int));
    let (size, pager) = {
        let p = store.get(o);
        (
            p.size,
            match p.pager {
                Some(PagerRef::Vnode(i)) => Some(PagerRef::Vnode(i)),
                _ => Some(PagerRef::Anon),
            },
        )
    };
    let r = store.shadow_of(o, size, pager);
    proof {
        assert forall|id: int| 0 <= id < r implies #[trigger] store.objects@[id] == stepped(
            old(store).objects@[id],
            0,
            if id == o {
                1
            } else {
                0
            },
        ) by {
            if id != o {
                assert(store.objects@[id] == old(store).objects@[id]);
            }
        }
    }
    r
}

/// Two shadows of the object at `o`, for parent and child; the parent's handle to
/// the object goes over to one of them.
fn build_cow_shadows(store: &mut VmObjects, o: usize) -> (r: (usize, usize))
    requires
        old(store).wf(),
        old(store).has(o as int),
        old(store).obj(o as int).shadow_count < old(store).obj(o as int).refs,
        old(store).obj(o as int).refs < usize::MAX,
    ensures
        final(store).wf(),
        final(store).pagers == old(store).pagers,
        r.0 == old(store).objects@.len(),
        r.1 == r.0 + 1,
        final(store).objects@.len() == r.1 + 1,
        is_shadow(final(store).objects@[r.0 as int], o, old(store).obj(o as int)),
        is_shadow(final(store).objects@[r.1 as int], o, old(store).obj(o as int)),
        forall|id: int|
            0 <= id < r.0 ==> #[trigger] final(store).objects@[id] == stepped(
                old(store).objects@[id],
                if id == o {
                    1
                } else {
                    0
                },
                if id == o {
                    2
                } else {
                    0
                },
            ),
{
    let ghost s0 = store.objects@;
    store.retain(o);
    let ghost s1 = store.objects@;
    let p = cow_shadow(store, o);
    let ghost s2 = store.objects@;
    assert(s2[o as int] == stepped(s1[o as int], 0, 1));
    let c = cow_shadow(store, o);
    proof {
        let s3 = store.objects@;
        assert(s3[p as int] == stepped(s2[p as int], 0, 0));
        assert forall|id: int| 0 <= id < p implies #[trigger] s3[id] == stepped(
            s0[id],
            if id == o {
                1
            } else {
                0
            },
            if id == o {
                2
            } else {
                0
            },
        ) by {
            assert(s2[id] == stepped(
                s1[id],
                0,
                if id == o {
                    1
                } else {
                    0
                },
            ));
        }
    }
    (p, c)
}

/// What a fork does with one entry.
pub enum ForkDescriptor {
    /// The child shares the object, and the pages as they are.
    Share { start: VirtAddr, end: VirtAddr, prot: MapPerm, child_mapping: VmMapping },
    /// Parent and child each get a shadow of the object, and neither may write the
    /// pages they have.
    Cow { start: VirtAddr, end: VirtAddr, prot: MapPerm, object: usize, mapping: VmMapping },
}

impl ForkDescriptor {
    /// What to do with an entry: nothing where it has no object.
    pub fn from_vma(vma: &VmMapEntry) -> (r: Option<Self>)
        ensures
            r == describe(*vma),
    {
        let object = match vma.mapping.object() {
            Some(object) => object,
            None => {
                return None;
            },
        };
        if vma.protection.contains(MapPerm::W()) {
            Some(
                ForkDescriptor::Cow {
                    start: vma.start(),
                    end: vma.end(),
                    prot: vma.protection,
                    object,
                    mapping: vma.mapping,
                },
            )
        } else {
            Some(
                ForkDescriptor::Share {
                    start: vma.start(),
                    end: vma.end(),
                    prot: vma.protection,
                    child_mapping: vma.mapping,
                },
            )
        }
    }

    /// Bring the decision about the entry `e` about: objects, the parent's entry, the
    /// child's entry and the translations of both.
    #[verifier::rlimit(60)]
    fn apply(
        self,
        parent: &mut VmMap,
        child: &mut VmMap,
        store: &mut VmObjects,
        pool: &mut FramePool,
        cpu: usize,
        batch: &mut ShootdownBatch,
        Ghost(e): Ghost<VmMapEntry>,
        Ghost(i): Ghost<int>,
    ) -> (r: Result<(), Errno>)
        requires
            describe(e) == Some(self),
            old(parent).wf(),
            old(child).wf(),
            old(store).wf(),
            0 <= i < old(parent).entries().len(),
            old(parent).entries()[i] == e,
            object_of(e.mapping) matches Some(o) && old(store).has(o as int) && old(store).obj(
                o as int,
            ).shadow_count < old(store).obj(o as int).refs < usize::MAX,
            old(child).nentries < usize::MAX,
            old(pool).inv(),
            pool_holdable(old(pool)),
            cpu < NUM_MAGAZINES,
            old(child).pmap.stats.wired_count < usize::MAX,
        ensures
            final(parent).wf(),
            final(child).wf(),
            final(store).wf(),
            final(pool).inv(),
            pool_holdable(final(pool)),
            final(store).pagers == old(store).pagers,
            final(parent).timestamp == old(parent).timestamp,
            final(parent).pmap.same_identity(&old(parent).pmap),
            final(child).pmap.same_identity(&old(child).pmap),
            final(child).pmap.stats.wired_count == old(child).pmap.stats.wired_count,
            final(parent).pmap.stats == old(parent).pmap.stats,
            final(parent).pmap.same_tables(&old(parent).pmap),
            forall|p: int| #[trigger] final(pool).pool_free(p) ==> old(pool).pool_free(p),
            forall|v: int| #[trigger]
                final(child).pmap.root.large_at(v) == old(child).pmap.root.large_at(v),
            r == (if insertable(old(child).entries(), e) {
                Ok::<(), Errno>(())
            } else {
                Err::<(), Errno>(Errno::Einval)
            }),
            store_step(old(store).objects@, final(store).objects@, e, r is Ok),
            final(parent).entries() == if is_cow(e) {
                old(parent).entries().update(
                    i,
                    VmMapEntry {
                        mapping: remapped(
                            e.mapping,
                            old(store).objects@.len() as usize,
                            offset_of(e.mapping),
                        ),
                        ..e
                    },
                )
            } else {
                old(parent).entries()
            },
            r is Err ==> {
                &&& final(child).entries() == old(child).entries()
                &&& final(child).timestamp == old(child).timestamp
                &&& final(child).pmap == old(child).pmap
                &&& final(parent).pmap == old(parent).pmap
                &&& *final(pool) == *old(pool)
                &&& *final(batch) == *old(batch)
            },
            r is Ok ==> {
                &&& final(child).entries() == old(child).entries().insert(
                    rank(old(child).entries(), e.lo as int),
                    new_entry(
                        VirtAddr(e.lo),
                        VirtAddr(e.hi),
                        e.protection,
                        if is_cow(e) {
                            remapped(
                                e.mapping,
                                (old(store).objects@.len() + 1) as usize,
                                offset_of(e.mapping),
                            )
                        } else {
                            e.mapping
                        },
                    ),
                )
                &&& final(child).timestamp == old(child).timestamp.wrapping_add(1)
                &&& forall|v: int| #[trigger]
                    final(parent).pmap.entry_at(v) == if is_cow(e) && touches(
                        page_floor(e.lo as int),
                        e.hi as int,
                        v,
                    ) {
                        reprotected(old(parent).pmap.entry_at(v), read_only(e.protection))
                    } else {
                        old(parent).pmap.entry_at(v)
                    }
                &&& pages_shared(
                    &old(parent).pmap,
                    &old(child).pmap,
                    &final(child).pmap,
                    final(pool),
                    page_floor(e.lo as int),
                    e.hi as int,
                    fork_perm(e),
                )
                &&& shared_in_turn(
                    &old(parent).pmap,
                    &old(child).pmap,
                    &final(child).pmap,
                    old(pool),
                    final(pool),
                    cpu as int,
                    page_floor(e.lo as int),
                    e.hi as int,
                    fork_perm(e),
                )
                &&& final(batch).asid == old(batch).asid
                &&& final(batch).quiesce == old(batch).quiesce
                &&& final(batch).dirty_vas@ == old(batch).dirty_vas@ + if is_cow(e) {
                    mapped_vas(&old(parent).pmap, page_floor(e.lo as int), e.hi as int)
                } else {
                    Seq::empty()
                }
            },
    {
        proof {
            let es = parent.entries();
            assert(es[i].lo() < es[i].hi());
            assert(found(es, e.lo as int, i));
            lemma_place(es, e.lo as int, i);
            parent.lemma_same_bounds(e.lo as int);
        }
        match self {
            ForkDescriptor::Share { start, end, prot, child_mapping } => {
                let entry = VmMapEntry::new(start, end, child_mapping, prot);
                match child.insert_entry(entry) {
                    Err(err) => Err(err),
                    Ok(_) => {
                        if let Some(o) = child_mapping.object() {
                            store.retain(o);
                        }
                        let _ = share_pages(
                            &parent.pmap,
                            &mut child.pmap,
                            pool,
                            cpu,
                            start,
                            end,
                            prot,
                        );
                        assert(batch.dirty_vas@ + Seq::empty() =~= batch.dirty_vas@);
                        Ok(())
                    },
                }
            },
            ForkDescriptor::Cow { start, end, prot, object, mapping } => {
                let fits = end.0 % PAGE_SIZE == 0 && start.0 % PAGE_SIZE == 0
                    && child.is_range_free(start, end);
                if !fits {
                    let p = cow_shadow(store, object);
                    rebind(parent, start, p);
                    return Err(Errno::Einval);
                }
                let (p, c) = build_cow_shadows(store, object);
                rebind(parent, start, p);
                let entry = VmMapEntry::new(start, end, mapping.with_object(c), prot);
                let _ = child.insert_entry(entry);
                let ro = prot.difference(MapPerm::W());
                let vas = share_pages(
                    &parent.pmap,
                    &mut child.pmap,
                    pool,
                    cpu,
                    start,
                    end,
                    ro,
                );
                let _ = pmap_protect(&mut parent.pmap, start.page_align_down(), end, ro);
                add_all(batch, &vas);
                Ok(())
            },
        }
    }
}

/// What a fork does with an entry.
pub open spec fn describe(e: VmMapEntry) -> Option<ForkDescriptor> {
    match object_of(e.mapping) {
        None => None,
        Some(object) => if e.protection.has(MapPerm::W()) {
            Some(
                ForkDescriptor::Cow {
                    start: VirtAddr(e.lo),
                    end: VirtAddr(e.hi),
                    prot: e.protection,
                    object,
                    mapping: e.mapping,
                },
            )
        } else {
            Some(
                ForkDescriptor::Share {
                    start: VirtAddr(e.lo),
                    end: VirtAddr(e.hi),
                    prot: e.protection,
                    child_mapping: e.mapping,
                },
            )
        },
    }
}

/// Put another object behind the entry at `start`.
fn rebind(parent: &mut VmMap, start: VirtAddr, object: usize)
    requires
        old(parent).wf(),
        mapped(old(parent).entries(), start.0 as int),
    ensures
        final(parent).wf(),
        final(parent).pmap == old(parent).pmap,
        final(parent).timestamp == old(parent).timestamp,
        ({
            let i = place_of(old(parent).entries(), start.0 as int);
            let e = old(parent).entries()[i];
            final(parent).entries() == old(parent).entries().update(
                i,
                VmMapEntry { mapping: remapped(e.mapping, object, offset_of(e.mapping)), ..e },
            )
        }),
{
    if let Some(vma) = parent.lookup_readonly(start) {
        let mut now = vma;
        now.mapping = vma.mapping.with_object(object);
        proof {
            parent.lemma_same_bounds(start.0 as int);
        }
        parent.set_entry(start, now);
    }
}

/// Collect changed pages.
fn add_all(batch: &mut ShootdownBatch, vas: &Vec<u64>)
    ensures
        final(batch).asid == old(batch).asid,
        final(batch).quiesce == old(batch).quiesce,
        final(batch).dirty_vas@ == old(batch).dirty_vas@ + vas@,
{
    let mut i: usize = 0;
    while i < vas.len()
        invariant
            i <= vas@.len(),
            batch.asid == old(batch).asid,
            batch.quiesce == old(batch).quiesce,
            batch.dirty_vas@ == old(batch).dirty_vas@ + vas@.take(i as int),
        decreases vas@.len() - i,
    {
        batch.add(ShootdownToken(VirtAddr::new(vas[i])));
        assert(vas@.take(i + 1) =~= vas@.take(i as int).push(vas@[i as int]));
        i += 1;
    }
    assert(vas@.take(i as int) =~= vas@);
}

/// What is in the child in the way of an entry was there before the fork.
pub proof fn lemma_child_free(ces: Entries, es: Entries, base: int, n: int, i: int)
    requires
        ordered(es),
        ordered(ces),
        0 <= n <= i < es.len(),
        forall|j: int| 0 <= j < n ==> !blocked(ces, #[trigger] es[j]),
    ensures
        insertable(child_after(ces, es, base, n), es[i]) == insertable(ces, es[i]),
        ordered(child_after(ces, es, base, n)),
        child_after(ces, es, base, n).len() <= ces.len() + n,
    decreases n,
{
    if n > 0 {
        let prev = child_after(ces, es, base, n - 1);
        let s = es[i].lo as int;
        let t = es[i].hi as int;
        lemma_child_free(ces, es, base, n - 1, i);
        lemma_child_free(ces, es, base, n - 1, n - 1);
        if object_of(es[n - 1].mapping) is Some {
            let x = child_part(es, base, n - 1);
            let r = rank(prev, es[n - 1].lo as int);
            assert(!blocked(ces, es[n - 1]));
            assert(insertable(prev, es[n - 1]));
            assert forall|j: int| 0 <= j < prev.len() implies (#[trigger] prev[j]).hi() <= x.lo()
                || x.hi() <= prev[j].lo() by {
                assert(!meets(prev[j], x.lo as int, x.hi as int));
                assert(prev[j].lo() < prev[j].hi());
            }
            lemma_insert_ordered(prev, x);
            lemma_rank(prev, x.lo as int);
            let now = prev.insert(r, x);
            assert(es[n - 1].hi() <= es[i].lo());
            assert(es[n - 1].lo() < es[n - 1].hi());
            assert(!meets(x, s, t));
            if range_free(prev, s, t) {
                assert forall|j: int| 0 <= j < now.len() implies !meets(#[trigger] now[j], s, t) by {
                    if j < r {
                        assert(now[j] == prev[j]);
                    } else if j > r {
                        assert(now[j] == prev[j - 1]);
                    }
                }
            } else {
                let j = choose|j: int| 0 <= j < prev.len() && meets(#[trigger] prev[j], s, t);
                if j < r {
                    assert(now[j] == prev[j]);
                } else {
                    assert(now[j + 1] == prev[j]);
                }
            }
        }
    }
}

/// A fork goes on while nothing blocks it.
pub proof fn lemma_stop(ces: Entries, es: Entries, i: int, n: int)
    requires
        0 <= i <= n <= es.len(),
        forall|j: int| i <= j < n ==> !blocked(ces, #[trigger] es[j]),
        n < es.len() ==> blocked(ces, es[n]),
    ensures
        fork_stop(ces, es, i) == n,
    decreases n - i,
{
    if i < n {
        lemma_stop(ces, es, i + 1, n);
    }
}

pub proof fn lemma_cow_handles(es: Entries, id: int, n: int)
    requires
        0 <= n <= es.len(),
    ensures
        0 <= cow_handles(es.take(n), id) <= handles(es.take(n), id) <= handles(es, id),
        n < es.len() ==> handles(es.take(n), id) + handle(es[n], id) <= handles(es, id),
        n < es.len() ==> handles(es.take(n + 1), id) == handles(es.take(n), id) + handle(es[n], id),
        n < es.len() ==> cow_handles(es.take(n + 1), id) == cow_handles(es.take(n), id) + (if is_cow(
            es[n],
        ) {
            handle(es[n], id)
        } else {
            0
        }),
        n == 0 ==> handles(es.take(n), id) == 0 && cow_handles(es.take(n), id) == 0,
    decreases es.len() - n, n,
{
    reveal(handles);
    reveal(cow_handles);
    let f = |e: VmMapEntry| handle(e, id);
    let g = |e: VmMapEntry|
        if is_cow(e) {
            handle(e, id)
        } else {
            0
        };
    lemma_sum_le(es.take(n), f, g);
    if n < es.len() {
        assert(es.take(n + 1).drop_last() =~= es.take(n));
        lemma_cow_handles(es, id, n + 1);
    } else {
        assert(es.take(n) =~= es);
    }
}

proof fn lemma_sum_le(es: Entries, f: spec_fn(VmMapEntry) -> int, g: spec_fn(VmMapEntry) -> int)
    requires
        forall|e: VmMapEntry| 0 <= #[trigger] g(e) <= f(e),
    ensures
        0 <= sum_of(es, g) <= sum_of(es, f),
    decreases es.len(),
{
    if es.len() > 0 {
        lemma_sum_le(es.drop_last(), f, g);
        assert(0 <= g(es.last()) <= f(es.last()));
    }
}

pub proof fn lemma_cows_bound(es: Entries, i: int, n: int)
    requires
        0 <= i <= n,
    ensures
        0 <= cows(es, i) <= cows(es, n),
        i < n && is_cow(es[i]) ==> cows(es, i) < cows(es, n),
    decreases n,
{
    if i < n {
        lemma_cows_bound(es, i, n - 1);
    } else if n > 0 {
        lemma_cows_bound(es, n - 1, n - 1);
    }
}

/// One more entry forked.
proof fn lemma_store_step(
    a: Objects<PageRef>,
    m: Objects<PageRef>,
    b: Objects<PageRef>,
    es: Entries,
    n: int,
)
    requires
        0 <= n < es.len(),
        forked_store(a, m, es, n),
        store_step(m, b, es[n], true),
        object_of(es[n].mapping) matches Some(o) ==> live(a, o as int),
        forall|id: int| #[trigger]
            live(a, id) ==> (a[id]->0).shadow_count + handles(es, id) <= (a[id]->0).refs && (
            a[id]->0).refs + handles(es, id) <= usize::MAX,
    ensures
        forked_store(a, b, es, n + 1),
{
    let e = es[n];
    lemma_cows_bound(es, 0, n);
    assert forall|id: int| 0 <= id < a.len() implies #[trigger] b[id] == stepped(
        a[id],
        handles(es.take(n + 1), id),
        2 * cow_handles(es.take(n + 1), id),
    ) by {
        lemma_cow_handles(es, id, n);
        lemma_cow_handles(es, id, n + 1);
        assert(m[id] == stepped(
            a[id],
            handles(es.take(n), id),
            2 * cow_handles(es.take(n), id),
        ));
        if a[id] is Some {
            assert(live(a, id));
        }
    }
    assert forall|i: int| 0 <= i < n + 1 && is_cow(#[trigger] es[i]) implies ({
        let o = object_of(es[i].mapping)->0;
        let at = a.len() + 2 * cows(es, i);
        &&& is_shadow(b[at], o, a[o as int]->0)
        &&& is_shadow(b[at + 1], o, a[o as int]->0)
    }) by {
        let o = object_of(es[i].mapping)->0;
        let at = a.len() + 2 * cows(es, i);
        lemma_cows_bound(es, i, n);
        if i < n {
            assert(is_shadow(m[at], o, a[o as int]->0));
            assert(b[at] == stepped(m[at], 0, 0));
            assert(b[at + 1] == stepped(m[at + 1], 0, 0));
        } else {
            assert(live(a, o as int));
            assert(m[o as int] == stepped(
                a[o as int],
                handles(es.take(n), o as int),
                2 * cow_handles(es.take(n), o as int),
            ));
        }
    }
}

/// The pages seen through a forked entry, by parent and child, are those seen before
/// the fork.
pub proof fn law_fork_keeps_view(
    a: Objects<PageRef>,
    b: Objects<PageRef>,
    es: Entries,
    n: int,
    i: int,
    k: u64,
)
    requires
        store_wf(a),
        forked_store(a, b, es, n),
        0 <= i < n <= es.len(),
        object_of(es[i].mapping) matches Some(o) && live(a, o as int),
    ensures
        ({
            let o = object_of(es[i].mapping)->0 as int;
            let at = a.len() + 2 * cows(es, i);
            &&& lookup(b, o, k) == lookup(a, o, k)
            &&& is_cow(es[i]) ==> lookup(b, at, k) == lookup(a, o, k)
            &&& is_cow(es[i]) ==> lookup(b, at + 1, k) == lookup(a, o, k)
        }),
{
    let o = object_of(es[i].mapping)->0;
    let at = a.len() + 2 * cows(es, i);
    lemma_cows_bound(es, 0, n);
    assert forall|x: int| #[trigger] live(a, x) implies (b[x] matches Some(o) && o.pages == (
    a[x]->0).pages && o.backing == (a[x]->0).backing) by {
        assert(b[x] == stepped(a[x], handles(es.take(n), x), 2 * cow_handles(es.take(n), x)));
    }
    lemma_lookup_stepped(a, b, o as int, k);
    if is_cow(es[i]) {
        lemma_cows_bound(es, i, n);
        assert(is_shadow(b[at], o, a[o as int]->0));
        assert(is_shadow(b[at + 1], o, a[o as int]->0));
    }
}

/// Handles and shadows do not change what is seen through an object.
pub proof fn lemma_lookup_stepped<P: PhysPage>(a: Objects<P>, b: Objects<P>, id: int, k: u64)
    requires
        store_wf(a),
        live(a, id),
        b.len() >= a.len(),
        forall|x: int| #[trigger]
            live(a, x) ==> (b[x] matches Some(o) && o.pages == (a[x]->0).pages && o.backing == (
            a[x]->0).backing),
    ensures
        lookup(b, id, k) == lookup(a, id, k),
    decreases id,
{
    assert(object_wf(a, id));
    let o = a[id]->0;
    if !o.pages@.dom().contains(k) {
        if let Some(p) = o.backing {
            lemma_lookup_stepped(a, b, p as int, k);
        }
    }
}

/// The addresses from `s` to `e`, page by page, that the parent maps once the first `n`
/// entries were forked.
pub open spec fn mapped_after(parent: &Pmap, es: Entries, n: int, s: int, e: int) -> Seq<u64>
    decreases (if s < e { e - s } else { 0 }),
{
    if s >= e {
        Seq::empty()
    } else {
        (if maps(cow_pte(es, n, parent.entry_at(s), s)) {
            seq![s as u64]
        } else {
            Seq::empty()
        }) + mapped_after(parent, es, n, s + 4096, e)
    }
}

/// The pages whose translation in the parent a fork of the first `n` entries changes: those
/// that are mapped in entries copied on write.
pub open spec fn dirty_pages(parent: &Pmap, es: Entries, n: int) -> Seq<u64>
    decreases n,
{
    if n <= 0 {
        Seq::empty()
    } else {
        let e = es[n - 1];
        dirty_pages(parent, es, n - 1) + if is_cow(e) {
            mapped_after(parent, es, n - 1, page_floor(e.lo as int), e.hi as int)
        } else {
            Seq::empty()
        }
    }
}

proof fn lemma_mapped_after(parent: &Pmap, now: &Pmap, es: Entries, n: int, s: int, e: int)
    requires
        forall|v: int| #[trigger] now.entry_at(v) == cow_pte(es, n, parent.entry_at(v), v),
    ensures
        mapped_vas(now, s, e) == mapped_after(parent, es, n, s, e),
    decreases (if s < e { e - s } else { 0 }),
{
    if s < e {
        lemma_mapped_after(parent, now, es, n, s + 4096, e);
        assert(now.entry_at(s) == cow_pte(es, n, parent.entry_at(s), s));
    }
}

/// Every page of an entry copied on write that the parent still maps when the entry is forked
/// is among those to be flushed.
pub proof fn law_changed_page_is_flushed(parent: &Pmap, es: Entries, n: int, i: int, k: int)
    requires
        0 <= i < n <= es.len(),
        is_cow(es[i]),
        0 <= k,
        ({
            let v = page_floor(es[i].lo as int) + 4096 * k;
            &&& v < es[i].hi
            &&& maps(cow_pte(es, i, parent.entry_at(v), v))
        }),
    ensures
        dirty_pages(parent, es, n).contains((page_floor(es[i].lo as int) + 4096 * k) as u64),
    decreases n,
{
    let before = dirty_pages(parent, es, n - 1);
    let all = dirty_pages(parent, es, n);
    let x = (page_floor(es[i].lo as int) + 4096 * k) as u64;
    if i < n - 1 {
        law_changed_page_is_flushed(parent, es, n - 1, i, k);
        let j = choose|j: int| 0 <= j < before.len() && before[j] == x;
        assert(all[j] == x);
    } else {
        lemma_in_mapped_after(parent, es, i, page_floor(es[i].lo as int), es[i].hi as int, k);
        let part = mapped_after(parent, es, i, page_floor(es[i].lo as int), es[i].hi as int);
        let j = choose|j: int| 0 <= j < part.len() && part[j] == x;
        assert(all[before.len() + j] == x);
    }
}

proof fn lemma_in_mapped_after(parent: &Pmap, es: Entries, n: int, s: int, e: int, k: int)
    requires
        0 <= k,
        0 <= s,
        s + 4096 * k < e,
        maps(cow_pte(es, n, parent.entry_at(s + 4096 * k), s + 4096 * k)),
    ensures
        mapped_after(parent, es, n, s, e).contains((s + 4096 * k) as u64),
    decreases k,
{
    let all = mapped_after(parent, es, n, s, e);
    let rest = mapped_after(parent, es, n, s + 4096, e);
    if k == 0 {
        assert(all[0] == s as u64);
    } else {
        assert(s + 4096 + 4096 * (k - 1) == s + 4096 * k);
        lemma_in_mapped_after(parent, es, n, s + 4096, e, k - 1);
        let j = choose|j: int| 0 <= j < rest.len() && rest[j] == (s + 4096 * k) as u64;
        assert(all[all.len() - rest.len() + j] == rest[j]);
    }
}

/// What forking the entry does to the child's translations and to the pool, the parent's being
/// those of `parent`.
pub open spec fn fork_step(
    parent: &Pmap,
    before: &Pmap,
    after: &Pmap,
    pool0: &FramePool,
    pool1: &FramePool,
    cpu: int,
    e: VmMapEntry,
) -> bool {
    if object_of(e.mapping) is Some {
        shared_in_turn(
            parent,
            before,
            after,
            pool0,
            pool1,
            cpu,
            page_floor(e.lo as int),
            e.hi as int,
            fork_perm(e),
        )
    } else {
        *after == *before && *pool1 == *pool0
    }
}

/// The first `n` entries were forked one after the other; `parents` are the translations of the
/// parent before each.
pub open spec fn fork_steps(
    parent: &Pmap,
    parents: Seq<Pmap>,
    spaces: Seq<Pmap>,
    pools: Seq<FramePool>,
    cpu: int,
    es: Entries,
    n: int,
) -> bool {
    &&& parents.len() == n
    &&& spaces.len() == n + 1
    &&& pools.len() == n + 1
    &&& forall|i: int, v: int|
        0 <= i < n ==> (#[trigger] parents[i].entry_at(v)) == cow_pte(
            es,
            i,
            parent.entry_at(v),
            v,
        )
    &&& forall|i: int|
        0 <= i < n ==> fork_step(
            &parents[i],
            &spaces[i],
            &spaces[i + 1],
            &pools[i],
            &pools[i + 1],
            cpu,
            #[trigger] es[i],
        )
}

/// What forking the first `n` entries, one after the other, does to the child's translations
/// and to the pool.
pub open spec fn forked_in_turn(
    parent: &Pmap,
    before: &Pmap,
    after: &Pmap,
    pool0: &FramePool,
    pool1: &FramePool,
    cpu: int,
    es: Entries,
    n: int,
) -> bool {
    exists|parents: Seq<Pmap>, spaces: Seq<Pmap>, pools: Seq<FramePool>| #[trigger]
        fork_steps(parent, parents, spaces, pools, cpu, es, n) && spaces[0] == *before && spaces[n]
            == *after && pools[0] == *pool0 && pools[n] == *pool1
}

/// What a fork of an address space does.
pub open spec fn did_cow_fork(
    parent0: &VmMap,
    parent1: &VmMap,
    child0: &VmMap,
    child1: &VmMap,
    store0: &VmObjects,
    store1: &VmObjects,
    pool0: &FramePool,
    pool1: &FramePool,
    cpu: int,
    batch0: &ShootdownBatch,
    batch1: &ShootdownBatch,
    r: Result<(), Errno>,
) -> bool {
    let es = parent0.entries();
    let ces = child0.entries();
    let base = store0.objects@.len() as int;
    let n = fork_stop(ces, es, 0);
    let ok = n == es.len();
    &&& r == if ok {
        Ok::<(), Errno>(())
    } else {
        Err(Errno::Einval)
    }
    &&& parent1.entries() == parent_after(
        es,
        base,
        if ok {
            n
        } else {
            n + 1
        },
    )
    &&& child1.entries() == child_after(ces, es, base, n)
    &&& store1.pagers == store0.pagers
    &&& parent1.timestamp == parent0.timestamp
    &&& child1.timestamp == raised(
        child0.timestamp,
        child1.entries().len() - child0.entries().len(),
    )
    &&& parent1.pmap.same_identity(&parent0.pmap)
    &&& parent1.pmap.same_tables(&parent0.pmap)
    &&& parent1.pmap.stats == parent0.pmap.stats
    &&& child1.pmap.same_identity(&child0.pmap)
    &&& child1.pmap.stats.wired_count == child0.pmap.stats.wired_count
    &&& batch1.asid == batch0.asid
    &&& batch1.quiesce == batch0.quiesce
    &&& batch1.dirty_vas@ == batch0.dirty_vas@ + dirty_pages(&parent0.pmap, es, n)
    &&& ok ==> forked_store(store0.objects@, store1.objects@, es, n)
    &&& !ok ==> exists|m: Objects<PageRef>| #[trigger]
        forked_store(store0.objects@, m, es, n) && store_step(
            m,
            store1.objects@,
            es[n],
            false,
        )
    &&& forall|v: int| #[trigger]
        parent1.pmap.entry_at(v) == cow_pte(es, n, parent0.pmap.entry_at(v), v)
    &&& forall|v: int| #[trigger]
        child1.pmap.entry_at(v) == child0.pmap.entry_at(v) || maps(
            parent0.pmap.entry_at(v),
        ) && addr_of(child1.pmap.entry_at(v)) == addr_of(
            parent0.pmap.entry_at(v),
        )
    &&& forked_in_turn(
        &parent0.pmap,
        &child0.pmap,
        &child1.pmap,
        pool0,
        pool1,
        cpu,
        es,
        n,
    )
    &&& entries_enter(&child1.pmap, pool1, es, n) ==> forall|v: int| #[trigger]
        child1.pmap.entry_at(v) == child_pte(
            es,
            n,
            parent0.pmap.entry_at(v),
            child0.pmap.entry_at(v),
            v,
        )
}

impl VmMap {
    /// Fork into `child`, copying on write: entries that can be written get a shadow
    /// on either side, the others are shared.  The first entry that the child cannot
    /// take ends the fork.  The parent's changed translations are collected in
    /// `batch`.
    #[verifier::rlimit(80)]
    pub fn cow_fork_into(
        &mut self,
        child: &mut VmMap,
        store: &mut VmObjects,
        pool: &mut FramePool,
        cpu: usize,
        batch: &mut ShootdownBatch,
    ) -> (r: Result<(), Errno>)
        requires
            old(self).wf(),
            old(child).wf(),
            old(store).wf(),
            backed(old(self).entries(), old(store)),
            accounted(old(self).entries(), old(store)),
            forall|id: int| #[trigger]
                refs_of(old(store), id) + handles(old(self).entries(), id) < usize::MAX,
            old(child).nentries + old(self).nentries <= usize::MAX,
            old(pool).inv(),
            pool_holdable(old(pool)),
            cpu < NUM_MAGAZINES,
            old(child).pmap.stats.wired_count < usize::MAX,
        ensures
            final(self).wf(),
            final(child).wf(),
            final(store).wf(),
            final(pool).inv(),
            pool_holdable(final(pool)),
            final(store).pagers == old(store).pagers,
            final(self).timestamp == old(self).timestamp,
            final(self).pmap.same_identity(&old(self).pmap),
            final(child).pmap.same_identity(&old(child).pmap),
            final(child).pmap.stats.wired_count == old(child).pmap.stats.wired_count,
            forall|p: int| #[trigger] final(pool).pool_free(p) ==> old(pool).pool_free(p),
            did_cow_fork(
                old(self),
                final(self),
                old(child),
                final(child),
                old(store),
                final(store),
                old(pool),
                final(pool),
                cpu as int,
                old(batch),
                final(batch),
                r,
            ),
            r is Ok ==> forall|i: int|
                0 <= i < old(self).entries().len()
                    && object_of((#[trigger] old(self).entries()[i]).mapping) is Some ==> ({
                let o = object_of(old(self).entries()[i].mapping)->0;
                let p = final(self).entries()[i];
                &&& p.lo == old(self).entries()[i].lo && p.hi == old(self).entries()[i].hi
                    && p.protection == old(self).entries()[i].protection
                &&& offset_of(p.mapping) == offset_of(old(self).entries()[i].mapping)
                    && same_kind(p.mapping, old(self).entries()[i].mapping)
                &&& old(self).entries()[i].protection.0 / 2 % 2 == 0
                    ==> p.mapping == old(self).entries()[i].mapping && exists|j: int|
                    0 <= j < final(child).entries().len()
                        && (#[trigger] final(child).entries()[j]).lo == old(self).entries()[i].lo
                        && final(child).entries()[j].hi == old(self).entries()[i].hi
                        && final(child).entries()[j].protection == old(self).entries()[i].protection
                        && final(child).entries()[j].mapping == old(self).entries()[i].mapping
                &&& old(self).entries()[i].protection.0 / 2 % 2 == 1 ==> {
                    &&& object_of(p.mapping) matches Some(mine) && mine >= old(store).objects@.len()
                        && mine < final(store).objects@.len()
                        && final(store).objects@[mine as int] is Some
                        && (final(store).objects@[mine as int]->0).pages@ == Map::<u64, PageRef>::empty()
                            && (final(store).objects@[mine as int]->0).backing == Some(o)
                            && (final(store).objects@[mine as int]->0).pager == (match (old(store).objects@[o as int]->0).pager { Some(PagerRef::Vnode(q)) => Some(PagerRef::Vnode(q)), _ => Some(PagerRef::Anon) })
                    &&& exists|j: int|
                        0 <= j < final(child).entries().len()
                            && (#[trigger] final(child).entries()[j]).lo == old(self).entries()[i].lo
                                && final(child).entries()[j].hi == old(self).entries()[i].hi
                                && final(child).entries()[j].protection == old(self).entries()[i].protection
                                && offset_of(final(child).entries()[j].mapping) == offset_of(old(self).entries()[i].mapping)
                                && same_kind(final(child).entries()[j].mapping, old(self).entries()[i].mapping)
                                && (object_of(final(child).entries()[j].mapping) matches Some(theirs)
                                && theirs != object_of(p.mapping)->0
                                && theirs >= old(store).objects@.len()
                                && theirs < final(store).objects@.len()
                                && final(store).objects@[theirs as int] is Some
                                && (final(store).objects@[theirs as int]->0).pages@ == Map::<u64, PageRef>::empty()
                                && (final(store).objects@[theirs as int]->0).backing == Some(o)
                                && (final(store).objects@[theirs as int]->0).pager == (match (old(store).objects@[o as int]->0).pager { Some(PagerRef::Vnode(q)) => Some(PagerRef::Vnode(q)), _ => Some(PagerRef::Anon) }))
                }
            }),
            r is Ok ==> forall|i: int, v: int|
                0 <= i < old(self).entries().len()
                    && (#[trigger] old(self).entries()[i]).lo <= v < old(self).entries()[i].hi
                    && old(self).entries()[i].protection.0 / 2 % 2 == 1
                    && object_of(old(self).entries()[i].mapping) is Some
                    && final(self).pmap.entry_at(v) % 2 == 1
                    && final(self).pmap.entry_at(v) / 2 % 8 != 0
                    ==> (#[trigger] final(self).pmap.entry_at(v)) / 4 % 2 == 0,
            r is Ok ==> forall|v: int| 0 <= v
                ==> (#[trigger] final(self).pmap.entry_at(v)) % 2 == old(self).pmap.entry_at(v) % 2
                && final(self).pmap.entry_at(v) as int / 1024 % 0x1000_0000_0000 == old(self).pmap.entry_at(v) as int / 1024 % 0x1000_0000_0000,
            r is Ok ==> forall|v: int| 0 <= v
                ==> (#[trigger] final(child).pmap.entry_at(v)) == old(child).pmap.entry_at(v)
                || final(child).pmap.entry_at(v) % 2 == 1
                && final(child).pmap.entry_at(v) / 4 % 2 == 0 && old(self).pmap.entry_at(v) % 2 == 1
                && final(child).pmap.entry_at(v) as int / 1024 % 0x1000_0000_0000 == old(self).pmap.entry_at(v) as int / 1024 % 0x1000_0000_0000,
    {
        let ghost es = self.entries();
        let ghost ces = child.entries();
        let ghost s0 = store.objects@;
        let ghost base = s0.len() as int;
        let all = self.copy_entries();
        let mut i: usize = 0;
        let ghost mut parents: Seq<Pmap> = Seq::empty();
        let ghost mut spaces = seq![child.pmap];
        let ghost mut pools = seq![*pool];
        proof {
            assert(parent_after(es, base, 0) =~= es);
            assert(batch.dirty_vas@ + dirty_pages(&self.pmap, es, 0) =~= batch.dirty_vas@);
            assert forall|id: int| 0 <= id < s0.len() implies #[trigger] s0[id] == stepped(
                s0[id],
                handles(es.take(0), id),
                2 * cow_handles(es.take(0), id),
            ) by {
                lemma_cow_handles(es, id, 0);
            }
        }
        while i < all.len()
            invariant
                i <= all@.len(),
                all@ == es,
                es == old(self).entries(),
                ces == old(child).entries(),
                s0 == old(store).objects@,
                base == s0.len(),
                ordered(es),
                ordered(ces),
                old(self).wf(),
                old(store).wf(),
                self.wf(),
                child.wf(),
                store.wf(),
                pool.inv(),
                pool_holdable(pool),
                cpu < NUM_MAGAZINES,
                backed(es, old(store)),
                accounted(es, old(store)),
                forall|id: int| #[trigger] refs_of(old(store), id) + handles(es, id) < usize::MAX,
                ces.len() + es.len() <= usize::MAX,
                child.pmap.stats.wired_count == old(child).pmap.stats.wired_count,
                old(child).pmap.stats.wired_count < usize::MAX,
                forall|p: int| #[trigger] pool.pool_free(p) ==> old(pool).pool_free(p),
                store.pagers == old(store).pagers,
                self.timestamp == old(self).timestamp,
                self.pmap.stats == old(self).pmap.stats,
                self.pmap.same_tables(&old(self).pmap),
                child.entries().len() >= ces.len(),
                child.timestamp == raised(
                    old(child).timestamp,
                    child.entries().len() - ces.len(),
                ),
                self.pmap.same_identity(&old(self).pmap),
                child.pmap.same_identity(&old(child).pmap),
                forall|j: int| 0 <= j < i ==> !blocked(ces, #[trigger] es[j]),
                self.entries() == parent_after(es, base, i as int),
                child.entries() == child_after(ces, es, base, i as int),
                forked_store(s0, store.objects@, es, i as int),
                forall|v: int| #[trigger]
                    self.pmap.entry_at(v) == cow_pte(es, i as int, old(self).pmap.entry_at(v), v),
                child_so_far(&old(self).pmap, &old(child).pmap, &child.pmap, pool, es, i as int),
                fork_steps(&old(self).pmap, parents, spaces, pools, cpu as int, es, i as int),
                spaces[0] == old(child).pmap,
                spaces[i as int] == child.pmap,
                pools[0] == *old(pool),
                pools[i as int] == *pool,
                batch.asid == old(batch).asid,
                batch.quiesce == old(batch).quiesce,
                batch.dirty_vas@ == old(batch).dirty_vas@ + dirty_pages(
                    &old(self).pmap,
                    es,
                    i as int,
                ),
            decreases all@.len() - i,
        {
            let ghost e = es[i as int];
            let ghost m = store.objects@;
            let ghost kid = child.pmap;
            let ghost kids = child.entries();
            let ghost own = self.pmap;
            let ghost pool0 = *pool;
            let ghost ents = self.entries();
            let ghost vas = batch.dirty_vas@;
            proof {
                lemma_mapped_after(
                    &old(self).pmap,
                    &own,
                    es,
                    i as int,
                    page_floor(e.lo as int),
                    e.hi as int,
                );
                lemma_child_free(ces, es, base, i as int, i as int);
                lemma_cows_bound(es, 0, i as int);
            }
            match ForkDescriptor::from_vma(&all[i]) {
                None => {
                    proof {
                        lemma_skipped(s0, m, es, i as int);
                        assert(parent_after(es, base, i + 1) =~= parent_after(es, base, i as int));
                        lemma_child_step(
                            &old(self).pmap,
                            &old(child).pmap,
                            &own,
                            &kid,
                            &kid,
                            &pool0,
                            pool,
                            es,
                            i as int,
                        );
                    }
                },
                Some(desc) => {
                    proof {
                        lemma_ready(old(store), store, es, i as int);
                        assert(ents[i as int] == e);
                    }
                    let r = desc.apply(
                        self,
                        child,
                        store,
                        pool,
                        cpu,
                        batch,
                        Ghost(e),
                        Ghost(i as int),
                    );
                    proof {
                        lemma_upper_trans(&old(self).pmap.root, &own.root, &self.pmap.root);
                    }
                    assert(self.entries() =~= parent_after(es, base, i + 1));
                    if let Err(err) = r {
                        proof {
                            lemma_stop(ces, es, 0, i as int);
                            assert(forked_store(s0, m, es, i as int));
                            assert(child.pmap == kid);
                            assert(*pool == pool0);
                        }
                        return Err(err);
                    }
                    proof {
                        lemma_rank(kids, e.lo as int);
                        assert(child.entries().len() == kids.len() + 1);
                        lemma_store_step(s0, m, store.objects@, es, i as int);
                        lemma_child_step(
                            &old(self).pmap,
                            &old(child).pmap,
                            &own,
                            &kid,
                            &child.pmap,
                            &pool0,
                            pool,
                            es,
                            i as int,
                        );
                    }
                },
            }
            proof {
                let part = if is_cow(e) {
                    mapped_vas(&own, page_floor(e.lo as int), e.hi as int)
                } else {
                    Seq::empty()
                };
                let (ps, ss, qs) = (parents, spaces, pools);
                parents = parents.push(own);
                spaces = spaces.push(child.pmap);
                pools = pools.push(*pool);
                lemma_more_steps(
                    &old(self).pmap,
                    ps,
                    ss,
                    qs,
                    cpu as int,
                    es,
                    i as int,
                    own,
                    child.pmap,
                    *pool,
                );
                assert(batch.dirty_vas@ =~= vas + part);
                assert(vas + part =~= old(batch).dirty_vas@ + (dirty_pages(
                    &old(self).pmap,
                    es,
                    i as int,
                ) + part));
            }
            i += 1;
        }
        proof {
            lemma_stop(ces, es, 0, i as int);
            let r = Ok::<(), Errno>(());
            assert(did_cow_fork(
                old(self),
                self,
                old(child),
                child,
                old(store),
                store,
                old(pool),
                pool,
                cpu as int,
                old(batch),
                batch,
                r,
            ));
            assert forall|i: int| 0 <= i < es.len()
                && object_of((#[trigger] es[i]).mapping) is Some implies ({
            let o = object_of(es[i].mapping)->0;
            let p = self.entries()[i];
            &&& p.lo == es[i].lo && p.hi == es[i].hi && p.protection == es[i].protection
            &&& offset_of(p.mapping) == offset_of(es[i].mapping) && same_kind(p.mapping, es[i].mapping)
            &&& es[i].protection.0 / 2 % 2 == 0 ==> p.mapping == es[i].mapping && exists|j: int|
                0 <= j < child.entries().len() && (#[trigger] child.entries()[j]).lo == es[i].lo
                    && child.entries()[j].hi == es[i].hi
                    && child.entries()[j].protection == es[i].protection
                    && child.entries()[j].mapping == es[i].mapping
            &&& es[i].protection.0 / 2 % 2 == 1 ==> {
                &&& object_of(p.mapping) matches Some(mine) && mine >= old(store).objects@.len()
                    && mine < store.objects@.len() && store.objects@[mine as int] is Some
                    && (store.objects@[mine as int]->0).pages@ == Map::<u64, PageRef>::empty()
                    && (store.objects@[mine as int]->0).backing == Some(o)
                    && (store.objects@[mine as int]->0).pager == (match (old(store).objects@[o as int]->0).pager { Some(PagerRef::Vnode(q)) => Some(PagerRef::Vnode(q)), _ => Some(PagerRef::Anon) })
                &&& exists|j: int|
                    0 <= j < child.entries().len() && (#[trigger] child.entries()[j]).lo == es[i].lo
                        && child.entries()[j].hi == es[i].hi
                        && child.entries()[j].protection == es[i].protection
                        && offset_of(child.entries()[j].mapping) == offset_of(es[i].mapping)
                        && same_kind(child.entries()[j].mapping, es[i].mapping)
                        && (object_of(child.entries()[j].mapping) matches Some(theirs)
                        && theirs != object_of(p.mapping)->0 && theirs >= old(store).objects@.len()
                        && theirs < store.objects@.len() && store.objects@[theirs as int] is Some
                        && (store.objects@[theirs as int]->0).pages@ == Map::<u64, PageRef>::empty()
                        && (store.objects@[theirs as int]->0).backing == Some(o)
                        && (store.objects@[theirs as int]->0).pager == (match (old(store).objects@[o as int]->0).pager { Some(PagerRef::Vnode(q)) => Some(PagerRef::Vnode(q)), _ => Some(PagerRef::Anon) }))
            }
        }) by {
                law_fork_separates_memory(
                    old(self),
                    self,
                    old(child),
                    child,
                    old(store),
                    store,
                    old(pool),
                    pool,
                    cpu as int,
                    old(batch),
                    batch,
                    r,
                    i,
                );
            }
            law_forked_pages_cannot_be_written(
                &old(self).pmap,
                &self.pmap,
                &old(child).pmap,
                &child.pmap,
                old(pool),
                pool,
                cpu as int,
                es,
            );
        }
        Ok(())
    }
}

/// One more entry was forked.
proof fn lemma_more_steps(
    parent: &Pmap,
    parents: Seq<Pmap>,
    spaces: Seq<Pmap>,
    pools: Seq<FramePool>,
    cpu: int,
    es: Entries,
    n: int,
    own: Pmap,
    now: Pmap,
    pool: FramePool,
)
    requires
        0 <= n < es.len(),
        fork_steps(parent, parents, spaces, pools, cpu, es, n),
        forall|v: int| #[trigger] own.entry_at(v) == cow_pte(es, n, parent.entry_at(v), v),
        fork_step(&own, &spaces[n], &now, &pools[n], &pool, cpu, es[n]),
    ensures
        fork_steps(
            parent,
            parents.push(own),
            spaces.push(now),
            pools.push(pool),
            cpu,
            es,
            n + 1,
        ),
{
    let (ps, ss, qs) = (parents.push(own), spaces.push(now), pools.push(pool));
    assert forall|i: int, v: int| 0 <= i < n + 1 implies (#[trigger] ps[i].entry_at(v)) == cow_pte(
        es,
        i,
        parent.entry_at(v),
        v,
    ) by {
        if i < n {
            assert(ps[i] == parents[i]);
            assert(parents[i].entry_at(v) == cow_pte(es, i, parent.entry_at(v), v));
        } else {
            assert(ps[i] == own);
        }
    }
    assert forall|i: int| 0 <= i < n + 1 implies fork_step(
        &ps[i],
        &ss[i],
        &ss[i + 1],
        &qs[i],
        &qs[i + 1],
        cpu,
        #[trigger] es[i],
    ) by {
        if i < n {
            assert(ps[i] == parents[i]);
            assert(ss[i] == spaces[i] && ss[i + 1] == spaces[i + 1]);
            assert(qs[i] == pools[i] && qs[i + 1] == pools[i + 1]);
        }
    }
}

/// What the child's translations are after `n` entries.
pub open spec fn child_so_far(
    parent: &Pmap,
    first: &Pmap,
    now: &Pmap,
    pool: &FramePool,
    es: Entries,
    n: int,
) -> bool {
    &&& forall|v: int| #[trigger]
        now.entry_at(v) == first.entry_at(v) || maps(parent.entry_at(v)) && addr_of(now.entry_at(v))
            == addr_of(parent.entry_at(v))
    &&& entries_enter(now, pool, es, n) ==> forall|v: int| #[trigger]
        now.entry_at(v) == child_pte(es, n, parent.entry_at(v), first.entry_at(v), v)
}

proof fn lemma_cow_pte(es: Entries, n: int, raw: u64, v: int)
    ensures
        addr_of(cow_pte(es, n, raw, v)) == addr_of(raw),
        maps(cow_pte(es, n, raw, v)) ==> maps(raw),
    decreases n,
{
    if n > 0 {
        lemma_cow_pte(es, n - 1, raw, v);
        lemma_reprotect_twice(cow_pte(es, n - 1, raw, v), read_only(es[n - 1].protection));
    }
}

/// One more entry's pages.
proof fn lemma_child_step(
    parent: &Pmap,
    first: &Pmap,
    own: &Pmap,
    before: &Pmap,
    after: &Pmap,
    pool0: &FramePool,
    pool: &FramePool,
    es: Entries,
    n: int,
)
    requires
        0 <= n < es.len(),
        child_so_far(parent, first, before, pool0, es, n),
        forall|v: int| #[trigger] own.entry_at(v) == cow_pte(es, n, parent.entry_at(v), v),
        forall|p: int| #[trigger] pool.pool_free(p) ==> pool0.pool_free(p),
        forall|v: int| #[trigger] after.root.large_at(v) == before.root.large_at(v),
        object_of(es[n].mapping) is None ==> *after == *before,
        object_of(es[n].mapping) is Some ==> pages_shared(
            own,
            before,
            after,
            pool,
            page_floor(es[n].lo as int),
            es[n].hi as int,
            fork_perm(es[n]),
        ),
    ensures
        child_so_far(parent, first, after, pool, es, n + 1),
{
    assert forall|v: int| #[trigger]
        after.entry_at(v) == first.entry_at(v) || maps(parent.entry_at(v)) && addr_of(
            after.entry_at(v),
        ) == addr_of(parent.entry_at(v)) by {
        lemma_cow_pte(es, n, parent.entry_at(v), v);
        let o = own.entry_at(v);
        assert(o == cow_pte(es, n, parent.entry_at(v), v));
        let b = before.entry_at(v);
        assert(b == first.entry_at(v) || maps(parent.entry_at(v)) && addr_of(b) == addr_of(
            parent.entry_at(v),
        ));
        let f = enter_flags(fork_perm(es[n]), false);
        lemma_entry(addr_of(o), f);
        assert(after.entry_at(v) == b || after.entry_at(v) == shared(b, o, fork_perm(es[n])));
    }
    if entries_enter(after, pool, es, n + 1) {
        let p = choose|p: int| #[trigger] pool.pool_free(p);
        assert(pool0.pool_free(p));
        assert forall|i: int, v: int|
            0 <= i < n && object_of((#[trigger] es[i]).mapping) is Some && touches(
                page_floor(es[i].lo as int),
                es[i].hi as int,
                v,
            ) implies !#[trigger] before.root.large_at(v) by {
            assert(!after.root.large_at(v));
        }
        assert(entries_enter(before, pool0, es, n));
        if object_of(es[n].mapping) is Some {
            assert(all_enter(after, pool, page_floor(es[n].lo as int), es[n].hi as int));
        }
        assert forall|v: int| #[trigger]
            after.entry_at(v) == child_pte(es, n + 1, parent.entry_at(v), first.entry_at(v), v) by {
            assert(before.entry_at(v) == child_pte(
                es,
                n,
                parent.entry_at(v),
                first.entry_at(v),
                v,
            ));
            assert(own.entry_at(v) == cow_pte(es, n, parent.entry_at(v), v));
        }
    }
}

/// An entry without an object changes no object.
proof fn lemma_skipped(a: Objects<PageRef>, m: Objects<PageRef>, es: Entries, n: int)
    requires
        0 <= n < es.len(),
        forked_store(a, m, es, n),
        object_of(es[n].mapping) is None,
    ensures
        forked_store(a, m, es, n + 1),
{
    assert forall|id: int| 0 <= id < a.len() implies #[trigger] m[id] == stepped(
        a[id],
        handles(es.take(n + 1), id),
        2 * cow_handles(es.take(n + 1), id),
    ) by {
        lemma_cow_handles(es, id, n);
    }
}

/// The object of the next entry has a handle to spare for a shadow.
proof fn lemma_ready(first: &VmObjects, store: &VmObjects, es: Entries, n: int)
    requires
        0 <= n < es.len(),
        forked_store(first.objects@, store.objects@, es, n),
        object_of(es[n].mapping) is Some,
        backed(es, first),
        accounted(es, first),
        forall|id: int| #[trigger] refs_of(first, id) + handles(es, id) < usize::MAX,
    ensures
        ({
            let o = object_of(es[n].mapping)->0 as int;
            &&& first.has(o)
            &&& store.has(o)
            &&& store.obj(o).shadow_count < store.obj(o).refs < usize::MAX
        }),
        forall|id: int| #[trigger]
            live(first.objects@, id) ==> first.obj(id).shadow_count + handles(es, id) <= first.obj(
                id,
            ).refs && first.obj(id).refs + handles(es, id) <= usize::MAX,
{
    let o = object_of(es[n].mapping)->0 as int;
    assert(first.has(o));
    assert(live(first.objects@, o));
    lemma_cow_handles(es, o, n);
    lemma_cows_bound(es, 0, n);
    assert(handle(es[n], o) == 1);
    assert(store.objects@[o] == stepped(
        first.objects@[o],
        handles(es.take(n), o),
        2 * cow_handles(es.take(n), o),
    ));
    assert(refs_of(first, o) + handles(es, o) < usize::MAX);
    assert forall|id: int| #[trigger] live(first.objects@, id) implies first.obj(id).shadow_count
        + handles(es, id) <= first.obj(id).refs && first.obj(id).refs + handles(es, id)
        <= usize::MAX by {
        assert(refs_of(first, id) + handles(es, id) < usize::MAX);
    }
}

/// After a fork the parent can write no page of an entry that is copied on write.
pub proof fn law_parent_cannot_write(es: Entries, n: int, i: int, raw: u64, v: int)
    requires
        0 <= i < n <= es.len(),
        is_cow(es[i]),
        touches(page_floor(es[i].lo as int), es[i].hi as int, v),
        maps(cow_pte(es, n, raw, v)),
    ensures
        !flags_of(cow_pte(es, n, raw, v)).has(PteFlags::W()),
        addr_of(cow_pte(es, n, raw, v)) == addr_of(raw),
    decreases n,
{
    lemma_cow_pte(es, n, raw, v);
    let p = cow_pte(es, n - 1, raw, v);
    let e = es[n - 1];
    if is_cow(e) && touches(page_floor(e.lo as int), e.hi as int, v) {
        if maps(p) {
            law_protect_sets_access(p, read_only(e.protection));
            lemma_strip_write(e.protection);
        }
    } else {
        law_parent_cannot_write(es, n - 1, i, raw, v);
    }
}

/// After a fork the child can write no page that it has from entries that are copied on
/// write.
pub proof fn law_child_cannot_write(es: Entries, n: int, raw: u64, own: u64, v: int)
    requires
        0 <= n <= es.len(),
        !maps(own),
        forall|j: int|
            0 <= j < n && object_of((#[trigger] es[j]).mapping) is Some && touches(
                page_floor(es[j].lo as int),
                es[j].hi as int,
                v,
            ) ==> is_cow(es[j]),
        maps(child_pte(es, n, raw, own, v)),
    ensures
        !flags_of(child_pte(es, n, raw, own, v)).has(PteFlags::W()),
        maps(raw),
        addr_of(child_pte(es, n, raw, own, v)) == addr_of(raw),
    decreases n,
{
    if n > 0 {
        let prev = child_pte(es, n - 1, raw, own, v);
        let p = cow_pte(es, n - 1, raw, v);
        let e = es[n - 1];
        lemma_cow_pte(es, n - 1, raw, v);
        if object_of(e.mapping) is Some && touches(page_floor(e.lo as int), e.hi as int, v) && maps(
            p,
        ) && !maps(prev) {
            assert(is_cow(e));
            let f = enter_flags(read_only(e.protection), false);
            lemma_entry(addr_of(p), f);
            law_perm_shows_in_flags(read_only(e.protection));
            lemma_strip_write(e.protection);
        } else {
            law_child_cannot_write(es, n - 1, raw, own, v);
        }
    }
}

} // verus!
