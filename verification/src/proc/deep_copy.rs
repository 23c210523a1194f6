//! The fork that copies every page at once.
//!
//! Entries that can be written get an object of their own in the child, and a copy of every
//! page that the parent has mapped in them.  The others are shared, with the pages as they
//! are.
use vstd::prelude::*;
use crate::hal::addr::{page_floor, PhysAddr, VirtAddr, PAGE_SIZE};
use crate::mm::allocator::buddy::fits;
use crate::mm::allocator::frame_allocator::{
    alloc_raw_frame_sync, frame_allocated, next_frame, FramePool, NUM_MAGAZINES,
};
use crate::mm::allocator::types::{pfn, PageRole};
use crate::mm::pmap::pte::{addr_of, entry_of, lemma_entry};
use crate::mm::pmap::space::{
    enter_flags, entered, maps, pmap_enter, pmap_extract, step_addr, touches, Pmap,
};
use crate::mm::pmap::table::{pool_holdable, same_page};
use crate::mm::vm::map::address_map::{
    backed, handle, handles, insertable, meets, new_entry, raised, refs_of, Entries, VmMap,
};
use crate::mm::vm::map::entry::{object_of, offset_of, remapped, same_kind, VmMapEntry};
use crate::mm::vm::map::fork::{
    all_enter, cow_handles, cows, entries_enter, inherited, is_cow, lemma_cow_handles,
    lemma_cows_bound, mapped_vas, share_pages, share_steps, shared, shared_in_turn, stepped,
};
use crate::mm::vm::map::perm::MapPerm;
use crate::mm::vm::map::separation::{lemma_no_write, lemma_shared_entry, lemma_write_bit};
use crate::mm::vm::map::splay::{ordered, rank, Ranged};
use crate::mm::vm::object::{VObjIndex, VmObject, VmObjects};
use crate::mm::vm::page_ref::PageRef;
use crate::mm::vm::shadow::{live, Object, Objects, PagerRef};
use crate::proc::fork::whole_pages;

verus! {

/// A page of the parent and the frame that becomes its copy.
#[derive(Debug, Clone, Copy, PartialEq, Eq, Structural)]
pub struct PageCopy {
    pub va: u64,
    pub from: PhysAddr,
    pub to: PhysAddr,
}

/// What the child gets of entry `i`.
pub open spec fn deep_part(es: Entries, base: int, i: int) -> VmMapEntry {
    new_entry(
        VirtAddr(es[i].lo),
        VirtAddr(es[i].hi),
        es[i].protection,
        if is_cow(es[i]) {
            remapped(es[i].mapping, (base + cows(es, i)) as usize, offset_of(es[i].mapping))
        } else {
            es[i].mapping
        },
    )
}

/// A new object with these pages.
pub open spec fn holds_pages(
    slot: Option<Object<PageRef>>,
    pager: Option<PagerRef>,
    size: u64,
    pages: Map<u64, PageRef>,
) -> bool {
    slot matches Some(s) && {
        &&& s.pages@ == pages
        &&& s.backing is None
        &&& s.pager == pager
        &&& s.size == size
        &&& s.shadow_count == 0
        &&& s.generation == 0
        &&& s.clean_generation == 0
        &&& s.refs == 1
    }
}

/// Handles to the object at `id` of the entries that are shared.
pub open spec fn shared_handles(es: Entries, id: int) -> int {
    handles(es, id) - cow_handles(es, id)
}

/// What giving the child its entries does to the objects: a new one for each of the first `n`
/// that can be written, which holds the pages in `pages`.
#[verifier::opaque]
pub open spec fn deep_objects(
    a: Objects<PageRef>,
    b: Objects<PageRef>,
    es: Entries,
    n: int,
    pages: spec_fn(int) -> Map<u64, PageRef>,
) -> bool {
    &&& b.len() == a.len() + cows(es, n)
    &&& forall|id: int|
        0 <= id < a.len() ==> #[trigger] b[id] == stepped(a[id], shared_handles(es.take(n), id), 0)
    &&& forall|i: int|
        0 <= i < n && is_cow(#[trigger] es[i]) ==> {
            let o = object_of(es[i].mapping)->0;
            holds_pages(
                b[a.len() + cows(es, i)],
                inherited((a[o as int]->0).pager),
                (es[i].hi - es[i].lo) as u64,
                pages(i),
            )
        }
}

/// No pages.
pub open spec fn no_pages() -> spec_fn(int) -> Map<u64, PageRef> {
    |i: int| Map::<u64, PageRef>::empty()
}

/// The child's entries once it has got the first `n`.
pub open spec fn deep_entries(es: Entries, base: int, n: int) -> Entries {
    Seq::new(n as nat, |i: int| deep_part(es, base, i))
}

/// One entry more.
proof fn lemma_deep_objects_step(
    a: Objects<PageRef>,
    m: Objects<PageRef>,
    b: Objects<PageRef>,
    es: Entries,
    n: int,
)
    requires
        0 <= n < es.len(),
        deep_objects(a, m, es, n, no_pages()),
        forall|id: int| #[trigger]
            live(a, id) ==> (a[id]->0).refs + handles(es, id) <= usize::MAX,
        object_of(es[n].mapping) matches Some(o) ==> live(a, o as int),
        is_cow(es[n]) ==> {
            let o = object_of(es[n].mapping)->0;
            &&& b.len() == m.len() + 1
            &&& forall|id: int| 0 <= id < m.len() ==> #[trigger] b[id] == m[id]
            &&& holds_pages(
                b[m.len() as int],
                inherited((a[o as int]->0).pager),
                (es[n].hi - es[n].lo) as u64,
                Map::empty(),
            )
        },
        !is_cow(es[n]) ==> {
            &&& b.len() == m.len()
            &&& forall|id: int|
                0 <= id < m.len() ==> #[trigger] b[id] == stepped(m[id], handle(es[n], id), 0)
        },
    ensures
        deep_objects(a, b, es, n + 1, no_pages()),
{
    reveal(deep_objects);
    lemma_cows_bound(es, 0, n);
    assert forall|id: int| 0 <= id < a.len() implies #[trigger] b[id] == stepped(
        a[id],
        shared_handles(es.take(n + 1), id),
        0,
    ) by {
        lemma_cow_handles(es, id, n);
        lemma_cow_handles(es, id, n + 1);
        assert(m[id] == stepped(a[id], shared_handles(es.take(n), id), 0));
        if a[id] is Some {
            assert(live(a, id));
        }
    }
    assert forall|i: int| 0 <= i < n + 1 && is_cow(#[trigger] es[i]) implies ({
        let o = object_of(es[i].mapping)->0;
        holds_pages(
            b[a.len() + cows(es, i)],
            inherited((a[o as int]->0).pager),
            (es[i].hi - es[i].lo) as u64,
            no_pages()(i),
        )
    }) by {
        lemma_cows_bound(es, i, n);
        if i < n {
            let at = a.len() + cows(es, i);
            assert(m[at] is Some);
            if !is_cow(es[n]) {
                assert(b[at] == stepped(m[at], handle(es[n], at), 0));
                assert(handle(es[n], at) == 0);
            }
        }
    }
}

/// Give the child an entry for each of the parent's.
#[verifier::rlimit(40)]
fn give_entries(parent: &VmMap, child: &mut VmMap, store: &mut VmObjects)
    requires
        parent.wf(),
        old(child).wf(),
        old(child).entries().len() == 0,
        old(store).wf(),
        whole_pages(parent.entries()),
        backed(parent.entries(), old(store)),
        forall|id: int| #[trigger]
            refs_of(old(store), id) + handles(parent.entries(), id) < usize::MAX,
    ensures
        final(child).wf(),
        final(child).pmap == old(child).pmap,
        final(child).timestamp == raised(
            old(child).timestamp,
            parent.entries().len() as int,
        ),
        final(store).wf(),
        final(store).pagers == old(store).pagers,
        ({
            let es = parent.entries();
            let a = old(store).objects@;
            &&& final(child).entries() == deep_entries(es, a.len() as int, es.len() as int)
            &&& deep_objects(a, final(store).objects@, es, es.len() as int, no_pages())
        }),
{
    let ghost es = parent.entries();
    let ghost a = store.objects@;
    let ghost base = a.len() as int;
    let all = parent.copy_entries();
    let mut i: usize = 0;
    proof {
        reveal(deep_objects);
        assert(child.entries() =~= deep_entries(es, base, 0));
        assert forall|id: int| 0 <= id < a.len() implies #[trigger] a[id] == stepped(
            a[id],
            shared_handles(es.take(0), id),
            0,
        ) by {
            lemma_cow_handles(es, id, 0);
        }
    }
    while i < all.len()
        invariant
            i <= all@.len(),
            all@ == es,
            es == parent.entries(),
            parent.wf(),
            a == old(store).objects@,
            base == a.len(),
            child.wf(),
            child.pmap == old(child).pmap,
            child.timestamp == raised(old(child).timestamp, i as int),
            store.wf(),
            old(store).wf(),
            store.pagers == old(store).pagers,
            whole_pages(es),
            backed(es, old(store)),
            forall|id: int| #[trigger] refs_of(old(store), id) + handles(es, id) < usize::MAX,
            child.entries() == deep_entries(es, base, i as int),
            deep_objects(a, store.objects@, es, i as int, no_pages()),
        decreases all@.len() - i,
    {
        let e = all[i];
        let ghost m = store.objects@;
        let ghost before = child.entries();
        proof {
            lemma_deep_room(es, base, i as int);
            lemma_known(a, m, es, i as int, old(store));
        }
        let mapping = match e.mapping.object() {
            None => e.mapping,
            Some(o) => {
                assert(live(m, o as int));
                if e.protection.contains(MapPerm::W()) {
                    let pager = match store.get(o).pager {
                        Some(PagerRef::Vnode(v)) => Some(PagerRef::Vnode(v)),
                        _ => Some(PagerRef::Anon),
                    };
                    let fresh = store.create(e.size(), pager);
                    e.mapping.with_object(fresh)
                } else {
                    store.retain(o);
                    e.mapping
                }
            },
        };
        let part = VmMapEntry::new(e.start(), e.end(), mapping, e.protection);
        proof {
            lemma_deep_len(a, m, es, i as int);
            assert(part == deep_part(es, base, i as int));
            if !is_cow(e) {
                assert forall|id: int| 0 <= id < m.len() implies #[trigger] store.objects@[id]
                    == stepped(m[id], handle(e, id), 0) by {
                    if object_of(e.mapping) is Some {
                        let o = object_of(e.mapping)->0;
                        assert(m[o as int] is Some);
                    }
                }
            }
            lemma_deep_objects_step(a, m, store.objects@, es, i as int);
        }
        let _ = child.insert_entry(part);
        proof {
            assert(child.entries() =~= deep_entries(es, base, i + 1));
        }
        i += 1;
    }
}

/// There is room behind the child's entries for the next one.
proof fn lemma_deep_room(es: Entries, base: int, n: int)
    requires
        ordered(es),
        whole_pages(es),
        0 <= n < es.len(),
    ensures
        insertable(deep_entries(es, base, n), deep_part(es, base, n)),
        rank(deep_entries(es, base, n), es[n].lo as int) == n,
{
    let ces = deep_entries(es, base, n);
    assert(es[n].lo() < es[n].hi());
    assert forall|x: int| 0 <= x < ces.len() implies !meets(
        #[trigger] ces[x],
        es[n].lo as int,
        es[n].hi as int,
    ) by {
        assert(es[x].hi() <= es[n].lo());
        assert(es[x].lo() < es[x].hi());
    }
    if n > 0 {
        assert(ces.last() == deep_part(es, base, n - 1));
        assert(es[n - 1].hi() <= es[n].lo());
        assert(es[n - 1].lo() < es[n - 1].hi());
    }
}

proof fn lemma_deep_len(a: Objects<PageRef>, m: Objects<PageRef>, es: Entries, n: int)
    requires
        deep_objects(a, m, es, n, no_pages()),
    ensures
        m.len() == a.len() + cows(es, n),
{
    reveal(deep_objects);
}

/// The object of the next entry is still there, with room for a handle.
proof fn lemma_known(
    a: Objects<PageRef>,
    m: Objects<PageRef>,
    es: Entries,
    n: int,
    store: &VmObjects,
)
    requires
        store.objects@ == a,
        backed(es, store),
        deep_objects(a, m, es, n, no_pages()),
        0 <= n < es.len(),
        forall|id: int| #[trigger] refs_of(store, id) + handles(es, id) < usize::MAX,
    ensures
        forall|id: int| #[trigger] live(a, id) ==> (a[id]->0).refs + handles(es, id) <= usize::MAX,
        object_of(es[n].mapping) matches Some(o) ==> live(a, o as int) && live(m, o as int) && (
        m[o as int]->0).refs < usize::MAX && (m[o as int]->0).pager == (a[o as int]->0).pager,
{
    reveal(deep_objects);
    lemma_cows_bound(es, 0, n);
    assert forall|id: int| #[trigger] live(a, id) implies (a[id]->0).refs + handles(es, id)
        <= usize::MAX by {
        assert(refs_of(store, id) + handles(es, id) < usize::MAX);
    }
    if object_of(es[n].mapping) is Some {
        let o = object_of(es[n].mapping)->0 as int;
        assert(live(a, o));
        assert(m[o] == stepped(a[o], shared_handles(es.take(n), o), 0));
        lemma_cow_handles(es, o, n);
        assert(refs_of(store, o) + handles(es, o) < usize::MAX);
    }
}

/// Index of the page of `va` in the object behind the entry.
pub open spec fn index_in(e: VmMapEntry, va: int) -> u64 {
    ((offset_of(e.mapping) + (va - e.lo)) / 4096) as u64
}

/// The pages of an object after the first `m` copies were put into it.
pub open spec fn copied_pages(cs: Seq<PageCopy>, m: int, e: VmMapEntry, before: Map<u64, PageRef>) -> Map<
    u64,
    PageRef,
>
    decreases m,
{
    if m <= 0 {
        before
    } else {
        copied_pages(cs, m - 1, e, before).insert(
            index_in(e, cs[m - 1].va as int),
            PageRef { pa: cs[m - 1].to },
        )
    }
}

/// The translation of `v` after the first `m` copies were entered.
pub open spec fn copied_pte(cs: Seq<PageCopy>, m: int, perm: MapPerm, before: u64, v: int) -> u64
    decreases m,
{
    if m <= 0 {
        before
    } else if same_page(cs[m - 1].va as int, v) {
        entry_of(cs[m - 1].to.0, enter_flags(perm, false))
    } else {
        copied_pte(cs, m - 1, perm, before, v)
    }
}

/// The addresses of copies.
pub open spec fn copy_vas(cs: Seq<PageCopy>) -> Seq<u64> {
    Seq::new(cs.len(), |x: int| cs[x].va)
}

/// The copies are of pages that the parent has mapped, into frames that were free and are so
/// no longer, each of them once.
pub open spec fn sound_copies(
    parent: &Pmap,
    pool0: &FramePool,
    pool1: &FramePool,
    cs: Seq<PageCopy>,
) -> bool {
    &&& forall|x: int|
        0 <= x < cs.len() ==> maps(parent.entry_at((#[trigger] cs[x]).va as int)) && cs[x].from.0
            == addr_of(parent.entry_at(cs[x].va as int)) + cs[x].va % 4096
    &&& forall|x: int|
        0 <= x < cs.len() ==> pool0.pool_free(pfn((#[trigger] cs[x]).to)) && !pool1.pool_free(
            pfn(cs[x].to),
        )
    &&& forall|x: int, y: int|
        0 <= x < y < cs.len() ==> pfn((#[trigger] cs[x]).to) != pfn((#[trigger] cs[y]).to)
}

/// Copies of other entries before these.
proof fn lemma_fold_stable(
    cs: Seq<PageCopy>,
    ds: Seq<PageCopy>,
    m: int,
    e: VmMapEntry,
    pages: Map<u64, PageRef>,
)
    requires
        0 <= m <= cs.len(),
        m <= ds.len(),
        forall|x: int| 0 <= x < m ==> cs[x] == ds[x],
    ensures
        copied_pages(cs, m, e, pages) == copied_pages(ds, m, e, pages),
        forall|perm: MapPerm, raw: u64, v: int| #[trigger]
            copied_pte(cs, m, perm, raw, v) == copied_pte(ds, m, perm, raw, v),
    decreases m,
{
    if m > 0 {
        lemma_fold_stable(cs, ds, m - 1, e, pages);
        assert forall|perm: MapPerm, raw: u64, v: int| #[trigger]
            copied_pte(cs, m, perm, raw, v) == copied_pte(ds, m, perm, raw, v) by {
            assert(copied_pte(cs, m - 1, perm, raw, v) == copied_pte(ds, m - 1, perm, raw, v));
        }
    }
}

/// What copying the page of `va` does: where the parent maps it, a frame is taken for the copy,
/// and the copy is entered into the child, unless no table could be had for it.
pub open spec fn page_copied(
    parent: &Pmap,
    before: &Pmap,
    after: &Pmap,
    pool0: &FramePool,
    pool1: &FramePool,
    cpu: int,
    va: int,
    prot: MapPerm,
    out: Option<PageCopy>,
) -> bool {
    if maps(parent.entry_at(va)) {
        let f = next_frame(pool0.buddy.lists(), pool0.stacks(), cpu);
        exists|mid: FramePool| #[trigger]
            frame_allocated(pool0, &mid, cpu, PageRole::UserAnon, f) && match f {
                Some(to) => {
                    let raw = entry_of(to.0, enter_flags(prot, false));
                    let from = (addr_of(parent.entry_at(va)) + va % 4096) as u64;
                    &&& out == Some(PageCopy { va: va as u64, from: PhysAddr(from), to })
                    &&& entered(before, after, &mid, pool1, cpu, va, raw, true) || entered(
                        before,
                        after,
                        &mid,
                        pool1,
                        cpu,
                        va,
                        raw,
                        false,
                    )
                },
                None => out is None && *after == *before && *pool1 == mid,
            }
    } else {
        out is None && *after == *before && *pool1 == *pool0
    }
}

/// The copies that came of the steps.
pub open spec fn made(outs: Seq<Option<PageCopy>>) -> Seq<PageCopy>
    decreases outs.len(),
{
    if outs.len() == 0 {
        Seq::empty()
    } else {
        match outs.last() {
            Some(c) => made(outs.drop_last()).push(c),
            None => made(outs.drop_last()),
        }
    }
}

/// The pages from `s` to `e` were copied one after the other.
pub open spec fn copy_steps(
    parent: &Pmap,
    spaces: Seq<Pmap>,
    pools: Seq<FramePool>,
    outs: Seq<Option<PageCopy>>,
    cpu: int,
    s: int,
    e: int,
    prot: MapPerm,
) -> bool {
    let n = outs.len() as int;
    &&& spaces.len() == n + 1
    &&& pools.len() == n + 1
    &&& forall|j: int|
        0 <= j < n ==> #[trigger] step_addr(s, j) < e && page_copied(
            parent,
            &spaces[j],
            &spaces[j + 1],
            &pools[j],
            &pools[j + 1],
            cpu,
            step_addr(s, j),
            prot,
            outs[j],
        )
    &&& step_addr(s, n) >= e
}

/// What copying the pages of the entry, one after the other, does to the child's translations and
/// to the pool, and which copies come of it.
pub open spec fn copied_in_turn(
    parent: &Pmap,
    before: &Pmap,
    after: &Pmap,
    pool0: &FramePool,
    pool1: &FramePool,
    cpu: int,
    e: VmMapEntry,
    cs: Seq<PageCopy>,
) -> bool {
    exists|spaces: Seq<Pmap>, pools: Seq<FramePool>, outs: Seq<Option<PageCopy>>| #[trigger]
        copy_steps(parent, spaces, pools, outs, cpu, e.lo as int, e.hi as int, e.protection)
            && spaces[0] == *before && spaces.last() == *after && pools[0] == *pool0
            && pools.last() == *pool1 && cs == made(outs)
}

/// Copy every page that the parent has mapped in the entry into the object at `object`, and
/// enter the copies into the child.  Pages for which no frame is left are left out.
#[verifier::rlimit(60)]
fn copy_pages(
    parent: &Pmap,
    child: &mut Pmap,
    store: &mut VmObjects,
    pool: &mut FramePool,
    cpu: usize,
    e: &VmMapEntry,
    object: usize,
) -> (r: Vec<PageCopy>)
    requires
        parent.wf(),
        old(child).wf(),
        old(store).wf(),
        old(store).has(object as int),
        old(pool).inv(),
        pool_holdable(old(pool)),
        cpu < NUM_MAGAZINES,
        e.offsets_fit(),
        e.hi + 4095 <= u64::MAX,
        old(child).stats.wired_count < usize::MAX,
    ensures
        final(child).wf(),
        final(store).wf(),
        final(store).pagers == old(store).pagers,
        final(pool).inv(),
        pool_holdable(final(pool)),
        final(child).same_identity(old(child)),
        final(child).stats.wired_count == old(child).stats.wired_count,
        forall|p: int| #[trigger] final(pool).pool_free(p) ==> old(pool).pool_free(p),
        forall|v: int| #[trigger] final(child).root.large_at(v) == old(child).root.large_at(v),
        sound_copies(parent, old(pool), final(pool), r@),
        (exists|p: int| #[trigger] final(pool).pool_free(p)) ==> copy_vas(r@) == mapped_vas(
            parent,
            e.lo as int,
            e.hi as int,
        ),
        ({
            let o = old(store).obj(object as int);
            let n = final(store).obj(object as int);
            &&& final(store).objects@ == old(store).objects@.update(
                object as int,
                final(store).objects@[object as int],
            )
            &&& final(store).has(object as int)
            &&& n.pages@ == copied_pages(r@, r@.len() as int, *e, o.pages@)
            &&& n == (Object { pages: n.pages, resident_count: n.resident_count, ..o })
        }),
        copied_in_turn(
            parent,
            old(child),
            final(child),
            old(pool),
            final(pool),
            cpu as int,
            *e,
            r@,
        ),
        all_enter(final(child), final(pool), e.lo as int, e.hi as int) ==> forall|v: int| #[trigger]
            final(child).entry_at(v) == copied_pte(
                r@,
                r@.len() as int,
                e.protection,
                old(child).entry_at(v),
                v,
            ),
{
    let mut r: Vec<PageCopy> = Vec::new();
    let ghost lo = e.lo as int;
    let ghost hi = e.hi as int;
    let ghost o0 = store.obj(object as int);
    let ghost a = store.objects@;
    let mut va: u64 = e.lo;
    let ghost mut k: int = 0;
    let ghost mut spaces = seq![*child];
    let ghost mut pools = seq![*pool];
    let ghost mut outs: Seq<Option<PageCopy>> = Seq::empty();
    proof {
        assert(copy_vas(r@) =~= Seq::<u64>::empty());
        assert(made(outs) =~= r@);
        assert(copy_vas(r@) + mapped_vas(parent, lo, hi) =~= mapped_vas(parent, lo, hi));
        assert(a =~= a.update(object as int, a[object as int]));
    }
    while va < e.hi
        invariant
            parent.wf(),
            child.wf(),
            store.wf(),
            store.has(object as int),
            pool.inv(),
            pool_holdable(pool),
            cpu < NUM_MAGAZINES,
            e.offsets_fit(),
            e.hi + 4095 <= u64::MAX,
            e.lo <= va,
            lo == e.lo,
            hi == e.hi,
            k >= 0,
            va == step_addr(lo, k),
            spaces.len() == k + 1,
            pools.len() == k + 1,
            outs.len() == k,
            spaces[0] == *old(child),
            pools[0] == *old(pool),
            spaces[k] == *child,
            pools[k] == *pool,
            r@ == made(outs),
            forall|j: int|
                0 <= j < k ==> #[trigger] step_addr(lo, j) < hi && page_copied(
                    parent,
                    &spaces[j],
                    &spaces[j + 1],
                    &pools[j],
                    &pools[j + 1],
                    cpu as int,
                    step_addr(lo, j),
                    e.protection,
                    outs[j],
                ),
            child.stats.wired_count == old(child).stats.wired_count,
            old(child).stats.wired_count < usize::MAX,
            store.pagers == old(store).pagers,
            child.same_identity(old(child)),
            forall|p: int| #[trigger] pool.pool_free(p) ==> old(pool).pool_free(p),
            forall|v: int| #[trigger] child.root.large_at(v) == old(child).root.large_at(v),
            a == old(store).objects@,
            o0 == old(store).obj(object as int),
            0 <= object < a.len(),
            store.objects@ == a.update(object as int, store.objects@[object as int]),
            store.obj(object as int).pages@ == copied_pages(r@, r@.len() as int, *e, o0.pages@),
            store.obj(object as int) == (Object {
                pages: store.obj(object as int).pages,
                resident_count: store.obj(object as int).resident_count,
                ..o0
            }),
            sound_copies(parent, old(pool), pool, r@),
            (exists|p: int| #[trigger] pool.pool_free(p)) ==> copy_vas(r@) + mapped_vas(
                parent,
                va as int,
                hi,
            ) == mapped_vas(parent, lo, hi),
            all_enter(child, pool, lo, hi) ==> forall|v: int| #[trigger]
                child.entry_at(v) == copied_pte(
                    r@,
                    r@.len() as int,
                    e.protection,
                    old(child).entry_at(v),
                    v,
                ),
        decreases (if va < e.hi { e.hi - va } else { 0 }),
    {
        let ghost before = *child;
        let ghost pool0 = *pool;
        let ghost store0 = *store;
        let ghost cs = r@;
        let ghost cur = va as int;
        let ghost mut out: Option<PageCopy> = None;
        assert(touches(lo, hi, cur)) by {
            assert(step_addr(lo, k) < hi && same_page(step_addr(lo, k), cur));
        }
        if let Some(from) = pmap_extract(parent, VirtAddr::new(va)) {
            if let Some(to) = alloc_raw_frame_sync(pool, cpu, PageRole::UserAnon) {
                let ghost pool1 = *pool;
                proof {
                    assert(frame_allocated(
                        &pool0,
                        &pool1,
                        cpu as int,
                        PageRole::UserAnon,
                        Some(to),
                    ));
                    assert forall|p: int| #[trigger] pool.pool_free(p) implies 0 <= p
                        < 0x1000_0000_0000 by {
                        assert(pool0.pool_free(p));
                    }
                }
                let index = VObjIndex::from_bytes_floor(e.mapping.offset() + (va - e.lo));
                let _ = VmObject::insert_page(store, object, index, PageRef::new(to));
                let _ = pmap_enter(child, pool, cpu, VirtAddr::new(va), to, e.protection, false);
                let c = PageCopy { va, from, to };
                r.push(c);
                proof {
                    out = Some(c);
                    let n = cs.len() as int;
                    lemma_fold_stable(cs, r@, n, *e, o0.pages@);
                    assert(copied_pages(r@, n + 1, *e, o0.pages@) == copied_pages(
                        r@,
                        n,
                        *e,
                        o0.pages@,
                    ).insert(index_in(*e, cur), PageRef { pa: to }));
                    assert(store.objects@ =~= a.update(object as int, store.objects@[object as int]));
                    assert(copy_vas(r@) =~= copy_vas(cs).push(va));
                    lemma_more_copies(parent, old(pool), &pool0, &pool1, pool, cs, c);
                    if exists|p: int| #[trigger] pool.pool_free(p) {
                        let p = choose|p: int| #[trigger] pool.pool_free(p);
                        assert(pool1.pool_free(p));
                        assert(pool0.pool_free(p));
                        assert(copy_vas(r@) + mapped_vas(parent, cur + 4096, hi) =~= copy_vas(cs) + (
                        seq![va] + mapped_vas(parent, cur + 4096, hi)));
                    }
                    if all_enter(child, pool, lo, hi) {
                        let p = choose|p: int| #[trigger] pool.pool_free(p);
                        assert(pool1.pool_free(p));
                        assert(pool0.pool_free(p));
                        assert(all_enter(&before, &pool0, lo, hi)) by {
                            assert forall|v: int| touches(lo, hi, v) implies !#[trigger]
                                before.root.large_at(v) by {
                                assert(!child.root.large_at(v));
                            }
                        }
                        assert(!before.root.large_at(cur)) by {
                            assert(!child.root.large_at(cur));
                        }
                        assert forall|v: int| #[trigger]
                            child.entry_at(v) == copied_pte(
                                r@,
                                n + 1,
                                e.protection,
                                old(child).entry_at(v),
                                v,
                            ) by {
                            assert(before.entry_at(v) == copied_pte(
                                cs,
                                n,
                                e.protection,
                                old(child).entry_at(v),
                                v,
                            ));
                            assert(copied_pte(cs, n, e.protection, old(child).entry_at(v), v)
                                == copied_pte(r@, n, e.protection, old(child).entry_at(v), v));
                        }
                    }
                }
            } else {
                proof {
                    let now = *pool;
                    assert(frame_allocated(&pool0, &now, cpu as int, PageRole::UserAnon, None));
                    assert(forall|p: int| !#[trigger] pool.pool_free(p));
                    lemma_fewer_free(parent, old(pool), &pool0, pool, cs);
                }
            }
        } else {
            assert(copy_vas(cs) + mapped_vas(parent, cur + 4096, hi) =~= copy_vas(cs) + (Seq::empty()
                + mapped_vas(parent, cur + 4096, hi)));
        }
        proof {
            assert(page_copied(
                parent,
                &before,
                child,
                &pool0,
                pool,
                cpu as int,
                cur,
                e.protection,
                out,
            ));
            let (ss, qs, os) = (spaces, pools, outs);
            spaces = spaces.push(*child);
            pools = pools.push(*pool);
            outs = outs.push(out);
            assert(outs.drop_last() =~= os);
            assert forall|j: int| 0 <= j < k + 1 implies #[trigger] step_addr(lo, j) < hi
                && page_copied(
                parent,
                &spaces[j],
                &spaces[j + 1],
                &pools[j],
                &pools[j + 1],
                cpu as int,
                step_addr(lo, j),
                e.protection,
                outs[j],
            ) by {
                if j < k {
                    assert(spaces[j] == ss[j] && spaces[j + 1] == ss[j + 1]);
                    assert(pools[j] == qs[j] && pools[j + 1] == qs[j + 1]);
                    assert(outs[j] == os[j]);
                }
            }
            k = k + 1;
        }
        va = va + PAGE_SIZE;
    }
    assert(copy_vas(r@) + Seq::<u64>::empty() =~= copy_vas(r@));
    assert(copy_steps(parent, spaces, pools, outs, cpu as int, lo, hi, e.protection));
    r
}

/// Copies stay sound while frames are taken.
proof fn lemma_fewer_free(
    parent: &Pmap,
    first: &FramePool,
    before: &FramePool,
    after: &FramePool,
    cs: Seq<PageCopy>,
)
    requires
        sound_copies(parent, first, before, cs),
        forall|p: int| #[trigger] after.pool_free(p) ==> before.pool_free(p),
    ensures
        sound_copies(parent, first, after, cs),
{
    assert forall|x: int| 0 <= x < cs.len() implies first.pool_free(pfn((#[trigger] cs[x]).to))
        && !after.pool_free(pfn(cs[x].to)) by {
        assert(!before.pool_free(pfn(cs[x].to)));
    }
}

/// One copy more.
proof fn lemma_more_copies(
    parent: &Pmap,
    first: &FramePool,
    before: &FramePool,
    taken: &FramePool,
    after: &FramePool,
    cs: Seq<PageCopy>,
    c: PageCopy,
)
    requires
        sound_copies(parent, first, before, cs),
        maps(parent.entry_at(c.va as int)),
        c.from.0 == addr_of(parent.entry_at(c.va as int)) + c.va % 4096,
        before.pool_free(pfn(c.to)),
        first.pool_free(pfn(c.to)),
        forall|p: int| #[trigger]
            taken.pool_free(p) <==> before.pool_free(p) && p != pfn(c.to),
        forall|p: int| #[trigger] after.pool_free(p) ==> taken.pool_free(p),
    ensures
        sound_copies(parent, first, after, cs.push(c)),
{
    let ds = cs.push(c);
    assert forall|x: int| 0 <= x < ds.len() implies first.pool_free(pfn((#[trigger] ds[x]).to))
        && !after.pool_free(pfn(ds[x].to)) by {
        if x < cs.len() {
            assert(ds[x] == cs[x]);
            assert(!before.pool_free(pfn(cs[x].to)));
            assert(after.pool_free(pfn(cs[x].to)) ==> taken.pool_free(pfn(cs[x].to)));
        } else {
            assert(!taken.pool_free(pfn(c.to)));
        }
    }
    assert forall|x: int, y: int| 0 <= x < y < ds.len() implies pfn((#[trigger] ds[x]).to) != pfn(
        (#[trigger] ds[y]).to,
    ) by {
        assert(ds[x] == cs[x]);
        if y == cs.len() {
            assert(!before.pool_free(pfn(cs[x].to)));
        }
    }
    assert forall|x: int| 0 <= x < ds.len() implies maps(
        parent.entry_at((#[trigger] ds[x]).va as int),
    ) && ds[x].from.0 == addr_of(parent.entry_at(ds[x].va as int)) + ds[x].va % 4096 by {
        if x < cs.len() {
            assert(ds[x] == cs[x]);
        }
    }
}

/// The copies for each entry.
pub open spec fn lists(r: Seq<Vec<PageCopy>>) -> Seq<Seq<PageCopy>> {
    Seq::new(r.len(), |i: int| r[i]@)
}

/// The pages that the copies for each entry make up.
pub open spec fn pages_of(es: Entries, rs: Seq<Seq<PageCopy>>) -> spec_fn(int) -> Map<u64, PageRef> {
    |i: int|
        if 0 <= i < rs.len() {
            copied_pages(rs[i], rs[i].len() as int, es[i], Map::empty())
        } else {
            Map::empty()
        }
}

/// The child's translation of `v` after the first `n` entries, the parent's being `raw` and
/// the child's own having been `own`.
pub open spec fn deep_pte(
    es: Entries,
    rs: Seq<Seq<PageCopy>>,
    n: int,
    raw: u64,
    own: u64,
    v: int,
) -> u64
    decreases n,
{
    if n <= 0 {
        own
    } else {
        let prev = deep_pte(es, rs, n - 1, raw, own, v);
        let e = es[n - 1];
        if is_cow(e) {
            copied_pte(rs[n - 1], rs[n - 1].len() as int, e.protection, prev, v)
        } else if object_of(e.mapping) is Some && touches(page_floor(e.lo as int), e.hi as int, v) {
            shared(prev, raw, e.protection)
        } else {
            prev
        }
    }
}

/// What the copies for the first `n` entries are.
pub open spec fn copies_done(
    parent: &Pmap,
    pool0: &FramePool,
    pool1: &FramePool,
    es: Entries,
    rs: Seq<Seq<PageCopy>>,
    n: int,
) -> bool {
    &&& forall|i: int| 0 <= i < n ==> sound_copies(parent, pool0, pool1, #[trigger] rs[i])
    &&& forall|i: int, j: int, x: int, y: int|
        0 <= i < j < n && 0 <= x < rs[i].len() && 0 <= y < rs[j].len() ==> pfn(
            (#[trigger] rs[i][x]).to,
        ) != pfn((#[trigger] rs[j][y]).to)
    &&& forall|i: int|
        0 <= i < n && !is_cow(es[i]) ==> (#[trigger] rs[i]).len() == 0
    &&& (exists|p: int| #[trigger] pool1.pool_free(p)) ==> forall|i: int|
        0 <= i < n && is_cow(es[i]) ==> copy_vas(#[trigger] rs[i]) == mapped_vas(
            parent,
            es[i].lo as int,
            es[i].hi as int,
        )
}

proof fn lemma_deep_pte_stable(
    es: Entries,
    rs: Seq<Seq<PageCopy>>,
    ts: Seq<Seq<PageCopy>>,
    n: int,
    raw: u64,
    own: u64,
    v: int,
)
    requires
        0 <= n <= rs.len(),
        n <= ts.len(),
        forall|i: int| 0 <= i < n ==> rs[i] == ts[i],
    ensures
        deep_pte(es, rs, n, raw, own, v) == deep_pte(es, ts, n, raw, own, v),
    decreases n,
{
    if n > 0 {
        lemma_deep_pte_stable(es, rs, ts, n - 1, raw, own, v);
    }
}

/// Pages put into the object of one entry.
proof fn lemma_pages_put(
    a: Objects<PageRef>,
    m: Objects<PageRef>,
    b: Objects<PageRef>,
    es: Entries,
    n: int,
    rs: Seq<Seq<PageCopy>>,
    ts: Seq<Seq<PageCopy>>,
)
    requires
        0 <= n < es.len(),
        rs.len() == n,
        ts.len() == n + 1,
        forall|i: int| 0 <= i < n ==> rs[i] == ts[i],
        deep_objects(a, m, es, es.len() as int, pages_of(es, rs)),
        !is_cow(es[n]) ==> b == m && ts[n].len() == 0,
        is_cow(es[n]) ==> {
            let at = a.len() + cows(es, n);
            &&& b == m.update(at, b[at])
            &&& b[at] is Some
            &&& (b[at]->0).pages@ == copied_pages(
                ts[n],
                ts[n].len() as int,
                es[n],
                (m[at]->0).pages@,
            )
            &&& b[at]->0 == (Object {
                pages: (b[at]->0).pages,
                resident_count: (b[at]->0).resident_count,
                ..m[at]->0
            })
        },
    ensures
        deep_objects(a, b, es, es.len() as int, pages_of(es, ts)),
{
    reveal(deep_objects);
    let all = es.len() as int;
    lemma_cows_bound(es, 0, n);
    lemma_cows_bound(es, n, all);
    assert forall|i: int| 0 <= i < all && is_cow(#[trigger] es[i]) implies ({
        let o = object_of(es[i].mapping)->0;
        holds_pages(
            b[a.len() + cows(es, i)],
            inherited((a[o as int]->0).pager),
            (es[i].hi - es[i].lo) as u64,
            pages_of(es, ts)(i),
        )
    }) by {
        lemma_cows_bound(es, i, all);
        let o = object_of(es[i].mapping)->0;
        assert(holds_pages(
            m[a.len() + cows(es, i)],
            inherited((a[o as int]->0).pager),
            (es[i].hi - es[i].lo) as u64,
            pages_of(es, rs)(i),
        ));
        if i < n {
            lemma_cows_bound(es, i, n);
        } else if n < i {
            lemma_cows_bound(es, n, i);
        }
    }
}

proof fn lemma_no_copies(
    a: Objects<PageRef>,
    b: Objects<PageRef>,
    es: Entries,
    rs: Seq<Seq<PageCopy>>,
)
    requires
        deep_objects(a, b, es, es.len() as int, no_pages()),
        rs.len() == 0,
    ensures
        deep_objects(a, b, es, es.len() as int, pages_of(es, rs)),
{
    reveal(deep_objects);
    assert forall|i: int| #[trigger] pages_of(es, rs)(i) == no_pages()(i) by {}
}

/// The object of an entry that can be written.
proof fn lemma_own_object(
    a: Objects<PageRef>,
    m: Objects<PageRef>,
    es: Entries,
    n: int,
    rs: Seq<Seq<PageCopy>>,
)
    requires
        0 <= n < es.len(),
        rs.len() == n,
        is_cow(es[n]),
        deep_objects(a, m, es, es.len() as int, pages_of(es, rs)),
    ensures
        ({
            let at = a.len() + cows(es, n);
            &&& 0 <= at < m.len()
            &&& live(m, at)
            &&& (m[at]->0).pages@ == Map::<u64, PageRef>::empty()
        }),
{
    reveal(deep_objects);
    lemma_cows_bound(es, n, es.len() as int);
    lemma_cows_bound(es, 0, n);
}

/// One entry more.
proof fn lemma_copies_step(
    parent: &Pmap,
    first: &FramePool,
    before: &FramePool,
    after: &FramePool,
    es: Entries,
    rs: Seq<Seq<PageCopy>>,
    ts: Seq<Seq<PageCopy>>,
    n: int,
)
    requires
        0 <= n < es.len(),
        rs.len() == n,
        ts.len() == n + 1,
        forall|i: int| 0 <= i < n ==> rs[i] == ts[i],
        copies_done(parent, first, before, es, rs, n),
        forall|p: int| #[trigger] before.pool_free(p) ==> first.pool_free(p),
        forall|p: int| #[trigger] after.pool_free(p) ==> before.pool_free(p),
        sound_copies(parent, before, after, ts[n]),
        !is_cow(es[n]) ==> ts[n].len() == 0,
        is_cow(es[n]) && (exists|p: int| #[trigger] after.pool_free(p)) ==> copy_vas(ts[n])
            == mapped_vas(parent, es[n].lo as int, es[n].hi as int),
    ensures
        copies_done(parent, first, after, es, ts, n + 1),
{
    assert forall|i: int| 0 <= i < n + 1 implies sound_copies(
        parent,
        first,
        after,
        #[trigger] ts[i],
    ) by {
        if i < n {
            assert(rs[i] == ts[i]);
            lemma_fewer_free(parent, first, before, after, rs[i]);
        }
    }
    assert forall|i: int, j: int, x: int, y: int|
        0 <= i < j < n + 1 && 0 <= x < ts[i].len() && 0 <= y < ts[j].len() implies pfn(
        (#[trigger] ts[i][x]).to,
    ) != pfn((#[trigger] ts[j][y]).to) by {
        assert(rs[i] == ts[i]);
        assert(sound_copies(parent, first, before, rs[i]));
        assert(!before.pool_free(pfn(rs[i][x].to)));
        if j < n {
            assert(rs[j] == ts[j]);
            assert(pfn(rs[i][x].to) != pfn(rs[j][y].to));
        } else {
            assert(before.pool_free(pfn(ts[n][y].to)));
        }
    }
    if exists|p: int| #[trigger] after.pool_free(p) {
        let p = choose|p: int| #[trigger] after.pool_free(p);
        assert(before.pool_free(p));
        assert forall|i: int| 0 <= i < n + 1 && is_cow(es[i]) implies copy_vas(#[trigger] ts[i])
            == mapped_vas(parent, es[i].lo as int, es[i].hi as int) by {
            if i < n {
                assert(rs[i] == ts[i]);
            }
        }
    }
}

/// What copying the entry does to the child's translations and to the pool, and which copies come
/// of it.
pub open spec fn deep_step(
    parent: &Pmap,
    before: &Pmap,
    after: &Pmap,
    pool0: &FramePool,
    pool1: &FramePool,
    cpu: int,
    e: VmMapEntry,
    cs: Seq<PageCopy>,
) -> bool {
    if is_cow(e) {
        copied_in_turn(parent, before, after, pool0, pool1, cpu, e, cs)
    } else if object_of(e.mapping) is Some {
        &&& cs.len() == 0
        &&& shared_in_turn(
            parent,
            before,
            after,
            pool0,
            pool1,
            cpu,
            page_floor(e.lo as int),
            e.hi as int,
            e.protection,
        )
    } else {
        cs.len() == 0 && *after == *before && *pool1 == *pool0
    }
}

/// The first `n` entries were copied one after the other.
pub open spec fn deep_steps(
    parent: &Pmap,
    spaces: Seq<Pmap>,
    pools: Seq<FramePool>,
    cpu: int,
    es: Entries,
    rs: Seq<Seq<PageCopy>>,
    n: int,
) -> bool {
    &&& spaces.len() == n + 1
    &&& pools.len() == n + 1
    &&& forall|i: int|
        0 <= i < n ==> deep_step(
            parent,
            &spaces[i],
            &spaces[i + 1],
            &pools[i],
            &pools[i + 1],
            cpu,
            #[trigger] es[i],
            rs[i],
        )
}

/// What copying the first `n` entries, one after the other, does to the child's translations and
/// to the pool.
pub open spec fn deep_in_turn(
    parent: &Pmap,
    before: &Pmap,
    after: &Pmap,
    pool0: &FramePool,
    pool1: &FramePool,
    cpu: int,
    es: Entries,
    rs: Seq<Seq<PageCopy>>,
    n: int,
) -> bool {
    exists|spaces: Seq<Pmap>, pools: Seq<FramePool>| #[trigger]
        deep_steps(parent, spaces, pools, cpu, es, rs, n) && spaces[0] == *before && spaces[n]
            == *after && pools[0] == *pool0 && pools[n] == *pool1
}

/// Offsets of the pages that are copied do not overflow.
pub open spec fn copies_fit(es: Entries) -> bool {
    forall|i: int| 0 <= i < es.len() && is_cow(#[trigger] es[i]) ==> es[i].offsets_fit()
}

/// Give a child, which has no memory yet, a copy of the memory of its parent.  Returns for
/// each entry the pages that are to be copied.
#[verifier::rlimit(60)]
pub fn deep_copy_pages(
    parent: &VmMap,
    child: &mut VmMap,
    store: &mut VmObjects,
    pool: &mut FramePool,
    cpu: usize,
) -> (r: Vec<Vec<PageCopy>>)
    requires
        parent.wf(),
        old(child).wf(),
        old(child).entries().len() == 0,
        old(store).wf(),
        whole_pages(parent.entries()),
        copies_fit(parent.entries()),
        backed(parent.entries(), old(store)),
        forall|id: int| #[trigger]
            refs_of(old(store), id) + handles(parent.entries(), id) < usize::MAX,
        old(pool).inv(),
        pool_holdable(old(pool)),
        cpu < NUM_MAGAZINES,
        old(child).pmap.stats.wired_count < usize::MAX,
    ensures
        final(child).wf(),
        final(store).wf(),
        final(store).pagers == old(store).pagers,
        final(pool).inv(),
        pool_holdable(final(pool)),
        final(child).pmap.same_identity(&old(child).pmap),
        final(child).pmap.stats.wired_count == old(child).pmap.stats.wired_count,
        final(child).timestamp == raised(
            old(child).timestamp,
            parent.entries().len() as int,
        ),
        forall|p: int| #[trigger] final(pool).pool_free(p) ==> old(pool).pool_free(p),
        r@.len() == parent.entries().len(),
        ({
            let es = parent.entries();
            let a = old(store).objects@;
            let n = es.len() as int;
            &&& final(child).entries() == deep_entries(es, a.len() as int, n)
            &&& deep_objects(a, final(store).objects@, es, n, pages_of(es, lists(r@)))
            &&& copies_done(&parent.pmap, old(pool), final(pool), es, lists(r@), n)
            &&& deep_in_turn(
                &parent.pmap,
                &old(child).pmap,
                &final(child).pmap,
                old(pool),
                final(pool),
                cpu as int,
                es,
                lists(r@),
                n,
            )
            &&& entries_enter(
                &final(child).pmap,
                final(pool),
                es,
                n,
            ) ==> forall|v: int| #[trigger]
                final(child).pmap.entry_at(v) == deep_pte(
                    es,
                    lists(r@),
                    n,
                    parent.pmap.entry_at(v),
                    old(child).pmap.entry_at(v),
                    v,
                )
        }),
        forall|i: int| 0 <= i < parent.entries().len()
            ==> object_of((#[trigger] parent.entries()[i]).mapping) is Some ==> ({
            let c = final(child).entries()[i];
            let e = parent.entries()[i];
            &&& c.lo == e.lo && c.hi == e.hi && c.protection == e.protection
            &&& offset_of(c.mapping) == offset_of(e.mapping) && same_kind(c.mapping, e.mapping)
            &&& e.protection.0 / 2 % 2 == 0 ==> c.mapping == e.mapping
            &&& e.protection.0 / 2 % 2 == 1 && object_of(e.mapping) is Some ==> {
                &&& object_of(c.mapping) matches Some(o) && o >= old(store).objects@.len()
                    && o < final(store).objects@.len() && final(store).objects@[o as int] is Some
                    && (final(store).objects@[o as int]->0).backing is None
                    && (forall|k: u64| #[trigger] (final(store).objects@[o as int]->0).pages@.dom().contains(k)
                        <==> exists|x: int|
                    0 <= x < r@[i]@.len()
                        && k == ((offset_of(e.mapping) + ((#[trigger] r@[i]@[x]).va - e.lo)) / 4096) as u64)
                            && (forall|k: u64| #[trigger] (final(store).objects@[o as int]->0).pages@.dom().contains(k)
                            ==> exists|x: int|
                    0 <= x < r@[i]@.len()
                        && k == ((offset_of(e.mapping) + ((#[trigger] r@[i]@[x]).va - e.lo)) / 4096) as u64
                            && (final(store).objects@[o as int]->0).pages@[k].pa == r@[i]@[x].to)
            }
        }),
        forall|v: int| 0 <= v
            ==> ((#[trigger] final(child).pmap.entry_at(v)) == old(child).pmap.entry_at(v)
            || final(child).pmap.entry_at(v) % 2 == 1 && final(child).pmap.entry_at(v) / 4 % 2 == 0
            && parent.pmap.entry_at(v) % 2 == 1
            && final(child).pmap.entry_at(v) as int / 1024 % 0x1000_0000_0000 == parent.pmap.entry_at(v) as int / 1024 % 0x1000_0000_0000
                || exists|i: int, x: int|
                0 <= i < r@.len() && 0 <= x < r@[i]@.len()
                    && same_page((#[trigger] r@[i]@[x]).va as int, v)
                    && final(child).pmap.entry_at(v) as int / 1024 % 0x1000_0000_0000 == r@[i]@[x].to.0 as int / 4096),
        forall|i: int, x: int|
            0 <= i < r@.len() && 0 <= x < r@[i]@.len() ==> {
                let c = #[trigger] r@[i]@[x];
                let raw = parent.pmap.entry_at(c.va as int);
                &&& raw % 2 == 1
                    && c.from.0 as int == raw as int / 1024 % 0x1000_0000_0000 * 4096 + c.va as int % 4096
                &&& old(pool).pool_free(c.to.0 as int / 4096) && !final(pool).pool_free(c.to.0 as int / 4096)
            },
        (exists|p: int| #[trigger] final(pool).pool_free(p)) ==> forall|i: int, q: int|
            0 <= i < parent.entries().len()
                && (#[trigger] parent.entries()[i]).protection.0 / 2 % 2 == 1
                && object_of(parent.entries()[i].mapping) is Some && 0 <= q
                && parent.entries()[i].lo + q * 4096 < parent.entries()[i].hi
                && parent.pmap.entry_at(parent.entries()[i].lo + q * 4096) % 2 == 1
                && parent.pmap.entry_at(parent.entries()[i].lo + q * 4096) / 2 % 8 != 0
                ==> exists|x: int|
                0 <= x < r@[i]@.len()
                    && (#[trigger] r@[i]@[x]).va == #[trigger] (parent.entries()[i].lo + q * 4096),
{
    let ghost es = parent.entries();
    let ghost a = store.objects@;
    let ghost base = a.len() as int;
    let ghost n = es.len() as int;
    give_entries(parent, child, store);
    let all = parent.copy_entries();
    let mine = child.copy_entries();
    let mut r: Vec<Vec<PageCopy>> = Vec::new();
    let ghost own = child.pmap;
    let ghost ts = child.timestamp;
    let ghost mut spaces = seq![child.pmap];
    let ghost mut pools = seq![*pool];
    let mut i: usize = 0;
    proof {
        lemma_no_copies(a, store.objects@, es, lists(r@));
    }
    while i < all.len()
        invariant
            i <= n,
            n == es.len(),
            all@ == es,
            es == parent.entries(),
            parent.wf(),
            base == a.len(),
            own == old(child).pmap,
            mine@ == deep_entries(es, base, n),
            child.wf(),
            child.entries() == deep_entries(es, base, n),
            child.timestamp == ts,
            store.wf(),
            store.pagers == old(store).pagers,
            pool.inv(),
            pool_holdable(pool),
            cpu < NUM_MAGAZINES,
            whole_pages(es),
            copies_fit(es),
            child.pmap.same_identity(&own),
            child.pmap.stats.wired_count == own.stats.wired_count,
            own.stats.wired_count < usize::MAX,
            forall|p: int| #[trigger] pool.pool_free(p) ==> old(pool).pool_free(p),
            forall|v: int| #[trigger] child.pmap.root.large_at(v) == own.root.large_at(v),
            r@.len() == i,
            deep_objects(a, store.objects@, es, n, pages_of(es, lists(r@))),
            copies_done(&parent.pmap, old(pool), pool, es, lists(r@), i as int),
            deep_steps(&parent.pmap, spaces, pools, cpu as int, es, lists(r@), i as int),
            spaces[0] == own,
            spaces[i as int] == child.pmap,
            pools[0] == *old(pool),
            pools[i as int] == *pool,
            entries_enter(&child.pmap, pool, es, i as int) ==> forall|v: int| #[trigger]
                child.pmap.entry_at(v) == deep_pte(
                    es,
                    lists(r@),
                    i as int,
                    parent.pmap.entry_at(v),
                    own.entry_at(v),
                    v,
                ),
        decreases n - i,
    {
        let e = all[i];
        let ghost rs = lists(r@);
        let ghost pool0 = *pool;
        let ghost m = store.objects@;
        let ghost before = child.pmap;
        let len = store.objects.len();
        proof {
            assert(es[i as int].lo() < es[i as int].hi());
        }
        let copies = match e.mapping.object() {
            None => Vec::new(),
            Some(_) => {
                if e.protection.contains(MapPerm::W()) {
                    proof {
                        lemma_own_object(a, m, es, i as int, rs);
                        assert(mine@[i as int] == deep_part(es, base, i as int));
                        assert(object_of(mine@[i as int].mapping) == Some(
                            (base + cows(es, i as int)) as usize,
                        ));
                        assert(base + cows(es, i as int) < len);
                    }
                    match mine[i].mapping.object() {
                        Some(object) => copy_pages(
                            &parent.pmap,
                            &mut child.pmap,
                            store,
                            pool,
                            cpu,
                            &e,
                            object,
                        ),
                        None => Vec::new(),
                    }
                } else {
                    let _ = share_pages(
                        &parent.pmap,
                        &mut child.pmap,
                        pool,
                        cpu,
                        e.start(),
                        e.end(),
                        e.protection,
                    );
                    Vec::new()
                }
            },
        };
        r.push(copies);
        proof {
            let ts = lists(r@);
            assert(ts[i as int] == copies@);
            assert forall|j: int| 0 <= j < i implies rs[j] == ts[j] by {}
            lemma_pages_put(a, m, store.objects@, es, i as int, rs, ts);
            lemma_copies_step(&parent.pmap, old(pool), &pool0, pool, es, rs, ts, i as int);
            assert(copies@ =~= Seq::empty() || is_cow(e));
            assert(deep_step(
                &parent.pmap,
                &before,
                &child.pmap,
                &pool0,
                pool,
                cpu as int,
                e,
                copies@,
            ));
            let (ss, qs) = (spaces, pools);
            spaces = spaces.push(child.pmap);
            pools = pools.push(*pool);
            assert forall|j: int| 0 <= j < i + 1 implies deep_step(
                &parent.pmap,
                &spaces[j],
                &spaces[j + 1],
                &pools[j],
                &pools[j + 1],
                cpu as int,
                #[trigger] es[j],
                ts[j],
            ) by {
                if j < i {
                    assert(spaces[j] == ss[j] && spaces[j + 1] == ss[j + 1]);
                    assert(pools[j] == qs[j] && pools[j + 1] == qs[j + 1]);
                    assert(rs[j] == ts[j]);
                }
            }
            if entries_enter(&child.pmap, pool, es, i + 1) {
                let p = choose|p: int| #[trigger] pool.pool_free(p);
                assert(pool0.pool_free(p));
                assert(entries_enter(&before, &pool0, es, i as int)) by {
                    assert forall|j: int, v: int|
                        0 <= j < i && object_of((#[trigger] es[j]).mapping) is Some && touches(
                            page_floor(es[j].lo as int),
                            es[j].hi as int,
                            v,
                        ) implies !#[trigger] before.root.large_at(v) by {
                        assert(!child.pmap.root.large_at(v));
                    }
                }
                if object_of(e.mapping) is Some {
                    assert(page_floor(e.lo as int) == e.lo);
                    assert(all_enter(&child.pmap, pool, page_floor(e.lo as int), e.hi as int));
                }
                assert forall|v: int| #[trigger]
                    child.pmap.entry_at(v) == deep_pte(
                        es,
                        ts,
                        i + 1,
                        parent.pmap.entry_at(v),
                        own.entry_at(v),
                        v,
                    ) by {
                    lemma_deep_pte_stable(
                        es,
                        rs,
                        ts,
                        i as int,
                        parent.pmap.entry_at(v),
                        own.entry_at(v),
                        v,
                    );
                    assert(before.entry_at(v) == deep_pte(
                        es,
                        rs,
                        i as int,
                        parent.pmap.entry_at(v),
                        own.entry_at(v),
                        v,
                    ));
                }
            }
        }
        i += 1;
    }
    proof {
        let rs = lists(r@);
        assert(store.objects.len() == store.objects@.len());
        assert forall|i: int| 0 <= i < es.len() && object_of((#[trigger] es[i]).mapping) is Some implies ({
            let c = child.entries()[i];
            let e = es[i];
            &&& c.lo == e.lo && c.hi == e.hi && c.protection == e.protection
            &&& offset_of(c.mapping) == offset_of(e.mapping) && same_kind(c.mapping, e.mapping)
            &&& e.protection.0 / 2 % 2 == 0 ==> c.mapping == e.mapping
            &&& e.protection.0 / 2 % 2 == 1 && object_of(e.mapping) is Some ==> {
                &&& object_of(c.mapping) matches Some(o) && o >= a.len() && o < store.objects@.len()
                    && store.objects@[o as int] is Some
                    && (store.objects@[o as int]->0).backing is None
                    && (forall|k: u64| #[trigger] (store.objects@[o as int]->0).pages@.dom().contains(k)
                        <==> exists|x: int|
                    0 <= x < r@[i]@.len()
                        && k == ((offset_of(e.mapping) + ((#[trigger] r@[i]@[x]).va - e.lo)) / 4096) as u64)
                            && (forall|k: u64| #[trigger] (store.objects@[o as int]->0).pages@.dom().contains(k)
                            ==> exists|x: int|
                    0 <= x < r@[i]@.len()
                        && k == ((offset_of(e.mapping) + ((#[trigger] r@[i]@[x]).va - e.lo)) / 4096) as u64
                            && (store.objects@[o as int]->0).pages@[k].pa == r@[i]@[x].to)
            }
        }) by {
            assert(rs[i] == r@[i]@);
            law_copied_memory_is_separate(a, store.objects@, es, n, rs, i);
        }
        assert(deep_in_turn(
            &parent.pmap,
            &own,
            &child.pmap,
            old(pool),
            pool,
            cpu as int,
            es,
            rs,
            n,
        ));
        assert forall|v: int| 0 <= v
            implies ((#[trigger] child.pmap.entry_at(v)) == old(child).pmap.entry_at(v)
            || child.pmap.entry_at(v) % 2 == 1 && child.pmap.entry_at(v) / 4 % 2 == 0
            && parent.pmap.entry_at(v) % 2 == 1
            && child.pmap.entry_at(v) as int / 1024 % 0x1000_0000_0000 == parent.pmap.entry_at(v) as int / 1024 % 0x1000_0000_0000
                || exists|i: int, x: int|
                0 <= i < r@.len() && 0 <= x < r@[i]@.len()
                    && same_page((#[trigger] r@[i]@[x]).va as int, v)
                    && child.pmap.entry_at(v) as int / 1024 % 0x1000_0000_0000 == r@[i]@[x].to.0 as int / 4096) by {
            law_child_gets_copies(
                &parent.pmap,
                &own,
                &child.pmap,
                old(pool),
                pool,
                cpu as int,
                es,
                rs,
                n,
                v,
            );
            if exists|i: int, x: int|
                0 <= i < n && 0 <= x < rs[i].len() && same_page((#[trigger] rs[i][x]).va as int, v)
                    && child.pmap.entry_at(v) as int / 1024 % 0x1000_0000_0000 == rs[i][x].to.0 as int
                    / 4096 {
                let (i, x) = choose|i: int, x: int|
                    0 <= i < n && 0 <= x < rs[i].len() && same_page(
                        (#[trigger] rs[i][x]).va as int,
                        v,
                    ) && child.pmap.entry_at(v) as int / 1024 % 0x1000_0000_0000 == rs[i][x].to.0 as int
                        / 4096;
                assert(rs[i][x] == r@[i]@[x]);
            }
        }
        lemma_copies_are_complete(&parent.pmap, old(pool), pool, es, r@);
    }
    r
}

/// What the copies are, in numbers, and that none is left out while frames are left.
proof fn lemma_copies_are_complete(
    parent: &Pmap,
    pool0: &FramePool,
    pool1: &FramePool,
    es: Entries,
    r: Seq<Vec<PageCopy>>,
)
    requires
        r.len() == es.len(),
        copies_done(parent, pool0, pool1, es, lists(r), es.len() as int),
    ensures
        forall|i: int, x: int|
            0 <= i < r.len() && 0 <= x < r[i]@.len() ==> {
                let c = #[trigger] r[i]@[x];
                let raw = parent.entry_at(c.va as int);
                &&& raw % 2 == 1 && c.from.0 as int == raw as int / 1024 % 0x1000_0000_0000 * 4096
                    + c.va as int % 4096
                &&& pool0.pool_free(c.to.0 as int / 4096) && !pool1.pool_free(c.to.0 as int / 4096)
            },
        (exists|p: int| #[trigger] pool1.pool_free(p)) ==> forall|i: int, q: int|
            0 <= i < es.len() && (#[trigger] es[i]).protection.0 / 2 % 2 == 1 && object_of(
                es[i].mapping,
            ) is Some && 0 <= q && es[i].lo + q * 4096 < es[i].hi && parent.entry_at(
                es[i].lo + q * 4096,
            ) % 2 == 1 && parent.entry_at(es[i].lo + q * 4096) / 2 % 8 != 0 ==> exists|x: int|
                0 <= x < r[i]@.len() && (#[trigger] r[i]@[x]).va == #[trigger] (es[i].lo + q * 4096),
{
    let rs = lists(r);
    assert forall|i: int, x: int| 0 <= i < r.len() && 0 <= x < r[i]@.len() implies ({
        let c = #[trigger] r[i]@[x];
        let raw = parent.entry_at(c.va as int);
        &&& raw % 2 == 1 && c.from.0 as int == raw as int / 1024 % 0x1000_0000_0000 * 4096 + c.va as int
            % 4096
        &&& pool0.pool_free(c.to.0 as int / 4096) && !pool1.pool_free(c.to.0 as int / 4096)
    }) by {
        assert(sound_copies(parent, pool0, pool1, rs[i]));
        assert(rs[i][x] == r[i]@[x]);
    }
    if exists|p: int| #[trigger] pool1.pool_free(p) {
        assert forall|i: int, q: int|
            0 <= i < es.len() && (#[trigger] es[i]).protection.0 / 2 % 2 == 1 && object_of(
                es[i].mapping,
            ) is Some && 0 <= q && es[i].lo + q * 4096 < es[i].hi && parent.entry_at(
                es[i].lo + q * 4096,
            ) % 2 == 1 && parent.entry_at(es[i].lo + q * 4096) / 2 % 8 != 0 implies exists|x: int|
            0 <= x < r[i]@.len() && (#[trigger] r[i]@[x]).va == #[trigger] (es[i].lo + q * 4096) by {
            lemma_write_bit(es[i].protection);
            let v = es[i].lo + q * 4096;
            assert(copy_vas(rs[i]) == mapped_vas(parent, es[i].lo as int, es[i].hi as int));
            lemma_in_mapped_vas(parent, es[i].lo as int, es[i].hi as int, q);
            let vas = copy_vas(rs[i]);
            let x = choose|x: int| 0 <= x < vas.len() && vas[x] == v as u64;
            assert(rs[i][x].va == vas[x]);
            assert(r[i]@[x].va == v);
        }
    }
}

proof fn lemma_in_mapped_vas(pmap: &Pmap, s: int, e: int, q: int)
    requires
        0 <= s,
        0 <= q,
        s + q * 4096 < e,
        maps(pmap.entry_at(s + q * 4096)),
    ensures
        mapped_vas(pmap, s, e).contains((s + q * 4096) as u64),
    decreases q,
{
    let all = mapped_vas(pmap, s, e);
    let rest = mapped_vas(pmap, s + 4096, e);
    if q == 0 {
        assert(all[0] == s as u64);
    } else {
        assert(s + 4096 + (q - 1) * 4096 == s + q * 4096);
        lemma_in_mapped_vas(pmap, s + 4096, e, q - 1);
        let j = choose|j: int| 0 <= j < rest.len() && rest[j] == (s + q * 4096) as u64;
        assert(all[all.len() - rest.len() + j] == rest[j]);
    }
}

/// Which pages an object has once copies were put into it.
proof fn lemma_copied_pages(cs: Seq<PageCopy>, m: int, e: VmMapEntry, k: u64)
    requires
        0 <= m <= cs.len(),
    ensures
        copied_pages(cs, m, e, Map::empty()).dom().contains(k) <==> exists|x: int|
            0 <= x < m && k == index_in(e, (#[trigger] cs[x]).va as int),
        copied_pages(cs, m, e, Map::empty()).dom().contains(k) ==> exists|x: int|
            0 <= x < m && k == index_in(e, (#[trigger] cs[x]).va as int) && copied_pages(
                cs,
                m,
                e,
                Map::empty(),
            )[k].pa == cs[x].to,
    decreases m,
{
    if m > 0 {
        lemma_copied_pages(cs, m - 1, e, k);
        let prev = copied_pages(cs, m - 1, e, Map::empty());
        if k == index_in(e, cs[m - 1].va as int) {
            assert(copied_pages(cs, m, e, Map::empty())[k].pa == cs[m - 1].to);
        } else if prev.dom().contains(k) {
            let x = choose|x: int|
                0 <= x < m - 1 && k == index_in(e, (#[trigger] cs[x]).va as int) && prev[k].pa
                    == cs[x].to;
            assert(copied_pages(cs, m, e, Map::empty())[k].pa == cs[x].to);
        }
    }
}

/// The child has for every entry that has an object one like it.  Where the entry can be written, of
/// whatever kind it is, the child's has a new object that no other is behind, and that has exactly
/// the copies made for the entry, each where the page stood; else it has the same object.
pub proof fn law_copied_memory_is_separate(
    a: Objects<PageRef>,
    b: Objects<PageRef>,
    es: Entries,
    n: int,
    rs: Seq<Seq<PageCopy>>,
    i: int,
)
    requires
        0 <= i < n <= es.len(),
        rs.len() == n,
        b.len() <= usize::MAX,
        object_of(es[i].mapping) is Some,
        deep_objects(a, b, es, n, pages_of(es, rs)),
    ensures
        ({
            let c = deep_entries(es, a.len() as int, n)[i];
            let e = es[i];
            &&& c.lo == e.lo && c.hi == e.hi && c.protection == e.protection
            &&& offset_of(c.mapping) == offset_of(e.mapping) && same_kind(c.mapping, e.mapping)
            &&& e.protection.0 / 2 % 2 == 0 ==> c.mapping == e.mapping
            &&& e.protection.0 / 2 % 2 == 1 && object_of(e.mapping) is Some ==> {
                &&& object_of(c.mapping) matches Some(o) && o >= a.len() && o < b.len()
                    && b[o as int] is Some && (b[o as int]->0).backing is None
                    && (forall|k: u64| #[trigger] (b[o as int]->0).pages@.dom().contains(k)
                    <==> exists|x: int|
                    0 <= x < rs[i].len()
                        && k == ((offset_of(e.mapping) + ((#[trigger] rs[i][x]).va - e.lo)) / 4096) as u64)
                            && (forall|k: u64| #[trigger] (b[o as int]->0).pages@.dom().contains(k)
                            ==> exists|x: int|
                    0 <= x < rs[i].len()
                        && k == ((offset_of(e.mapping) + ((#[trigger] rs[i][x]).va - e.lo)) / 4096) as u64
                            && (b[o as int]->0).pages@[k].pa == rs[i][x].to)
            }
        }),
{
    reveal(deep_objects);
    let e = es[i];
    lemma_write_bit(e.protection);
    lemma_cows_bound(es, 0, i);
    lemma_cows_bound(es, i, n);
    if is_cow(e) {
        let at = a.len() + cows(es, i);
        let m = rs[i].len() as int;
        let pages = (b[at]->0).pages@;
        assert(pages == pages_of(es, rs)(i));
        assert forall|k: u64| #[trigger] pages.dom().contains(k) <==> exists|x: int|
            0 <= x < m && k == ((offset_of(e.mapping) + ((#[trigger] rs[i][x]).va - e.lo)) / 4096) as u64 by {
            lemma_copied_pages(rs[i], m, e, k);
            if exists|x: int|
                0 <= x < m && k == ((offset_of(e.mapping) + ((#[trigger] rs[i][x]).va - e.lo))
                    / 4096) as u64 {
                let x = choose|x: int|
                    0 <= x < m && k == ((offset_of(e.mapping) + ((#[trigger] rs[i][x]).va - e.lo))
                        / 4096) as u64;
                assert(k == index_in(e, rs[i][x].va as int));
            }
            if pages.dom().contains(k) {
                let x = choose|x: int|
                    0 <= x < m && k == index_in(e, (#[trigger] rs[i][x]).va as int);
                assert(k == ((offset_of(e.mapping) + (rs[i][x].va - e.lo)) / 4096) as u64);
            }
        }
        assert forall|k: u64| #[trigger] pages.dom().contains(k) implies exists|x: int|
            0 <= x < m && k == ((offset_of(e.mapping) + ((#[trigger] rs[i][x]).va - e.lo)) / 4096) as u64
                && pages[k].pa == rs[i][x].to by {
            lemma_copied_pages(rs[i], m, e, k);
            let x = choose|x: int|
                0 <= x < m && k == index_in(e, (#[trigger] rs[i][x]).va as int) && copied_pages(
                    rs[i],
                    m,
                    e,
                    Map::empty(),
                )[k].pa == rs[i][x].to;
            assert(k == ((offset_of(e.mapping) + (rs[i][x].va - e.lo)) / 4096) as u64);
        }
    }
}

/// Every copy made is among those that come of the steps.
proof fn lemma_made(outs: Seq<Option<PageCopy>>, j: int)
    requires
        0 <= j < outs.len(),
        outs[j] is Some,
    ensures
        made(outs).contains(outs[j]->0),
    decreases outs.len(),
{
    let pre = outs.drop_last();
    let c = outs[j]->0;
    if j == outs.len() - 1 {
        assert(made(outs)[made(pre).len() as int] == c);
    } else {
        assert(pre[j] == outs[j]);
        lemma_made(pre, j);
        let x = choose|x: int| 0 <= x < made(pre).len() && made(pre)[x] == c;
        assert(made(outs)[x] == c);
    }
}

/// Where copying pages has changed a translation of the child, it is to a copy made for that page.
proof fn lemma_copied_entry(
    parent: &Pmap,
    spaces: Seq<Pmap>,
    pools: Seq<FramePool>,
    outs: Seq<Option<PageCopy>>,
    cpu: int,
    s: int,
    e: int,
    prot: MapPerm,
    m: int,
    v: int,
)
    requires
        copy_steps(parent, spaces, pools, outs, cpu, s, e, prot),
        0 <= s,
        e <= u64::MAX,
        0 <= m <= outs.len(),
    ensures
        spaces[m].entry_at(v) == spaces[0].entry_at(v) || exists|j: int|
            0 <= j < m && (#[trigger] outs[j]) is Some && same_page((outs[j]->0).va as int, v)
                && spaces[m].entry_at(v) == entry_of((outs[j]->0).to.0, enter_flags(prot, false))
                && fits((outs[j]->0).to, 0) && pools[j].pool_free(pfn((outs[j]->0).to)),
    decreases m,
{
    if m > 0 {
        lemma_copied_entry(parent, spaces, pools, outs, cpu, s, e, prot, m - 1, v);
        let va = step_addr(s, m - 1);
        assert(va < e);
        if spaces[m].entry_at(v) != spaces[m - 1].entry_at(v) {
            assert(outs[m - 1] is Some);
            assert((outs[m - 1]->0).va == va);
            assert(same_page(va, v));
        }
    }
}

proof fn lemma_deep_entry(
    parent: &Pmap,
    spaces: Seq<Pmap>,
    pools: Seq<FramePool>,
    cpu: int,
    es: Entries,
    rs: Seq<Seq<PageCopy>>,
    n: int,
    m: int,
    v: int,
)
    requires
        deep_steps(parent, spaces, pools, cpu, es, rs, n),
        0 <= m <= n <= es.len(),
        0 <= v,
        forall|i: int, x: int|
            0 <= i < n && 0 <= x < rs[i].len() ==> (#[trigger] rs[i][x]).to.0 < 0x100_0000_0000_0000,
    ensures
        ({
            let now = spaces[m];
            now.entry_at(v) == spaces[0].entry_at(v) || now.entry_at(v) % 2 == 1
                && now.entry_at(v) / 4 % 2 == 0 && parent.entry_at(v) % 2 == 1
                && now.entry_at(v) as int / 1024 % 0x1000_0000_0000 == parent.entry_at(v) as int / 1024 % 0x1000_0000_0000
                    || exists|i: int, x: int|
                0 <= i < m && 0 <= x < rs[i].len() && same_page((#[trigger] rs[i][x]).va as int, v)
                    && now.entry_at(v) as int / 1024 % 0x1000_0000_0000 == rs[i][x].to.0 as int / 4096
        }),
    decreases m,
{
    if m > 0 {
        lemma_deep_entry(parent, spaces, pools, cpu, es, rs, n, m - 1, v);
        let e = es[m - 1];
        let q = parent.entry_at(v);
        assert(addr_of(q) % 4096 == 0);
        lemma_write_bit(e.protection);
        assert(deep_step(
            parent,
            &spaces[m - 1],
            &spaces[m],
            &pools[m - 1],
            &pools[m],
            cpu,
            e,
            rs[m - 1],
        ));
        if is_cow(e) {
            let (ss, qs, outs) = choose|
                ss: Seq<Pmap>,
                qs: Seq<FramePool>,
                outs: Seq<Option<PageCopy>>,
            | #[trigger]
                copy_steps(parent, ss, qs, outs, cpu, e.lo as int, e.hi as int, e.protection)
                    && ss[0] == spaces[m - 1] && ss.last() == spaces[m] && qs[0] == pools[m - 1]
                    && qs.last() == pools[m] && rs[m - 1] == made(outs);
            let k = outs.len() as int;
            lemma_copied_entry(
                parent,
                ss,
                qs,
                outs,
                cpu,
                e.lo as int,
                e.hi as int,
                e.protection,
                k,
                v,
            );
            if spaces[m].entry_at(v) != spaces[m - 1].entry_at(v) {
                let j = choose|j: int|
                    0 <= j < k && (#[trigger] outs[j]) is Some && same_page(
                        (outs[j]->0).va as int,
                        v,
                    ) && ss[k].entry_at(v) == entry_of(
                        (outs[j]->0).to.0,
                        enter_flags(e.protection, false),
                    ) && fits((outs[j]->0).to, 0) && qs[j].pool_free(pfn((outs[j]->0).to));
                lemma_made(outs, j);
                let cs = rs[m - 1];
                let x = choose|x: int| 0 <= x < cs.len() && cs[x] == outs[j]->0;
                assert(same_page(rs[m - 1][x].va as int, v));
                lemma_entry(rs[m - 1][x].to.0, enter_flags(e.protection, false));
                lemma_frame_number(rs[m - 1][x].to.0, e.protection);
            }
        } else if object_of(e.mapping) is Some {
            let s = page_floor(e.lo as int);
            let (ss, qs) = choose|ss: Seq<Pmap>, qs: Seq<FramePool>| #[trigger]
                share_steps(parent, ss, qs, cpu, s, e.hi as int, e.protection) && ss[0] == spaces[m
                    - 1] && ss.last() == spaces[m] && qs[0] == pools[m - 1] && qs.last() == pools[m];
            lemma_shared_entry(
                parent,
                ss,
                qs,
                cpu,
                s,
                e.hi as int,
                e.protection,
                ss.len() - 1,
                v,
            );
            lemma_no_write(addr_of(q), e.protection);
        }
        if exists|i: int, x: int|
            0 <= i < m - 1 && 0 <= x < rs[i].len() && same_page((#[trigger] rs[i][x]).va as int, v)
                && spaces[m - 1].entry_at(v) as int / 1024 % 0x1000_0000_0000 == rs[i][x].to.0 as int
                / 4096 {
            let (i, x) = choose|i: int, x: int|
                0 <= i < m - 1 && 0 <= x < rs[i].len() && same_page((#[trigger] rs[i][x]).va as int, v)
                    && spaces[m - 1].entry_at(v) as int / 1024 % 0x1000_0000_0000 == rs[i][x].to.0 as int
                    / 4096;
            assert(same_page(rs[i][x].va as int, v));
        }
    }
}

proof fn lemma_frame_number(pa: u64, p: MapPerm)
    requires
        pa < 0x100_0000_0000_0000,
    ensures
        entry_of(pa, enter_flags(p, false)) as int / 1024 % 0x1000_0000_0000 == pa as int / 4096,
{
    lemma_entry(pa, enter_flags(p, false));
    let q = pa as int / 4096;
    let f = enter_flags(p, false).0 as int;
    assert((q * 1024 + f) / 1024 == q);
}

/// Every translation that the child gets is either to a page of the parent, which it may not write, or
/// to a copy that was made for that page.
pub proof fn law_child_gets_copies(
    parent: &Pmap,
    before: &Pmap,
    after: &Pmap,
    pool0: &FramePool,
    pool1: &FramePool,
    cpu: int,
    es: Entries,
    rs: Seq<Seq<PageCopy>>,
    n: int,
    v: int,
)
    requires
        deep_in_turn(parent, before, after, pool0, pool1, cpu, es, rs, n),
        copies_done(parent, pool0, pool1, es, rs, n),
        pool_holdable(pool0),
        rs.len() == n,
        0 <= n <= es.len(),
        0 <= v,
    ensures
        after.entry_at(v) == before.entry_at(v) || after.entry_at(v) % 2 == 1
            && after.entry_at(v) / 4 % 2 == 0 && parent.entry_at(v) % 2 == 1
            && after.entry_at(v) as int / 1024 % 0x1000_0000_0000 == parent.entry_at(v) as int / 1024 % 0x1000_0000_0000
                || exists|i: int, x: int|
                0 <= i < n && 0 <= x < rs[i].len() && same_page((#[trigger] rs[i][x]).va as int, v)
                    && after.entry_at(v) as int / 1024 % 0x1000_0000_0000 == rs[i][x].to.0 as int / 4096,
{
    assert forall|i: int, x: int|
        0 <= i < n && 0 <= x < rs[i].len() implies (#[trigger] rs[i][x]).to.0 < 0x100_0000_0000_0000 by {
        assert(sound_copies(parent, pool0, pool1, rs[i]));
        assert(pool0.pool_free(pfn(rs[i][x].to)));
    }
    let (spaces, pools) = choose|spaces: Seq<Pmap>, pools: Seq<FramePool>| #[trigger]
        deep_steps(parent, spaces, pools, cpu, es, rs, n) && spaces[0] == *before && spaces[n]
            == *after && pools[0] == *pool0 && pools[n] == *pool1;
    lemma_deep_entry(parent, spaces, pools, cpu, es, rs, n, n, v);
}

/// A copy lies in another frame than the page that it is of, and no two copies share a frame.
pub proof fn law_copies_are_private(
    parent: &Pmap,
    pool0: &FramePool,
    pool1: &FramePool,
    es: Entries,
    rs: Seq<Seq<PageCopy>>,
    n: int,
    i: int,
    x: int,
    j: int,
    y: int,
)
    requires
        copies_done(parent, pool0, pool1, es, rs, n),
        0 <= i < n <= rs.len(),
        0 <= x < rs[i].len(),
        0 <= j < n,
        0 <= y < rs[j].len(),
        !pool0.pool_free(pfn(rs[i][x].from)),
    ensures
        pfn(rs[i][x].to) != pfn(rs[i][x].from),
        i != j || x != y ==> pfn(rs[i][x].to) != pfn(rs[j][y].to),
{
    assert(sound_copies(parent, pool0, pool1, rs[i]));
    assert(sound_copies(parent, pool0, pool1, rs[j]));
    if i < j {
        assert(pfn(rs[i][x].to) != pfn(rs[j][y].to));
    } else if j < i {
        assert(pfn(rs[j][y].to) != pfn(rs[i][x].to));
    } else if x < y {
        assert(pfn(rs[i][x].to) != pfn(rs[i][y].to));
    } else if y < x {
        assert(pfn(rs[i][y].to) != pfn(rs[i][x].to));
    }
}

} // verus!
