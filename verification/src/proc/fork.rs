//! The plain fork: a child with a copy of everything that its parent has.
use vstd::prelude::*;
use crate::hal::addr::{PhysAddr, VirtAddr};
use crate::mm::allocator::frame_allocator::{FramePool, NUM_MAGAZINES};
use crate::mm::pmap::pte::{addr_of, entry_of};
use crate::mm::pmap::shootdown::{QuiesceGuard, ShootdownBatch};
use crate::mm::pmap::space::{
    enter_flags, entered, maps, pmap_enter, pmap_extract, Pmap,
};
use crate::mm::pmap::table::{pool_holdable, same_page};
use crate::mm::vm::fault::lemma_entry_bits;
use crate::mm::vm::map::address_map::{
    handles, insertable, meets, raised, Entries, VmMap,
};
use crate::mm::vm::map::entry::{object_of, offset_of, same_kind, VmMapEntry};
use crate::mm::vm::map::fork::{
    blocked, child_after, child_part, child_pte, cow_handles, cow_pte, cows,
    dirty_pages, entries_enter, forked_in_turn, forked_store, is_cow, is_shadow, lemma_cows_bound,
    lemma_lookup_stepped, lemma_stop, parent_after, stepped,
};
use crate::mm::vm::map::heap::SIGCODE_VA;
use crate::mm::vm::map::perm::{lemma_joined, MapPerm};
use crate::mm::vm::map::separation::{lemma_write_bit, lemma_written_memory_is_separate};
use crate::mm::vm::map::splay::{ordered, rank, Ranged};
use crate::mm::vm::object::{VmObject, VmObjects};
use crate::mm::vm::page_ref::PageRef;
use crate::mm::vm::shadow::{live, lookup, store_wf, Object, Objects, PagerRef};
use crate::proc::clone::{inherit, is_child, law_child_starts_like_parent, space_ready, CloneFlags};
use crate::proc::pid::PidAllocator;
use crate::proc::signal::{map_sigcode_page, sigcode_made};
use crate::proc::task::{Task, TaskState};

verus! {

/// Every entry is made of whole pages.
pub open spec fn whole_pages(es: Entries) -> bool {
    forall|i: int|
        0 <= i < es.len() ==> (#[trigger] es[i]).lo as int % 4096 == 0 && es[i].hi as int % 4096 == 0
}

/// An empty shadow of the object at `o`, which is `p`, with a size of its own.
pub open spec fn sized_shadow(
    slot: Option<Object<PageRef>>,
    o: usize,
    p: Object<PageRef>,
    size: u64,
) -> bool {
    slot matches Some(s) && s.size == size && is_shadow(Some(Object { size: p.size, ..s }), o, p)
}

/// What a fork does to the objects: every entry copied on write gets two shadows as large as
/// the entry, the parent's and then the child's.
pub open spec fn forked_objects(a: Objects<PageRef>, b: Objects<PageRef>, es: Entries) -> bool {
    &&& b.len() == a.len() + 2 * cows(es, es.len() as int)
    &&& forall|id: int|
        0 <= id < a.len() ==> #[trigger] b[id] == stepped(
            a[id],
            handles(es, id),
            2 * cow_handles(es, id),
        )
    &&& forall|i: int|
        0 <= i < es.len() && is_cow(#[trigger] es[i]) ==> {
            let o = object_of(es[i].mapping)->0;
            let at = a.len() + 2 * cows(es, i);
            let size = (es[i].hi - es[i].lo) as u64;
            &&& sized_shadow(b[at], o, a[o as int]->0, size)
            &&& sized_shadow(b[at + 1], o, a[o as int]->0, size)
        }
}

/// Whether the child has its part of entry `j` once the objects of the first `k` entries and
/// the guards of the first `i` have been given to it.
pub open spec fn given(es: Entries, j: int, k: int, i: int) -> bool {
    0 <= j < es.len() && (j < k && object_of(es[j].mapping) is Some || j < i)
}

/// How many parts that is.
pub open spec fn parts(es: Entries, n: int, k: int, i: int) -> int
    decreases n,
{
    if n <= 0 {
        0
    } else {
        parts(es, n - 1, k, i) + if given(es, n - 1, k, i) {
            1int
        } else {
            0
        }
    }
}

/// Whether the entry is among those of the child.
#[verifier::opaque]
pub open spec fn has_part(ces: Entries, e: VmMapEntry) -> bool {
    ces.contains(e)
}

/// The child has these parts and nothing else.
#[verifier::opaque]
pub open spec fn made_of(ces: Entries, es: Entries, base: int, k: int, i: int) -> bool {
    &&& ces.len() == parts(es, es.len() as int, k, i)
    &&& forall|j: int| #[trigger] given(es, j, k, i) ==> has_part(ces, child_part(es, base, j))
    &&& forall|x: int| #![trigger ces[x]]
        0 <= x < ces.len() ==> exists|j: int|
            #[trigger] given(es, j, k, i) && ces[x] == child_part(es, base, j)
}

proof fn lemma_rank_bound(s: Entries, addr: int)
    ensures
        0 <= rank(s, addr) <= s.len(),
    decreases s.len(),
{
    if s.len() > 0 {
        lemma_rank_bound(s.drop_last(), addr);
    }
}

/// One part more.
proof fn lemma_parts_step(es: Entries, n: int, k0: int, i0: int, k: int, i: int, at: int)
    requires
        0 <= n <= es.len(),
        forall|j: int| 0 <= j < es.len() && j != at ==> (#[trigger] given(es, j, k, i) <==> given(
            es,
            j,
            k0,
            i0,
        )),
        !given(es, at, k0, i0),
    ensures
        parts(es, n, k, i) == parts(es, n, k0, i0) + if 0 <= at < n && given(es, at, k, i) {
            1int
        } else {
            0
        },
    decreases n,
{
    if n > 0 {
        lemma_parts_step(es, n - 1, k0, i0, k, i, at);
        if n - 1 != at {
            assert(given(es, n - 1, k, i) <==> given(es, n - 1, k0, i0));
        }
    }
}

proof fn lemma_all_given(es: Entries, n: int, k: int)
    requires
        0 <= n <= es.len(),
    ensures
        parts(es, n, k, es.len() as int) == n,
    decreases n,
{
    if n > 0 {
        lemma_all_given(es, n - 1, k);
    }
}

proof fn lemma_none_given(es: Entries, n: int)
    ensures
        parts(es, n, 0, 0) == 0,
    decreases n,
{
    if n > 0 {
        lemma_none_given(es, n - 1);
    }
}

/// Putting the part of entry `at` in.
proof fn lemma_one_part(
    ces: Entries,
    es: Entries,
    base: int,
    k0: int,
    i0: int,
    k: int,
    i: int,
    at: int,
    r: int,
)
    requires
        made_of(ces, es, base, k0, i0),
        0 <= r <= ces.len(),
        0 <= at < es.len(),
        !given(es, at, k0, i0),
        given(es, at, k, i),
        forall|j: int| 0 <= j < es.len() && j != at ==> (#[trigger] given(es, j, k, i) <==> given(
            es,
            j,
            k0,
            i0,
        )),
    ensures
        made_of(ces.insert(r, child_part(es, base, at)), es, base, k, i),
{
    reveal(made_of);
    let now = ces.insert(r, child_part(es, base, at));
    lemma_parts_step(es, es.len() as int, k0, i0, k, i, at);
    assert forall|j: int| #[trigger] given(es, j, k, i) implies has_part(
        now,
        child_part(es, base, j),
    ) by {
        reveal(has_part);
        if j == at {
            assert(now[r] == child_part(es, base, at));
        } else {
            assert(given(es, j, k0, i0));
            let x = choose|x: int| 0 <= x < ces.len() && ces[x] == child_part(es, base, j);
            if x < r {
                assert(now[x] == ces[x]);
            } else {
                assert(now[x + 1] == ces[x]);
            }
        }
    }
    assert forall|x: int| #![trigger now[x]] 0 <= x < now.len() implies exists|j: int|
        #[trigger] given(es, j, k, i) && now[x] == child_part(es, base, j) by {
        if x == r {
            assert(given(es, at, k, i));
        } else {
            let y = if x < r {
                x
            } else {
                x - 1
            };
            assert(now[x] == ces[y]);
            let j = choose|j: int| #[trigger] given(es, j, k0, i0) && ces[y] == child_part(es, base, j);
            assert(given(es, j, k, i));
        }
    }
}

/// Where nothing changes.
proof fn lemma_same_parts(ces: Entries, es: Entries, base: int, k0: int, i0: int, k: int, i: int)
    requires
        made_of(ces, es, base, k0, i0),
        forall|j: int| #[trigger] given(es, j, k, i) <==> given(es, j, k0, i0),
    ensures
        made_of(ces, es, base, k, i),
{
    reveal(made_of);
    lemma_parts_step(es, es.len() as int, k0, i0, k, i, -1);
    assert forall|j: int| #[trigger] given(es, j, k, i) implies has_part(
        ces,
        child_part(es, base, j),
    ) by {
        assert(given(es, j, k0, i0));
    }
    assert forall|x: int| #![trigger ces[x]] 0 <= x < ces.len() implies exists|j: int|
        #[trigger] given(es, j, k, i) && ces[x] == child_part(es, base, j) by {
        let j = choose|j: int| #[trigger] given(es, j, k0, i0) && ces[x] == child_part(es, base, j);
        assert(given(es, j, k, i));
    }
}

/// What a fork into an empty child gives it.
proof fn lemma_objects_given(es: Entries, base: int, k: int)
    requires
        0 <= k <= es.len(),
    ensures
        made_of(child_after(Seq::empty(), es, base, k), es, base, k, 0),
    decreases k,
{
    reveal(made_of);
    if k == 0 {
        lemma_none_given(es, es.len() as int);
    } else {
        lemma_objects_given(es, base, k - 1);
        let prev = child_after(Seq::empty(), es, base, k - 1);
        if object_of(es[k - 1].mapping) is None {
            lemma_same_parts(prev, es, base, k - 1, 0, k, 0);
        } else {
            let r = rank(prev, es[k - 1].lo as int);
            lemma_rank_bound(prev, es[k - 1].lo as int);
            lemma_one_part(prev, es, base, k - 1, 0, k, 0, k - 1, r);
        }
    }
}

/// The child has room for the part of an entry that it has not got.
proof fn lemma_room(ces: Entries, es: Entries, base: int, k: int, i: int, at: int)
    requires
        made_of(ces, es, base, k, i),
        ordered(es),
        whole_pages(es),
        0 <= at < es.len(),
        !given(es, at, k, i),
    ensures
        insertable(ces, child_part(es, base, at)),
{
    reveal(made_of);
    let e = es[at];
    assert(e.lo() < e.hi());
    assert forall|x: int| 0 <= x < ces.len() implies !meets(#[trigger] ces[x], e.lo as int, e.hi as int) by {
        let j = choose|j: int| #[trigger] given(es, j, k, i) && ces[x] == child_part(es, base, j);
        assert(es[j].lo() < es[j].hi());
        if j < at {
            assert(es[j].hi() <= es[at].lo());
        } else {
            assert(es[at].hi() <= es[j].lo());
        }
    }
}

/// Give both shadows of an entry the size of the entry.
fn size_shadows(store: &mut VmObjects, p: usize, size: u64)
    requires
        old(store).wf(),
        p + 1 < old(store).objects@.len(),
        old(store).has(p as int),
        old(store).has(p + 1),
    ensures
        final(store).wf(),
        final(store).pagers == old(store).pagers,
        final(store).objects@ == old(store).objects@.update(
            p as int,
            Some(Object { size, ..old(store).obj(p as int) }),
        ).update(p + 1, Some(Object { size, ..old(store).obj(p + 1) })),
{
    let n = store.objects.len();
    assert(p + 1 < n);
    VmObject::set_size(store, p, size);
    assert(live(store.objects@, p + 1));
    VmObject::set_size(store, p + 1, size);
}

/// The objects while the shadows of the first `i` entries have got their size.
#[verifier::opaque]
spec fn sizing(a: Objects<PageRef>, b: Objects<PageRef>, es: Entries, i: int) -> bool {
    &&& b.len() == a.len() + 2 * cows(es, es.len() as int)
    &&& forall|id: int|
        0 <= id < a.len() ==> #[trigger] b[id] == stepped(
            a[id],
            handles(es, id),
            2 * cow_handles(es, id),
        )
    &&& forall|j: int|
        0 <= j < es.len() && is_cow(#[trigger] es[j]) ==> {
            let o = object_of(es[j].mapping)->0;
            let p = a[o as int]->0;
            let at = a.len() + 2 * cows(es, j);
            let size = if j < i {
                (es[j].hi - es[j].lo) as u64
            } else {
                p.size
            };
            &&& sized_shadow(b[at], o, p, size)
            &&& sized_shadow(b[at + 1], o, p, size)
        }
}

proof fn lemma_sizing(a: Objects<PageRef>, b: Objects<PageRef>, es: Entries, i: int, size: u64)
    requires
        sizing(a, b, es, i),
        0 <= i < es.len(),
        is_cow(es[i]),
        size == es[i].hi - es[i].lo,
    ensures
        ({
            let at = a.len() + 2 * cows(es, i);
            &&& 0 <= at && at + 1 < b.len()
            &&& live(b, at)
            &&& live(b, at + 1)
            &&& sizing(
                a,
                b.update(at, Some(Object { size, ..b[at]->0 })).update(
                    at + 1,
                    Some(Object { size, ..b[at + 1]->0 }),
                ),
                es,
                i + 1,
            )
        }),
{
    reveal(sizing);
    let at = a.len() + 2 * cows(es, i);
    lemma_cows_bound(es, i, es.len() as int);
    let c = b.update(at, Some(Object { size, ..b[at]->0 })).update(
        at + 1,
        Some(Object { size, ..b[at + 1]->0 }),
    );
    assert forall|j: int| 0 <= j < es.len() && is_cow(#[trigger] es[j]) implies ({
        let o = object_of(es[j].mapping)->0;
        let p = a[o as int]->0;
        let x = a.len() + 2 * cows(es, j);
        let want = if j < i + 1 {
            (es[j].hi - es[j].lo) as u64
        } else {
            p.size
        };
        &&& sized_shadow(c[x], o, p, want)
        &&& sized_shadow(c[x + 1], o, p, want)
    }) by {
        lemma_cows_bound(es, j, es.len() as int);
        if j < i {
            lemma_cows_bound(es, j, i);
        } else if i < j {
            lemma_cows_bound(es, i, j);
        }
    }
}

proof fn lemma_sizing_starts(a: Objects<PageRef>, b: Objects<PageRef>, es: Entries)
    requires
        forked_store(a, b, es, es.len() as int),
    ensures
        sizing(a, b, es, 0),
{
    reveal(sizing);
    assert(es.take(es.len() as int) =~= es);
}

proof fn lemma_sizing_ends(a: Objects<PageRef>, b: Objects<PageRef>, es: Entries)
    requires
        sizing(a, b, es, es.len() as int),
    ensures
        forked_objects(a, b, es),
{
    reveal(sizing);
}

/// The child has all parts.
proof fn lemma_complete(ces: Entries, es: Entries, base: int)
    requires
        made_of(ces, es, base, es.len() as int, es.len() as int),
    ensures
        ces.len() == es.len(),
        forall|i: int| 0 <= i < es.len() ==> ces.contains(#[trigger] child_part(es, base, i)),
{
    reveal(made_of);
    let n = es.len() as int;
    lemma_all_given(es, n, n);
    assert forall|j: int| 0 <= j < n implies ces.contains(#[trigger] child_part(es, base, j)) by {
        assert(given(es, j, n, n));
        reveal(has_part);
    }
}

proof fn lemma_stays(a: Objects<PageRef>, b: Objects<PageRef>, es: Entries, i: int)
    requires
        sizing(a, b, es, i),
        0 <= i < es.len(),
        !is_cow(es[i]),
    ensures
        sizing(a, b, es, i + 1),
{
    reveal(sizing);
}

/// After a plain fork the child has every entry of the parent.  One that has an object and can be written,
/// of whatever kind, has another object in the parent and yet another in the child: both are new, without
/// pages, and see through to the object that the parent had, and to its file where it has one.  One that
/// cannot be written has the same object on both sides.
pub proof fn law_plain_fork_separates_memory(
    a: Objects<PageRef>,
    b: Objects<PageRef>,
    es: Entries,
    pes: Entries,
    ces: Entries,
)
    requires
        b.len() <= usize::MAX,
        forked_objects(a, b, es),
        pes == parent_after(es, a.len() as int, es.len() as int),
        forall|i: int| 0 <= i < es.len() ==> ces.contains(#[trigger] child_part(es, a.len() as int, i)),
    ensures
        forall|i: int| 0 <= i < es.len() ==> exists|j: int|
        0 <= j < ces.len() && (#[trigger] ces[j]).lo == (#[trigger] es[i]).lo
            && ces[j].hi == es[i].hi && ces[j].protection
            == es[i].protection && same_kind(ces[j].mapping, es[i].mapping),
        forall|i: int| 0 <= i < es.len() && object_of((#[trigger] es[i]).mapping) is Some ==> ({
        let o = object_of(es[i].mapping)->0;
        let p = pes[i];
        &&& p.lo == es[i].lo && p.hi == es[i].hi && p.protection == es[i].protection
        &&& offset_of(p.mapping) == offset_of(es[i].mapping) && same_kind(p.mapping, es[i].mapping)
        &&& es[i].protection.0 / 2 % 2 == 0 ==> p.mapping == es[i].mapping && exists|j: int|
            0 <= j < ces.len() && (#[trigger] ces[j]).lo == es[i].lo && ces[j].hi == es[i].hi
                && ces[j].protection == es[i].protection && ces[j].mapping == es[i].mapping
        &&& es[i].protection.0 / 2 % 2 == 1 ==> {
            &&& object_of(p.mapping) matches Some(mine) && mine >= a.len() && mine < b.len()
                && b[mine as int] is Some
                && (b[mine as int]->0).pages@ == Map::<u64, PageRef>::empty()
                && (b[mine as int]->0).backing == Some(o)
                && (b[mine as int]->0).pager == (match (a[o as int]->0).pager { Some(PagerRef::Vnode(q)) => Some(PagerRef::Vnode(q)), _ => Some(PagerRef::Anon) })
            &&& exists|j: int|
                0 <= j < ces.len() && (#[trigger] ces[j]).lo == es[i].lo && ces[j].hi == es[i].hi
                    && ces[j].protection == es[i].protection
                    && offset_of(ces[j].mapping) == offset_of(es[i].mapping)
                    && same_kind(ces[j].mapping, es[i].mapping)
                    && (object_of(ces[j].mapping) matches Some(theirs)
                    && theirs != object_of(p.mapping)->0 && theirs >= a.len() && theirs < b.len()
                    && b[theirs as int] is Some
                    && (b[theirs as int]->0).pages@ == Map::<u64, PageRef>::empty()
                    && (b[theirs as int]->0).backing == Some(o)
                    && (b[theirs as int]->0).pager == (match (a[o as int]->0).pager { Some(PagerRef::Vnode(q)) => Some(PagerRef::Vnode(q)), _ => Some(PagerRef::Anon) }))
        }
    }),
{
    let base = a.len() as int;
    let n = es.len() as int;
    assert forall|i: int| 0 <= i < es.len() implies exists|j: int|
        0 <= j < ces.len() && (#[trigger] ces[j]).lo == (#[trigger] es[i]).lo
            && ces[j].hi == es[i].hi && ces[j].protection
            == es[i].protection && same_kind(ces[j].mapping, es[i].mapping) by {
        let x = child_part(es, base, i);
        assert(ces.contains(x));
        let j = choose|j: int| 0 <= j < ces.len() && ces[j] == x;
        assert(ces[j].lo == es[i].lo);
    }
    assert forall|i: int| 0 <= i < es.len() && object_of((#[trigger] es[i]).mapping) is Some implies ({
        let o = object_of(es[i].mapping)->0;
        let p = pes[i];
        &&& p.lo == es[i].lo && p.hi == es[i].hi && p.protection == es[i].protection
        &&& offset_of(p.mapping) == offset_of(es[i].mapping) && same_kind(p.mapping, es[i].mapping)
        &&& es[i].protection.0 / 2 % 2 == 0 ==> p.mapping == es[i].mapping && exists|j: int|
            0 <= j < ces.len() && (#[trigger] ces[j]).lo == es[i].lo && ces[j].hi == es[i].hi
                && ces[j].protection == es[i].protection && ces[j].mapping == es[i].mapping
        &&& es[i].protection.0 / 2 % 2 == 1 ==> {
            &&& object_of(p.mapping) matches Some(mine) && mine >= a.len() && mine < b.len()
                && b[mine as int] is Some
                && (b[mine as int]->0).pages@ == Map::<u64, PageRef>::empty()
                && (b[mine as int]->0).backing == Some(o)
                && (b[mine as int]->0).pager == (match (a[o as int]->0).pager { Some(PagerRef::Vnode(q)) => Some(PagerRef::Vnode(q)), _ => Some(PagerRef::Anon) })
            &&& exists|j: int|
                0 <= j < ces.len() && (#[trigger] ces[j]).lo == es[i].lo && ces[j].hi == es[i].hi
                    && ces[j].protection == es[i].protection
                    && offset_of(ces[j].mapping) == offset_of(es[i].mapping)
                    && same_kind(ces[j].mapping, es[i].mapping)
                    && (object_of(ces[j].mapping) matches Some(theirs)
                    && theirs != object_of(p.mapping)->0 && theirs >= a.len() && theirs < b.len()
                    && b[theirs as int] is Some
                    && (b[theirs as int]->0).pages@ == Map::<u64, PageRef>::empty()
                    && (b[theirs as int]->0).backing == Some(o)
                    && (b[theirs as int]->0).pager == (match (a[o as int]->0).pager { Some(PagerRef::Vnode(q)) => Some(PagerRef::Vnode(q)), _ => Some(PagerRef::Anon) }))
        }
    }) by {
        if is_cow(es[i]) {
            let o = object_of(es[i].mapping)->0;
            let at = a.len() + 2 * cows(es, i);
            let size = (es[i].hi - es[i].lo) as u64;
            assert(sized_shadow(b[at], o, a[o as int]->0, size));
            assert(sized_shadow(b[at + 1], o, a[o as int]->0, size));
        }
        assert(ces.contains(child_part(es, base, i)));
        lemma_written_memory_is_separate(a, b, es, n, ces, i);
    }
}

/// Give a child, which has no memory yet, the memory of its parent: entries that can be
/// written get a shadow on either side, the others are shared, and guards are copied.
/// Pages that are mapped are entered into the child, and where a shadow stands before them
/// neither side may write them.  Returns the pages whose translation in the parent changed,
/// to be flushed on every CPU.
#[verifier::rlimit(60)]
pub fn cow_fork_vm(
    parent: &mut VmMap,
    child: &mut VmMap,
    store: &mut VmObjects,
    pool: &mut FramePool,
    cpu: usize,
) -> (r: Vec<u64>)
    requires
        space_ready(old(parent), old(child), old(store), old(pool), cpu),
        old(child).entries().len() == 0,
        whole_pages(old(parent).entries()),
    ensures
        final(parent).wf(),
        final(child).wf(),
        final(store).wf(),
        final(pool).inv(),
        pool_holdable(final(pool)),
        final(store).pagers == old(store).pagers,
        final(parent).pmap.same_identity(&old(parent).pmap),
        final(parent).pmap.same_tables(&old(parent).pmap),
        final(parent).pmap.stats == old(parent).pmap.stats,
        final(child).pmap.same_identity(&old(child).pmap),
        final(child).pmap.stats.wired_count == old(child).pmap.stats.wired_count,
        forall|p: int| #[trigger] final(pool).pool_free(p) ==> old(pool).pool_free(p),
        forked_objects(old(store).objects@, final(store).objects@, old(parent).entries()),
        r@ == dirty_pages(
            &old(parent).pmap,
            old(parent).entries(),
            old(parent).entries().len() as int,
        ),
        ({
            let es = old(parent).entries();
            let base = old(store).objects@.len() as int;
            &&& final(parent).entries() == parent_after(es, base, es.len() as int)
            &&& final(child).entries().len() == es.len()
            &&& final(parent).timestamp == old(parent).timestamp
            &&& final(child).timestamp == raised(old(child).timestamp, es.len() as int)
            &&& forall|i: int|
                0 <= i < es.len() ==> final(child).entries().contains(
                    #[trigger] child_part(es, base, i),
                )
            &&& forall|v: int| #[trigger]
                final(parent).pmap.entry_at(v) == cow_pte(
                    es,
                    es.len() as int,
                    old(parent).pmap.entry_at(v),
                    v,
                )
            &&& forked_in_turn(
                &old(parent).pmap,
                &old(child).pmap,
                &final(child).pmap,
                old(pool),
                final(pool),
                cpu as int,
                es,
                es.len() as int,
            )
            &&& entries_enter(
                &final(child).pmap,
                final(pool),
                es,
                es.len() as int,
            ) ==> forall|v: int| #[trigger]
                final(child).pmap.entry_at(v) == child_pte(
                    es,
                    es.len() as int,
                    old(parent).pmap.entry_at(v),
                    old(child).pmap.entry_at(v),
                    v,
                )
        }),
        forall|i: int|
            0 <= i < old(parent).entries().len() ==> exists|j: int|
                0 <= j < final(child).entries().len()
                    && (#[trigger] final(child).entries()[j]).lo == (#[trigger] old(parent).entries()[i]).lo
                        && final(child).entries()[j].hi == old(parent).entries()[i].hi
                        && final(child).entries()[j].protection == old(parent).entries()[i].protection
                        && same_kind(final(child).entries()[j].mapping, old(parent).entries()[i].mapping),
        forall|i: int|
            0 <= i < old(parent).entries().len()
                && object_of((#[trigger] old(parent).entries()[i]).mapping) is Some ==> ({
            let o = object_of(old(parent).entries()[i].mapping)->0;
            let p = final(parent).entries()[i];
            &&& p.lo == old(parent).entries()[i].lo && p.hi == old(parent).entries()[i].hi
                && p.protection == old(parent).entries()[i].protection
            &&& offset_of(p.mapping) == offset_of(old(parent).entries()[i].mapping)
                && same_kind(p.mapping, old(parent).entries()[i].mapping)
            &&& old(parent).entries()[i].protection.0 / 2 % 2 == 0
                ==> p.mapping == old(parent).entries()[i].mapping && exists|j: int|
                0 <= j < final(child).entries().len()
                    && (#[trigger] final(child).entries()[j]).lo == old(parent).entries()[i].lo
                    && final(child).entries()[j].hi == old(parent).entries()[i].hi
                    && final(child).entries()[j].protection == old(parent).entries()[i].protection
                    && final(child).entries()[j].mapping == old(parent).entries()[i].mapping
            &&& old(parent).entries()[i].protection.0 / 2 % 2 == 1 ==> {
                &&& object_of(p.mapping) matches Some(mine) && mine >= old(store).objects@.len()
                    && mine < final(store).objects@.len()
                    && final(store).objects@[mine as int] is Some
                    && (final(store).objects@[mine as int]->0).pages@ == Map::<u64, PageRef>::empty()
                        && (final(store).objects@[mine as int]->0).backing == Some(o)
                        && (final(store).objects@[mine as int]->0).pager == (match (old(store).objects@[o as int]->0).pager { Some(PagerRef::Vnode(q)) => Some(PagerRef::Vnode(q)), _ => Some(PagerRef::Anon) })
                &&& exists|j: int|
                    0 <= j < final(child).entries().len()
                        && (#[trigger] final(child).entries()[j]).lo == old(parent).entries()[i].lo
                        && final(child).entries()[j].hi == old(parent).entries()[i].hi
                        && final(child).entries()[j].protection == old(parent).entries()[i].protection
                            && offset_of(final(child).entries()[j].mapping) == offset_of(old(parent).entries()[i].mapping)
                            && same_kind(final(child).entries()[j].mapping, old(parent).entries()[i].mapping)
                            && (object_of(final(child).entries()[j].mapping) matches Some(theirs)
                            && theirs != object_of(p.mapping)->0
                            && theirs >= old(store).objects@.len()
                            && theirs < final(store).objects@.len()
                            && final(store).objects@[theirs as int] is Some
                            && (final(store).objects@[theirs as int]->0).pages@ == Map::<u64, PageRef>::empty()
                            && (final(store).objects@[theirs as int]->0).backing == Some(o)
                            && (final(store).objects@[theirs as int]->0).pager == (match (old(store).objects@[o as int]->0).pager { Some(PagerRef::Vnode(q)) => Some(PagerRef::Vnode(q)), _ => Some(PagerRef::Anon) }))
            }
        }),
        forall|i: int, v: int|
            0 <= i < old(parent).entries().len()
                && (#[trigger] old(parent).entries()[i]).lo <= v < old(parent).entries()[i].hi
                && old(parent).entries()[i].protection.0 / 2 % 2 == 1
                && object_of(old(parent).entries()[i].mapping) is Some
                && final(parent).pmap.entry_at(v) % 2 == 1
                && final(parent).pmap.entry_at(v) / 2 % 8 != 0
                ==> (#[trigger] final(parent).pmap.entry_at(v)) / 4 % 2 == 0,
        forall|v: int| 0 <= v
            ==> (#[trigger] final(parent).pmap.entry_at(v)) % 2 == old(parent).pmap.entry_at(v) % 2
            && final(parent).pmap.entry_at(v) as int / 1024 % 0x1000_0000_0000 == old(parent).pmap.entry_at(v) as int / 1024 % 0x1000_0000_0000,
        forall|v: int| 0 <= v
            ==> (#[trigger] final(child).pmap.entry_at(v)) == old(child).pmap.entry_at(v)
            || final(child).pmap.entry_at(v) % 2 == 1 && final(child).pmap.entry_at(v) / 4 % 2 == 0
            && old(parent).pmap.entry_at(v) % 2 == 1
            && final(child).pmap.entry_at(v) as int / 1024 % 0x1000_0000_0000 == old(parent).pmap.entry_at(v) as int / 1024 % 0x1000_0000_0000,
{
    let ghost es = parent.entries();
    let ghost a = store.objects@;
    let ghost base = a.len() as int;
    let ghost n = es.len() as int;
    let all = parent.copy_entries();
    let mut batch = ShootdownBatch {
        dirty_vas: Vec::new(),
        asid: parent.pmap.asid,
        quiesce: QuiesceGuard { quiesced_mask: 0 },
    };
    let ghost none: Entries = Seq::empty();
    proof {
        assert(child.entries() =~= none);
        assert forall|j: int| 0 <= j < n implies !blocked(none, #[trigger] es[j]) by {
            assert(es[j].lo() < es[j].hi());
        }
        lemma_stop(none, es, 0, n);
    }
    let _ = parent.cow_fork_into(child, store, pool, cpu, &mut batch);
    let mine = parent.copy_entries();
    proof {
        lemma_objects_given(es, base, n);
        lemma_sizing_starts(a, store.objects@, es);
    }
    let changed = batch.dirty_vas;
    assert(changed@ =~= dirty_pages(&old(parent).pmap, es, n));
    let ghost child_pmap = child.pmap;
    let ghost ts = old(child).timestamp;
    let mut i: usize = 0;
    while i < all.len()
        invariant
            i <= n,
            n == es.len(),
            all@ == es,
            mine@ == parent_after(es, base, n),
            base == a.len(),
            child.wf(),
            store.wf(),
            child.pmap == child_pmap,
            child.timestamp == raised(ts, child.entries().len() as int),
            store.pagers == old(store).pagers,
            ordered(es),
            whole_pages(es),
            forall|j: int|
                0 <= j < n ==> (#[trigger] es[j]).hi + 4095 <= u64::MAX,
            made_of(child.entries(), es, base, n, i as int),
            sizing(a, store.objects@, es, i as int),
        decreases n - i,
    {
        let e = all[i];
        proof {
            assert(es[i as int].lo() < es[i as int].hi());
        }
        match e.mapping.object() {
            None => {
                let ghost before = child.entries();
                let part = VmMapEntry::new(e.start(), e.end(), e.mapping, e.protection);
                proof {
                    assert(part == child_part(es, base, i as int));
                    lemma_room(before, es, base, n, i as int, i as int);
                    lemma_few(before, es, base, n, i as int);
                }
                let _ = child.insert_entry(part);
                proof {
                    lemma_rank_bound(before, part.lo as int);
                    lemma_one_part(
                        before,
                        es,
                        base,
                        n,
                        i as int,
                        n,
                        i + 1,
                        i as int,
                        rank(before, part.lo as int),
                    );
                    lemma_stays(a, store.objects@, es, i as int);
                }
            },
            Some(_) => {
                proof {
                    lemma_same_parts(child.entries(), es, base, n, i as int, n, i + 1);
                }
                if e.protection.contains(MapPerm::W()) {
                    let size = e.size();
                    let len = store.objects.len();
                    proof {
                        lemma_sizing(a, store.objects@, es, i as int, size);
                        assert(object_of(mine@[i as int].mapping) == Some(
                            (base + 2 * cows(es, i as int)) as usize,
                        ));
                        assert(base + 2 * cows(es, i as int) < len);
                    }
                    if let Some(p) = mine[i].mapping.object() {
                        size_shadows(store, p, size);
                    }
                } else {
                    proof {
                        lemma_stays(a, store.objects@, es, i as int);
                    }
                }
            },
        }
        i += 1;
    }
    proof {
        lemma_complete(child.entries(), es, base);
        lemma_sizing_ends(a, store.objects@, es);
        assert(store.objects.len() == store.objects@.len());
        law_plain_fork_separates_memory(a, store.objects@, es, parent.entries(), child.entries());
    }
    changed
}

/// There is always room to count one part more.
proof fn lemma_few(ces: Entries, es: Entries, base: int, k: int, i: int)
    requires
        made_of(ces, es, base, k, i),
        0 <= i < es.len(),
        !given(es, i, k, i),
    ensures
        ces.len() < es.len(),
{
    reveal(made_of);
    lemma_parts_bound(es, es.len() as int, k, i);
    lemma_parts_step(es, es.len() as int, k, i, k, i + 1, i);
    lemma_parts_bound(es, es.len() as int, k, i + 1);
}

proof fn lemma_parts_bound(es: Entries, n: int, k: int, i: int)
    requires
        0 <= n,
    ensures
        0 <= parts(es, n, k, i) <= n,
    decreases n,
{
    if n > 0 {
        lemma_parts_bound(es, n - 1, k, i);
    }
}

/// The page of the signal trampoline was entered into the child, or it could not be: a
/// large page is in the way or no frame is left for a table.
pub open spec fn sigcode_entered(
    before: &Pmap,
    after: &Pmap,
    pool0: &FramePool,
    pool1: &FramePool,
    cpu: int,
    frame: u64,
) -> bool {
    let raw = entry_of(frame, enter_flags(MapPerm(13), false));
    ||| entered(before, after, pool0, pool1, cpu, SIGCODE_VA as int, raw, true)
    ||| entered(before, after, pool0, pool1, cpu, SIGCODE_VA as int, raw, false)
}

/// Enter the page of the signal trampoline that the parent has into the child, or a page of
/// its own where the parent has none.  The contents of such a page, which is returned, are
/// the caller's to write.
pub fn share_sigcode(parent: &Pmap, child: &mut Pmap, pool: &mut FramePool, cpu: usize) -> (r: Option<
    PhysAddr,
>)
    requires
        parent.wf(),
        old(child).wf(),
        old(pool).inv(),
        pool_holdable(old(pool)),
        cpu < NUM_MAGAZINES,
        old(child).stats.wired_count < usize::MAX,
        !maps(parent.entry_at(SIGCODE_VA as int)) ==> exists|p: int| #[trigger] old(pool).pool_free(p),
    ensures
        final(child).wf(),
        final(pool).inv(),
        forall|p: int| #[trigger] final(pool).pool_free(p) ==> old(pool).pool_free(p),
        pool_holdable(final(pool)),
        final(child).same_identity(old(child)),
        r is None <==> maps(parent.entry_at(SIGCODE_VA as int)),
        match r {
            None => sigcode_entered(
                old(child),
                final(child),
                old(pool),
                final(pool),
                cpu as int,
                addr_of(parent.entry_at(SIGCODE_VA as int)),
            ),
            Some(frame) => sigcode_made(
                old(child),
                final(child),
                old(pool),
                final(pool),
                cpu as int,
                frame,
            ),
        },
{
    match pmap_extract(parent, VirtAddr::new(SIGCODE_VA)) {
        Some(pa) => {
            proof {
                lemma_joined();
            }
            let prot = MapPerm::R() | MapPerm::X() | MapPerm::U();
            let _ = pmap_enter(child, pool, cpu, VirtAddr::new(SIGCODE_VA), pa, prot, false);
            None
        },
        None => Some(map_sigcode_page(child, pool, cpu)),
    }
}

/// Create a child with a copy of everything that the process has: memory, registers, signal
/// actions and what it blocks.  `space` and `files` are the places of an empty address space,
/// `child_vm`, and of a file table; the files are the caller's to copy.  Returns the child,
/// and the pages of the parent whose translation changed, to be flushed on every CPU.
pub fn fork(
    parent: &mut Task,
    parent_vm: &mut VmMap,
    child_vm: &mut VmMap,
    space: usize,
    files: usize,
    kstack: (PhysAddr, u64),
    pids: &mut PidAllocator,
    store: &mut VmObjects,
    pool: &mut FramePool,
    cpu: usize,
) -> (r: (Task, Vec<u64>))
    requires
        old(parent).wf(),
        old(pids).wf(),
        old(pids).next < u32::MAX,
        space_ready(old(parent_vm), old(child_vm), old(store), old(pool), cpu),
        old(child_vm).entries().len() == 0,
        whole_pages(old(parent_vm).entries()),
    ensures
        final(parent).wf(),
        final(pids).wf(),
        final(pids).next == old(pids).next + 1,
        final(parent_vm).wf(),
        final(child_vm).wf(),
        final(store).wf(),
        final(store).pagers == old(store).pagers,
        final(parent_vm).pmap.same_identity(&old(parent_vm).pmap),
        final(parent_vm).pmap.same_tables(&old(parent_vm).pmap),
        final(parent_vm).pmap.stats == old(parent_vm).pmap.stats,
        final(child_vm).pmap.same_identity(&old(child_vm).pmap),
        final(child_vm).pmap.stats.wired_count == old(child_vm).pmap.stats.wired_count,
        final(pool).inv(),
        forall|p: int| #[trigger] final(pool).pool_free(p) ==> old(pool).pool_free(p),
        pool_holdable(final(pool)),
        r.0.pid == old(pids).next,
        is_child(*old(parent), r.0, CloneFlags(0), 0, 0, space, files, kstack),
        ({
            let child = r.0;
            child.parent == Some(old(parent).pid) && child.pgid == old(parent).pgid
                && child.cwd@ == old(parent).cwd@ && child.brk == old(parent).brk
                && child.state == TaskState::Running
                && child.trap_frame.sepc == old(parent).trap_frame.sepc.wrapping_add(4)
                && child.signals.actions@ == old(parent).signals.actions@
                && child.signals.pending.0.0 == 0
                && child.signals.blocked.0 == old(parent).signals.blocked.0
                && child.trap_frame.x@.len() == 32 && (forall|i: int|
            0 <= i < 32 ==> #[trigger] child.trap_frame.x@[i] == if i == 10 {
                0
            } else {
                old(parent).trap_frame.x@[i]
            }) && child.vm_map == space && child.fd_table == files
        }),
        r.1@ == dirty_pages(
            &old(parent_vm).pmap,
            old(parent_vm).entries(),
            old(parent_vm).entries().len() as int,
        ),
        *final(parent) == (Task { children: final(parent).children, ..*old(parent) }),
        final(parent).children@ == old(parent).children@.push(r.0.pid),
        forked_objects(old(store).objects@, final(store).objects@, old(parent_vm).entries()),
        ({
            let es = old(parent_vm).entries();
            let base = old(store).objects@.len() as int;
            &&& final(parent_vm).entries() == parent_after(es, base, es.len() as int)
            &&& final(child_vm).entries().len() == es.len()
            &&& final(parent_vm).timestamp == old(parent_vm).timestamp
            &&& final(child_vm).timestamp == raised(old(child_vm).timestamp, es.len() as int)
            &&& forall|i: int|
                0 <= i < es.len() ==> final(child_vm).entries().contains(
                    #[trigger] child_part(es, base, i),
                )
            &&& forall|v: int| #[trigger]
                final(parent_vm).pmap.entry_at(v) == cow_pte(
                    es,
                    es.len() as int,
                    old(parent_vm).pmap.entry_at(v),
                    v,
                )
            &&& forked_in_turn(
                &old(parent_vm).pmap,
                &old(child_vm).pmap,
                &final(child_vm).pmap,
                old(pool),
                final(pool),
                cpu as int,
                es,
                es.len() as int,
            )
            &&& entries_enter(
                &final(child_vm).pmap,
                final(pool),
                es,
                es.len() as int,
            ) ==> forall|v: int| #[trigger]
                final(child_vm).pmap.entry_at(v) == child_pte(
                    es,
                    es.len() as int,
                    old(parent_vm).pmap.entry_at(v),
                    old(child_vm).pmap.entry_at(v),
                    v,
                )
        }),
        forall|i: int|
            0 <= i < old(parent_vm).entries().len() ==> exists|j: int|
                0 <= j < final(child_vm).entries().len()
                    && (#[trigger] final(child_vm).entries()[j]).lo == (#[trigger] old(parent_vm).entries()[i]).lo
                        && final(child_vm).entries()[j].hi == old(parent_vm).entries()[i].hi
                        && final(child_vm).entries()[j].protection == old(parent_vm).entries()[i].protection
                        && same_kind(final(child_vm).entries()[j].mapping, old(parent_vm).entries()[i].mapping),
        forall|i: int|
            0 <= i < old(parent_vm).entries().len()
                && object_of((#[trigger] old(parent_vm).entries()[i]).mapping) is Some ==> ({
            let o = object_of(old(parent_vm).entries()[i].mapping)->0;
            let p = final(parent_vm).entries()[i];
            &&& p.lo == old(parent_vm).entries()[i].lo && p.hi == old(parent_vm).entries()[i].hi
                && p.protection == old(parent_vm).entries()[i].protection
            &&& offset_of(p.mapping) == offset_of(old(parent_vm).entries()[i].mapping)
                && same_kind(p.mapping, old(parent_vm).entries()[i].mapping)
            &&& old(parent_vm).entries()[i].protection.0 / 2 % 2 == 0
                ==> p.mapping == old(parent_vm).entries()[i].mapping && exists|j: int|
                0 <= j < final(child_vm).entries().len()
                    && (#[trigger] final(child_vm).entries()[j]).lo == old(parent_vm).entries()[i].lo
                        && final(child_vm).entries()[j].hi == old(parent_vm).entries()[i].hi
                        && final(child_vm).entries()[j].protection == old(parent_vm).entries()[i].protection
                        && final(child_vm).entries()[j].mapping == old(parent_vm).entries()[i].mapping
            &&& old(parent_vm).entries()[i].protection.0 / 2 % 2 == 1 ==> {
                &&& object_of(p.mapping) matches Some(mine) && mine >= old(store).objects@.len()
                    && mine < final(store).objects@.len()
                    && final(store).objects@[mine as int] is Some
                    && (final(store).objects@[mine as int]->0).pages@ == Map::<u64, PageRef>::empty()
                        && (final(store).objects@[mine as int]->0).backing == Some(o)
                        && (final(store).objects@[mine as int]->0).pager == (match (old(store).objects@[o as int]->0).pager { Some(PagerRef::Vnode(q)) => Some(PagerRef::Vnode(q)), _ => Some(PagerRef::Anon) })
                &&& exists|j: int|
                    0 <= j < final(child_vm).entries().len()
                        && (#[trigger] final(child_vm).entries()[j]).lo == old(parent_vm).entries()[i].lo
                            && final(child_vm).entries()[j].hi == old(parent_vm).entries()[i].hi
                            && final(child_vm).entries()[j].protection == old(parent_vm).entries()[i].protection
                            && offset_of(final(child_vm).entries()[j].mapping) == offset_of(old(parent_vm).entries()[i].mapping)
                            && same_kind(final(child_vm).entries()[j].mapping, old(parent_vm).entries()[i].mapping)
                            && (object_of(final(child_vm).entries()[j].mapping) matches Some(theirs)
                            && theirs != object_of(p.mapping)->0
                            && theirs >= old(store).objects@.len()
                            && theirs < final(store).objects@.len()
                            && final(store).objects@[theirs as int] is Some
                            && (final(store).objects@[theirs as int]->0).pages@ == Map::<u64, PageRef>::empty()
                            && (final(store).objects@[theirs as int]->0).backing == Some(o)
                            && (final(store).objects@[theirs as int]->0).pager == (match (old(store).objects@[o as int]->0).pager { Some(PagerRef::Vnode(q)) => Some(PagerRef::Vnode(q)), _ => Some(PagerRef::Anon) }))
            }
        }),
        forall|i: int, v: int|
            0 <= i < old(parent_vm).entries().len()
                && (#[trigger] old(parent_vm).entries()[i]).lo <= v < old(parent_vm).entries()[i].hi
                && old(parent_vm).entries()[i].protection.0 / 2 % 2 == 1
                && object_of(old(parent_vm).entries()[i].mapping) is Some
                && final(parent_vm).pmap.entry_at(v) % 2 == 1
                && final(parent_vm).pmap.entry_at(v) / 2 % 8 != 0
                ==> (#[trigger] final(parent_vm).pmap.entry_at(v)) / 4 % 2 == 0,
        forall|v: int| 0 <= v
            ==> (#[trigger] final(parent_vm).pmap.entry_at(v)) % 2 == old(parent_vm).pmap.entry_at(v) % 2
                && final(parent_vm).pmap.entry_at(v) as int / 1024 % 0x1000_0000_0000 == old(parent_vm).pmap.entry_at(v) as int / 1024 % 0x1000_0000_0000,
        forall|v: int| 0 <= v
            ==> (#[trigger] final(child_vm).pmap.entry_at(v)) == old(child_vm).pmap.entry_at(v)
            || final(child_vm).pmap.entry_at(v) % 2 == 1
            && final(child_vm).pmap.entry_at(v) / 4 % 2 == 0
            && old(parent_vm).pmap.entry_at(v) % 2 == 1
            && final(child_vm).pmap.entry_at(v) as int / 1024 % 0x1000_0000_0000 == old(parent_vm).pmap.entry_at(v) as int / 1024 % 0x1000_0000_0000,
{
    let mut child = Task::new(Some(&*parent), pids, kstack, space, files);
    let changed = cow_fork_vm(parent_vm, child_vm, store, pool, cpu);
    inherit(parent, &mut child, CloneFlags(0), 0, 0);
    parent.children.push(child.pid);
    assert(forall|x: u64| 0u64 & x == 0) by (bit_vector);
    proof {
        let x = old(parent).trap_frame.x@;
        assert forall|i: int| 0 <= i < 32 implies #[trigger] child.trap_frame.x@[i] == if i == 10 {
            0
        } else {
            x[i]
        } by {
            law_child_starts_like_parent(x, CloneFlags(0), 0, 0, i);
        }
    }
    (child, changed)
}

/// What is seen through an entry of the parent before a fork is seen through it, and through
/// the child's, after it.
pub proof fn law_plain_fork_keeps_view(
    a: Objects<PageRef>,
    b: Objects<PageRef>,
    es: Entries,
    i: int,
    k: u64,
)
    requires
        store_wf(a),
        forked_objects(a, b, es),
        0 <= i < es.len(),
        object_of(es[i].mapping) matches Some(o) && live(a, o as int),
    ensures
        ({
            let o = object_of(es[i].mapping)->0 as int;
            let at = a.len() + 2 * cows(es, i);
            &&& lookup(b, o, k) == lookup(a, o, k)
            &&& is_cow(es[i]) ==> lookup(b, at, k) == lookup(a, o, k)
            &&& is_cow(es[i]) ==> lookup(b, at + 1, k) == lookup(a, o, k)
        }),
{
    let o = object_of(es[i].mapping)->0;
    let at = a.len() + 2 * cows(es, i);
    lemma_cows_bound(es, 0, es.len() as int);
    assert forall|x: int| #[trigger] live(a, x) implies (b[x] matches Some(o) && o.pages == (
    a[x]->0).pages && o.backing == (a[x]->0).backing) by {
        assert(b[x] == stepped(a[x], handles(es, x), 2 * cow_handles(es, x)));
    }
    lemma_lookup_stepped(a, b, o as int, k);
    if is_cow(es[i]) {
        lemma_cows_bound(es, i, es.len() as int);
        let size = (es[i].hi - es[i].lo) as u64;
        assert(sized_shadow(b[at], o, a[o as int]->0, size));
        assert(sized_shadow(b[at + 1], o, a[o as int]->0, size));
    }
}

/// The page of the signal trampoline is translated in the child wherever that is possible: to the page of
/// the parent, to be read and executed but not written by the user; and no other translation changes.
pub proof fn law_child_has_trampoline(
    before: &Pmap,
    after: &Pmap,
    pool0: &FramePool,
    pool1: &FramePool,
    cpu: int,
    frame: u64,
    v: int,
)
    requires
        sigcode_entered(before, after, pool0, pool1, cpu, frame),
        frame < 0x100_0000_0000_0000,
    ensures
        ({
            let at: int = 0x3F_FFFF_F000;
            let raw = after.entry_at(at);
            &&& !before.root.large_at(at) && (exists|p: int| #[trigger] pool1.pool_free(p)) ==> raw % 2
                == 1 && raw / 2 % 2 == 1 && raw / 4 % 2 == 0 && raw / 8 % 2 == 1 && raw / 16 % 2 == 1
                && raw as int / 1024 % 0x1000_0000_0000 * 4096 == frame as int / 4096 * 4096
            &&& !same_page(at, v) ==> after.entry_at(v) == before.entry_at(v)
        }),
{
    lemma_entry_bits(frame, MapPerm(13));
    assert(same_page(SIGCODE_VA as int, SIGCODE_VA as int));
}

/// The two new objects of an entry that can be written are as large as the entry.
pub proof fn law_shadows_are_as_large_as_entries(
    a: Objects<PageRef>,
    b: Objects<PageRef>,
    es: Entries,
    i: int,
)
    requires
        forked_objects(a, b, es),
        0 <= i < es.len(),
        object_of(es[i].mapping) is Some,
        es[i].protection.0 / 2 % 2 == 1,
        es[i].lo <= es[i].hi,
        b.len() <= usize::MAX,
    ensures
        ({
            let mine = object_of(parent_after(es, a.len() as int, es.len() as int)[i].mapping)->0;
            let theirs = object_of(child_part(es, a.len() as int, i).mapping)->0;
            &&& (b[mine as int]->0).size == es[i].hi - es[i].lo
            &&& (b[theirs as int]->0).size == es[i].hi - es[i].lo
        }),
{
    lemma_write_bit(es[i].protection);
    lemma_cows_bound(es, 0, i);
    lemma_cows_bound(es, i, es.len() as int);
    let o = object_of(es[i].mapping)->0;
    let at = a.len() + 2 * cows(es, i);
    let size = (es[i].hi - es[i].lo) as u64;
    assert(is_cow(es[i]));
    assert(sized_shadow(b[at], o, a[o as int]->0, size));
    assert(sized_shadow(b[at + 1], o, a[o as int]->0, size));
}

} // verus!
