//! Page faults that have to wait for a file.
//!
//! Such a fault goes in steps, between which no lock is held: a snapshot of what backs
//! the address; a look into the object, which may end in a frame to be filled; and,
//! when the frame was filled, a second look.  The map may change between the steps.
//! Its timestamp shows that, and what backs the address is then checked again.  While a
//! fault is in progress the caller keeps a handle to the object.
use vstd::prelude::*;
use crate::hal::addr::{page_floor, PhysAddr, VirtAddr};
use crate::hal::errno::Errno;
use crate::mm::allocator::buddy::fits;
use crate::mm::allocator::frame_allocator::{
    alloc_raw_frame_sync, frame_allocated, reference_dropped, FramePool, NUM_MAGAZINES,
};
use crate::mm::allocator::types::{pfn, PageRole};
use crate::mm::pmap::pte::entry_of;
use crate::mm::pmap::space::{enter_flags, entered, Pmap, TlbRange};
use crate::mm::pmap::table::{pool_holdable, same_page};
use crate::mm::vm::fault::{
    collapsible, index_at, lemma_entry_bits, page_in_reach, pinned_behind,
};
use crate::mm::vm::map::address_map::{lemma_place, mapped, place_of, VmMap};
use crate::mm::vm::map::entry::object_of;
use crate::mm::vm::map::perm::MapPerm;
use crate::mm::vm::map::splay::found;
use crate::mm::vm::object::{with_page, VObjIndex, VmObject, VmObjects};
use crate::mm::vm::page_ref::PageRef;
use crate::mm::vm::pager::{PageFill, Pager};
use crate::mm::vm::shadow::{collapsed, live, lookup, object_wf, PagerRef};

verus! {

/// What backs the address of a fault.
#[derive(Debug, Clone, Copy)]
pub struct Ticket {
    pub fault_va: VirtAddr,
    pub object: usize,
    pub index: VObjIndex,
    pub perm: MapPerm,
    /// Timestamp of the map when the ticket was made.
    pub timestamp: u32,
}

impl Ticket {
    pub open spec fn wf(&self) -> bool {
        &&& self.index.0 * 4096 <= u64::MAX
        &&& self.fault_va.0 + 4096 <= u64::MAX
    }
}

/// What a step of a fault came to.
#[derive(Debug)]
pub enum AsyncStep {
    /// The fault is over; what has to be flushed, where a page was entered.
    Done(Result<Option<TlbRange>, Errno>),
    /// The frame has to be zeroed and then filled, where there is something to fill it
    /// with.
    Fill { frame: PhysAddr, fill: Option<PageFill> },
}

/// Note what backs the address of a fault.
pub fn fault_snapshot(map: &VmMap, fault_va: VirtAddr) -> (r: Result<Ticket, Errno>)
    requires
        map.wf(),
        page_in_reach(map.entries(), fault_va.0 as int),
    ensures
        ({
            let es = map.entries();
            let va = fault_va.0 as int;
            let e = es[place_of(es, va)];
            match r {
                Ok(t) => {
                    &&& mapped(es, va)
                    &&& object_of(e.mapping) == Some(t.object)
                    &&& t.fault_va == fault_va
                    &&& t.index.0 == index_at(e, va)
                    &&& t.perm == e.protection
                    &&& t.timestamp == map.timestamp
                    &&& t.wf()
                },
                Err(err) => {
                    &&& err == Errno::Efault
                    &&& !mapped(es, va) || object_of(e.mapping) is None
                },
            }
        }),
{
    let ghost es = map.entries();
    match map.lookup_readonly(fault_va) {
        None => Err(Errno::Efault),
        Some(vma) => {
            let ghost i = place_of(es, fault_va.0 as int);
            assert(es[i].hi + 4095 <= u64::MAX);
            match vma.extract_object_offset(fault_va.page_align_down()) {
                None => Err(Errno::Efault),
                Some((object, index)) => Ok(
                    Ticket {
                        fault_va,
                        object,
                        index,
                        perm: vma.protection,
                        timestamp: map.timestamp,
                    },
                ),
            }
        },
    }
}

/// The protection that a fault has to go by now: nothing where the address is no
/// longer mapped, or backed by another object.
pub open spec fn revalidated(map: &VmMap, t: Ticket) -> Option<MapPerm> {
    let es = map.entries();
    let va = t.fault_va.0 as int;
    let e = es[place_of(es, va)];
    if map.timestamp == t.timestamp {
        Some(t.perm)
    } else if !mapped(es, va) {
        None
    } else if object_of(e.mapping) matches Some(o) && o != t.object {
        None
    } else {
        Some(e.protection)
    }
}

/// Check what backs the address of a fault again, where the map has changed.
pub fn revalidate_vma(map: &VmMap, t: &Ticket) -> (r: Option<MapPerm>)
    requires
        map.wf(),
    ensures
        r == revalidated(map, *t),
{
    if map.timestamp == t.timestamp {
        return Some(t.perm);
    }
    match map.lookup_readonly(t.fault_va) {
        None => None,
        Some(vma) => {
            if let Some(object) = vma.mapping.object() {
                if object != t.object {
                    return None;
                }
            }
            Some(vma.protection)
        },
    }
}

/// What entering the page at `pa` for `va` does, where nothing is entered there yet.
pub open spec fn page_inserted(
    before: &Pmap,
    after: &Pmap,
    pool0: &FramePool,
    pool1: &FramePool,
    cpu: int,
    va: int,
    pa: PhysAddr,
    perm: MapPerm,
    r: Result<Option<TlbRange>, Errno>,
) -> bool {
    if before.mapping_at(va) is Some {
        &&& r == Ok::<Option<TlbRange>, Errno>(None)
        &&& *after == *before
        &&& *pool1 == *pool0
    } else {
        &&& entered(
            before,
            after,
            pool0,
            pool1,
            cpu,
            va,
            entry_of(pa.0, enter_flags(perm, false)),
            r is Ok,
        )
        &&& r == if r is Ok {
            Ok(Some(TlbRange { start: va as u64, end: (va + 4096) as u64, asid: before.asid }))
        } else {
            Err(Errno::Enomem)
        }
    }
}

/// Enter a page where nothing is entered yet.
fn insert_at(
    pmap: &mut Pmap,
    pool: &mut FramePool,
    cpu: usize,
    va: VirtAddr,
    pa: PhysAddr,
    perm: MapPerm,
) -> (r: Result<Option<TlbRange>, Errno>)
    requires
        old(pmap).wf(),
        old(pool).inv(),
        pool_holdable(old(pool)),
        cpu < NUM_MAGAZINES,
        va.0 + 4096 <= u64::MAX,
        old(pmap).stats.wired_count < usize::MAX,
    ensures
        final(pmap).wf(),
        final(pool).inv(),
        pool_holdable(final(pool)),
        final(pmap).same_identity(old(pmap)),
        page_inserted(
            old(pmap),
            final(pmap),
            old(pool),
            final(pool),
            cpu as int,
            va.0 as int,
            pa,
            perm,
            r,
        ),
        forall|p: int| #[trigger] final(pool).pool_free(p) ==> old(pool).pool_free(p),
{
    match pmap.entry_or_insert(pool, cpu, va, pa, perm) {
        Ok(flush) => Ok(flush),
        Err(_) => Err(Errno::Enomem),
    }
}

/// The role of a frame for a page of an object: file contents or anonymous memory.
pub open spec fn role_for(pager: Option<PagerRef>) -> PageRole {
    if pager matches Some(PagerRef::Vnode(_)) {
        PageRole::FileCache
    } else {
        PageRole::UserAnon
    }
}

/// How a new page of an object is filled.
pub open spec fn fill_for(store: &VmObjects, o: int, k: u64) -> Option<PageFill> {
    match store.obj(o).pager {
        None => None,
        Some(PagerRef::Anon) => Some(PageFill::Zero),
        Some(PagerRef::Vnode(i)) => Some(store.pagers@[i as int].fill_of((k * 4096) as u64)),
    }
}

/// What the first look does: a page that is there is entered; else the chain is
/// shortened where it can be, and a frame is taken to be filled.
pub open spec fn looked_up(
    map0: &VmMap,
    map1: &VmMap,
    store0: &VmObjects,
    store1: &VmObjects,
    pool0: &FramePool,
    pool1: &FramePool,
    cpu: int,
    t: Ticket,
    r: (AsyncStep, Vec<PageRef>),
) -> bool {
    let objs = store0.objects@;
    let o = t.object as int;
    match lookup(objs, o, t.index.0) {
        Some(pa) => {
            &&& store1.objects@ == objs
            &&& r.1@.len() == 0
            &&& match revalidated(map0, t) {
                None => {
                    &&& r.0 == AsyncStep::Done(Ok(None))
                    &&& map1.pmap == map0.pmap
                    &&& *pool1 == *pool0
                },
                Some(perm) => r.0 matches AsyncStep::Done(done) && page_inserted(
                    &map0.pmap,
                    &map1.pmap,
                    pool0,
                    pool1,
                    cpu,
                    page_floor(t.fault_va.0 as int),
                    pa,
                    perm,
                    done,
                ),
            }
        },
        None => {
            &&& map1.pmap == map0.pmap
            &&& if collapsible(objs, o) {
                collapsed(objs, store1.objects@, o, pinned_behind(pool0.meta@, objs, o), r.1@)
            } else {
                store1.objects@ == objs && r.1@.len() == 0
            }
            &&& match r.0 {
                AsyncStep::Done(done) => {
                    &&& done == Err::<Option<TlbRange>, Errno>(Errno::Enomem)
                    &&& frame_allocated(pool0, pool1, cpu, role_for(store0.obj(o).pager), None)
                },
                AsyncStep::Fill { frame, fill } => {
                    &&& frame_allocated(
                        pool0,
                        pool1,
                        cpu,
                        role_for(store0.obj(o).pager),
                        Some(frame),
                    )
                    &&& fill == fill_for(store0, o, t.index.0)
                },
            }
        },
    }
}

/// Look into the object of a fault.  Pages given up are handed back.
pub fn fault_lookup(
    map: &mut VmMap,
    store: &mut VmObjects,
    pool: &mut FramePool,
    cpu: usize,
    t: &Ticket,
) -> (r: (AsyncStep, Vec<PageRef>))
    requires
        old(map).wf(),
        old(store).wf(),
        t.wf(),
        old(store).has(t.object as int),
        old(pool).inv(),
        pool_holdable(old(pool)),
        cpu < NUM_MAGAZINES,
        old(map).pmap.stats.wired_count < usize::MAX,
    ensures
        final(map).wf(),
        final(map).entries() == old(map).entries(),
        final(map).timestamp == old(map).timestamp,
        final(map).pmap.same_identity(&old(map).pmap),
        final(store).wf(),
        final(store).pagers == old(store).pagers,
        final(pool).inv(),
        forall|p: int| #[trigger] final(pool).pool_free(p) ==> old(pool).pool_free(p),
        pool_holdable(final(pool)),
        looked_up(
            old(map),
            final(map),
            old(store),
            final(store),
            old(pool),
            final(pool),
            cpu as int,
            *t,
            r,
        ),
{
    if let Some(pa) = VmObject::lookup_page(store, t.object, t.index) {
        return match revalidate_vma(map, t) {
            None => (AsyncStep::Done(Ok(None)), Vec::new()),
            Some(perm) => {
                let va = t.fault_va.page_align_down();
                let done = insert_at(&mut map.pmap, pool, cpu, va, pa, perm);
                (AsyncStep::Done(done), Vec::new())
            },
        };
    }
    assert(object_wf(store.objects@, t.object as int));
    let alone = match store.get(t.object).backing_object() {
        Some(b) => {
            assert(live(store.objects@, b as int));
            store.get(b).shadow_count() == 1
        },
        None => false,
    };
    let freed = if alone {
        VmObject::collapse(store, t.object, &pool.meta)
    } else {
        Vec::new()
    };
    assert(live(store.objects@, t.object as int));
    let pager = store.get(t.object).pager;
    let role = match pager {
        Some(PagerRef::Vnode(_)) => PageRole::FileCache,
        _ => PageRole::UserAnon,
    };
    match alloc_raw_frame_sync(pool, cpu, role) {
        None => (AsyncStep::Done(Err(Errno::Enomem)), freed),
        Some(frame) => {
            proof {
                assert forall|p: int| #[trigger] pool.pool_free(p) implies 0 <= p < 0x1000_0000_0000 by {
                    assert(old(pool).pool_free(p));
                }
            }
            let fill = match pager {
                None => None,
                Some(_) => Some(VmObject::fetch_plan(store, t.object, t.index)),
            };
            (AsyncStep::Fill { frame, fill }, freed)
        },
    }
}

/// The frame is the fault's own.
pub open spec fn frame_held(pool: &FramePool, frame: PhysAddr) -> bool {
    &&& fits(frame, 0)
    &&& pfn(frame) < 0x1000_0000_0000
    &&& !pool.pool_free(pfn(frame))
    &&& pfn(frame) < pool.meta@.len() ==> pool.meta@[pfn(frame)].refs > 0
    &&& pool.free_count() < usize::MAX
}

/// The fault's reference to the frame was dropped.  A frame without metadata is not the
/// pool's and is left alone.
pub open spec fn frame_dropped(
    pool0: &FramePool,
    pool1: &FramePool,
    cpu: int,
    frame: PhysAddr,
) -> bool {
    if pfn(frame) < pool0.meta@.len() {
        reference_dropped(pool0, pool1, cpu, frame)
    } else {
        *pool1 == *pool0
    }
}

/// What the second look does.
pub open spec fn finished(
    map0: &VmMap,
    map1: &VmMap,
    store0: &VmObjects,
    store1: &VmObjects,
    pool0: &FramePool,
    pool1: &FramePool,
    cpu: int,
    t: Ticket,
    frame: PhysAddr,
    filled: bool,
    r: Result<Option<TlbRange>, Errno>,
) -> bool {
    let o = t.object as int;
    let k = t.index.0;
    let va = page_floor(t.fault_va.0 as int);
    if !filled || revalidated(map0, t) is None {
        &&& r == if filled {
            Ok::<Option<TlbRange>, Errno>(None)
        } else {
            Err(Errno::Eio)
        }
        &&& frame_dropped(pool0, pool1, cpu, frame)
        &&& map1.pmap == map0.pmap
        &&& store1.objects@ == store0.objects@
    } else {
        let perm = revalidated(map0, t)->0;
        match lookup(store0.objects@, o, k) {
            Some(pa) => {
                &&& store1.objects@ == store0.objects@
                &&& exists|mid: FramePool| #[trigger]
                    frame_dropped(pool0, &mid, cpu, frame) && page_inserted(
                        &map0.pmap,
                        &map1.pmap,
                        &mid,
                        pool1,
                        cpu,
                        va,
                        pa,
                        perm,
                        r,
                    )
            },
            None => {
                &&& with_page(store0.objects@, store1.objects@, o, k, frame)
                &&& page_inserted(
                    &map0.pmap,
                    &map1.pmap,
                    pool0,
                    pool1,
                    cpu,
                    va,
                    frame,
                    perm,
                    r,
                )
            },
        }
    }
}

/// The frame of a fault was filled, or could not be: put it into the object and enter
/// it.  It is given back where filling failed, where the address is no longer backed by
/// the object, and where the object has got a page in the meantime.  Returns what has to
/// be flushed.
pub fn fault_finish(
    map: &mut VmMap,
    store: &mut VmObjects,
    pool: &mut FramePool,
    cpu: usize,
    t: &Ticket,
    frame: PhysAddr,
    filled: bool,
) -> (r: Result<Option<TlbRange>, Errno>)
    requires
        old(map).wf(),
        old(store).wf(),
        t.wf(),
        old(store).has(t.object as int),
        old(pool).inv(),
        pool_holdable(old(pool)),
        frame_held(old(pool), frame),
        cpu < NUM_MAGAZINES,
        old(map).pmap.stats.wired_count < usize::MAX,
    ensures
        final(map).wf(),
        final(map).entries() == old(map).entries(),
        final(map).timestamp == old(map).timestamp,
        final(map).pmap.same_identity(&old(map).pmap),
        final(store).wf(),
        final(store).pagers == old(store).pagers,
        final(pool).inv(),
        pool_holdable(final(pool)),
        finished(
            old(map),
            final(map),
            old(store),
            final(store),
            old(pool),
            final(pool),
            cpu as int,
            *t,
            frame,
            filled,
            r,
        ),
{
    if !filled {
        PageRef::new(frame).release(pool, cpu);
        return Err(Errno::Eio);
    }
    let perm = match revalidate_vma(map, t) {
        None => {
            PageRef::new(frame).release(pool, cpu);
            return Ok(None);
        },
        Some(perm) => perm,
    };
    let va = t.fault_va.page_align_down();
    if let Some(pa) = VmObject::lookup_page(store, t.object, t.index) {
        PageRef::new(frame).release(pool, cpu);
        let ghost mid = *pool;
        assert(frame_dropped(old(pool), &mid, cpu as int, frame));
        return insert_at(&mut map.pmap, pool, cpu, va, pa, perm);
    }
    let _ = VmObject::insert_page(store, t.object, t.index, PageRef::new(frame));
    insert_at(&mut map.pmap, pool, cpu, va, frame, perm)
}

/// Of a page that no object of the chain has, a frame is taken that was free, while there is one; it is
/// to be filled with zeros for anonymous memory, and for a file with what the file has at the place of
/// the page.  A page that is there is not filled again.
pub proof fn law_missing_page_is_filled(
    map0: &VmMap,
    map1: &VmMap,
    store0: &VmObjects,
    store1: &VmObjects,
    pool0: &FramePool,
    pool1: &FramePool,
    cpu: int,
    t: Ticket,
    r: (AsyncStep, Vec<PageRef>),
)
    requires
        looked_up(map0, map1, store0, store1, pool0, pool1, cpu, t, r),
        store0.has(t.object as int),
    ensures
        ({
            let seen = lookup(store0.objects@, t.object as int, t.index.0);
            let pager = (store0.objects@[t.object as int]->0).pager;
            &&& seen is Some ==> r.0 is Done
            &&& seen is None && (exists|p: int| #[trigger] pool0.pool_free(p)) ==> r.0 is Fill
            &&& r.0 matches AsyncStep::Fill { frame, fill } ==> {
                &&& pool0.pool_free(frame.0 as int / 4096)
                &&& !pool1.pool_free(frame.0 as int / 4096)
                &&& pager is None ==> fill is None
                &&& pager == Some(PagerRef::Anon) ==> fill == Some(PageFill::Zero)
                &&& pager matches Some(PagerRef::Vnode(i)) ==> fill == Some(
                    store0.pagers@[i as int].fill_of((t.index.0 * 4096) as u64),
                )
            }
        }),
{
}

/// A frame that was filled is the page of the object from then on, and what the address of the fault
/// translates to, where the address is still backed by the object and neither has got a page in the
/// meantime; a page that is there already is entered in its place.
pub proof fn law_filled_page_is_entered(
    map0: &VmMap,
    map1: &VmMap,
    store0: &VmObjects,
    store1: &VmObjects,
    pool0: &FramePool,
    pool1: &FramePool,
    cpu: int,
    t: Ticket,
    frame: PhysAddr,
    r: Result<Option<TlbRange>, Errno>,
)
    requires
        finished(map0, map1, store0, store1, pool0, pool1, cpu, t, frame, true, r),
        store0.has(t.object as int),
        frame.0 < 0x100_0000_0000_0000,
        map0.timestamp == t.timestamp,
        r is Ok,
    ensures
        ({
            let page = t.fault_va.0 as int / 4096 * 4096;
            let was = map0.pmap.entry_at(page);
            let raw = map1.pmap.entry_at(page);
            let seen = lookup(store0.objects@, t.object as int, t.index.0);
            &&& seen is None ==> (store1.objects@[t.object as int]->0).pages@.dom().contains(t.index.0)
                && (store1.objects@[t.object as int]->0).pages@[t.index.0].pa == frame
            &&& seen is Some ==> store1.objects@ == store0.objects@
            &&& was % 2 == 1 && was / 2 % 8 != 0 ==> raw == was
            &&& !(was % 2 == 1 && was / 2 % 8 != 0) ==> raw % 2 == 1 && (raw / 4 % 2 == 1 <==> t.perm.0 / 2
                % 2 == 1) && (seen is None ==> raw as int / 1024 % 0x1000_0000_0000 == frame.0 as int
                / 4096)
        }),
{
    let page = page_floor(t.fault_va.0 as int);
    assert(same_page(page, page));
    lemma_entry_bits(frame.0, t.perm);
    if let Some(pa) = lookup(store0.objects@, t.object as int, t.index.0) {
        lemma_entry_bits(pa.0, t.perm);
    }
}

/// Where the map has changed since the snapshot, a fault goes on only while an entry still holds its
/// address, and then with the protection of that entry; it is given up where the entry has another object.
pub proof fn law_stale_fault_is_given_up(map: &VmMap, t: Ticket, i: int)
    requires
        map.wf(),
    ensures
        map.timestamp == t.timestamp ==> revalidated(map, t) == Some(t.perm),
        map.timestamp != t.timestamp && (forall|j: int|
            0 <= j < map.entries().len() ==> !((#[trigger] map.entries()[j]).lo <= t.fault_va.0
                < map.entries()[j].hi)) ==> revalidated(map, t) is None,
        map.timestamp != t.timestamp && 0 <= i < map.entries().len() && map.entries()[i].lo
            <= t.fault_va.0 < map.entries()[i].hi ==> ({
            let e = map.entries()[i];
            &&& object_of(e.mapping) == Some(t.object) || object_of(e.mapping) is None
                ==> revalidated(map, t) == Some(e.protection)
            &&& object_of(e.mapping) matches Some(o) ==> o != t.object ==> revalidated(map, t) is None
        }),
{
    let es = map.entries();
    let va = t.fault_va.0 as int;
    if mapped(es, va) {
        assert(found(es, va, place_of(es, va)));
    }
    if 0 <= i < es.len() && es[i].lo <= va < es[i].hi {
        assert(found(es, va, i));
        lemma_place(es, va, i);
    }
}

} // verus!
