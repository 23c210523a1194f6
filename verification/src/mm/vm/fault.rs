//! Page faults that are resolved at once: anonymous memory and copy-on-write.
//!
//! What has to be done to the contents of frames and to the translation buffer is
//! part of the result, for the caller to carry out before the user goes on.
use vstd::prelude::*;
use crate::hal::addr::{page_floor, PhysAddr, VirtAddr, PAGE_SIZE};
use crate::hal::errno::Errno;
use crate::mm::allocator::frame_allocator::{FramePool, NUM_MAGAZINES};
use crate::mm::pmap::pte::{
    addr_of, entry_of, flags_for, flags_of, law_perm_shows_in_flags, lemma_entry, lemma_flag_bits, PteFlags,
};
use crate::mm::pmap::space::{
    enter_flags, entered, lemma_touches_step, maps, pmap_enter, pmap_extract, pmap_protect, reprotected, step_addr, touches, Pmap, TlbRange,
};
use crate::mm::pmap::table::{pool_holdable, same_page};
use crate::mm::vm::map::address_map::{backed, lemma_place, mapped, place_of, Entries, VmMap};
use crate::mm::vm::map::entry::{object_of, offset_of, VmMapEntry, VmMapping};
use crate::mm::vm::map::perm::MapPerm;
use crate::mm::vm::map::splay::found;
use crate::mm::vm::object::{busy_indices, page_owned, VObjIndex, VmObject, VmObjects};
use crate::mm::vm::page::VmPage;
use crate::mm::vm::page_ref::{PageRef, PhysPage};
use crate::mm::vm::shadow::{collapsed, live, lookup, object_wf, Objects, PagerRef};

verus! {

/// What an attempt to resolve a fault came to.
#[derive(Debug, Clone, Copy, PartialEq, Eq, Structural)]
pub enum FaultResult {
    /// The user can go on.
    Resolved,
    /// The page has to be read from a file first.
    NeedsAsyncIO,
    /// The fault cannot be resolved.
    Error(Errno),
}

/// The access that caused a fault.
#[derive(Debug, Clone, Copy, PartialEq, Eq, Structural)]
pub struct PageFaultAccessType {
    pub read: bool,
    pub write: bool,
    pub execute: bool,
}

/// How a page is held while it is worked on.
#[derive(Debug, Clone, Copy, PartialEq, Eq, Structural)]
pub enum BusyState {
    Unbusied,
    /// Its contents are in flux.
    ExclusiveBusy,
    /// Its contents are stable.
    SharedBusy,
}

impl PageFaultAccessType {
    #[allow(non_snake_case)]
    #[verifier::allow_in_spec]
    pub fn READ() -> PageFaultAccessType
        returns
            (PageFaultAccessType { read: true, write: false, execute: false }),
    {
        PageFaultAccessType { read: true, write: false, execute: false }
    }

    #[allow(non_snake_case)]
    #[verifier::allow_in_spec]
    pub fn WRITE() -> PageFaultAccessType
        returns
            (PageFaultAccessType { read: false, write: true, execute: false }),
    {
        PageFaultAccessType { read: false, write: true, execute: false }
    }

    #[allow(non_snake_case)]
    #[verifier::allow_in_spec]
    pub fn EXECUTE() -> PageFaultAccessType
        returns
            (PageFaultAccessType { read: false, write: false, execute: true }),
    {
        PageFaultAccessType { read: false, write: false, execute: true }
    }

    /// Whether the protection allows the access.
    pub open spec fn allowed(self, prot: MapPerm) -> bool {
        &&& self.read ==> prot.has(MapPerm::R())
        &&& self.write ==> prot.has(MapPerm::W())
        &&& self.execute ==> prot.has(MapPerm::X())
    }

    /// Whether the protection allows the access.
    pub fn permitted_by(&self, prot: MapPerm) -> (r: bool)
        ensures
            r == self.allowed(prot),
    {
        if self.read && !prot.contains(MapPerm::R()) {
            return false;
        }
        if self.write && !prot.contains(MapPerm::W()) {
            return false;
        }
        if self.execute && !prot.contains(MapPerm::X()) {
            return false;
        }
        true
    }

    /// Name of the access.
    pub fn name(&self) -> (r: &'static str)
        ensures
            r@ == if self.write {
                "WRITE"@
            } else if self.execute {
                "EXECUTE"@
            } else {
                "READ"@
            },
    {
        if self.write {
            "WRITE"
        } else if self.execute {
            "EXECUTE"
        } else {
            "READ"
        }
    }
}

/// What has to be done to the contents of a frame.
#[derive(Debug, Clone, Copy, PartialEq, Eq, Structural)]
pub enum PageWork {
    Nothing,
    /// Fill the frame with zeros.
    Zero(PhysAddr),
    /// Copy a page.
    Copy { from: PhysAddr, to: PhysAddr },
}

/// What resolving a fault came to, and what is left to do.
#[derive(Debug)]
pub struct Fault {
    pub result: FaultResult,
    pub work: PageWork,
    /// Translations to flush.
    pub flush: Option<TlbRange>,
    /// Pages given up.
    pub freed: Vec<PageRef>,
}

/// What kind of fault it is.
pub enum FaultKind {
    /// The access is not allowed, or nothing is there.
    Bad,
    /// The page is in a file.
    File,
    /// A page that was never touched.
    Anonymous,
    /// A write to the page at this address.
    Write(PhysAddr),
    /// Any other access to the page at this address.
    Enter(PhysAddr),
}

/// The index into the object behind an entry for an address.
pub open spec fn index_at(e: VmMapEntry, va: int) -> u64 {
    ((offset_of(e.mapping) + (page_floor(va) - e.lo)) / 4096) as u64
}

/// What kind a fault at `va` is.
pub open spec fn fault_kind(
    es: Entries,
    store: &VmObjects,
    va: int,
    access: PageFaultAccessType,
) -> FaultKind {
    let e = es[place_of(es, va)];
    if !mapped(es, va) || !access.allowed(e.protection) {
        FaultKind::Bad
    } else {
        match object_of(e.mapping) {
            None => FaultKind::Bad,
            Some(o) => match lookup(store.objects@, o as int, index_at(e, va)) {
                None => if store.obj(o as int).pager matches Some(PagerRef::Vnode(_)) {
                    FaultKind::File
                } else {
                    FaultKind::Anonymous
                },
                Some(pa) => if access.write && e.protection.has(MapPerm::W()) {
                    FaultKind::Write(pa)
                } else {
                    FaultKind::Enter(pa)
                },
            },
        }
    }
}

/// What entering the page at `pa` for `va` does.
pub open spec fn page_entered(
    before: &Pmap,
    after: &Pmap,
    pool0: &FramePool,
    pool1: &FramePool,
    cpu: int,
    va: u64,
    pa: PhysAddr,
    prot: MapPerm,
    r: (FaultResult, Option<TlbRange>),
) -> bool {
    &&& entered(
        before,
        after,
        pool0,
        pool1,
        cpu,
        va as int,
        entry_of(pa.0, enter_flags(prot, false)),
        r.1 is Some,
    )
    &&& if r.1 is Some {
        &&& r.1 == Some(TlbRange { start: va, end: (va + 4096) as u64, asid: before.asid })
        &&& r.0 == if maps(entry_of(pa.0, enter_flags(prot, false))) {
            FaultResult::Resolved
        } else {
            FaultResult::Error(Errno::Efault)
        }
    } else {
        r.0 == FaultResult::Error(Errno::Enomem)
    }
}

/// Enter a page.
fn enter_page(
    pmap: &mut Pmap,
    pool: &mut FramePool,
    cpu: usize,
    va: VirtAddr,
    pa: PhysAddr,
    prot: MapPerm,
) -> (r: (FaultResult, Option<TlbRange>))
    requires
        old(pmap).wf(),
        old(pool).inv(),
        pool_holdable(old(pool)),
        cpu < NUM_MAGAZINES,
        va.0 + 4096 <= u64::MAX,
        old(pmap).stats.wired_count < usize::MAX,
    ensures
        final(pmap).wf(),
        final(pool).inv(),
        forall|p: int| #[trigger] final(pool).pool_free(p) ==> old(pool).pool_free(p),
        pool_holdable(final(pool)),
        final(pmap).same_identity(old(pmap)),
        page_entered(
            old(pmap),
            final(pmap),
            old(pool),
            final(pool),
            cpu as int,
            va.0,
            pa,
            prot,
            r,
        ),
        old(pmap).root.has_slot(va.0 as int) ==> r.1 is Some && *final(pool) == *old(pool),
{
    match pmap_enter(pmap, pool, cpu, va, pa, prot, false) {
        Err(_) => (FaultResult::Error(Errno::Enomem), None),
        Ok(flush) => match pmap_extract(pmap, va) {
            None => (FaultResult::Error(Errno::Efault), Some(flush)),
            Some(_) => (FaultResult::Resolved, Some(flush)),
        },
    }
}

/// What changing the protection of the page of `va` does.
pub open spec fn page_protected(
    before: &Pmap,
    after: &Pmap,
    va: u64,
    prot: MapPerm,
    flush: Option<TlbRange>,
) -> bool {
    &&& after.same_tables(before)
    &&& after.stats == before.stats
    &&& forall|v: int| #[trigger]
        after.entry_at(v) == if same_page(va as int, v) {
            reprotected(before.entry_at(v), prot)
        } else {
            before.entry_at(v)
        }
    &&& flush == if maps(before.entry_at(va as int)) {
        Some(TlbRange { start: va, end: (va + 4096) as u64, asid: before.asid })
    } else {
        None
    }
}

/// Give the page of `va` the protection of its entry.
fn promote_page(pmap: &mut Pmap, va: VirtAddr, prot: MapPerm) -> (flush: Option<TlbRange>)
    requires
        old(pmap).wf(),
        va.0 + 8191 <= u64::MAX,
    ensures
        final(pmap).wf(),
        final(pmap).same_identity(old(pmap)),
        page_protected(old(pmap), final(pmap), va.0, prot, flush),
{
    let end = VirtAddr::new(va.0 + PAGE_SIZE);
    let flush = pmap_protect(pmap, va, end, prot);
    proof {
        let a = va.0 as int;
        assert forall|v: int| #[trigger] touches(a, a + 4096, v) == same_page(a, v) by {
            lemma_touches_step(a, 0, v);
            assert(step_addr(a, 1) == a + 4096);
            assert(step_addr(a, 0) == a);
        }
        assert forall|v: int| same_page(a, v) implies #[trigger] old(pmap).entry_at(v)
            == old(pmap).entry_at(a) by {
            crate::mm::pmap::space::lemma_same_entry(&old(pmap).root, a, v);
        }
        if maps(old(pmap).entry_at(a)) {
            assert(touches(a, a + 4096, a));
        }
    }
    flush
}

/// Whether a write can go to the object's own page at `k` as it is: the object has it
/// and nothing shadows the object.
pub open spec fn promotable(objs: Objects<PageRef>, o: int, k: u64) -> bool {
    (objs[o]->0).pages@.dom().contains(k) && (objs[o]->0).shadow_count == 0
}

/// Whether the object's chain can be shortened.
pub open spec fn collapsible(objs: Objects<PageRef>, o: int) -> bool {
    (objs[o]->0).backing matches Some(b) && (objs[b as int]->0).shadow_count == 1
}

/// Indices of the backing object's pages that are held busy.
pub open spec fn pinned_behind(table: Seq<VmPage>, objs: Objects<PageRef>, o: int) -> Seq<u64> {
    match (objs[o]->0).backing {
        Some(b) => busy_indices(table, (objs[b as int]->0).pages.entries()),
        None => Seq::empty(),
    }
}

/// What giving the object its own page and entering that does.
pub open spec fn owned_and_entered(
    map0: &VmMap,
    map1: &VmMap,
    store0: &VmObjects,
    store1: &VmObjects,
    pool0: &FramePool,
    pool1: &FramePool,
    cpu: int,
    o: int,
    k: u64,
    va: u64,
    prot: MapPerm,
    copy_from: Option<PhysAddr>,
    r: Fault,
) -> bool {
    exists|mid: FramePool, own: Result<(PhysAddr, bool), Errno>| #[trigger]
        page_owned(store0, store1, pool0, &mid, cpu, o, k, own) && match own {
            Err(_) => {
                &&& r.result == FaultResult::Error(Errno::Enomem)
                &&& r.work == PageWork::Nothing
                &&& r.flush is None
                &&& map1.pmap == map0.pmap
                &&& *pool1 == mid
            },
            Ok((pa, fresh)) => {
                &&& page_entered(
                    &map0.pmap,
                    &map1.pmap,
                    &mid,
                    pool1,
                    cpu,
                    va,
                    pa,
                    prot,
                    (r.result, r.flush),
                )
                &&& r.work == if !fresh {
                    PageWork::Nothing
                } else {
                    match copy_from {
                        Some(from) => PageWork::Copy { from, to: pa },
                        None => PageWork::Zero(pa),
                    }
                }
            },
        }
}

/// Give the object its own page and enter it.
fn own_and_enter(
    map: &mut VmMap,
    store: &mut VmObjects,
    pool: &mut FramePool,
    cpu: usize,
    o: usize,
    index: VObjIndex,
    va: VirtAddr,
    prot: MapPerm,
    copy_from: Option<PhysAddr>,
    freed: Vec<PageRef>,
) -> (r: Fault)
    requires
        old(map).wf(),
        old(store).wf(),
        old(store).has(o as int),
        old(pool).inv(),
        pool_holdable(old(pool)),
        cpu < NUM_MAGAZINES,
        va.0 + 4096 <= u64::MAX,
        old(map).pmap.stats.wired_count < usize::MAX,
    ensures
        final(map).wf(),
        final(map).entries() == old(map).entries(),
        final(map).timestamp == old(map).timestamp,
        final(map).pmap.same_identity(&old(map).pmap),
        final(store).wf(),
        final(store).pagers == old(store).pagers,
        final(pool).inv(),
        forall|p: int| #[trigger] final(pool).pool_free(p) ==> old(pool).pool_free(p),
        pool_holdable(final(pool)),
        r.freed == freed,
        owned_and_entered(
            old(map),
            final(map),
            old(store),
            final(store),
            old(pool),
            final(pool),
            cpu as int,
            o as int,
            index.0,
            va.0,
            prot,
            copy_from,
            r,
        ),
{
    let own = match copy_from {
        Some(_) => VmObject::fault_cow(store, pool, cpu, o, index),
        None => VmObject::fault_allocate_anon(store, pool, cpu, o, index),
    };
    let ghost mid = *pool;
    assert(page_owned(old(store), store, old(pool), &mid, cpu as int, o as int, index.0, own));
    match own {
        Err(_) => Fault {
            result: FaultResult::Error(Errno::Enomem),
            work: PageWork::Nothing,
            flush: None,
            freed,
        },
        Ok((pa, fresh)) => {
            proof {
                assert forall|p: int| #[trigger] pool.pool_free(p) implies 0 <= p < 0x1000_0000_0000 by {
                    assert(old(pool).pool_free(p));
                }
            }
            let work = if !fresh {
                PageWork::Nothing
            } else {
                match copy_from {
                    Some(from) => PageWork::Copy { from, to: pa },
                    None => PageWork::Zero(pa),
                }
            };
            let (result, flush) = enter_page(&mut map.pmap, pool, cpu, va, pa, prot);
            Fault { result, work, flush, freed }
        },
    }
}

/// What resolving a write to a page that may be shared does: the object's own page
/// becomes writable where nothing shadows the object; else a chain that can be
/// shortened is, which may give the object the page; else the object gets a copy.
pub open spec fn write_resolved(
    map0: &VmMap,
    map1: &VmMap,
    store0: &VmObjects,
    store1: &VmObjects,
    pool0: &FramePool,
    pool1: &FramePool,
    cpu: int,
    o: int,
    k: u64,
    va: u64,
    prot: MapPerm,
    from: PhysAddr,
    r: Fault,
) -> bool {
    let objs = store0.objects@;
    let promoted = r.result == FaultResult::Resolved && r.work == PageWork::Nothing
        && page_protected(&map0.pmap, &map1.pmap, va, prot, r.flush) && *pool1 == *pool0;
    if promotable(objs, o, k) {
        promoted && store1.objects@ == objs && r.freed@.len() == 0
    } else if collapsible(objs, o) {
        exists|mid: VmObjects| #[trigger]
            collapsed(objs, mid.objects@, o, pinned_behind(pool0.meta@, objs, o), r.freed@)
                && mid.wf() && if (mid.objects@[o]->0).pages@.dom().contains(k) {
                promoted && store1.objects@ == mid.objects@
            } else {
                owned_and_entered(
                    map0,
                    map1,
                    &mid,
                    store1,
                    pool0,
                    pool1,
                    cpu,
                    o,
                    k,
                    va,
                    prot,
                    Some(from),
                    r,
                )
            }
    } else {
        r.freed@.len() == 0 && owned_and_entered(
            map0,
            map1,
            store0,
            store1,
            pool0,
            pool1,
            cpu,
            o,
            k,
            va,
            prot,
            Some(from),
            r,
        )
    }
}

/// Resolve a write to a page that may be shared.
fn handle_cow_fault(
    map: &mut VmMap,
    store: &mut VmObjects,
    pool: &mut FramePool,
    cpu: usize,
    o: usize,
    index: VObjIndex,
    va: VirtAddr,
    prot: MapPerm,
    old_phys: PhysAddr,
) -> (r: Fault)
    requires
        old(map).wf(),
        old(store).wf(),
        old(store).has(o as int),
        old(pool).inv(),
        pool_holdable(old(pool)),
        cpu < NUM_MAGAZINES,
        va.0 + 8191 <= u64::MAX,
        old(map).pmap.stats.wired_count < usize::MAX,
    ensures
        final(map).wf(),
        final(map).entries() == old(map).entries(),
        final(map).timestamp == old(map).timestamp,
        final(map).pmap.same_identity(&old(map).pmap),
        final(store).wf(),
        final(store).pagers == old(store).pagers,
        final(pool).inv(),
        forall|p: int| #[trigger] final(pool).pool_free(p) ==> old(pool).pool_free(p),
        pool_holdable(final(pool)),
        write_resolved(
            old(map),
            final(map),
            old(store),
            final(store),
            old(pool),
            final(pool),
            cpu as int,
            o as int,
            index.0,
            va.0,
            prot,
            old_phys,
            r,
        ),
{
    assert(object_wf(store.objects@, o as int));
    let can_promote = {
        let obj = store.get(o);
        obj.has_page(index) && obj.shadow_count() == 0
    };
    if can_promote {
        let flush = promote_page(&mut map.pmap, va, prot);
        return Fault {
            result: FaultResult::Resolved,
            work: PageWork::Nothing,
            flush,
            freed: Vec::new(),
        };
    }
    let backing = store.get(o).backing_object();
    let alone = match backing {
        Some(b) => {
            assert(live(store.objects@, b as int));
            store.get(b).shadow_count() == 1
        },
        None => false,
    };
    if alone {
        let freed = VmObject::collapse(store, o, &pool.meta);
        let ghost mid = *store;
        assert(collapsed(
            old(store).objects@,
            mid.objects@,
            o as int,
            pinned_behind(old(pool).meta@, old(store).objects@, o as int),
            freed@,
        ));
        assert(live(store.objects@, o as int));
        assert(object_wf(store.objects@, o as int));
        if store.get(o).has_page(index) {
            let flush = promote_page(&mut map.pmap, va, prot);
            let r = Fault { result: FaultResult::Resolved, work: PageWork::Nothing, flush, freed };
            assert(collapsed(
                old(store).objects@,
                mid.objects@,
                o as int,
                pinned_behind(old(pool).meta@, old(store).objects@, o as int),
                r.freed@,
            ));
            assert(page_protected(&old(map).pmap, &map.pmap, va.0, prot, r.flush));
            assert(!promotable(old(store).objects@, o as int, index.0));
            return r;
        }
        return own_and_enter(map, store, pool, cpu, o, index, va, prot, Some(old_phys), freed);
    }
    own_and_enter(map, store, pool, cpu, o, index, va, prot, Some(old_phys), Vec::new())
}

/// What resolving a fault does, by its kind.
pub open spec fn fault_resolved(
    map0: &VmMap,
    map1: &VmMap,
    store0: &VmObjects,
    store1: &VmObjects,
    pool0: &FramePool,
    pool1: &FramePool,
    cpu: int,
    va: int,
    access: PageFaultAccessType,
    r: Fault,
) -> bool {
    let es = map0.entries();
    let e = es[place_of(es, va)];
    let o = object_of(e.mapping)->0 as int;
    let k = index_at(e, va);
    let page = page_floor(va) as u64;
    let same = map1.pmap == map0.pmap && store1.objects@ == store0.objects@ && *pool1 == *pool0;
    match fault_kind(es, store0, va, access) {
        FaultKind::Bad => {
            &&& r.result == FaultResult::Error(Errno::Efault)
            &&& r.work == PageWork::Nothing
            &&& r.flush is None
            &&& r.freed@.len() == 0
            &&& same
        },
        FaultKind::File => {
            &&& r.result == FaultResult::NeedsAsyncIO
            &&& r.work == PageWork::Nothing
            &&& r.flush is None
            &&& r.freed@.len() == 0
            &&& same
        },
        FaultKind::Anonymous => {
            &&& r.freed@.len() == 0
            &&& owned_and_entered(
                map0,
                map1,
                store0,
                store1,
                pool0,
                pool1,
                cpu,
                o,
                k,
                page,
                e.protection,
                None,
                r,
            )
        },
        FaultKind::Write(pa) => write_resolved(
            map0,
            map1,
            store0,
            store1,
            pool0,
            pool1,
            cpu,
            o,
            k,
            page,
            e.protection,
            pa,
            r,
        ),
        FaultKind::Enter(pa) => {
            &&& r.work == PageWork::Nothing
            &&& r.freed@.len() == 0
            &&& store1.objects@ == store0.objects@
            &&& page_entered(
                &map0.pmap,
                &map1.pmap,
                pool0,
                pool1,
                cpu,
                page,
                pa,
                e.protection,
                (r.result, r.flush),
            )
        },
    }
}

/// Nothing could be done.
fn refused(result: FaultResult) -> (r: Fault)
    ensures
        r.result == result,
        r.work == PageWork::Nothing,
        r.flush is None,
        r.freed@.len() == 0,
{
    Fault { result, work: PageWork::Nothing, flush: None, freed: Vec::new() }
}

/// Resolve a fault at `fault_va` without waiting for anything.
pub fn sync_fault_handler(
    map: &mut VmMap,
    store: &mut VmObjects,
    pool: &mut FramePool,
    cpu: usize,
    fault_va: VirtAddr,
    access_type: PageFaultAccessType,
) -> (r: Fault)
    requires
        old(map).wf(),
        old(store).wf(),
        backed(old(map).entries(), old(store)),
        old(pool).inv(),
        pool_holdable(old(pool)),
        cpu < NUM_MAGAZINES,
        page_in_reach(old(map).entries(), fault_va.0 as int),
        old(map).pmap.stats.wired_count < usize::MAX,
    ensures
        final(map).wf(),
        final(map).entries() == old(map).entries(),
        final(map).timestamp == old(map).timestamp,
        final(map).pmap.same_identity(&old(map).pmap),
        final(store).wf(),
        final(store).pagers == old(store).pagers,
        final(pool).inv(),
        forall|p: int| #[trigger] final(pool).pool_free(p) ==> old(pool).pool_free(p),
        pool_holdable(final(pool)),
        fault_resolved(
            old(map),
            final(map),
            old(store),
            final(store),
            old(pool),
            final(pool),
            cpu as int,
            fault_va.0 as int,
            access_type,
            r,
        ),
        forall|i: int|
            0 <= i < old(map).entries().len()
                && (#[trigger] old(map).entries()[i]).lo <= fault_va.0 < old(map).entries()[i].hi ==> {
                let e = old(map).entries()[i];
                let prot = e.protection.0;
                let denied = access_type.read && prot % 2 == 0 || access_type.write
                    && prot / 2 % 2 == 0 || access_type.execute && prot / 4 % 2 == 0;
                let (o, off) = match e.mapping {
                    VmMapping::AnonPrivate { object, offset } => (object, offset),
                    VmMapping::FilePrivate { object, offset } => (object, offset),
                    VmMapping::FileShared { object, offset } => (object, offset),
                    VmMapping::Heap { object, offset } => (object, offset),
                    VmMapping::Shared { object, offset } => (object, offset),
                    VmMapping::Guard => (0, 0),
                };
                let page = (fault_va.0 as int) / 4096 * 4096;
                let k = ((off + (page - e.lo)) / 4096) as u64;
                let seen = lookup(old(store).objects@, o as int, k);
                let file = (old(store).objects@[o as int]->0).pager matches Some(PagerRef::Vnode(_));
                let was = old(map).pmap.entry_at(page);
                let raw = final(map).pmap.entry_at(page);
                let own = (final(store).objects@[o as int]->0).pages@;
                // The page is mapped with the protection of the entry.
                let mapped_so = raw % 2 == 1 && (raw / 2 % 2 == 1 <==> prot % 2 == 1)
                    && (raw / 4 % 2 == 1 <==> prot / 2 % 2 == 1) && (raw / 8 % 2 == 1
                    <==> prot / 4 % 2 == 1) && (raw / 16 % 2 == 1 <==> prot / 8 % 2 == 1);
                let at: int = raw as int / 1024 % 0x1000_0000_0000 * 4096;
                &&& denied || e.mapping is Guard ==> r.result == FaultResult::Error(Errno::Efault)
                    && r.work == PageWork::Nothing && final(map).pmap == old(map).pmap
                    && final(store).objects@ == old(store).objects@
                &&& forall|v: int| !same_page(page, v)
                    ==> #[trigger] final(map).pmap.entry_at(v) == old(map).pmap.entry_at(v)
                &&& !denied && !(e.mapping is Guard) ==> {
                    &&& seen is None && file ==> r.result == FaultResult::NeedsAsyncIO
                        && r.work == PageWork::Nothing && final(map).pmap == old(map).pmap
                        && final(store).objects@ == old(store).objects@
                    &&& !(seen is None && file) && prot % 8 != 0
                        ==> r.result == FaultResult::Resolved
                        || r.result == FaultResult::Error(Errno::Enomem)
                    &&& r.result == FaultResult::Resolved && !(access_type.write
                        && r.work == PageWork::Nothing)
                        ==> r.flush == Some(TlbRange { start: page as u64, end: (page + 4096) as u64, asid: old(map).pmap.asid })
                    &&& r.result == FaultResult::Resolved && was % 2 == 1 && was / 2 % 8 != 0
                        ==> r.flush == Some(TlbRange { start: page as u64, end: (page + 4096) as u64, asid: old(map).pmap.asid })
                    &&& !(seen is Some && access_type.write)
                        ==> forall|x: int| 0 <= x < old(store).objects@.len() && x != o as int
                        ==> #[trigger] final(store).objects@[x] == old(store).objects@[x]
                    &&& !(seen is None && file) && !old(map).pmap.root.large_at(page)
                        && prot % 8 != 0 && (exists|p: int| #[trigger] final(pool).pool_free(p))
                        ==> r.result == FaultResult::Resolved
                    &&& seen is None && !file && r.result == FaultResult::Resolved ==> {
                        &&& r.work matches PageWork::Zero(f)
                            && old(pool).pool_free(f.0 as int / 4096) && own.dom().contains(k)
                            && own[k].pa == f && at == f.0 as int / 4096 * 4096
                        &&& mapped_so
                    }
                    &&& seen matches Some(from) ==> !access_type.write
                        && r.result == FaultResult::Resolved ==> {
                        &&& r.work == PageWork::Nothing
                        &&& final(store).objects@ == old(store).objects@
                        &&& mapped_so
                        &&& from.0 < 0x100_0000_0000_0000 ==> at == from.0 as int / 4096 * 4096
                    }
                    &&& seen matches Some(from) ==> access_type.write
                        && r.result == FaultResult::Resolved ==> match r.work {
                        PageWork::Zero(_) => false,
                        PageWork::Copy { from: a, to } => a == from
                            && old(pool).pool_free(to.0 as int / 4096) && own.dom().contains(k)
                            && own[k].pa == to && at == to.0 as int / 4096 * 4096 && mapped_so,
                        PageWork::Nothing => {
                            let o0 = old(store).objects@[o as int]->0;
                            &&& own.dom().contains(k)
                            &&& was % 2 == 1 && was / 2 % 8 != 0 ==> mapped_so
                            &&& o0.pages@.dom().contains(k) || o0.backing is Some
                                && (old(store).objects@[o0.backing->0 as int]->0).shadow_count == 1
                        },
                    }
                }
            },
        (forall|i: int|
            0 <= i < old(map).entries().len()
                ==> !((#[trigger] old(map).entries()[i]).lo <= fault_va.0 < old(map).entries()[i].hi))
                    ==> r.result == FaultResult::Error(Errno::Efault) && r.work == PageWork::Nothing
                    && final(map).pmap == old(map).pmap && final(store).objects@ == old(store).objects@,
{
    let r = resolve_now(map, store, pool, cpu, fault_va, access_type);
    proof {
        let va = fault_va.0 as int;
        let es = old(map).entries();
        if forall|i: int| 0 <= i < es.len() ==> !((#[trigger] es[i]).lo <= va < es[i].hi) {
            if mapped(es, va) {
                assert(found(es, va, place_of(es, va)));
            }
        }
        assert forall|i: int| 0 <= i < es.len() && (#[trigger] es[i]).lo <= va < es[i].hi implies {
                let e = old(map).entries()[i];
                let prot = e.protection.0;
                let denied = access_type.read && prot % 2 == 0 || access_type.write
                    && prot / 2 % 2 == 0 || access_type.execute && prot / 4 % 2 == 0;
                let (o, off) = match e.mapping {
                    VmMapping::AnonPrivate { object, offset } => (object, offset),
                    VmMapping::FilePrivate { object, offset } => (object, offset),
                    VmMapping::FileShared { object, offset } => (object, offset),
                    VmMapping::Heap { object, offset } => (object, offset),
                    VmMapping::Shared { object, offset } => (object, offset),
                    VmMapping::Guard => (0, 0),
                };
                let page = (fault_va.0 as int) / 4096 * 4096;
                let k = ((off + (page - e.lo)) / 4096) as u64;
                let seen = lookup(old(store).objects@, o as int, k);
                let file = (old(store).objects@[o as int]->0).pager matches Some(PagerRef::Vnode(_));
                let was = old(map).pmap.entry_at(page);
                let raw = (*map).pmap.entry_at(page);
                let own = ((*store).objects@[o as int]->0).pages@;
                // The page is mapped with the protection of the entry.
                let mapped_so = raw % 2 == 1 && (raw / 2 % 2 == 1 <==> prot % 2 == 1)
                    && (raw / 4 % 2 == 1 <==> prot / 2 % 2 == 1) && (raw / 8 % 2 == 1
                    <==> prot / 4 % 2 == 1) && (raw / 16 % 2 == 1 <==> prot / 8 % 2 == 1);
                let at: int = raw as int / 1024 % 0x1000_0000_0000 * 4096;
                &&& denied || e.mapping is Guard ==> r.result == FaultResult::Error(Errno::Efault)
                    && r.work == PageWork::Nothing && (*map).pmap == old(map).pmap
                    && (*store).objects@ == old(store).objects@
                &&& forall|v: int| !same_page(page, v)
                    ==> #[trigger] (*map).pmap.entry_at(v) == old(map).pmap.entry_at(v)
                &&& !denied && !(e.mapping is Guard) ==> {
                    &&& seen is None && file ==> r.result == FaultResult::NeedsAsyncIO
                        && r.work == PageWork::Nothing && (*map).pmap == old(map).pmap
                        && (*store).objects@ == old(store).objects@
                    &&& !(seen is None && file) && prot % 8 != 0
                        ==> r.result == FaultResult::Resolved
                        || r.result == FaultResult::Error(Errno::Enomem)
                    &&& r.result == FaultResult::Resolved && !(access_type.write
                        && r.work == PageWork::Nothing)
                        ==> r.flush == Some(TlbRange { start: page as u64, end: (page + 4096) as u64, asid: old(map).pmap.asid })
                    &&& r.result == FaultResult::Resolved && was % 2 == 1 && was / 2 % 8 != 0
                        ==> r.flush == Some(TlbRange { start: page as u64, end: (page + 4096) as u64, asid: old(map).pmap.asid })
                    &&& !(seen is Some && access_type.write)
                        ==> forall|x: int| 0 <= x < old(store).objects@.len() && x != o as int
                        ==> #[trigger] (*store).objects@[x] == old(store).objects@[x]
                    &&& !(seen is None && file) && !old(map).pmap.root.large_at(page)
                        && prot % 8 != 0 && (exists|p: int| #[trigger] (*pool).pool_free(p))
                        ==> r.result == FaultResult::Resolved
                    &&& seen is None && !file && r.result == FaultResult::Resolved ==> {
                        &&& r.work matches PageWork::Zero(f)
                            && old(pool).pool_free(f.0 as int / 4096) && own.dom().contains(k)
                            && own[k].pa == f && at == f.0 as int / 4096 * 4096
                        &&& mapped_so
                    }
                    &&& seen matches Some(from) ==> !access_type.write
                        && r.result == FaultResult::Resolved ==> {
                        &&& r.work == PageWork::Nothing
                        &&& (*store).objects@ == old(store).objects@
                        &&& mapped_so
                        &&& from.0 < 0x100_0000_0000_0000 ==> at == from.0 as int / 4096 * 4096
                    }
                    &&& seen matches Some(from) ==> access_type.write
                        && r.result == FaultResult::Resolved ==> match r.work {
                        PageWork::Zero(_) => false,
                        PageWork::Copy { from: a, to } => a == from
                            && old(pool).pool_free(to.0 as int / 4096) && own.dom().contains(k)
                            && own[k].pa == to && at == to.0 as int / 4096 * 4096 && mapped_so,
                        PageWork::Nothing => {
                            let o0 = old(store).objects@[o as int]->0;
                            &&& own.dom().contains(k)
                            &&& was % 2 == 1 && was / 2 % 8 != 0 ==> mapped_so
                            &&& o0.pages@.dom().contains(k) || o0.backing is Some
                                && (old(store).objects@[o0.backing->0 as int]->0).shadow_count == 1
                        },
                    }
                }
            } by {
            law_fault_gives_right_page(old(map), map, old(store), store, old(pool), pool, cpu as int, va, access_type, r, i);
        }
    }
    r
}

/// Resolve a fault at `fault_va`.
fn resolve_now(
    map: &mut VmMap,
    store: &mut VmObjects,
    pool: &mut FramePool,
    cpu: usize,
    fault_va: VirtAddr,
    access_type: PageFaultAccessType,
) -> (r: Fault)
    requires
        old(map).wf(),
        old(store).wf(),
        backed(old(map).entries(), old(store)),
        old(pool).inv(),
        pool_holdable(old(pool)),
        cpu < NUM_MAGAZINES,
        page_in_reach(old(map).entries(), fault_va.0 as int),
        old(map).pmap.stats.wired_count < usize::MAX,
    ensures
        final(map).wf(),
        final(map).entries() == old(map).entries(),
        final(map).timestamp == old(map).timestamp,
        final(map).pmap.same_identity(&old(map).pmap),
        final(store).wf(),
        final(store).pagers == old(store).pagers,
        final(pool).inv(),
        forall|p: int| #[trigger] final(pool).pool_free(p) ==> old(pool).pool_free(p),
        pool_holdable(final(pool)),
        fault_resolved(
            old(map),
            final(map),
            old(store),
            final(store),
            old(pool),
            final(pool),
            cpu as int,
            fault_va.0 as int,
            access_type,
            r,
        ),
{
    let va = fault_va.page_align_down();
    let vma = match map.lookup_readonly(fault_va) {
        None => {
            return refused(FaultResult::Error(Errno::Efault));
        },
        Some(vma) => vma,
    };
    if !access_type.permitted_by(vma.protection) {
        return refused(FaultResult::Error(Errno::Efault));
    }
    let ghost es = map.entries();
    let ghost i = place_of(es, fault_va.0 as int);
    assert(es[i].hi + 4095 <= u64::MAX);
    match vma.extract_object_offset(va) {
        None => refused(FaultResult::Error(Errno::Efault)),
        Some((object, index)) => {
            assert(index.0 == index_at(vma, fault_va.0 as int));
            assert(store.has(object as int));
            classify_and_handle(
                map,
                store,
                pool,
                cpu,
                object,
                index,
                va,
                vma.protection,
                access_type.write,
                Ghost(fault_va.0 as int),
                Ghost(access_type),
            )
        },
    }
}

/// The entry that holds `va` starts at or before the start of its page, and the offset of that
/// page into the object does not overflow.
pub open spec fn page_in_reach(es: Entries, va: int) -> bool {
    mapped(es, va) ==> es[place_of(es, va)].lo <= page_floor(va) && es[place_of(es, va)].offset_fits_at(
        page_floor(va),
    )
}

/// Resolve a fault at an address whose object and index are known.
fn classify_and_handle(
    map: &mut VmMap,
    store: &mut VmObjects,
    pool: &mut FramePool,
    cpu: usize,
    object: usize,
    index: VObjIndex,
    va: VirtAddr,
    prot: MapPerm,
    write: bool,
    Ghost(at): Ghost<int>,
    Ghost(access): Ghost<PageFaultAccessType>,
) -> (r: Fault)
    requires
        old(map).wf(),
        old(store).wf(),
        old(store).has(object as int),
        old(pool).inv(),
        pool_holdable(old(pool)),
        cpu < NUM_MAGAZINES,
        va.0 + 8191 <= u64::MAX,
        old(map).pmap.stats.wired_count < usize::MAX,
        va.0 == page_floor(at),
        mapped(old(map).entries(), at),
        ({
            let e = old(map).entries()[place_of(old(map).entries(), at)];
            &&& object_of(e.mapping) == Some(object)
            &&& index.0 == index_at(e, at)
            &&& prot == e.protection
            &&& access.allowed(prot)
            &&& write == access.write
        }),
    ensures
        final(map).wf(),
        final(map).entries() == old(map).entries(),
        final(map).timestamp == old(map).timestamp,
        final(map).pmap.same_identity(&old(map).pmap),
        final(store).wf(),
        final(store).pagers == old(store).pagers,
        final(pool).inv(),
        forall|p: int| #[trigger] final(pool).pool_free(p) ==> old(pool).pool_free(p),
        pool_holdable(final(pool)),
        fault_resolved(
            old(map),
            final(map),
            old(store),
            final(store),
            old(pool),
            final(pool),
            cpu as int,
            at,
            access,
            r,
        ),
{
    match VmObject::lookup_page(store, object, index) {
        None => {
            let file_backed = match store.get(object).pager {
                Some(PagerRef::Vnode(_)) => true,
                _ => false,
            };
            if file_backed {
                refused(FaultResult::NeedsAsyncIO)
            } else {
                own_and_enter(map, store, pool, cpu, object, index, va, prot, None, Vec::new())
            }
        },
        Some(pa) => {
            if write && prot.contains(MapPerm::W()) {
                handle_cow_fault(map, store, pool, cpu, object, index, va, prot, pa)
            } else {
                let (result, flush) = enter_page(&mut map.pmap, pool, cpu, va, pa, prot);
                Fault { result, work: PageWork::Nothing, flush, freed: Vec::new() }
            }
        },
    }
}

/// Whether the page of `va` is mapped already in a way that allows the access; reads
/// are allowed by every mapping.
pub open spec fn mapped_for(pmap: &Pmap, va: int, access: PageFaultAccessType) -> bool {
    pmap.mapping_at(page_floor(va)) matches Some(m) && (access.write ==> m.1.has(PteFlags::W()))
        && (access.execute ==> m.1.has(PteFlags::X()))
}

/// Resolve a fault as far as that goes without waiting: nothing is done where the page
/// is mapped already in a way that allows the access.
pub fn resolve_user_fault(
    map: &mut VmMap,
    store: &mut VmObjects,
    pool: &mut FramePool,
    cpu: usize,
    fault_va: VirtAddr,
    access_type: PageFaultAccessType,
) -> (r: Fault)
    requires
        old(map).wf(),
        old(store).wf(),
        backed(old(map).entries(), old(store)),
        old(pool).inv(),
        pool_holdable(old(pool)),
        cpu < NUM_MAGAZINES,
        page_in_reach(old(map).entries(), fault_va.0 as int),
        old(map).pmap.stats.wired_count < usize::MAX,
    ensures
        final(map).wf(),
        final(map).entries() == old(map).entries(),
        final(map).timestamp == old(map).timestamp,
        final(map).pmap.same_identity(&old(map).pmap),
        final(store).wf(),
        final(store).pagers == old(store).pagers,
        final(pool).inv(),
        forall|p: int| #[trigger] final(pool).pool_free(p) ==> old(pool).pool_free(p),
        pool_holdable(final(pool)),
        mapped_for(&old(map).pmap, fault_va.0 as int, access_type) ==> {
            &&& r.result == FaultResult::Resolved
            &&& r.work == PageWork::Nothing
            &&& r.flush is None
            &&& r.freed@.len() == 0
            &&& *final(map) == *old(map)
            &&& *final(store) == *old(store)
            &&& *final(pool) == *old(pool)
        },
        !mapped_for(&old(map).pmap, fault_va.0 as int, access_type) ==> fault_resolved(
            old(map),
            final(map),
            old(store),
            final(store),
            old(pool),
            final(pool),
            cpu as int,
            fault_va.0 as int,
            access_type,
            r,
        ),
        !mapped_for(&old(map).pmap, fault_va.0 as int, access_type) ==> ({
            &&& forall|i: int|
            0 <= i < old(map).entries().len()
                && (#[trigger] old(map).entries()[i]).lo <= fault_va.0 < old(map).entries()[i].hi ==> {
                let e = old(map).entries()[i];
                let prot = e.protection.0;
                let denied = access_type.read && prot % 2 == 0 || access_type.write
                    && prot / 2 % 2 == 0 || access_type.execute && prot / 4 % 2 == 0;
                let (o, off) = match e.mapping {
                    VmMapping::AnonPrivate { object, offset } => (object, offset),
                    VmMapping::FilePrivate { object, offset } => (object, offset),
                    VmMapping::FileShared { object, offset } => (object, offset),
                    VmMapping::Heap { object, offset } => (object, offset),
                    VmMapping::Shared { object, offset } => (object, offset),
                    VmMapping::Guard => (0, 0),
                };
                let page = (fault_va.0 as int) / 4096 * 4096;
                let k = ((off + (page - e.lo)) / 4096) as u64;
                let seen = lookup(old(store).objects@, o as int, k);
                let file = (old(store).objects@[o as int]->0).pager matches Some(PagerRef::Vnode(_));
                let was = old(map).pmap.entry_at(page);
                let raw = final(map).pmap.entry_at(page);
                let own = (final(store).objects@[o as int]->0).pages@;
                // The page is mapped with the protection of the entry.
                let mapped_so = raw % 2 == 1 && (raw / 2 % 2 == 1 <==> prot % 2 == 1)
                    && (raw / 4 % 2 == 1 <==> prot / 2 % 2 == 1) && (raw / 8 % 2 == 1
                    <==> prot / 4 % 2 == 1) && (raw / 16 % 2 == 1 <==> prot / 8 % 2 == 1);
                let at: int = raw as int / 1024 % 0x1000_0000_0000 * 4096;
                &&& denied || e.mapping is Guard ==> r.result == FaultResult::Error(Errno::Efault)
                    && r.work == PageWork::Nothing && final(map).pmap == old(map).pmap
                    && final(store).objects@ == old(store).objects@
                &&& forall|v: int| !same_page(page, v)
                    ==> #[trigger] final(map).pmap.entry_at(v) == old(map).pmap.entry_at(v)
                &&& !denied && !(e.mapping is Guard) ==> {
                    &&& seen is None && file ==> r.result == FaultResult::NeedsAsyncIO
                        && r.work == PageWork::Nothing && final(map).pmap == old(map).pmap
                        && final(store).objects@ == old(store).objects@
                    &&& !(seen is None && file) && prot % 8 != 0
                        ==> r.result == FaultResult::Resolved
                        || r.result == FaultResult::Error(Errno::Enomem)
                    &&& r.result == FaultResult::Resolved && !(access_type.write
                        && r.work == PageWork::Nothing)
                        ==> r.flush == Some(TlbRange { start: page as u64, end: (page + 4096) as u64, asid: old(map).pmap.asid })
                    &&& r.result == FaultResult::Resolved && was % 2 == 1 && was / 2 % 8 != 0
                        ==> r.flush == Some(TlbRange { start: page as u64, end: (page + 4096) as u64, asid: old(map).pmap.asid })
                    &&& !(seen is Some && access_type.write)
                        ==> forall|x: int| 0 <= x < old(store).objects@.len() && x != o as int
                        ==> #[trigger] final(store).objects@[x] == old(store).objects@[x]
                    &&& !(seen is None && file) && !old(map).pmap.root.large_at(page)
                        && prot % 8 != 0 && (exists|p: int| #[trigger] final(pool).pool_free(p))
                        ==> r.result == FaultResult::Resolved
                    &&& seen is None && !file && r.result == FaultResult::Resolved ==> {
                        &&& r.work matches PageWork::Zero(f)
                            && old(pool).pool_free(f.0 as int / 4096) && own.dom().contains(k)
                            && own[k].pa == f && at == f.0 as int / 4096 * 4096
                        &&& mapped_so
                    }
                    &&& seen matches Some(from) ==> !access_type.write
                        && r.result == FaultResult::Resolved ==> {
                        &&& r.work == PageWork::Nothing
                        &&& final(store).objects@ == old(store).objects@
                        &&& mapped_so
                        &&& from.0 < 0x100_0000_0000_0000 ==> at == from.0 as int / 4096 * 4096
                    }
                    &&& seen matches Some(from) ==> access_type.write
                        && r.result == FaultResult::Resolved ==> match r.work {
                        PageWork::Zero(_) => false,
                        PageWork::Copy { from: a, to } => a == from
                            && old(pool).pool_free(to.0 as int / 4096) && own.dom().contains(k)
                            && own[k].pa == to && at == to.0 as int / 4096 * 4096 && mapped_so,
                        PageWork::Nothing => {
                            let o0 = old(store).objects@[o as int]->0;
                            &&& own.dom().contains(k)
                            &&& was % 2 == 1 && was / 2 % 8 != 0 ==> mapped_so
                            &&& o0.pages@.dom().contains(k) || o0.backing is Some
                                && (old(store).objects@[o0.backing->0 as int]->0).shadow_count == 1
                        },
                    }
                }
            }
            &&& (forall|i: int|
            0 <= i < old(map).entries().len()
                ==> !((#[trigger] old(map).entries()[i]).lo <= fault_va.0 < old(map).entries()[i].hi))
                    ==> r.result == FaultResult::Error(Errno::Efault) && r.work == PageWork::Nothing
                    && final(map).pmap == old(map).pmap && final(store).objects@ == old(store).objects@
        }),
{
    if let Some(entry) = map.pmap.get(fault_va.page_align_down()) {
        if (!access_type.write || entry.permits_write()) && (!access_type.execute
            || entry.permits_exec()) {
            return refused(FaultResult::Resolved);
        }
    }
    sync_fault_handler(map, store, pool, cpu, fault_va, access_type)
}

/// A fault that was resolved by entering a page leaves that page mapped, with the
/// protection asked for.
pub proof fn law_entered_page_is_mapped(
    before: &Pmap,
    after: &Pmap,
    pool0: &FramePool,
    pool1: &FramePool,
    cpu: int,
    va: u64,
    pa: PhysAddr,
    prot: MapPerm,
    r: (FaultResult, Option<TlbRange>),
)
    requires
        page_entered(before, after, pool0, pool1, cpu, va, pa, prot, r),
        r.0 == FaultResult::Resolved,
        pa.0 < 0x100_0000_0000_0000,
    ensures
        after.mapping_at(va as int) == Some(((pa.0 / 4096 * 4096) as u64, flags_for(prot))),
        flags_for(prot).has(PteFlags::W()) == prot.has(MapPerm::W()),
        flags_for(prot).has(PteFlags::R()) == prot.has(MapPerm::R()),
        flags_for(prot).has(PteFlags::X()) == prot.has(MapPerm::X()),
{
    law_perm_shows_in_flags(prot);
    lemma_entry(pa.0, enter_flags(prot, false));
    assert(same_page(va as int, va as int));
    assert(after.entry_at(va as int) == entry_of(pa.0, enter_flags(prot, false)));
}

/// The page that a fault gave an object is what is seen through the object afterwards.
pub proof fn law_owned_page_is_seen(
    before: &VmObjects,
    after: &VmObjects,
    pool0: &FramePool,
    pool1: &FramePool,
    cpu: int,
    o: int,
    k: u64,
    r: Result<(PhysAddr, bool), Errno>,
)
    requires
        before.wf(),
        before.has(o),
        page_owned(before, after, pool0, pool1, cpu, o, k, r),
    ensures
        r matches Ok((pa, _)) ==> lookup(after.objects@, o, k) == Some(pa),
{
}

/// What resolving a fault at an address of an entry comes to.  An access that the protection does not
/// allow, or any to a guard, is an error and changes nothing.  Where no object of the chain has the
/// page and no file holds it, a frame is taken that was free: it is to be filled with zeros, is the
/// object's page, and is what the address translates to, with the protection of the entry.  Where one
/// has the page, reading maps just that; writing maps a frame that was free, to which just that page
/// is to be copied, unless the page is the object's own or the chain behind it could be shortened.
/// While frames are left and no large page is in the way, every such fault is resolved.  No other page
/// is translated otherwise than before, no object but that of the entry changes, but where its chain is
/// shortened, and what was translated otherwise is to be flushed.
#[verifier::rlimit(40)]
pub proof fn law_fault_gives_right_page(
    map0: &VmMap,
    map1: &VmMap,
    store0: &VmObjects,
    store1: &VmObjects,
    pool0: &FramePool,
    pool1: &FramePool,
    cpu: int,
    va: int,
    access: PageFaultAccessType,
    r: Fault,
    i: int,
)
    requires
        map0.wf(),
        store0.wf(),
        backed(map0.entries(), store0),
        pool_holdable(pool0),
        0 <= i < map0.entries().len(),
        map0.entries()[i].lo <= va < map0.entries()[i].hi,
        fault_resolved(map0, map1, store0, store1, pool0, pool1, cpu, va, access, r),
    ensures
        ({
                let e = map0.entries()[i];
                let prot = e.protection.0;
                let denied = access.read && prot % 2 == 0 || access.write && prot / 2 % 2 == 0
                    || access.execute && prot / 4 % 2 == 0;
                let (o, off) = match e.mapping {
                    VmMapping::AnonPrivate { object, offset } => (object, offset),
                    VmMapping::FilePrivate { object, offset } => (object, offset),
                    VmMapping::FileShared { object, offset } => (object, offset),
                    VmMapping::Heap { object, offset } => (object, offset),
                    VmMapping::Shared { object, offset } => (object, offset),
                    VmMapping::Guard => (0, 0),
                };
                let page = va / 4096 * 4096;
                let k = ((off + (page - e.lo)) / 4096) as u64;
                let seen = lookup(store0.objects@, o as int, k);
                let file = (store0.objects@[o as int]->0).pager matches Some(PagerRef::Vnode(_));
                let was = map0.pmap.entry_at(page);
                let raw = map1.pmap.entry_at(page);
                let own = (store1.objects@[o as int]->0).pages@;
                // The page is mapped with the protection of the entry.
                let mapped_so = raw % 2 == 1 && (raw / 2 % 2 == 1 <==> prot % 2 == 1)
                    && (raw / 4 % 2 == 1 <==> prot / 2 % 2 == 1) && (raw / 8 % 2 == 1
                    <==> prot / 4 % 2 == 1) && (raw / 16 % 2 == 1 <==> prot / 8 % 2 == 1);
                let at: int = raw as int / 1024 % 0x1000_0000_0000 * 4096;
                &&& denied || e.mapping is Guard ==> r.result == FaultResult::Error(Errno::Efault)
                    && r.work == PageWork::Nothing && map1.pmap == map0.pmap
                    && store1.objects@ == store0.objects@
                &&& forall|v: int| !same_page(page, v)
                    ==> #[trigger] map1.pmap.entry_at(v) == map0.pmap.entry_at(v)
                &&& !denied && !(e.mapping is Guard) ==> {
                    &&& seen is None && file ==> r.result == FaultResult::NeedsAsyncIO
                        && r.work == PageWork::Nothing && map1.pmap == map0.pmap
                        && store1.objects@ == store0.objects@
                    &&& !(seen is None && file) && prot % 8 != 0
                        ==> r.result == FaultResult::Resolved
                        || r.result == FaultResult::Error(Errno::Enomem)
                    &&& r.result == FaultResult::Resolved && !(access.write
                        && r.work == PageWork::Nothing)
                        ==> r.flush == Some(TlbRange { start: page as u64, end: (page + 4096) as u64, asid: map0.pmap.asid })
                    &&& r.result == FaultResult::Resolved && was % 2 == 1 && was / 2 % 8 != 0
                        ==> r.flush == Some(TlbRange { start: page as u64, end: (page + 4096) as u64, asid: map0.pmap.asid })
                    &&& !(seen is Some && access.write)
                        ==> forall|x: int| 0 <= x < store0.objects@.len() && x != o as int
                        ==> #[trigger] store1.objects@[x] == store0.objects@[x]
                    &&& !(seen is None && file) && !map0.pmap.root.large_at(page) && prot % 8 != 0
                        && (exists|p: int| #[trigger] pool1.pool_free(p))
                        ==> r.result == FaultResult::Resolved
                    &&& seen is None && !file && r.result == FaultResult::Resolved ==> {
                        &&& r.work matches PageWork::Zero(f) && pool0.pool_free(f.0 as int / 4096)
                            && own.dom().contains(k) && own[k].pa == f && at == f.0 as int / 4096 * 4096
                        &&& mapped_so
                    }
                    &&& seen matches Some(from) ==> !access.write && r.result == FaultResult::Resolved ==> {
                        &&& r.work == PageWork::Nothing
                        &&& store1.objects@ == store0.objects@
                        &&& mapped_so
                        &&& from.0 < 0x100_0000_0000_0000 ==> at == from.0 as int / 4096 * 4096
                    }
                    &&& seen matches Some(from) ==> access.write
                        && r.result == FaultResult::Resolved ==> match r.work {
                        PageWork::Zero(_) => false,
                        PageWork::Copy { from: a, to } => a == from
                            && pool0.pool_free(to.0 as int / 4096) && own.dom().contains(k)
                            && own[k].pa == to && at == to.0 as int / 4096 * 4096 && mapped_so,
                        PageWork::Nothing => {
                            let o0 = store0.objects@[o as int]->0;
                            &&& own.dom().contains(k)
                            &&& was % 2 == 1 && was / 2 % 8 != 0 ==> mapped_so
                            &&& o0.pages@.dom().contains(k) || o0.backing is Some
                                && (store0.objects@[o0.backing->0 as int]->0).shadow_count == 1
                        },
                    }
                }
            }),
{
    let es = map0.entries();
    let e = es[i];
    assert(found(es, va, i));
    lemma_place(es, va, i);
    lemma_perm_bits(e.protection);
    let prot = e.protection;
    let o = object_of(e.mapping)->0 as int;
    let k = index_at(e, va);
    let page = page_floor(va);
    assert(same_page(page, page));
    lemma_flags_follow(prot);
    if object_of(e.mapping) is Some && access.allowed(prot) {
        assert(store0.has(o));
        match fault_kind(es, store0, va, access) {
            FaultKind::Anonymous => {
                lemma_owned_work(
                    map0,
                    map1,
                    store0,
                    store1,
                    pool0,
                    pool1,
                    cpu,
                    o,
                    k,
                    page as u64,
                    prot,
                    None,
                    r,
                );
            },
            FaultKind::Write(pa) => {
                let objs = store0.objects@;
                let raw = map0.pmap.entry_at(page);
                lemma_reprotected(raw, prot);
                if promotable(objs, o, k) {
                } else if collapsible(objs, o) {
                    let mid = choose|mid: VmObjects| #[trigger]
                        collapsed(objs, mid.objects@, o, pinned_behind(pool0.meta@, objs, o), r.freed@)
                            && mid.wf() && if (mid.objects@[o]->0).pages@.dom().contains(k) {
                            r.result == FaultResult::Resolved && r.work == PageWork::Nothing
                                && page_protected(&map0.pmap, &map1.pmap, page as u64, prot, r.flush)
                                && *pool1 == *pool0 && store1.objects@ == mid.objects@
                        } else {
                            owned_and_entered(
                                map0,
                                map1,
                                &mid,
                                store1,
                                pool0,
                                pool1,
                                cpu,
                                o,
                                k,
                                page as u64,
                                prot,
                                Some(pa),
                                r,
                            )
                        };
                    if !(mid.objects@[o]->0).pages@.dom().contains(k) {
                        lemma_owned_work(
                            map0,
                            map1,
                            &mid,
                            store1,
                            pool0,
                            pool1,
                            cpu,
                            o,
                            k,
                            page as u64,
                            prot,
                            Some(pa),
                            r,
                        );
                    }
                } else {
                    lemma_owned_work(
                        map0,
                        map1,
                        store0,
                        store1,
                        pool0,
                        pool1,
                        cpu,
                        o,
                        k,
                        page as u64,
                        prot,
                        Some(pa),
                        r,
                    );
                }
            },
            FaultKind::Enter(pa) => {
                lemma_entry_bits(pa.0, prot);
            },
            _ => {},
        }
    }
}

/// Flags of protections, in numbers.
proof fn lemma_perm_bits(p: MapPerm)
    ensures
        p.has(MapPerm::R()) == (p.0 % 2 == 1),
        p.has(MapPerm::W()) == (p.0 / 2 % 2 == 1),
        p.has(MapPerm::X()) == (p.0 / 4 % 2 == 1),
        p.has(MapPerm::U()) == (p.0 / 8 % 2 == 1),
{
    let w = p.0;
    assert((w & 1 == 1) == (w % 2 == 1) && (w & 2 == 2) == (w / 2 % 2 == 1) && (w & 4 == 4) == (w / 4
        % 2 == 1) && (w & 8 == 8) == (w / 8 % 2 == 1)) by (bit_vector);
}

/// The flags for a protection, in numbers.
proof fn lemma_flags_follow(p: MapPerm)
    ensures
        flags_for(p).0 < 256,
        flags_for(p).0 % 2 == 1,
        flags_for(p).0 / 2 % 2 == 1 <==> p.0 % 2 == 1,
        flags_for(p).0 / 4 % 2 == 1 <==> p.0 / 2 % 2 == 1,
        flags_for(p).0 / 8 % 2 == 1 <==> p.0 / 4 % 2 == 1,
        flags_for(p).0 / 16 % 2 == 1 <==> p.0 / 8 % 2 == 1,
        flags_for(p).0 / 2 % 8 != 0 <==> p.0 % 8 != 0,
{
    lemma_perm_bits(p);
}

/// An entry for a protection, in numbers.
pub proof fn lemma_entry_bits(pa: u64, p: MapPerm)
    ensures
        ({
            let raw = entry_of(pa, enter_flags(p, false));
            &&& raw % 2 == 1
            &&& raw / 2 % 2 == 1 <==> p.0 % 2 == 1
            &&& raw / 4 % 2 == 1 <==> p.0 / 2 % 2 == 1
            &&& raw / 8 % 2 == 1 <==> p.0 / 4 % 2 == 1
            &&& raw / 16 % 2 == 1 <==> p.0 / 8 % 2 == 1
            &&& maps(raw) <==> p.0 % 8 != 0
            &&& pa < 0x100_0000_0000_0000 ==> raw as int / 1024 % 0x1000_0000_0000 * 4096 == pa as int
                / 4096 * 4096
        }),
{
    lemma_flags_follow(p);
    let f = flags_for(p).0 as int;
    let q = pa as int / 4096;
    let raw = entry_of(pa, enter_flags(p, false)) as int;
    assert(raw == q * 1024 + f);
    assert(raw / 2 == q * 512 + f / 2);
    assert(raw / 4 == q * 256 + f / 4);
    assert(raw / 8 == q * 128 + f / 8);
    assert(raw / 16 == q * 64 + f / 16);
    assert(raw / 1024 == q);
}

/// An entry whose protection was changed, in numbers.
proof fn lemma_reprotected(raw: u64, p: MapPerm)
    ensures
        ({
            let now = reprotected(raw, p);
            raw % 2 == 1 && raw / 2 % 8 != 0 ==> {
                &&& now % 2 == 1
                &&& now / 2 % 2 == 1 <==> p.0 % 2 == 1
                &&& now / 4 % 2 == 1 <==> p.0 / 2 % 2 == 1
                &&& now / 8 % 2 == 1 <==> p.0 / 4 % 2 == 1
                &&& now / 16 % 2 == 1 <==> p.0 / 8 % 2 == 1
                &&& now as int / 1024 % 0x1000_0000_0000 == raw as int / 1024 % 0x1000_0000_0000
            }
        }),
{
    lemma_flags_follow(p);
    let q = raw as int / 1024 % 0x1000_0000_0000;
    let f = flags_for(p).0 as int + raw as int % 1024 / 256 * 256;
    let now = reprotected(raw, p) as int;
    if maps(raw) {
        assert(addr_of(raw) as int == q * 4096);
        assert(addr_of(raw) as int / 4096 == q);
        assert(now == q * 1024 + f);
        assert(f < 1024);
        assert(now / 2 == q * 512 + f / 2);
        assert(now / 4 == q * 256 + f / 4);
        assert(now / 8 == q * 128 + f / 8);
        assert(now / 16 == q * 64 + f / 16);
        assert(now / 1024 == q);
    }
}

/// What giving an object its own page and entering that comes to.
proof fn lemma_owned_work(
    map0: &VmMap,
    map1: &VmMap,
    store0: &VmObjects,
    store1: &VmObjects,
    pool0: &FramePool,
    pool1: &FramePool,
    cpu: int,
    o: int,
    k: u64,
    va: u64,
    prot: MapPerm,
    copy_from: Option<PhysAddr>,
    r: Fault,
)
    requires
        store0.has(o),
        pool_holdable(pool0),
        owned_and_entered(
            map0,
            map1,
            store0,
            store1,
            pool0,
            pool1,
            cpu,
            o,
            k,
            va,
            prot,
            copy_from,
            r,
        ),
    ensures
        ({
            let raw = map1.pmap.entry_at(va as int);
            let own = (store1.objects@[o]->0).pages@;
            let at: int = raw as int / 1024 % 0x1000_0000_0000 * 4096;
            let mapped_so = raw % 2 == 1 && (raw / 2 % 2 == 1 <==> prot.0 % 2 == 1) && (raw / 4 % 2
                == 1 <==> prot.0 / 2 % 2 == 1) && (raw / 8 % 2 == 1 <==> prot.0 / 4 % 2 == 1) && (raw
                / 16 % 2 == 1 <==> prot.0 / 8 % 2 == 1);
            &&& r.result == FaultResult::Resolved ==> mapped_so && own.dom().contains(k)
            &&& r.result == FaultResult::Resolved && !(store0.objects@[o]->0).pages@.dom().contains(k)
                ==> {
                &&& at == own[k].pa.0 as int / 4096 * 4096
                &&& pool0.pool_free(own[k].pa.0 as int / 4096)
                &&& r.work == match copy_from {
                    Some(from) => PageWork::Copy { from, to: own[k].pa },
                    None => PageWork::Zero(own[k].pa),
                }
            }
            &&& r.result == FaultResult::Resolved && (store0.objects@[o]->0).pages@.dom().contains(k)
                ==> r.work == PageWork::Nothing
            &&& !map0.pmap.root.large_at(va as int) && prot.0 % 8 != 0 && (exists|p: int| #[trigger]
                pool1.pool_free(p)) ==> r.result == FaultResult::Resolved
        }),
{
    let (mid, own) = choose|mid: FramePool, own: Result<(PhysAddr, bool), Errno>| #[trigger]
        page_owned(store0, store1, pool0, &mid, cpu, o, k, own) && match own {
            Err(_) => {
                &&& r.result == FaultResult::Error(Errno::Enomem)
                &&& r.work == PageWork::Nothing
                &&& r.flush is None
                &&& map1.pmap == map0.pmap
                &&& *pool1 == mid
            },
            Ok((pa, fresh)) => {
                &&& page_entered(
                    &map0.pmap,
                    &map1.pmap,
                    &mid,
                    pool1,
                    cpu,
                    va,
                    pa,
                    prot,
                    (r.result, r.flush),
                )
                &&& r.work == if !fresh {
                    PageWork::Nothing
                } else {
                    match copy_from {
                        Some(from) => PageWork::Copy { from, to: pa },
                        None => PageWork::Zero(pa),
                    }
                }
            },
        };
    if let Ok((pa, fresh)) = own {
        lemma_entry_bits(pa.0, prot);
        assert(same_page(va as int, va as int));
        if fresh {
            assert(pool0.pool_free(pa.0 as int / 4096));
        }
    }
}

/// Nothing is done about a fault only where the page is translated already, and to a page that may be
/// written where the access writes, and executed where it executes.
pub proof fn law_only_usable_pages_are_left(pmap: &Pmap, va: int, access: PageFaultAccessType)
    ensures
        ({
            let raw = pmap.entry_at(va / 4096 * 4096);
            mapped_for(pmap, va, access) <==> raw % 2 == 1 && raw / 2 % 8 != 0 && (access.write ==> raw
                / 4 % 2 == 1) && (access.execute ==> raw / 8 % 2 == 1)
        }),
{
    let raw = pmap.entry_at(page_floor(va));
    lemma_flag_bits(flags_of(raw));
    let f = raw as int % 1024;
    let q = raw as int / 1024;
    assert(raw == q * 1024 + f);
    assert(raw as int / 4 == q * 256 + f / 4);
    assert(raw as int / 8 == q * 128 + f / 8);
}

/// A fault at a guard is always an error, and changes nothing.
pub proof fn law_guard_faults_are_fatal(
    map0: &VmMap,
    map1: &VmMap,
    store0: &VmObjects,
    store1: &VmObjects,
    pool0: &FramePool,
    pool1: &FramePool,
    cpu: int,
    va: int,
    access: PageFaultAccessType,
    r: Fault,
)
    requires
        mapped(map0.entries(), va),
        map0.entries()[place_of(map0.entries(), va)].mapping is Guard,
        fault_resolved(map0, map1, store0, store1, pool0, pool1, cpu, va, access, r),
    ensures
        r.result == FaultResult::Error(Errno::Efault),
        map1.pmap == map0.pmap,
        store1.objects@ == store0.objects@,
{
}

} // verus!
