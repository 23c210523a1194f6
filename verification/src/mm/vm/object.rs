//! Memory objects: pages behind a mapping.
use vstd::prelude::*;
use crate::hal::addr::{PhysAddr, PAGE_SIZE};
use crate::hal::errno::Errno;
use crate::mm::allocator::frame_allocator::{
    alloc_raw_frame_sync, frame_allocated, FramePool, NUM_MAGAZINES,
};
use crate::mm::allocator::types::{frame_index, get_frame_meta, pfn, PageRole};
use crate::mm::vm::page::{Busy, ExclusiveBusyGuard, SharedBusyGuard, VmPage};
use crate::mm::vm::page_map::{as_map, rising, PageMap};
use crate::mm::vm::page_ref::{PageRef, PhysPage};
use crate::mm::vm::pager::{AnonPager, PageFill, Pager, VnodePager};
use crate::mm::vm::shadow::{
    collapsed, depth, live, lookup, object_wf, Object, ObjectStore, Objects, PagerRef,
};

verus! {

/// An object that holds pages by the handles that own them.
pub type VmObject = Object<PageRef>;

/// All such objects.
pub type VmObjects = ObjectStore<PageRef>;

/// Index into an object, in pages.
#[derive(Debug, Copy, Clone, PartialEq, Eq, PartialOrd, Ord, Hash, Structural)]
pub struct VObjIndex(pub u64);

impl VObjIndex {
    pub fn new(n: u64) -> (r: Self)
        ensures
            r.0 == n,
    {
        VObjIndex(n)
    }

    pub fn as_usize(self) -> (r: usize)
        requires
            self.0 <= usize::MAX,
        ensures
            r == self.0,
    {
        self.0 as usize
    }

    pub fn as_u64(self) -> (r: u64)
        ensures
            r == self.0,
    {
        self.0
    }

    /// The index of a page number.
    pub fn from_page_num(pn: u64) -> (r: Self)
        ensures
            r.0 == pn,
    {
        VObjIndex(pn)
    }

    /// The index of the page that holds byte `bytes`.
    pub fn from_bytes_floor(bytes: u64) -> (r: Self)
        ensures
            r.0 == bytes as int / 4096,
    {
        VObjIndex(bytes / PAGE_SIZE)
    }

    /// The number of pages that hold `bytes` bytes.
    pub fn from_bytes_ceil(bytes: u64) -> (r: Self)
        requires
            bytes + 4095 <= u64::MAX,
        ensures
            r.0 == (bytes + 4095) / 4096,
    {
        VObjIndex((bytes + (PAGE_SIZE - 1)) / PAGE_SIZE)
    }

    /// Byte offset of the page.
    pub fn to_bytes(self) -> (r: u64)
        requires
            self.0 * 4096 <= u64::MAX,
        ensures
            r == self.0 * 4096,
    {
        self.0 * PAGE_SIZE
    }

    /// The index `rhs` pages on.
    pub fn plus(self, rhs: u64) -> (r: Self)
        requires
            self.0 + rhs <= u64::MAX,
        ensures
            r.0 == self.0 + rhs,
    {
        VObjIndex(self.0 + rhs)
    }

    /// The index `rhs` pages back.
    pub fn minus(self, rhs: u64) -> (r: Self)
        requires
            self.0 >= rhs,
        ensures
            r.0 == self.0 - rhs,
    {
        VObjIndex(self.0 - rhs)
    }

    /// Number of pages from `rhs` to here.
    pub fn distance_from(self, rhs: VObjIndex) -> (r: u64)
        requires
            self.0 >= rhs.0,
        ensures
            r == self.0 - rhs.0,
    {
        self.0 - rhs.0
    }
}

/// Rounding down and up a byte offset brackets it, and an index survives the way
/// through bytes.
pub proof fn law_index_bytes(bytes: int, index: int)
    requires
        0 <= bytes,
        0 <= index,
    ensures
        bytes / 4096 * 4096 <= bytes <= (bytes + 4095) / 4096 * 4096,
        index * 4096 / 4096 == index,
        (index * 4096 + 4095) / 4096 == index,
{
}

/// A page of the pool is free only while nobody holds it busy.
pub open spec fn free_not_busy(pool: &FramePool) -> bool {
    forall|p: int|
        0 <= p < pool.meta@.len() && #[trigger] pool.pool_free(p) ==> !pool.meta@[p].busy().exclusive
            && pool.meta@[p].busy().readers == 0
}

/// Whether anyone holds the page at `pa` busy.
pub open spec fn busied(table: Seq<VmPage>, pa: PhysAddr) -> bool {
    pfn(pa) < table.len() && (table[pfn(pa)].busy().exclusive || table[pfn(pa)].busy().readers > 0)
}

/// Indices of the entries whose page is held busy.
pub open spec fn busy_indices(table: Seq<VmPage>, s: Seq<(u64, PageRef)>) -> Seq<u64>
    decreases s.len(),
{
    if s.len() == 0 {
        Seq::empty()
    } else {
        let before = busy_indices(table, s.drop_last());
        if busied(table, s.last().1.pa) {
            before.push(s.last().0)
        } else {
            before
        }
    }
}

/// Entries whose page is dirty, with the address of the page.
pub open spec fn dirty_entries(table: Seq<VmPage>, s: Seq<(u64, PageRef)>) -> Seq<(u64, PhysAddr)>
    decreases s.len(),
{
    if s.len() == 0 {
        Seq::empty()
    } else {
        let before = dirty_entries(table, s.drop_last());
        let pa = s.last().1.pa;
        if pfn(pa) < table.len() && table[pfn(pa)].dirty != 0 {
            before.push((s.last().0, pa))
        } else {
            before
        }
    }
}

/// What looking for a page for a fault came to.
#[derive(Debug, Clone, Copy, PartialEq, Eq, Structural)]
pub enum Grab {
    /// The page is in flux: wait for it and look again.
    Wait(PhysAddr),
    /// The page is there.
    Found(PhysAddr),
    /// A new page, exclusively busy until it is filled.
    New(PhysAddr),
    /// No frame is left.
    NoMemory,
}

/// The pages an object that holds the page of `k` at `pa` as well has.
pub open spec fn with_page(before: Objects<PageRef>, after: Objects<PageRef>, id: int, k: u64, pa: PhysAddr) -> bool {
    let o = before[id]->0;
    let n = after[id]->0;
    &&& after == before.update(id, after[id])
    &&& live(after, id)
    &&& n.pages@ == o.pages@.insert(k, PageRef { pa })
    &&& n == (Object { pages: n.pages, resident_count: n.resident_count, ..o })
}

/// The frame at `pa` is exclusively busy, and nothing else has changed.
pub open spec fn now_busy(pool0: &FramePool, pool1: &FramePool, pa: PhysAddr) -> bool {
    let i = pfn(pa);
    &&& pool1.buddy == pool0.buddy
    &&& pool1.magazines == pool0.magazines
    &&& if i < pool0.meta@.len() {
        &&& pool1.meta@ == pool0.meta@.update(i, pool1.meta@[i])
        &&& pool1.meta@[i].same_but_busy(&pool0.meta@[i])
        &&& pool1.meta@[i].busy() == (Busy { exclusive: true, ..pool0.meta@[i].busy() })
    } else {
        pool1.meta@ == pool0.meta@
    }
}

impl Object<PageRef> {
    /// Create an anonymous object.
    pub fn new_anon(store: &mut VmObjects, size: u64) -> (r: usize)
        requires
            old(store).wf(),
        ensures
            final(store).wf(),
            r == old(store).objects@.len(),
            final(store).objects@ == old(store).objects@.push(final(store).objects@[r as int]),
            final(store).pagers == old(store).pagers,
            final(store).has(r as int),
            ({
                let o = final(store).obj(r as int);
                &&& o.pages@ == Map::<u64, PageRef>::empty()
                &&& o.pager == Some(PagerRef::Anon)
                &&& o.backing is None
                &&& o.shadow_count == 0
                &&& o.size == size
                &&& o.resident_count == 0
                &&& o.generation == 0
                &&& o.clean_generation == 0
                &&& o.refs == 1
            }),
    {
        store.create(size, Some(PagerRef::Anon))
    }

    /// Create an object for a whole file.
    pub fn new_file(store: &mut VmObjects, vnode_id: u64, path: String, size: u64) -> (r: usize)
        requires
            old(store).wf(),
        ensures
            final(store).wf(),
            r == old(store).objects@.len(),
            final(store).objects@ == old(store).objects@.push(final(store).objects@[r as int]),
            final(store).pagers@ == old(store).pagers@.push(
                VnodePager { vnode_id, path, base_offset: 0, valid_bytes: u64::MAX },
            ),
            final(store).has(r as int),
            ({
                let o = final(store).obj(r as int);
                &&& o.pages@ == Map::<u64, PageRef>::empty()
                &&& o.pager == Some(PagerRef::Vnode(old(store).pagers@.len() as usize))
                &&& o.backing is None
                &&& o.shadow_count == 0
                &&& o.size == size
                &&& o.resident_count == 0
                &&& o.generation == 0
                &&& o.clean_generation == 0
                &&& o.refs == 1
            }),
    {
        let pager = store.pagers.len();
        store.pagers.push(
            VnodePager { vnode_id, path, base_offset: 0, valid_bytes: u64::MAX },
        );
        store.create(size, Some(PagerRef::Vnode(pager)))
    }

    /// Create an object for a region of a file: page 0 is at `base_offset`, and
    /// what follows `valid_bytes` bytes is zero.
    pub fn new_vnode_region(
        store: &mut VmObjects,
        vnode_id: u64,
        path: String,
        size_pages: u64,
        base_offset: u64,
        valid_bytes: u64,
    ) -> (r: usize)
        requires
            old(store).wf(),
            size_pages * 4096 <= u64::MAX,
        ensures
            final(store).wf(),
            r == old(store).objects@.len(),
            final(store).objects@ == old(store).objects@.push(final(store).objects@[r as int]),
            final(store).pagers@ == old(store).pagers@.push(
                VnodePager { vnode_id, path, base_offset, valid_bytes },
            ),
            final(store).has(r as int),
            ({
                let o = final(store).obj(r as int);
                &&& o.pages@ == Map::<u64, PageRef>::empty()
                &&& o.pager == Some(PagerRef::Vnode(old(store).pagers@.len() as usize))
                &&& old(store).pagers@.len() <= usize::MAX
                &&& o.backing is None
                &&& o.shadow_count == 0
                &&& o.size == size_pages * 4096
                &&& o.resident_count == 0
                &&& o.generation == 0
                &&& o.clean_generation == 0
                &&& o.refs == 1
            }),
    {
        let pager = store.pagers.len();
        store.pagers.push(VnodePager { vnode_id, path, base_offset, valid_bytes });
        store.create(size_pages * PAGE_SIZE, Some(PagerRef::Vnode(pager)))
    }

    /// Put an empty shadow in front of `parent`.  The caller's handle to `parent`
    /// becomes the shadow's.
    pub fn new_shadow(store: &mut VmObjects, parent: usize, size: u64) -> (r: usize)
        requires
            old(store).wf(),
            old(store).has(parent as int),
            old(store).obj(parent as int).shadow_count < old(store).obj(parent as int).refs,
        ensures
            final(store).wf(),
            final(store).pagers == old(store).pagers,
            final(store).has(r as int),
            shadow_added(old(store).objects@, final(store).objects@, parent as int, r as int),
            ({
                let o = final(store).obj(r as int);
                &&& o.pager == Some(PagerRef::Anon)
                &&& o.size == size
            }),
    {
        store.shadow_of(parent, size, Some(PagerRef::Anon))
    }

    /// The page at `index`, looked for along the chain.
    pub fn lookup_page(store: &VmObjects, id: usize, index: VObjIndex) -> (r: Option<PhysAddr>)
        requires
            store.wf(),
            store.has(id as int),
        ensures
            r == lookup(store.objects@, id as int, index.0),
    {
        store.lookup_page(id, index.0)
    }

    /// The page at `pindex`, looked for along the chain.
    pub fn lookup_page_in_chain(store: &VmObjects, id: usize, pindex: VObjIndex) -> (r: Option<
        PhysAddr,
    >)
        requires
            store.wf(),
            store.has(id as int),
        ensures
            r == lookup(store.objects@, id as int, pindex.0),
    {
        Self::lookup_page(store, id, pindex)
    }

    /// Find the page at `index` for a fault, or put a new one into the object.
    /// A page in flux has to be waited for.
    pub fn grab_for_fault(
        store: &mut VmObjects,
        pool: &mut FramePool,
        cpu: usize,
        id: usize,
        index: VObjIndex,
    ) -> (r: Grab)
        requires
            old(store).wf(),
            old(store).has(id as int),
            old(pool).inv(),
            free_not_busy(old(pool)),
            cpu < NUM_MAGAZINES,
        ensures
            final(store).wf(),
            final(store).pagers == old(store).pagers,
            final(pool).inv(),
            free_not_busy(final(pool)),
            match lookup(old(store).objects@, id as int, index.0) {
                Some(pa) => {
                    &&& final(store).objects@ == old(store).objects@
                    &&& *final(pool) == *old(pool)
                    &&& r == if pfn(pa) < old(pool).meta@.len() && old(pool).meta@[pfn(
                        pa,
                    )].busy().exclusive {
                        Grab::Wait(pa)
                    } else {
                        Grab::Found(pa)
                    }
                },
                None => match r {
                    Grab::New(pa) => {
                        &&& with_page(
                            old(store).objects@,
                            final(store).objects@,
                            id as int,
                            index.0,
                            pa,
                        )
                        &&& exists|mid: FramePool| #[trigger]
                            frame_allocated(
                                old(pool),
                                &mid,
                                cpu as int,
                                PageRole::UserAnon,
                                Some(pa),
                            ) && now_busy(&mid, final(pool), pa)
                    },
                    Grab::NoMemory => {
                        &&& frame_allocated(
                            old(pool),
                            final(pool),
                            cpu as int,
                            PageRole::UserAnon,
                            None,
                        )
                        &&& final(store).objects@ == old(store).objects@
                    },
                    _ => false,
                },
            },
    {
        match store.lookup_page(id, index.0) {
            Some(pa) => {
                if let Some(meta) = get_frame_meta(&pool.meta, pa) {
                    if meta.is_exclusive_busied() {
                        return Grab::Wait(pa);
                    }
                }
                Grab::Found(pa)
            },
            None => {
                let ghost before = *pool;
                match alloc_raw_frame_sync(pool, cpu, PageRole::UserAnon) {
                    None => {
                        assert forall|p: int|
                            0 <= p < pool.meta@.len() && #[trigger] pool.pool_free(
                                p,
                            ) implies !pool.meta@[p].busy().exclusive && pool.meta@[p].busy().readers
                            == 0 by {}
                        Grab::NoMemory
                    },
                    Some(phys) => {
                        let ghost mid = *pool;
                        if let Some(i) = frame_index(pool.meta.len(), phys) {
                            assert(before.pool_free(pfn(phys)));
                            let _ = pool.meta[i].try_acquire_exclusive();
                            assert(pool.meta@ =~= mid.meta@.update(i as int, pool.meta@[i as int]));
                        }
                        proof {
                            assert(frame_allocated(
                                old(pool),
                                &mid,
                                cpu as int,
                                PageRole::UserAnon,
                                Some(phys),
                            ));
                            assert(pool.stacks() =~= mid.stacks());
                            assert forall|p: int| #[trigger]
                                pool.pool_free(p) <==> before.pool_free(p) && p != pfn(phys) by {
                                assert(mid.pool_free(p) <==> pool.pool_free(p));
                            }
                            assert forall|p: int|
                                0 <= p < pool.meta@.len() && #[trigger] pool.pool_free(
                                    p,
                                ) implies pool.meta@[p].refs == 0 by {
                                assert(mid.pool_free(p));
                            }
                            assert forall|p: int|
                                0 <= p < pool.meta@.len() && #[trigger] pool.pool_free(
                                    p,
                                ) implies !pool.meta@[p].busy().exclusive
                                && pool.meta@[p].busy().readers == 0 by {
                                assert(before.pool_free(p));
                            }
                        }
                        assert(now_busy(&mid, pool, phys));
                        let _ = store.insert_page(id, index.0, PageRef::new(phys));
                        Grab::New(phys)
                    },
                }
            },
        }
    }

    /// How a new page of the object is to be filled.
    pub fn fetch_plan(store: &VmObjects, id: usize, index: VObjIndex) -> (r: PageFill)
        requires
            store.wf(),
            store.has(id as int),
            store.obj(id as int).pager is Some,
            index.0 * 4096 <= u64::MAX,
        ensures
            r == match store.obj(id as int).pager->0 {
                PagerRef::Anon => PageFill::Zero,
                PagerRef::Vnode(i) => store.pagers@[i as int].fill_of((index.0 * 4096) as u64),
            },
    {
        let offset = index.to_bytes();
        assert(live(store.objects@, id as int));
        match store.get(id).pager {
            Some(PagerRef::Vnode(i)) => store.pagers[i].page_in(offset),
            _ => AnonPager.page_in(offset),
        }
    }

    /// A new page was filled, or could not be: it is no longer busy.  The second
    /// result says whether sleepers have to be woken.
    pub fn fetch_done(table: &mut Vec<VmPage>, pa: PhysAddr, filled: bool) -> (r: (
        Result<PhysAddr, Errno>,
        bool,
    ))
        requires
            pfn(pa) < old(table)@.len() ==> old(table)@[pfn(pa)].busy().exclusive,
        ensures
            r.0 == if filled {
                Ok(pa)
            } else {
                Err(Errno::Eio)
            },
            pfn(pa) >= old(table)@.len() ==> final(table)@ == old(table)@ && !r.1,
            pfn(pa) < old(table)@.len() ==> {
                let i = pfn(pa);
                &&& r.1 == old(table)@[i].busy().wanted
                &&& final(table)@ == old(table)@.update(i, final(table)@[i])
                &&& final(table)@[i].same_but_busy(&old(table)@[i])
                &&& final(table)@[i].same_but_busy(&old(table)@[i])
                &&& final(table)@[i].busy() == (Busy {
                    exclusive: false,
                    wanted: false,
                    readers: old(table)@[i].busy().readers,
                })
            },
    {
        let wake = match frame_index(table.len(), pa) {
            Some(i) => table[i].release_exclusive(),
            None => false,
        };
        if filled {
            (Ok(pa), wake)
        } else {
            (Err(Errno::Eio), wake)
        }
    }

    /// The object's own page at `index`, or a new one put in; the second result
    /// says whether it is new and has to be filled: with zeros for anonymous
    /// memory, with a copy of the old page for copy-on-write.
    fn own_page(
        store: &mut VmObjects,
        pool: &mut FramePool,
        cpu: usize,
        id: usize,
        index: VObjIndex,
    ) -> (r: Result<(PhysAddr, bool), Errno>)
        requires
            old(store).wf(),
            old(store).has(id as int),
            old(pool).inv(),
            cpu < NUM_MAGAZINES,
        ensures
            final(store).wf(),
            final(store).pagers == old(store).pagers,
            final(pool).inv(),
            forall|p: int| #[trigger] final(pool).pool_free(p) ==> old(pool).pool_free(p),
            page_owned(old(store), final(store), old(pool), final(pool), cpu as int, id as int, index.0, r),
    {
        if let Some(p) = store.get(id).pages.get(index.0) {
            return Ok((p.phys(), false));
        }
        match alloc_raw_frame_sync(pool, cpu, PageRole::UserAnon) {
            None => Err(Errno::Enomem),
            Some(phys) => {
                let _ = store.insert_page(id, index.0, PageRef::new(phys));
                Ok((phys, true))
            },
        }
    }

    /// The object's own page at `index`, or a new page put in, which has to be
    /// zeroed.
    pub fn fault_allocate_anon(
        store: &mut VmObjects,
        pool: &mut FramePool,
        cpu: usize,
        id: usize,
        index: VObjIndex,
    ) -> (r: Result<(PhysAddr, bool), Errno>)
        requires
            old(store).wf(),
            old(store).has(id as int),
            old(pool).inv(),
            cpu < NUM_MAGAZINES,
        ensures
            final(store).wf(),
            final(store).pagers == old(store).pagers,
            final(pool).inv(),
            forall|p: int| #[trigger] final(pool).pool_free(p) ==> old(pool).pool_free(p),
            page_owned(old(store), final(store), old(pool), final(pool), cpu as int, id as int, index.0, r),
    {
        assert(object_wf(store.objects@, id as int));
        Self::own_page(store, pool, cpu, id, index)
    }

    /// The object's own page at `index`, or a new page put in, to which the old
    /// page has to be copied.
    pub fn fault_cow(
        store: &mut VmObjects,
        pool: &mut FramePool,
        cpu: usize,
        id: usize,
        index: VObjIndex,
    ) -> (r: Result<(PhysAddr, bool), Errno>)
        requires
            old(store).wf(),
            old(store).has(id as int),
            old(pool).inv(),
            cpu < NUM_MAGAZINES,
        ensures
            final(store).wf(),
            final(store).pagers == old(store).pagers,
            final(pool).inv(),
            forall|p: int| #[trigger] final(pool).pool_free(p) ==> old(pool).pool_free(p),
            page_owned(old(store), final(store), old(pool), final(pool), cpu as int, id as int, index.0, r),
    {
        assert(object_wf(store.objects@, id as int));
        Self::own_page(store, pool, cpu, id, index)
    }

    /// The object's own page at `index`.
    pub fn get_page(&self, index: VObjIndex) -> (r: Option<&PageRef>)
        requires
            self.pages.wf(),
        ensures
            match r {
                Some(p) => self.pages@.dom().contains(index.0) && *p == self.pages@[index.0],
                None => !self.pages@.dom().contains(index.0),
            },
    {
        self.pages.get(index.0)
    }

    /// Put a page in; the page that was there is handed back.
    pub fn insert_page(store: &mut VmObjects, id: usize, index: VObjIndex, page: PageRef) -> (r:
        Option<PageRef>)
        requires
            old(store).wf(),
            old(store).has(id as int),
        ensures
            final(store).wf(),
            final(store).pagers == old(store).pagers,
            r == if old(store).obj(id as int).pages@.dom().contains(index.0) {
                Some(old(store).obj(id as int).pages@[index.0])
            } else {
                None
            },
            with_page(old(store).objects@, final(store).objects@, id as int, index.0, page.pa),
            final(store).obj(id as int).resident_count == old(store).obj(id as int).resident_count
                + if r is None {
                1int
            } else {
                0
            },
    {
        assert(object_wf(store.objects@, id as int));
        let r = store.insert_page(id, index.0, page);
        proof {
            assert(object_wf(store.objects@, id as int));
            let o = old(store).obj(id as int);
            let n = store.obj(id as int);
            crate::mm::vm::page_map::lemma_count(o.pages.entries());
            crate::mm::vm::page_map::lemma_count(n.pages.entries());
            if r is Some {
                assert(n.pages@.dom() =~= o.pages@.dom());
            } else {
                assert(n.pages@.dom() =~= o.pages@.dom().insert(index.0));
            }
        }
        r
    }

    /// Take a page out of the object.
    pub fn remove_page(store: &mut VmObjects, id: usize, index: VObjIndex) -> (r: Option<PageRef>)
        requires
            old(store).wf(),
            old(store).has(id as int),
        ensures
            final(store).wf(),
            final(store).pagers == old(store).pagers,
            r == if old(store).obj(id as int).pages@.dom().contains(index.0) {
                Some(old(store).obj(id as int).pages@[index.0])
            } else {
                None
            },
            final(store).has(id as int),
            final(store).objects@ == old(store).objects@.update(
                id as int,
                final(store).objects@[id as int],
            ),
            final(store).obj(id as int).pages@ == old(store).obj(id as int).pages@.remove(index.0),
            final(store).obj(id as int).resident_count == old(store).obj(id as int).resident_count
                - if r is Some {
                1int
            } else {
                0
            },
            final(store).obj(id as int) == (Object {
                pages: final(store).obj(id as int).pages,
                resident_count: final(store).obj(id as int).resident_count,
                ..old(store).obj(id as int)
            }),
    {
        assert(object_wf(store.objects@, id as int));
        let r = store.remove_page(id, index.0);
        proof {
            assert(object_wf(store.objects@, id as int));
            let o = old(store).obj(id as int);
            let n = store.obj(id as int);
            crate::mm::vm::page_map::lemma_count(o.pages.entries());
            crate::mm::vm::page_map::lemma_count(n.pages.entries());
            if r is None {
                assert(n.pages@.dom() =~= o.pages@.dom());
            } else {
                assert(n.pages@.dom() =~= o.pages@.dom().remove(index.0));
            }
        }
        r
    }

    /// Take the shared busy lock of the object's own page at `index`.
    pub fn lookup_page_guarded(&self, table: &mut Vec<VmPage>, index: VObjIndex) -> (r: Option<
        SharedBusyGuard,
    >)
        requires
            self.pages.wf(),
            self.pages@.dom().contains(index.0) && pfn(self.pages@[index.0].pa) < old(table)@.len()
                ==> old(table)@[pfn(self.pages@[index.0].pa)].busy().readers < 0x3FFF_FFFF,
        ensures
            r is Some <==> self.pages@.dom().contains(index.0) && pfn(self.pages@[index.0].pa) < old(table)@.len() && !old(table)@[pfn(self.pages@[index.0].pa)].busy().exclusive,
            r matches Some(g) ==> g.at() == self.pages@[index.0].pa,
            r is None ==> final(table)@ == old(table)@,
            r is Some ==> {
                let i = pfn(self.pages@[index.0].pa);
                &&& final(table)@ == old(table)@.update(i, final(table)@[i])
                &&& final(table)@[i].same_but_busy(&old(table)@[i])
                &&& final(table)@[i].busy() == (Busy {
                    readers: old(table)@[i].busy().readers + 1,
                    ..old(table)@[i].busy()
                })
            },
    {
        match self.pages.get(index.0) {
            None => None,
            Some(p) => SharedBusyGuard::try_new(table, p.phys()),
        }
    }

    /// Take the exclusive busy lock of the object's own page at `index`.
    pub fn grab_page_guarded(&self, table: &mut Vec<VmPage>, index: VObjIndex) -> (r: Option<
        ExclusiveBusyGuard,
    >)
        requires
            self.pages.wf(),
        ensures
            r is Some <==> self.pages@.dom().contains(index.0) && pfn(self.pages@[index.0].pa) < old(table)@.len() && !busied(old(table)@, self.pages@[index.0].pa),
            r matches Some(g) ==> g.at() == self.pages@[index.0].pa,
            r is None ==> final(table)@ == old(table)@,
            r is Some ==> {
                let i = pfn(self.pages@[index.0].pa);
                &&& final(table)@ == old(table)@.update(i, final(table)@[i])
                &&& final(table)@[i].busy() == (Busy { exclusive: true, ..old(table)@[i].busy() })
            },
    {
        match self.pages.get(index.0) {
            None => None,
            Some(p) => ExclusiveBusyGuard::try_new(table, p.phys()),
        }
    }

    /// Number of objects behind this one.
    pub fn shadow_depth(store: &VmObjects, id: usize) -> (r: usize)
        requires
            store.wf(),
            store.has(id as int),
        ensures
            r == depth(store.objects@, id as int),
    {
        store.shadow_depth(id)
    }

    /// Size in bytes.
    pub fn size(&self) -> (r: u64)
        ensures
            r == self.size,
    {
        self.size
    }

    /// Number of pages in this object.
    pub fn resident_count(&self) -> (r: usize)
        ensures
            r == self.resident_count,
    {
        self.resident_count
    }

    /// The backing object.
    pub fn backing(&self) -> (r: Option<usize>)
        ensures
            r == self.backing,
    {
        self.backing
    }

    /// The backing object.
    pub fn backing_object(&self) -> (r: Option<usize>)
        ensures
            r == self.backing,
    {
        self.backing
    }

    /// Number of shadows of this object.
    pub fn shadow_count(&self) -> (r: usize)
        ensures
            r == self.shadow_count,
    {
        self.shadow_count
    }

    /// Whether the object itself has a page at `index`.
    pub fn has_page(&self, index: VObjIndex) -> (r: bool)
        requires
            self.pages.wf(),
        ensures
            r == self.pages@.dom().contains(index.0),
    {
        self.pages.get(index.0).is_some()
    }

    /// Merge the backing object into this one where nothing else shadows it; pages
    /// held busy stay behind.  Returns the pages given up.
    pub fn collapse(store: &mut VmObjects, id: usize, table: &Vec<VmPage>) -> (freed: Vec<PageRef>)
        requires
            old(store).wf(),
            old(store).has(id as int),
        ensures
            final(store).wf(),
            final(store).pagers == old(store).pagers,
            ({
                let pinned = match old(store).obj(id as int).backing {
                    Some(b) => busy_indices(
                        table@,
                        old(store).obj(b as int).pages.entries(),
                    ),
                    None => Seq::empty(),
                };
                collapsed(old(store).objects@, final(store).objects@, id as int, pinned, freed@)
            }),
    {
        assert(object_wf(store.objects@, id as int));
        let pinned = match store.get(id).backing {
            Some(b) => {
                assert(object_wf(store.objects@, b as int));
                busy_pages(table, &store.get(b).pages)
            },
            None => Vec::new(),
        };
        store.collapse(id, &pinned)
    }

    /// Note that a page was changed.
    pub fn bump_generation(store: &mut VmObjects, id: usize)
        requires
            old(store).wf(),
            old(store).has(id as int),
        ensures
            final(store).wf(),
            final(store).pagers == old(store).pagers,
            final(store).objects@ == old(store).objects@.update(
                id as int,
                Some(
                    Object {
                        generation: old(store).obj(id as int).generation.wrapping_add(1),
                        ..old(store).obj(id as int)
                    },
                ),
            ),
    {
        assert(live(store.objects@, id as int));
        let (size, pager, g, c) = {
            let o = store.get(id);
            (o.size, o.pager, o.generation, o.clean_generation)
        };
        store.set_attrs(id, size, pager, g.wrapping_add(1), c);
    }

    /// Whether a page was changed since the object was last clean.
    pub fn is_dirty(&self) -> (r: bool)
        ensures
            r == (self.generation != self.clean_generation),
    {
        self.generation != self.clean_generation
    }

    /// Note that all pages were written back.
    pub fn mark_clean(store: &mut VmObjects, id: usize)
        requires
            old(store).wf(),
            old(store).has(id as int),
        ensures
            final(store).wf(),
            final(store).pagers == old(store).pagers,
            final(store).objects@ == old(store).objects@.update(
                id as int,
                Some(
                    Object {
                        clean_generation: old(store).obj(id as int).generation,
                        ..old(store).obj(id as int)
                    },
                ),
            ),
    {
        assert(live(store.objects@, id as int));
        let (size, pager, g) = {
            let o = store.get(id);
            (o.size, o.pager, o.generation)
        };
        store.set_attrs(id, size, pager, g, g);
    }

    /// The pages that the object itself owns, in the order of their indices.
    pub fn pages_iter(&self) -> (r: Vec<&PageRef>)
        ensures
            r@.len() == self.pages.entries().len(),
            forall|i: int| 0 <= i < r@.len() ==> *#[trigger] r@[i] == self.pages.entries()[i].1,
    {
        self.pages.values()
    }

    /// The pages that the object itself owns, each with its index, in that order.
    pub fn pages_with_index(&self) -> (r: Vec<(u64, &PageRef)>)
        ensures
            r@.len() == self.pages.entries().len(),
            forall|i: int|
                0 <= i < r@.len() ==> (#[trigger] r@[i]).0 == self.pages.entries()[i].0 && *r@[i].1
                    == self.pages.entries()[i].1,
    {
        self.pages.list()
    }

    /// The dirty pages of the object, in the order of their indices.
    pub fn collect_dirty_pages(&self, table: &Vec<VmPage>) -> (r: Vec<(VObjIndex, PhysAddr)>)
        ensures
            r@.len() == dirty_entries(table@, self.pages.entries()).len(),
            forall|i: int|
                0 <= i < r@.len() ==> (#[trigger] r@[i]).0.0 == dirty_entries(
                    table@,
                    self.pages.entries(),
                )[i].0 && r@[i].1 == dirty_entries(table@, self.pages.entries())[i].1,
    {
        let mut r: Vec<(VObjIndex, PhysAddr)> = Vec::new();
        let entries = self.pages.list();
        let ghost s = self.pages.entries();
        let mut i: usize = 0;
        while i < entries.len()
            invariant
                i <= entries@.len(),
                s.len() == entries@.len(),
                forall|j: int|
                    0 <= j < s.len() ==> (#[trigger] entries@[j]).0 == s[j].0 && *entries@[j].1
                        == s[j].1,
                r@.len() == dirty_entries(table@, s.take(i as int)).len(),
                forall|j: int|
                    0 <= j < r@.len() ==> (#[trigger] r@[j]).0.0 == dirty_entries(
                        table@,
                        s.take(i as int),
                    )[j].0 && r@[j].1 == dirty_entries(table@, s.take(i as int))[j].1,
            decreases entries@.len() - i,
        {
            proof {
                let now = s.take(i + 1);
                assert(now.drop_last() =~= s.take(i as int));
                assert(now.last() == s[i as int]);
            }
            let pa = entries[i].1.phys();
            if let Some(m) = get_frame_meta(table, pa) {
                if m.is_dirty() {
                    r.push((VObjIndex::new(entries[i].0), pa));
                }
            }
            i += 1;
        }
        assert(s.take(i as int) =~= s);
        r
    }

    /// Change the size in bytes.
    pub fn set_size(store: &mut VmObjects, id: usize, new_size: u64)
        requires
            old(store).wf(),
            old(store).has(id as int),
        ensures
            final(store).wf(),
            final(store).pagers == old(store).pagers,
            final(store).objects@ == old(store).objects@.update(
                id as int,
                Some(Object { size: new_size, ..old(store).obj(id as int) }),
            ),
    {
        assert(live(store.objects@, id as int));
        let (pager, g, c) = {
            let o = store.get(id);
            (o.pager, o.generation, o.clean_generation)
        };
        store.set_attrs(id, new_size, pager, g, c);
    }

    /// Take out every page from `from_index` on; they are handed back in order.
    pub fn truncate_pages(store: &mut VmObjects, id: usize, from_index: VObjIndex) -> (r: Vec<
        (u64, PageRef),
    >)
        requires
            old(store).wf(),
            old(store).has(id as int),
        ensures
            final(store).wf(),
            final(store).pagers == old(store).pagers,
            truncated(
                old(store).objects@,
                final(store).objects@,
                id as int,
                from_index.0,
                r@,
            ),
    {
        store.truncate_pages(id, from_index.0)
    }
}

/// What putting a shadow in front of `parent` does.
pub open spec fn shadow_added<P>(
    before: Objects<P>,
    after: Objects<P>,
    parent: int,
    id: int,
) -> bool {
    &&& id == before.len()
    &&& after == before.update(
        parent,
        Some(
            Object {
                shadow_count: ((before[parent]->0).shadow_count + 1) as usize,
                ..(before[parent]->0)
            },
        ),
    ).push(after[id])
    &&& after[id] matches Some(o) && {
        &&& o.pages@ == Map::<u64, P>::empty()
        &&& o.backing == Some(parent as usize)
        &&& o.shadow_count == 0
        &&& o.resident_count == 0
        &&& o.generation == 0
        &&& o.clean_generation == 0
        &&& o.refs == 1
    }
}

/// What taking out the pages from `from` on does.
pub open spec fn truncated<P>(
    before: Objects<P>,
    after: Objects<P>,
    id: int,
    from: u64,
    gone: Seq<(u64, P)>,
) -> bool {
    let o = before[id]->0;
    let n = after[id]->0;
    &&& after == before.update(id, after[id])
    &&& live(after, id)
    &&& n.pages@ == o.pages@.restrict(
        Set::new(|k: u64| o.pages@.dom().contains(k) && k < from),
    )
    &&& n == (Object { pages: n.pages, resident_count: n.resident_count, ..o })
    &&& rising(gone)
    &&& as_map(gone) == o.pages@.restrict(
        Set::new(|k: u64| o.pages@.dom().contains(k) && k >= from),
    )
    &&& n.resident_count + gone.len() == o.resident_count
}

/// What making sure that the object has its own page at `k` does.
pub open spec fn page_owned(
    store0: &VmObjects,
    store1: &VmObjects,
    pool0: &FramePool,
    pool1: &FramePool,
    cpu: int,
    id: int,
    k: u64,
    r: Result<(PhysAddr, bool), Errno>,
) -> bool {
    let o = store0.obj(id);
    if o.pages@.dom().contains(k) {
        &&& r == Ok::<(PhysAddr, bool), Errno>((o.pages@[k].pa, false))
        &&& store1.objects@ == store0.objects@
        &&& *pool1 == *pool0
    } else {
        match r {
            Ok((pa, fresh)) => {
                &&& fresh
                &&& frame_allocated(pool0, pool1, cpu, PageRole::UserAnon, Some(pa))
                &&& with_page(store0.objects@, store1.objects@, id, k, pa)
            },
            Err(e) => {
                &&& e == Errno::Enomem
                &&& frame_allocated(pool0, pool1, cpu, PageRole::UserAnon, None)
                &&& store1.objects@ == store0.objects@
            },
        }
    }
}

/// Indices of the entries whose page is held busy.
fn busy_pages(table: &Vec<VmPage>, pages: &PageMap<PageRef>) -> (r: Vec<u64>)
    ensures
        r@ == busy_indices(table@, pages.entries()),
{
    let mut r: Vec<u64> = Vec::new();
    let entries = pages.list();
    let ghost s = pages.entries();
    let mut i: usize = 0;
    while i < entries.len()
        invariant
            i <= entries@.len(),
            s.len() == entries@.len(),
            forall|j: int|
                0 <= j < s.len() ==> (#[trigger] entries@[j]).0 == s[j].0 && *entries@[j].1
                    == s[j].1,
            r@ == busy_indices(table@, s.take(i as int)),
        decreases entries@.len() - i,
    {
        proof {
            let now = s.take(i + 1);
            assert(now.drop_last() =~= s.take(i as int));
            assert(now.last() == s[i as int]);
        }
        if let Some(m) = get_frame_meta(table, entries[i].1.phys()) {
            if m.is_exclusive_busied() || m.is_shared_busied() {
                r.push(entries[i].0);
            }
        }
        i += 1;
    }
    assert(s.take(i as int) =~= s);
    r
}

/// After the pages from an index on were taken out, the object has none there, and still has each that
/// it had before that index; no other object has changed.
pub proof fn law_truncated_object_ends_there<P>(
    before: Objects<P>,
    after: Objects<P>,
    id: int,
    from: u64,
    gone: Seq<(u64, P)>,
    k: u64,
    x: int,
)
    requires
        truncated(before, after, id, from, gone),
        0 <= id < before.len(),
        0 <= x < before.len(),
    ensures
        k >= from ==> !(after[id]->0).pages@.dom().contains(k),
        k < from ==> ((after[id]->0).pages@.dom().contains(k) <==> (before[id]->0).pages@.dom().contains(
            k,
        )),
        k < from && (before[id]->0).pages@.dom().contains(k) ==> (after[id]->0).pages@[k] == (
        before[id]->0).pages@[k],
        x != id ==> after[x] == before[x],
{
}

} // verus!
