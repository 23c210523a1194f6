//! Objects that hold pages by the role of their frame.
use vstd::prelude::*;
use crate::hal::addr::PhysAddr;
use crate::mm::allocator::frame_allocator::{
    alloc_raw_frame_sync, frame_allocated, FramePool, NUM_MAGAZINES,
};
use crate::mm::allocator::types::PageRole;
use crate::mm::vm::object::{shadow_added, truncated};
use crate::mm::vm::page_ref::PhysPage;
use crate::mm::vm::shadow::{collapsed, depth, live, lookup, object_wf, Object, ObjectStore};

verus! {

/// What a page holds.
#[derive(Debug, Clone, Copy, PartialEq, Eq, Structural)]
pub enum PageOwnership {
    /// Anonymous memory.
    Anonymous,
    /// File contents.
    Cached,
}

/// A page held by an object.
#[derive(Debug)]
pub struct OwnedPage {
    pub phys: PhysAddr,
    pub ownership: PageOwnership,
}

impl PhysPage for OwnedPage {
    open spec fn at(&self) -> PhysAddr {
        self.phys
    }

    fn phys_addr(&self) -> (r: PhysAddr) {
        self.phys
    }
}

impl OwnedPage {
    /// A page of anonymous memory.
    pub fn new_anonymous(phys: PhysAddr) -> (r: Self)
        ensures
            r == (OwnedPage { phys, ownership: PageOwnership::Anonymous }),
    {
        OwnedPage { phys, ownership: PageOwnership::Anonymous }
    }

    /// A page of file contents.
    pub fn new_cached(phys: PhysAddr) -> (r: Self)
        ensures
            r == (OwnedPage { phys, ownership: PageOwnership::Cached }),
    {
        OwnedPage { phys, ownership: PageOwnership::Cached }
    }

    /// An anonymous page at `phys`.
    pub fn new_test(phys: PhysAddr) -> (r: Self)
        ensures
            r == (OwnedPage { phys, ownership: PageOwnership::Anonymous }),
    {
        OwnedPage { phys, ownership: PageOwnership::Anonymous }
    }

    /// The physical address of the page.
    pub fn phys(&self) -> (r: PhysAddr)
        ensures
            r == self.at(),
    {
        self.phys_addr()
    }
}

/// An object that holds such pages.
pub type VmObject = Object<OwnedPage>;

/// All such objects.
pub type VmObjects = ObjectStore<OwnedPage>;

/// What making sure that the object has its own page at `k` does.
pub open spec fn anon_page_owned(
    store0: &VmObjects,
    store1: &VmObjects,
    pool0: &FramePool,
    pool1: &FramePool,
    cpu: int,
    id: int,
    k: u64,
    r: Result<(PhysAddr, bool), ()>,
) -> bool {
    let o = store0.obj(id);
    if o.pages@.dom().contains(k) {
        &&& r == Ok::<(PhysAddr, bool), ()>((o.pages@[k].at(), false))
        &&& store1.objects@ == store0.objects@
        &&& *pool1 == *pool0
    } else {
        match r {
            Ok((pa, fresh)) => {
                let n = store1.obj(id);
                &&& fresh
                &&& frame_allocated(pool0, pool1, cpu, PageRole::UserAnon, Some(pa))
                &&& store1.objects@ == store0.objects@.update(id, store1.objects@[id])
                &&& live(store1.objects@, id)
                &&& n.pages@ == o.pages@.insert(k, OwnedPage { phys: pa, ownership: PageOwnership::Anonymous })
                &&& n == (Object { pages: n.pages, resident_count: n.resident_count, ..o })
            },
            Err(_) => {
                &&& frame_allocated(pool0, pool1, cpu, PageRole::UserAnon, None)
                &&& store1.objects@ == store0.objects@
            },
        }
    }
}

impl Object<OwnedPage> {
    /// Create an anonymous object.
    pub fn new(store: &mut VmObjects, size: u64) -> (r: usize)
        requires
            old(store).wf(),
        ensures
            final(store).wf(),
            final(store).pagers == old(store).pagers,
            r == old(store).objects@.len(),
            final(store).objects@ == old(store).objects@.push(final(store).objects@[r as int]),
            final(store).has(r as int),
            ({
                let o = final(store).obj(r as int);
                &&& o.pages@ == Map::<u64, OwnedPage>::empty()
                &&& o.pager is None
                &&& o.backing is None
                &&& o.shadow_count == 0
                &&& o.size == size
                &&& o.resident_count == 0
                &&& o.generation == 0
                &&& o.clean_generation == 0
                &&& o.refs == 1
            }),
    {
        store.create(size, None)
    }

    /// Put an empty shadow in front of `parent`.  The caller's handle to `parent`
    /// becomes the shadow's.
    pub fn new_shadow(store: &mut VmObjects, parent: usize, size: u64) -> (r: usize)
        requires
            old(store).wf(),
            old(store).has(parent as int),
            old(store).obj(parent as int).shadow_count < old(store).obj(parent as int).refs,
        ensures
            final(store).wf(),
            final(store).pagers == old(store).pagers,
            final(store).has(r as int),
            shadow_added(old(store).objects@, final(store).objects@, parent as int, r as int),
            final(store).obj(r as int).size == size,
            final(store).obj(r as int).pager is None,
    {
        store.shadow_of(parent, size, None)
    }

    /// The page at `index`, looked for along the chain.
    pub fn lookup_page(store: &VmObjects, id: usize, index: u64) -> (r: Option<PhysAddr>)
        requires
            store.wf(),
            store.has(id as int),
        ensures
            r == lookup(store.objects@, id as int, index),
    {
        store.lookup_page(id, index)
    }

    /// The page at `pindex`, looked for along the chain.
    pub fn lookup_page_in_chain(store: &VmObjects, id: usize, pindex: u64) -> (r: Option<PhysAddr>)
        requires
            store.wf(),
            store.has(id as int),
        ensures
            r == lookup(store.objects@, id as int, pindex),
    {
        Self::lookup_page(store, id, pindex)
    }

    /// The object's own page at `index`, or a new page put in, which has to be
    /// zeroed.
    pub fn fault_allocate_anon(
        store: &mut VmObjects,
        pool: &mut FramePool,
        cpu: usize,
        id: usize,
        index: u64,
    ) -> (r: Result<(PhysAddr, bool), ()>)
        requires
            old(store).wf(),
            old(store).has(id as int),
            old(pool).inv(),
            cpu < NUM_MAGAZINES,
        ensures
            final(store).wf(),
            final(store).pagers == old(store).pagers,
            final(pool).inv(),
            forall|p: int| #[trigger] final(pool).pool_free(p) ==> old(pool).pool_free(p),
            anon_page_owned(
                old(store),
                final(store),
                old(pool),
                final(pool),
                cpu as int,
                id as int,
                index,
                r,
            ),
    {
        assert(object_wf(store.objects@, id as int));
        if let Some(p) = store.get(id).pages.get(index) {
            return Ok((p.phys(), false));
        }
        match alloc_raw_frame_sync(pool, cpu, PageRole::UserAnon) {
            None => Err(()),
            Some(phys) => {
                let _ = store.insert_page(
                    id,
                    index,
                    OwnedPage::new_anonymous(phys),
                );
                Ok((phys, true))
            },
        }
    }

    /// The object's own page at `index`, or a new page put in, to which the old
    /// page has to be copied.
    pub fn fault_cow(
        store: &mut VmObjects,
        pool: &mut FramePool,
        cpu: usize,
        id: usize,
        index: u64,
    ) -> (r: Result<(PhysAddr, bool), ()>)
        requires
            old(store).wf(),
            old(store).has(id as int),
            old(pool).inv(),
            cpu < NUM_MAGAZINES,
        ensures
            final(store).wf(),
            final(store).pagers == old(store).pagers,
            final(pool).inv(),
            forall|p: int| #[trigger] final(pool).pool_free(p) ==> old(pool).pool_free(p),
            anon_page_owned(
                old(store),
                final(store),
                old(pool),
                final(pool),
                cpu as int,
                id as int,
                index,
                r,
            ),
    {
        Self::fault_allocate_anon(store, pool, cpu, id, index)
    }

    /// Put a page in; the page that was there is handed back.
    pub fn insert_page(store: &mut VmObjects, id: usize, index: u64, page: OwnedPage) -> (r: Option<
        OwnedPage,
    >)
        requires
            old(store).wf(),
            old(store).has(id as int),
        ensures
            final(store).wf(),
            final(store).pagers == old(store).pagers,
            r == if old(store).obj(id as int).pages@.dom().contains(index) {
                Some(old(store).obj(id as int).pages@[index])
            } else {
                None
            },
            ({
                let o = old(store).obj(id as int);
                let n = final(store).obj(id as int);
                &&& final(store).objects@ == old(store).objects@.update(
                    id as int,
                    final(store).objects@[id as int],
                )
                &&& final(store).has(id as int)
                &&& n.pages@ == o.pages@.insert(index, page)
                &&& n == (Object { pages: n.pages, resident_count: n.resident_count, ..o })
            }),
    {
        store.insert_page(id, index, page)
    }

    /// Take a page out of the object.
    pub fn remove_page(store: &mut VmObjects, id: usize, index: u64) -> (r: Option<OwnedPage>)
        requires
            old(store).wf(),
            old(store).has(id as int),
        ensures
            final(store).wf(),
            final(store).pagers == old(store).pagers,
            r == if old(store).obj(id as int).pages@.dom().contains(index) {
                Some(old(store).obj(id as int).pages@[index])
            } else {
                None
            },
            ({
                let o = old(store).obj(id as int);
                let n = final(store).obj(id as int);
                &&& final(store).objects@ == old(store).objects@.update(
                    id as int,
                    final(store).objects@[id as int],
                )
                &&& final(store).has(id as int)
                &&& n.pages@ == o.pages@.remove(index)
                &&& n == (Object { pages: n.pages, resident_count: n.resident_count, ..o })
            }),
    {
        store.remove_page(id, index)
    }

    /// Number of objects behind this one.
    pub fn shadow_depth(store: &VmObjects, id: usize) -> (r: usize)
        requires
            store.wf(),
            store.has(id as int),
        ensures
            r == depth(store.objects@, id as int),
    {
        store.shadow_depth(id)
    }

    /// Size in bytes.
    pub fn size(&self) -> (r: u64)
        ensures
            r == self.size,
    {
        self.size
    }

    /// Number of pages in this object.
    pub fn resident_count(&self) -> (r: usize)
        ensures
            r == self.resident_count,
    {
        self.resident_count
    }

    /// The backing object.
    pub fn backing(&self) -> (r: Option<usize>)
        ensures
            r == self.backing,
    {
        self.backing
    }

    /// The backing object.
    pub fn backing_object(&self) -> (r: Option<usize>)
        ensures
            r == self.backing,
    {
        self.backing
    }

    /// Number of shadows of this object.
    pub fn shadow_count(&self) -> (r: usize)
        ensures
            r == self.shadow_count,
    {
        self.shadow_count
    }

    /// Whether the object itself has a page at `index`.
    pub fn has_page(&self, index: u64) -> (r: bool)
        requires
            self.pages.wf(),
        ensures
            r == self.pages@.dom().contains(index),
    {
        self.pages.get(index).is_some()
    }

    /// The pages that the object itself owns, in the order of their indices.
    pub fn pages_iter(&self) -> (r: Vec<&OwnedPage>)
        ensures
            r@.len() == self.pages.entries().len(),
            forall|i: int| 0 <= i < r@.len() ==> *#[trigger] r@[i] == self.pages.entries()[i].1,
    {
        self.pages.values()
    }

    /// Merge the backing object into this one where nothing else shadows it.
    /// Returns the pages given up.
    pub fn collapse(store: &mut VmObjects, id: usize) -> (freed: Vec<OwnedPage>)
        requires
            old(store).wf(),
            old(store).has(id as int),
        ensures
            final(store).wf(),
            final(store).pagers == old(store).pagers,
            collapsed(
                old(store).objects@,
                final(store).objects@,
                id as int,
                Seq::empty(),
                freed@,
            ),
    {
        let none: Vec<u64> = Vec::new();
        store.collapse(id, &none)
    }

    /// Change the size in bytes.
    pub fn set_size(store: &mut VmObjects, id: usize, new_size: u64)
        requires
            old(store).wf(),
            old(store).has(id as int),
        ensures
            final(store).wf(),
            final(store).pagers == old(store).pagers,
            final(store).objects@ == old(store).objects@.update(
                id as int,
                Some(Object { size: new_size, ..old(store).obj(id as int) }),
            ),
    {
        assert(live(store.objects@, id as int));
        let (pager, g, c) = {
            let o = store.get(id);
            (o.pager, o.generation, o.clean_generation)
        };
        store.set_attrs(id, new_size, pager, g, c);
    }

    /// Take out every page from `from_index` on; they are handed back in order.
    pub fn truncate_pages(store: &mut VmObjects, id: usize, from_index: u64) -> (r: Vec<
        (u64, OwnedPage),
    >)
        requires
            old(store).wf(),
            old(store).has(id as int),
        ensures
            final(store).wf(),
            final(store).pagers == old(store).pagers,
            truncated(old(store).objects@, final(store).objects@, id as int, from_index, r@),
    {
        store.truncate_pages(id, from_index)
    }
}

} // verus!
