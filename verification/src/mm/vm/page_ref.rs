//! Handle to a page that an object owns.
use vstd::prelude::*;
use crate::hal::addr::PhysAddr;
use crate::mm::allocator::buddy::fits;
use crate::mm::allocator::frame_allocator::{
    frame_free, reference_dropped, FramePool, NUM_MAGAZINES,
};
use crate::mm::allocator::types::{frame_index, get_frame_meta, pfn};
use crate::mm::vm::page::VmPage;

verus! {

/// A page that an object may hold.
pub trait PhysPage: Sized {
    /// Where the page lies.
    spec fn at(&self) -> PhysAddr;

    /// Where the page lies.
    fn phys_addr(&self) -> (r: PhysAddr)
        ensures
            r == self.at(),
    ;
}

/// The one handle to a page that an object owns.  It stands for one reference to
/// the frame; it cannot be copied, only moved from object to object.
#[derive(Debug)]
pub struct PageRef {
    pub pa: PhysAddr,
}

impl PhysPage for PageRef {
    open spec fn at(&self) -> PhysAddr {
        self.pa
    }

    fn phys_addr(&self) -> (r: PhysAddr) {
        self.pa
    }
}

impl PageRef {
    /// Take over the reference that the allocation of the frame left.
    pub fn new(pa: PhysAddr) -> (r: Self)
        ensures
            r.pa == pa,
    {
        PageRef { pa }
    }

    /// The physical address.
    pub fn phys(&self) -> (r: PhysAddr)
        ensures
            r == self.pa,
    {
        self.pa
    }

    /// The metadata of the page.
    pub fn meta<'a>(&self, table: &'a Vec<VmPage>) -> (r: &'a VmPage)
        requires
            pfn(self.pa) < table@.len(),
        ensures
            *r == table@[pfn(self.pa)],
    {
        get_frame_meta(table, self.pa).unwrap()
    }

    /// Give the page up: the reference is dropped and the last one frees the
    /// frame.  A page without metadata is not the pool's and is left alone.
    pub fn release(self, pool: &mut FramePool, cpu: usize)
        requires
            old(pool).inv(),
            cpu < NUM_MAGAZINES,
            fits(self.pa, 0),
            pfn(self.pa) < old(pool).meta@.len() ==> old(pool).meta@[pfn(self.pa)].refs > 0
                && !old(pool).pool_free(pfn(self.pa)),
            old(pool).free_count() < usize::MAX,
        ensures
            final(pool).inv(),
            pfn(self.pa) >= old(pool).meta@.len() ==> *final(pool) == *old(pool),
            pfn(self.pa) < old(pool).meta@.len() ==> reference_dropped(
                old(pool),
                final(pool),
                cpu as int,
                self.pa,
            ),
    {
        if let Some(_) = frame_index(pool.meta.len(), self.pa) {
            frame_free(pool, cpu, self.pa);
        }
    }
}

} // verus!
