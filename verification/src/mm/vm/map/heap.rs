//! The heap of an address map, and the page with the signal trampoline.
use vstd::prelude::*;
use crate::hal::addr::{PhysAddr, VirtAddr, PAGE_SIZE};
use crate::hal::errno::Errno;
use crate::mm::allocator::frame_allocator::{FramePool, NUM_MAGAZINES};
use crate::mm::pmap::pte::entry_of;
use crate::mm::pmap::space::{
    enter_flags, entered, pages_removed, pmap_enter, pmap_remove, Pmap, TlbRange,
};
use crate::mm::pmap::table::pool_holdable;
use crate::mm::vm::map::address_map::{
    backed, insertable, lemma_place, lemma_total_bound, mapped, meets, new_entry, place_of, range_free,
    Entries, VmMap,
};
use crate::mm::vm::map::entry::{object_of, VmMapEntry, VmMapping};
use crate::mm::vm::map::perm::{lemma_joined, MapPerm};
use crate::mm::vm::map::splay::{found, ordered, rank, Ranged};
use crate::mm::vm::object::{truncated, VObjIndex, VmObject, VmObjects};
use crate::mm::vm::page_ref::PageRef;
use crate::mm::vm::shadow::{lookup, Object, PagerRef};

verus! {

/// Address of the page with the signal trampoline.
pub const SIGCODE_VA: u64 = 0x0000_003F_FFFF_F000;

/// Whether a heap ends at `brk`.
pub open spec fn heap_at(es: Entries, brk: int) -> bool {
    &&& brk > 0
    &&& mapped(es, brk - 1)
    &&& es[place_of(es, brk - 1)].hi == brk
    &&& es[place_of(es, brk - 1)].mapping is Heap
}

/// The heap that ends at `brk`.
pub open spec fn heap_entry(es: Entries, brk: int) -> VmMapEntry {
    es[place_of(es, brk - 1)]
}

/// Protection of the heap: readable and writable by the user.
pub open spec fn heap_perm() -> MapPerm {
    MapPerm(11)
}

impl VmMap {
    /// The heap entry that ends at `brk`.
    fn heap_ending_at(&self, brk: VirtAddr) -> (r: Option<VmMapEntry>)
        requires
            self.wf(),
        ensures
            r is Some <==> heap_at(self.entries(), brk.0 as int),
            r matches Some(e) ==> e == heap_entry(self.entries(), brk.0 as int),
    {
        if brk.0 == 0 {
            return None;
        }
        match self.lookup_readonly(VirtAddr::new(brk.0 - 1)) {
            Some(vma) => match vma.mapping {
                VmMapping::Heap { .. } => if vma.hi == brk.0 {
                    Some(vma)
                } else {
                    None
                },
                _ => None,
            },
            None => None,
        }
    }

    /// Move the end of the heap up: extend the heap that ends at the old break, or
    /// make one there.  What lies in between has to be free.
    pub fn grow_heap(
        &mut self,
        store: &mut VmObjects,
        old_brk_aligned: VirtAddr,
        new_brk_aligned: VirtAddr,
    ) -> (r: Result<(), Errno>)
        requires
            old(self).wf(),
            old(store).wf(),
            backed(old(self).entries(), old(store)),
            new_brk_aligned.0 + 4095 <= u64::MAX,
            old(self).nentries < usize::MAX,
        ensures
            final(self).wf(),
            final(store).wf(),
            final(self).pmap == old(self).pmap,
            final(store).pagers == old(store).pagers,
            ({
                let es = old(self).entries();
                let s = old_brk_aligned.0 as int;
                let t = new_brk_aligned.0 as int;
                let e = heap_entry(es, s);
                let o = object_of(e.mapping)->0 as int;
                let id = old(store).objects@.len();
                let fresh = new_entry(
                    old_brk_aligned,
                    new_brk_aligned,
                    heap_perm(),
                    VmMapping::Heap { object: id as usize, offset: 0 },
                );
                if t <= s || !range_free(es, s, t) {
                    &&& r == Err::<(), Errno>(Errno::Einval)
                    &&& final(self).entries() == es
                    &&& final(self).timestamp == old(self).timestamp
                    &&& *final(store) == *old(store)
                } else if heap_at(es, s) {
                    &&& r is Ok
                    &&& final(self).entries() == es.update(
                        place_of(es, s - 1),
                        VmMapEntry { hi: t as u64, ..e },
                    )
                    &&& final(self).timestamp == old(self).timestamp.wrapping_add(1)
                    &&& final(store).objects@ == old(store).objects@.update(
                        o,
                        Some(Object { size: (t - e.lo) as u64, ..old(store).obj(o) }),
                    )
                } else if insertable(es, fresh) {
                    &&& r is Ok
                    &&& final(self).entries() == es.insert(rank(es, s), fresh)
                    &&& final(self).timestamp == old(self).timestamp.wrapping_add(1)
                    &&& final(store).objects@ == old(store).objects@.push(
                        final(store).objects@[id as int],
                    )
                    &&& final(store).objects@[id as int] matches Some(n) && {
                        &&& n.pages@ == Map::<u64, PageRef>::empty()
                        &&& n.pager == Some(PagerRef::Anon)
                        &&& n.backing is None
                        &&& n.shadow_count == 0
                        &&& n.size == t - s
                        &&& n.resident_count == 0
                        &&& n.generation == 0
                        &&& n.clean_generation == 0
                        &&& n.refs == 1
                    }
                } else {
                    &&& r == Err::<(), Errno>(Errno::Einval)
                    &&& final(self).entries() == es
                    &&& final(self).timestamp == old(self).timestamp
                    &&& *final(store) == *old(store)
                }
            }),
    {
        if new_brk_aligned.0 <= old_brk_aligned.0 {
            return Err(Errno::Einval);
        }
        if !self.is_range_free(old_brk_aligned, new_brk_aligned) {
            return Err(Errno::Einval);
        }
        let ghost es = self.entries();
        let ghost s = old_brk_aligned.0 as int;
        let ghost t = new_brk_aligned.0 as int;
        if let Some(vma) = self.heap_ending_at(old_brk_aligned) {
            let ghost i = place_of(es, s - 1);
            let last = VirtAddr::new(old_brk_aligned.0 - 1);
            proof {
                self.lemma_same_bounds(s - 1);
                assert forall|j: int| i < j < es.len() implies t <= (#[trigger] es[j]).lo by {
                    assert(es[j].lo() < es[j].hi());
                    assert(!meets(es[j], s, t));
                }
            }
            let mut now = vma;
            now.hi = new_brk_aligned.0;
            self.set_entry(last, now);
            proof {
                lemma_total_bound(self.entries());
            }
            self.size = self.size + (new_brk_aligned.0 - old_brk_aligned.0);
            if let Some(object) = vma.mapping.object() {
                VmObject::set_size(store, object, new_brk_aligned.0 - vma.lo);
            }
            self.touch();
            return Ok(());
        }
        if old_brk_aligned.0 % PAGE_SIZE != 0 || new_brk_aligned.0 % PAGE_SIZE != 0 {
            return Err(Errno::Einval);
        }
        let object = VmObject::new_anon(store, new_brk_aligned.0 - old_brk_aligned.0);
        let perm = MapPerm::R() | MapPerm::W() | MapPerm::U();
        proof {
            lemma_joined();
        }
        self.map(old_brk_aligned, new_brk_aligned, perm, VmMapping::Heap { object, offset: 0 })
    }

    /// Move the end of the heap down.  The heap goes altogether where the new break
    /// is not above its start.  Returns the entries removed, the pages given up and what has
    /// to be flushed.
    pub fn shrink_heap(
        &mut self,
        store: &mut VmObjects,
        old_brk_aligned: VirtAddr,
        new_brk_aligned: VirtAddr,
    ) -> (r: Result<(Vec<VmMapEntry>, Vec<(u64, PageRef)>, Option<TlbRange>), Errno>)
        requires
            old(self).wf(),
            old(store).wf(),
            backed(old(self).entries(), old(store)),
        ensures
            final(self).wf(),
            final(store).wf(),
            final(store).pagers == old(store).pagers,
            final(self).pmap.same_identity(&old(self).pmap),
            r is Err <==> new_brk_aligned.0 >= old_brk_aligned.0,
            r matches Err(e) ==> e == Errno::Einval && *final(store) == *old(store) && final(self).entries() == old(self).entries() && final(self).pmap == old(self).pmap && final(self).timestamp == old(self).timestamp,
            r matches Ok((gone, pages, flush)) ==> {
                let es = old(self).entries();
                let s = old_brk_aligned.0 as int;
                let t = new_brk_aligned.0 as int;
                let e = heap_entry(es, s);
                let o = object_of(e.mapping)->0 as int;
                if !heap_at(es, s) {
                    &&& gone@.len() == 0
                    &&& pages@.len() == 0
                    &&& flush is None
                    &&& final(self).entries() == es
                    &&& final(self).pmap == old(self).pmap
                    &&& final(self).timestamp == old(self).timestamp
                    &&& *final(store) == *old(store)
                } else if t <= e.lo {
                    &&& gone@ == seq![e]
                    &&& pages@.len() == 0
                    &&& final(self).entries() == es.remove(place_of(es, s - 1))
                    &&& final(self).timestamp == old(self).timestamp.wrapping_add(1)
                    &&& *final(store) == *old(store)
                    &&& pages_removed(
                        &old(self).pmap,
                        &final(self).pmap,
                        e.lo as int,
                        e.hi as int,
                        flush,
                    )
                } else {
                    &&& gone@.len() == 0
                    &&& final(self).entries() == es.update(
                        place_of(es, s - 1),
                        VmMapEntry { hi: t as u64, ..e },
                    )
                    &&& final(self).timestamp == old(self).timestamp.wrapping_add(1)
                    &&& truncated(
                        old(store).objects@.update(
                            o,
                            Some(Object { size: (t - e.lo) as u64, ..old(store).obj(o) }),
                        ),
                        final(store).objects@,
                        o,
                        ((t - e.lo) / 4096) as u64,
                        pages@,
                    )
                    &&& pages_removed(&old(self).pmap, &final(self).pmap, t, s, flush)
                }
            },
    {
        if new_brk_aligned.0 >= old_brk_aligned.0 {
            return Err(Errno::Einval);
        }
        let ghost es = self.entries();
        let ghost s = old_brk_aligned.0 as int;
        let vma = match self.heap_ending_at(old_brk_aligned) {
            Some(vma) => vma,
            None => {
                return Ok((Vec::new(), Vec::new(), None));
            },
        };
        proof {
            self.lemma_same_bounds(s - 1);
        }
        let last = VirtAddr::new(old_brk_aligned.0 - 1);
        if new_brk_aligned.0 <= vma.lo {
            let mut gone: Vec<VmMapEntry> = Vec::new();
            let mut flush: Option<TlbRange> = None;
            if let Some((removed, range)) = self.remove_entry_containing(last) {
                gone.push(removed);
                flush = range;
            }
            return Ok((gone, Vec::new(), flush));
        }
        let mut now = vma;
        now.hi = new_brk_aligned.0;
        proof {
            let i = place_of(es, s - 1);
            assert forall|j: int| i < j < es.len() implies now.hi <= (#[trigger] es[j]).lo by {
                assert(es[i].hi <= es[j].lo);
            }
        }
        self.set_entry(last, now);
        proof {
            lemma_total_bound(self.entries());
        }
        let mut pages: Vec<(u64, PageRef)> = Vec::new();
        if let Some(object) = vma.mapping.object() {
            let bytes = new_brk_aligned.0 - vma.lo;
            VmObject::set_size(store, object, bytes);
            pages = VmObject::truncate_pages(store, object, VObjIndex::new(bytes / PAGE_SIZE));
        }
        let flush = pmap_remove(&mut self.pmap, new_brk_aligned, old_brk_aligned);
        self.size = self.size - (old_brk_aligned.0 - new_brk_aligned.0);
        self.touch();
        Ok((Vec::new(), pages, flush))
    }

    /// Map the page of the signal trampoline, whose object is `sigcode`, and enter it
    /// into the page table at once, so that a signal can be delivered without a
    /// fault.
    pub fn map_sigcode(
        &mut self,
        store: &mut VmObjects,
        pool: &mut FramePool,
        cpu: usize,
        sigcode: usize,
    )
        requires
            old(self).wf(),
            old(store).wf(),
            old(store).has(sigcode as int),
            old(store).obj(sigcode as int).refs < usize::MAX,
            old(self).nentries < usize::MAX,
            range_free(old(self).entries(), SIGCODE_VA as int, SIGCODE_VA + 4096),
            old(pool).inv(),
            pool_holdable(old(pool)),
            cpu < NUM_MAGAZINES,
            old(self).pmap.stats.wired_count < usize::MAX,
        ensures
            final(self).wf(),
            final(store).wf(),
            final(pool).inv(),
            forall|p: int| #[trigger] final(pool).pool_free(p) ==> old(pool).pool_free(p),
            pool_holdable(final(pool)),
            final(self).entries() == old(self).entries().insert(
                rank(old(self).entries(), SIGCODE_VA as int),
                sigcode_entry(sigcode),
            ),
            final(self).timestamp == old(self).timestamp.wrapping_add(1),
            final(self).pmap.same_identity(&old(self).pmap),
            final(self).pmap.stats.wired_count == old(self).pmap.stats.wired_count,
            final(store).pagers == old(store).pagers,
            final(store).objects@ == old(store).objects@.update(
                sigcode as int,
                Some(
                    Object {
                        refs: (old(store).obj(sigcode as int).refs + 1) as usize,
                        ..old(store).obj(sigcode as int)
                    },
                ),
            ),
            trampoline_entered(
                &old(self).pmap,
                &final(self).pmap,
                old(pool),
                final(pool),
                cpu as int,
                lookup(old(store).objects@, sigcode as int, 0),
            ),
    {
        let perm = MapPerm::R() | MapPerm::X() | MapPerm::U();
        proof {
            lemma_joined();
        }
        let start = VirtAddr::new(SIGCODE_VA);
        let end = VirtAddr::new(SIGCODE_VA + PAGE_SIZE);
        let page = VmObject::lookup_page(store, sigcode, VObjIndex::new(0));
        store.retain(sigcode);
        let _ = self.map(start, end, perm, VmMapping::Shared { object: sigcode, offset: 0 });
        if let Some(pa) = page {
            let _ = pmap_enter(&mut self.pmap, pool, cpu, start, pa, perm, false);
        }
    }
}

/// The page of the signal trampoline, where there is one, is entered, unless no table could be
/// had for it.
pub open spec fn trampoline_entered(
    before: &Pmap,
    after: &Pmap,
    pool0: &FramePool,
    pool1: &FramePool,
    cpu: int,
    page: Option<PhysAddr>,
) -> bool {
    match page {
        Some(pa) => {
            let raw = entry_of(pa.0, enter_flags(MapPerm(13), false));
            ||| entered(before, after, pool0, pool1, cpu, SIGCODE_VA as int, raw, true)
            ||| entered(before, after, pool0, pool1, cpu, SIGCODE_VA as int, raw, false)
        },
        None => *after == *before && *pool1 == *pool0,
    }
}

/// The entry of the signal trampoline.
pub open spec fn sigcode_entry(sigcode: usize) -> VmMapEntry {
    new_entry(
        VirtAddr(SIGCODE_VA),
        VirtAddr((SIGCODE_VA + 4096) as u64),
        MapPerm(13),
        VmMapping::Shared { object: sigcode, offset: 0 },
    )
}

/// Growing the heap and shrinking it back leaves the entries as they were.
pub proof fn law_grow_then_shrink(es: Entries, e: VmMapEntry, i: int, t: u64)
    requires
        ordered(es),
        0 <= i < es.len(),
        e == es[i],
        e.mapping is Heap,
        e.hi <= t,
        range_free(es, e.hi as int, t as int),
    ensures
        ({
            let grown = es.update(i, VmMapEntry { hi: t, ..e });
            &&& ordered(grown)
            &&& heap_at(grown, t as int)
            &&& grown.update(
                place_of(grown, t - 1),
                VmMapEntry { hi: e.hi, ..heap_entry(grown, t as int) },
            ) == es
        }),
{
    let g = VmMapEntry { hi: t, ..e };
    let grown = es.update(i, g);
    assert(es[i].lo() < es[i].hi());
    assert forall|j: int| i < j < es.len() implies g.hi <= (#[trigger] es[j]).lo by {
        assert(es[j].lo() < es[j].hi());
        assert(es[i].hi() <= es[j].lo());
        assert(!meets(es[j], e.hi as int, t as int));
    }
    crate::mm::vm::map::address_map::lemma_update_ordered(es, i, g);
    assert(found(grown, t - 1, i));
    crate::mm::vm::map::address_map::lemma_place(grown, t - 1, i);
    assert(grown.update(i, VmMapEntry { hi: e.hi, ..g }) =~= es);
}

/// The heap is the entry of that kind that ends at the break, wherever it stands among the entries.
pub proof fn law_heap_ends_at_break(es: Entries, brk: int, i: int)
    requires
        ordered(es),
        0 <= i < es.len(),
        es[i].hi == brk,
        es[i].mapping is Heap,
    ensures
        heap_at(es, brk),
        heap_entry(es, brk) == es[i],
        place_of(es, brk - 1) == i,
{
    assert(es[i].lo() < es[i].hi());
    assert(found(es, brk - 1, i));
    lemma_place(es, brk - 1, i);
}

/// The page of the signal trampoline has its fixed place, and can be read and executed but not written.
pub proof fn law_trampoline_has_its_place(sigcode: usize)
    ensures
        ({
            let e = sigcode_entry(sigcode);
            &&& e.lo == 0x3F_FFFF_F000
            &&& e.hi == e.lo + 4096
            &&& e.protection.0 == 13
            &&& object_of(e.mapping) == Some(sigcode)
        }),
{
}

} // verus!
