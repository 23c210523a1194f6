//! The daemon that writes dirty pages back.
//!
//! It is woken when enough pages are dirty, and every few seconds besides.  An object is
//! flushed in three steps: its dirty pages are held, which keeps them from moving; each
//! is written through the pager, which takes time; and those that are still in place
//! are no longer dirty.
use vstd::prelude::*;
use crate::hal::addr::{PhysAddr, PAGE_SIZE};
use crate::mm::allocator::types::{frame_index, get_frame_meta, pfn};
use crate::mm::vm::object::{VObjIndex, VmObject, VmObjects};
use crate::mm::vm::page::{Busy, SharedBusyGuard, VmPage};
use crate::mm::vm::page_ref::PageRef;
use crate::mm::vm::pager::{PageStore, Pager};
use crate::mm::vm::shadow::{live, object_wf, Object, PagerRef};

verus! {

/// From this many dirty pages on the daemon is woken at once.
pub const DIRTY_HWM: u32 = 64;

/// Milliseconds between two wakeups by the timer.
pub const FLUSH_INTERVAL_MS: u64 = 5000;

/// State shared by the daemon and those who write.
pub struct DaemonState {
    /// Number of dirty pages.
    pub dirty_pages: u32,
    /// The daemon has to run.
    pub pending: bool,
    /// The daemon, where it waits.
    pub waker: Option<u64>,
}

impl DaemonState {
    pub fn new() -> (r: Self)
        ensures
            r.dirty_pages == 0,
            !r.pending,
            r.waker is None,
    {
        DaemonState { dirty_pages: 0, pending: false, waker: None }
    }

    /// The daemon asks whether it has to run.  Where it has not, its waker is kept.
    pub fn poll_wait(&mut self, waker: u64) -> (ready: bool)
        ensures
            ready == old(self).pending,
            !final(self).pending,
            final(self).waker == if ready {
                old(self).waker
            } else {
                Some(waker)
            },
            final(self).dirty_pages == old(self).dirty_pages,
    {
        if self.pending {
            self.pending = false;
            return true;
        }
        self.waker = Some(waker);
        false
    }
}

/// A page was made dirty.  Returns the waker to call, where the daemon has to run and
/// waits.
pub fn maybe_wake_page_daemon(daemon: &mut DaemonState) -> (r: Option<u64>)
    requires
        old(daemon).dirty_pages < u32::MAX,
    ensures
        final(daemon).dirty_pages == old(daemon).dirty_pages + 1,
        final(daemon).dirty_pages < DIRTY_HWM ==> r is None && final(daemon).pending == old(daemon).pending && final(daemon).waker == old(daemon).waker,
        final(daemon).dirty_pages >= DIRTY_HWM ==> r == old(daemon).waker && final(daemon).pending
            && final(daemon).waker is None,
{
    daemon.dirty_pages = daemon.dirty_pages + 1;
    if daemon.dirty_pages >= DIRTY_HWM {
        wake_daemon(daemon)
    } else {
        None
    }
}

/// The daemon has to run.  Returns the waker to call, where it waits.
pub fn wake_daemon(daemon: &mut DaemonState) -> (r: Option<u64>)
    ensures
        r == old(daemon).waker,
        final(daemon).pending,
        final(daemon).waker is None,
        final(daemon).dirty_pages == old(daemon).dirty_pages,
{
    daemon.pending = true;
    daemon.waker.take()
}

/// A dirty page held for writing, and where it goes.
pub struct HeldPage {
    pub index: VObjIndex,
    pub guard: SharedBusyGuard,
}

/// How the page at `index` of an object of `size` bytes is written back: only what
/// lies within the object is.
pub open spec fn flush_len(size: int, index: int) -> int {
    let offset = index * 4096;
    if size <= offset {
        0
    } else if size - offset < 4096 {
        size - offset
    } else {
        4096
    }
}

/// How the pager of an object writes the page at `index`.
pub open spec fn flush_of(store: &VmObjects, id: int, index: u64) -> PageStore {
    let len = flush_len(store.obj(id).size as int, index as int) as u64;
    if len == 0 {
        PageStore::Nothing
    } else {
        match store.obj(id).pager {
            Some(PagerRef::Vnode(i)) => store.pagers@[i as int].store_of(
                (index * 4096) as u64,
                len,
            ),
            _ => PageStore::Nothing,
        }
    }
}

/// How the page at `index` is written back.
pub fn plan_page_out(store: &VmObjects, id: usize, index: VObjIndex) -> (r: PageStore)
    requires
        store.wf(),
        store.has(id as int),
        index.0 * 4096 <= u64::MAX,
    ensures
        r == flush_of(store, id as int, index.0),
{
    assert(live(store.objects@, id as int));
    let offset = index.to_bytes();
    let size = store.get(id).size();
    let rest = if size > offset {
        size - offset
    } else {
        0
    };
    let len = if rest < PAGE_SIZE {
        rest
    } else {
        PAGE_SIZE
    };
    if len == 0 {
        return PageStore::Nothing;
    }
    match store.get(id).pager {
        Some(PagerRef::Vnode(i)) => store.pagers[i].page_out(offset, len),
        _ => PageStore::Nothing,
    }
}

/// The dirty pages among the entries that nobody holds exclusively.
pub open spec fn flushable(table: Seq<VmPage>, s: Seq<(u64, PageRef)>) -> Seq<(u64, PhysAddr)>
    decreases s.len(),
{
    if s.len() == 0 {
        Seq::empty()
    } else {
        let before = flushable(table, s.drop_last());
        let pa = s.last().1.pa;
        if pfn(pa) < table.len() && table[pfn(pa)].dirty != 0 && !table[pfn(pa)].busy().exclusive {
            before.push((s.last().0, pa))
        } else {
            before
        }
    }
}

/// The held pages, as places.
pub open spec fn places(held: Seq<HeldPage>) -> Seq<(u64, PhysAddr)> {
    held.map_values(|h: HeldPage| (h.index.0, h.guard.at()))
}

/// How many of the places lie in frame `p`.
pub open spec fn holds_of(s: Seq<(u64, PhysAddr)>, p: int) -> int
    decreases s.len(),
{
    if s.len() == 0 {
        0
    } else {
        holds_of(s.drop_last(), p) + if pfn(s.last().1) == p {
            1int
        } else {
            0
        }
    }
}

/// Metadata after so many more holds on each frame.
pub open spec fn held_more(
    before: Seq<VmPage>,
    after: Seq<VmPage>,
    s: Seq<(u64, PhysAddr)>,
    sign: int,
) -> bool {
    &&& after.len() == before.len()
    &&& forall|p: int|
        0 <= p < before.len() ==> {
            &&& (#[trigger] after[p]).same_but_busy(&before[p])
            &&& after[p].busy() == (Busy {
                readers: before[p].busy().readers + sign * holds_of(s, p),
                ..before[p].busy()
            })
        }
}

proof fn lemma_holds_bound(s: Seq<(u64, PhysAddr)>, p: int)
    ensures
        0 <= holds_of(s, p) <= s.len(),
    decreases s.len(),
{
    if s.len() > 0 {
        lemma_holds_bound(s.drop_last(), p);
    }
}

proof fn lemma_holds_push(s: Seq<(u64, PhysAddr)>, x: (u64, PhysAddr), p: int)
    ensures
        holds_of(s.push(x), p) == holds_of(s, p) + if pfn(x.1) == p {
            1int
        } else {
            0
        },
{
    assert(s.push(x).drop_last() =~= s);
}

/// Hold the dirty pages of an object.  Pages that are exclusively busy are left for the
/// next time.
pub fn hold_dirty(obj: &VmObject, table: &mut Vec<VmPage>) -> (r: Vec<HeldPage>)
    requires
        forall|p: int|
            0 <= p < old(table)@.len() ==> (#[trigger] old(table)@[p]).busy().readers
                + obj.pages.entries().len() <= 0x3FFF_FFFF,
    ensures
        places(r@) == flushable(old(table)@, obj.pages.entries()),
        held_more(old(table)@, final(table)@, places(r@), 1),
{
    let mut r: Vec<HeldPage> = Vec::new();
    let entries = obj.pages.list();
    let ghost s = obj.pages.entries();
    let mut i: usize = 0;
    proof {
        assert(places(r@) =~= Seq::empty());
        assert(s.take(0) =~= Seq::empty());
    }
    while i < entries.len()
        invariant
            i <= entries@.len(),
            s.len() == entries@.len(),
            forall|j: int|
                0 <= j < s.len() ==> (#[trigger] entries@[j]).0 == s[j].0 && *entries@[j].1
                    == s[j].1,
            forall|p: int|
                0 <= p < old(table)@.len() ==> (#[trigger] old(table)@[p]).busy().readers
                    + entries@.len() <= 0x3FFF_FFFF,
            places(r@) == flushable(old(table)@, s.take(i as int)),
            places(r@).len() <= i,
            held_more(old(table)@, table@, places(r@), 1),
        decreases entries@.len() - i,
    {
        let ghost before = table@;
        let ghost r0 = places(r@);
        let pa = entries[i].1.phys();
        let index = VObjIndex::new(entries[i].0);
        proof {
            assert(s.take(i + 1).drop_last() =~= s.take(i as int));
            assert(s.take(i + 1).last() == s[i as int]);
            if pfn(pa) < before.len() {
                assert(before[pfn(pa)].same_but_busy(&old(table)@[pfn(pa)]));
                lemma_holds_bound(r0, pfn(pa));
            }
        }
        let dirty = match get_frame_meta(table, pa) {
            Some(m) => m.is_dirty(),
            None => false,
        };
        if dirty {
            if let Some(guard) = SharedBusyGuard::try_new(table, pa) {
                r.push(HeldPage { index, guard });
                proof {
                    let x = (index.0, pa);
                    assert(places(r@) =~= r0.push(x));
                    assert forall|p: int| 0 <= p < old(table)@.len() implies (
                    #[trigger] table@[p]).same_but_busy(&old(table)@[p]) && table@[p].busy() == (
                    Busy {
                        readers: old(table)@[p].busy().readers + 1 * holds_of(places(r@), p),
                        ..old(table)@[p].busy()
                    }) by {
                        lemma_holds_push(r0, x, p);
                        assert(before[p].same_but_busy(&old(table)@[p]));
                    }
                }
            }
        }
        i += 1;
    }
    proof {
        assert(s.take(i as int) =~= s);
    }
    r
}

/// Whether the page held is still in the object.
pub open spec fn in_place(obj: VmObject, place: (u64, PhysAddr)) -> bool {
    obj.pages@.dom().contains(place.0) && obj.pages@[place.0].pa == place.1
}

/// How many of the places still hold their page.
pub open spec fn still_in_place(obj: VmObject, s: Seq<(u64, PhysAddr)>) -> int
    decreases s.len(),
{
    if s.len() == 0 {
        0
    } else {
        still_in_place(obj, s.drop_last()) + if in_place(obj, s.last()) {
            1int
        } else {
            0
        }
    }
}

/// Whether frame `p` is the page of one of the places, and still in the object.
pub open spec fn cleaned(obj: VmObject, s: Seq<(u64, PhysAddr)>, p: int) -> bool {
    exists|i: int| 0 <= i < s.len() && in_place(obj, #[trigger] s[i]) && pfn(s[i].1) == p
}

/// The pages of an object were written back: those still in place are no longer dirty,
/// and all are let go.  The object is clean then, where any page was.
pub fn flush_done(
    store: &mut VmObjects,
    id: usize,
    table: &mut Vec<VmPage>,
    daemon: &mut DaemonState,
    held: Vec<HeldPage>,
)
    requires
        old(store).wf(),
        old(store).has(id as int),
        forall|i: int| 0 <= i < held@.len() ==> pfn((#[trigger] held@[i]).guard.at()) < old(table)@.len(),
        forall|p: int|
            0 <= p < old(table)@.len() ==> holds_of(places(held@), p) <= (
            #[trigger] old(table)@[p]).busy().readers,
        held@.len() <= u32::MAX,
    ensures
        final(store).wf(),
        final(store).pagers == old(store).pagers,
        ({
            let o = old(store).obj(id as int);
            let s = places(held@);
            let n = still_in_place(o, s);
            &&& final(store).objects@ == if n > 0 {
                old(store).objects@.update(
                    id as int,
                    Some(Object { clean_generation: o.generation, ..o }),
                )
            } else {
                old(store).objects@
            }
            &&& final(daemon).dirty_pages == old(daemon).dirty_pages.wrapping_sub(n as u32)
            &&& final(daemon).pending == old(daemon).pending
            &&& final(daemon).waker == old(daemon).waker
            &&& final(table)@.len() == old(table)@.len()
            &&& forall|p: int|
                0 <= p < old(table)@.len() ==> #[trigger] final(table)@[p] == (VmPage {
                    dirty: if cleaned(o, s, p) {
                        0
                    } else {
                        old(table)@[p].dirty
                    },
                    busy_state: final(table)@[p].busy_state,
                    ..old(table)@[p]
                }) && final(table)@[p].busy() == (Busy {
                    readers: old(table)@[p].busy().readers - holds_of(s, p),
                    ..old(table)@[p].busy()
                })
        }),
{
    let ghost o = store.obj(id as int);
    let ghost all = places(held@);
    assert(object_wf(store.objects@, id as int));
    let mut rest = held;
    let mut cleared: u32 = 0;
    proof {
        assert(all.take(all.len() as int) =~= all);
    }
    while rest.len() > 0
        invariant
            *store == *old(store),
            store.wf(),
            store.has(id as int),
            o == store.obj(id as int),
            object_wf(store.objects@, id as int),
            *daemon == *old(daemon),
            all == places(held@),
            held@.len() <= u32::MAX,
            rest@.len() <= held@.len(),
            places(rest@) == all.take(rest@.len() as int),
            table@.len() == old(table)@.len(),
            forall|i: int|
                0 <= i < rest@.len() ==> pfn((#[trigger] rest@[i]).guard.at()) < table@.len(),
            forall|p: int|
                0 <= p < table@.len() ==> holds_of(places(rest@), p) <= (
                #[trigger] table@[p]).busy().readers,
            cleared + still_in_place(o, places(rest@)) == still_in_place(o, all),
            0 <= cleared <= held@.len() - rest@.len(),
            forall|p: int|
                0 <= p < table@.len() ==> #[trigger] table@[p] == (VmPage {
                    dirty: if cleaned_from(o, all, rest@.len() as int, p) {
                        0
                    } else {
                        old(table)@[p].dirty
                    },
                    busy_state: table@[p].busy_state,
                    ..old(table)@[p]
                }) && table@[p].busy() == (Busy {
                    readers: old(table)@[p].busy().readers - holds_of(all, p) + holds_of(
                        places(rest@),
                        p,
                    ),
                    ..old(table)@[p].busy()
                }),
        decreases rest@.len(),
    {
        let ghost n = rest@.len() as int;
        let ghost before = table@;
        let ghost rest0 = rest@;
        let page = rest.pop().unwrap();
        let pa = page.guard.phys();
        let ghost x = (page.index.0, pa);
        proof {
            assert(places(rest0).last() == x);
            assert(places(rest0).drop_last() =~= places(rest@));
            assert(all.take(n)[n - 1] == x);
            assert(all.take(n - 1) =~= places(rest@));
            lemma_holds_bound(places(rest@), pfn(pa));
            assert(rest0[n - 1] == page);
        }
        let same = match store.get(id).get_page(page.index) {
            Some(p) => p.phys() == pa,
            None => false,
        };
        assert(same == in_place(o, x));
        if same {
            if let Some(i) = frame_index(table.len(), pa) {
                table[i].clear_dirty_all();
            }
            cleared = cleared + 1;
        }
        page.guard.release(table);
        proof {
            assert forall|p: int| 0 <= p < table@.len() implies #[trigger] table@[p] == (VmPage {
                dirty: if cleaned_from(o, all, n - 1, p) {
                    0
                } else {
                    old(table)@[p].dirty
                },
                busy_state: table@[p].busy_state,
                ..old(table)@[p]
            }) && table@[p].busy() == (Busy {
                readers: old(table)@[p].busy().readers - holds_of(all, p) + holds_of(
                    places(rest@),
                    p,
                ),
                ..old(table)@[p].busy()
            }) && holds_of(places(rest@), p) <= table@[p].busy().readers by {
                let b = before[p];
                lemma_cleaned_step(o, all, n - 1, p);
                assert(all[n - 1] == x);
            }
        }
    }
    proof {
        assert(places(rest@) =~= Seq::empty());
        assert forall|p: int| #[trigger] cleaned_from(o, all, 0, p) == cleaned(o, all, p) by {}
    }
    if cleared > 0 {
        daemon.dirty_pages = daemon.dirty_pages.wrapping_sub(cleared);
        VmObject::mark_clean(store, id);
    }
}

/// Whether frame `p` is the page of one of the places from `n` on, and still in the
/// object.
pub open spec fn cleaned_from(obj: VmObject, s: Seq<(u64, PhysAddr)>, n: int, p: int) -> bool {
    exists|i: int| n <= i < s.len() && in_place(obj, #[trigger] s[i]) && pfn(s[i].1) == p
}

proof fn lemma_cleaned_step(obj: VmObject, s: Seq<(u64, PhysAddr)>, n: int, p: int)
    requires
        0 <= n < s.len(),
    ensures
        cleaned_from(obj, s, n, p) <==> cleaned_from(obj, s, n + 1, p) || (in_place(obj, s[n])
            && pfn(s[n].1) == p),
{
    if cleaned_from(obj, s, n, p) {
        let i = choose|i: int|
            n <= i < s.len() && in_place(obj, #[trigger] s[i]) && pfn(s[i].1) == p;
        if i != n {
            assert(n + 1 <= i);
        }
    }
}

/// The objects that have to be flushed.
pub fn dirty_objects(store: &VmObjects, ids: &Vec<usize>) -> (r: Vec<usize>)
    requires
        forall|i: int| 0 <= i < ids@.len() ==> store.has((#[trigger] ids@[i]) as int),
    ensures
        r@ == ids@.filter(
            |id: usize| store.obj(id as int).generation != store.obj(id as int).clean_generation,
        ),
{
    let ghost f = |id: usize|
        store.obj(id as int).generation != store.obj(id as int).clean_generation;
    let mut r: Vec<usize> = Vec::new();
    let mut i: usize = 0;
    reveal(Seq::filter);
    assert(ids@.take(0) =~= Seq::empty());
    while i < ids.len()
        invariant
            i <= ids@.len(),
            forall|j: int| 0 <= j < ids@.len() ==> store.has((#[trigger] ids@[j]) as int),
            f == (|id: usize|
                store.obj(id as int).generation != store.obj(id as int).clean_generation),
            r@ == ids@.take(i as int).filter(f),
        decreases ids@.len() - i,
    {
        proof {
            reveal(Seq::filter);
            assert(ids@.take(i + 1).drop_last() =~= ids@.take(i as int));
            assert(ids@.take(i + 1).last() == ids@[i as int]);
        }
        if store.get(ids[i]).is_dirty() {
            r.push(ids[i]);
        }
        i += 1;
    }
    assert(ids@.take(i as int) =~= ids@);
    r
}

/// Every dirty page of the object that nobody holds exclusively is written back.
pub proof fn law_dirty_page_is_written(table: Seq<VmPage>, s: Seq<(u64, PageRef)>, j: int)
    requires
        0 <= j < s.len(),
        s[j].1.pa.0 as int / 4096 < table.len(),
        table[s[j].1.pa.0 as int / 4096].dirty != 0,
        !table[s[j].1.pa.0 as int / 4096].busy().exclusive,
    ensures
        flushable(table, s).contains((s[j].0, s[j].1.pa)),
    decreases s.len(),
{
    let pre = s.drop_last();
    let before = flushable(table, pre);
    let all = flushable(table, s);
    let x = (s[j].0, s[j].1.pa);
    if j == s.len() - 1 {
        assert(all[before.len() as int] == x);
    } else {
        law_dirty_page_is_written(table, pre, j);
        let i = choose|i: int| 0 <= i < before.len() && before[i] == x;
        assert(all[i] == x);
    }
}

/// Only dirty pages of the object that nobody holds exclusively are written back.
pub proof fn law_only_dirty_pages_are_written(table: Seq<VmPage>, s: Seq<(u64, PageRef)>, i: int)
    requires
        0 <= i < flushable(table, s).len(),
    ensures
        exists|j: int|
            0 <= j < s.len() && (#[trigger] s[j]).0 == flushable(table, s)[i].0 && s[j].1.pa == flushable(
                table,
                s,
            )[i].1 && s[j].1.pa.0 as int / 4096 < table.len() && table[s[j].1.pa.0 as int / 4096].dirty
                != 0 && !table[s[j].1.pa.0 as int / 4096].busy().exclusive,
    decreases s.len(),
{
    let pre = s.drop_last();
    let before = flushable(table, pre);
    if i < before.len() {
        law_only_dirty_pages_are_written(table, pre, i);
        let j = choose|j: int|
            0 <= j < pre.len() && (#[trigger] pre[j]).0 == before[i].0 && pre[j].1.pa == before[i].1
                && pre[j].1.pa.0 as int / 4096 < table.len() && table[pre[j].1.pa.0 as int / 4096].dirty
                != 0 && !table[pre[j].1.pa.0 as int / 4096].busy().exclusive;
        assert(s[j] == pre[j]);
    } else {
        assert(s[s.len() - 1].0 == flushable(table, s)[i].0);
    }
}

/// A byte of a page is written back exactly where it lies within the object.
pub proof fn law_bytes_of_object_are_written(size: int, index: int, i: int)
    requires
        0 <= size,
        0 <= index,
        0 <= i < 4096,
    ensures
        i < flush_len(size, index) <==> index * 4096 + i < size,
{
}

} // verus!
