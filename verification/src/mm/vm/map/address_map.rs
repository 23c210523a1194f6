//! Address maps: which ranges of an address space are in use, and for what.
use vstd::prelude::*;
use crate::hal::addr::{VirtAddr, PAGE_SIZE};
use crate::hal::errno::Errno;
use crate::mm::pmap::pte::is_valid;
use crate::mm::pmap::space::{
    pages_protected, pages_removed, pmap_protect, pmap_remove, removal_flush, touches, Pmap,
    TlbRange,
};
use crate::mm::vm::map::entry::{object_of, offset_of, same_kind, CowState, VmMapEntry, VmMapping};
use crate::mm::vm::map::perm::MapPerm;
use crate::mm::vm::map::splay::{
    found, lemma_found_unique, lemma_insert_ordered, lemma_rank, ordered, rank, Ranged, SplayTree,
    SplayTreeIter,
};
use crate::mm::vm::object::VmObjects;
use crate::mm::vm::page_ref::PageRef;
use crate::mm::vm::shadow::{live, Object, Objects};

verus! {

/// The entries of a map in order.
pub type Entries = Seq<VmMapEntry>;

/// Whether the entry reaches into `[s, t)`.
pub open spec fn overlaps(e: VmMapEntry, s: int, t: int) -> bool {
    e.lo < t && e.hi > s
}

/// The part of an entry below `s`.
pub open spec fn left_part(e: VmMapEntry, s: int) -> Entries {
    if e.lo < s {
        seq![e.part(e.lo as int, s)]
    } else {
        Seq::empty()
    }
}

/// The part of an entry from `t` on.
pub open spec fn right_part(e: VmMapEntry, t: int) -> Entries {
    if e.hi > t {
        seq![e.part(t, e.hi as int)]
    } else {
        Seq::empty()
    }
}

/// The part of an entry within `[s, t)`.
pub open spec fn middle_part(e: VmMapEntry, s: int, t: int) -> VmMapEntry {
    e.part(
        if e.lo > s {
            e.lo as int
        } else {
            s
        },
        if e.hi < t {
            e.hi as int
        } else {
            t
        },
    )
}

/// What stays of an entry that reaches into `[s, t)`: the parts outside, and the
/// part inside with the new protection, if there is one.
pub open spec fn pieces(e: VmMapEntry, s: int, t: int, perm: Option<MapPerm>) -> Entries {
    match perm {
        None => left_part(e, s) + right_part(e, t),
        Some(p) => left_part(e, s) + seq![
            VmMapEntry { protection: p, ..middle_part(e, s, t) },
        ] + right_part(e, t),
    }
}

/// The entries after `[s, t)` was removed, or given the protection `perm`.
pub open spec fn carved(es: Entries, s: int, t: int, perm: Option<MapPerm>) -> Entries
    decreases es.len(),
{
    if es.len() == 0 {
        Seq::empty()
    } else {
        carved(es.drop_last(), s, t, perm) + if overlaps(es.last(), s, t) {
            pieces(es.last(), s, t, perm)
        } else {
            seq![es.last()]
        }
    }
}

/// The parts of the entries that lie in `[s, t)`.
pub open spec fn taken_out(es: Entries, s: int, t: int) -> Entries
    decreases es.len(),
{
    if es.len() == 0 {
        Seq::empty()
    } else {
        taken_out(es.drop_last(), s, t) + if overlaps(es.last(), s, t) {
            seq![middle_part(es.last(), s, t)]
        } else {
            Seq::empty()
        }
    }
}

/// Sum of `f` over the entries.
pub open spec fn sum_of(es: Entries, f: spec_fn(VmMapEntry) -> int) -> int
    decreases es.len(),
{
    if es.len() == 0 {
        0
    } else {
        sum_of(es.drop_last(), f) + f(es.last())
    }
}

/// Bytes covered by the entries.
pub open spec fn total(es: Entries) -> int {
    sum_of(es, |e: VmMapEntry| e.hi - e.lo)
}

/// One where the entry has a handle to the object at `id`.
pub open spec fn handle(e: VmMapEntry, id: int) -> int {
    match object_of(e.mapping) {
        Some(o) => if o == id {
            1int
        } else {
            0
        },
        None => 0,
    }
}

/// Handles that the entries have to the object at `id`.
#[verifier::opaque]
pub open spec fn handles(es: Entries, id: int) -> int {
    sum_of(es, |e: VmMapEntry| handle(e, id))
}

proof fn lemma_sum_insert(es: Entries, i: int, e: VmMapEntry, f: spec_fn(VmMapEntry) -> int)
    requires
        0 <= i <= es.len(),
    ensures
        sum_of(es.insert(i, e), f) == sum_of(es, f) + f(e),
    decreases es.len(),
{
    let t = es.insert(i, e);
    if i == es.len() {
        assert(t.drop_last() =~= es);
    } else {
        assert(t.drop_last() =~= es.drop_last().insert(i, e));
        assert(t.last() == es.last());
        lemma_sum_insert(es.drop_last(), i, e, f);
    }
}

proof fn lemma_sum_remove(es: Entries, i: int, f: spec_fn(VmMapEntry) -> int)
    requires
        0 <= i < es.len(),
    ensures
        sum_of(es.remove(i), f) == sum_of(es, f) - f(es[i]),
{
    let t = es.remove(i);
    assert(t.insert(i, es[i]) =~= es);
    lemma_sum_insert(t, i, es[i], f);
}

pub proof fn lemma_handles_insert(es: Entries, i: int, e: VmMapEntry)
    requires
        0 <= i <= es.len(),
    ensures
        forall|id: int| #[trigger]
            handles(es.insert(i, e), id) == handles(es, id) + handle(e, id),
{
    reveal(handles);
    assert forall|id: int| #[trigger]
        handles(es.insert(i, e), id) == handles(es, id) + handle(e, id) by {
        lemma_sum_insert(es, i, e, |x: VmMapEntry| handle(x, id));
    }
}

pub proof fn lemma_handles_remove(es: Entries, i: int)
    requires
        0 <= i < es.len(),
    ensures
        forall|id: int| #[trigger]
            handles(es.remove(i), id) == handles(es, id) - handle(es[i], id),
{
    reveal(handles);
    assert forall|id: int| #[trigger]
        handles(es.remove(i), id) == handles(es, id) - handle(es[i], id) by {
        lemma_sum_remove(es, i, |x: VmMapEntry| handle(x, id));
    }
}

pub proof fn lemma_handles_small(es: Entries, id: int)
    ensures
        es.len() == 0 ==> handles(es, id) == 0,
        es.len() == 1 ==> handles(es, id) == handle(es[0], id),
{
    reveal(handles);
    if es.len() == 1 {
        assert(es.drop_last() =~= Seq::empty());
        assert(sum_of(es.drop_last(), |e: VmMapEntry| handle(e, id)) == 0);
    }
}

pub proof fn lemma_handles_push(es: Entries, e: VmMapEntry)
    ensures
        forall|id: int| #[trigger] handles(es.push(e), id) == handles(es, id) + handle(e, id),
        forall|id: int| #[trigger] handles(Seq::empty(), id) == 0,
{
    reveal(handles);
    assert forall|id: int| #[trigger] handles(es.push(e), id) == handles(es, id) + handle(e, id) by {
        assert(es.push(e).drop_last() =~= es);
    }
}

/// Entries that do not overlap cover no more than the addresses up to the last.
pub proof fn lemma_total_bound(es: Entries)
    requires
        ordered(es),
    ensures
        0 <= total(es),
        es.len() > 0 ==> total(es) <= es.last().hi,
    decreases es.len(),
{
    if es.len() > 0 {
        let t = es.drop_last();
        lemma_ordered_prefix(es, es.len() - 1);
        assert(t =~= es.take(es.len() - 1));
        lemma_total_bound(t);
        assert(es.last().lo() < es.last().hi());
        if t.len() > 0 {
            assert(t.last() == es[es.len() - 2]);
            assert(es[es.len() - 2].hi() <= es[es.len() - 1].lo());
        }
    }
}

pub proof fn lemma_ordered_prefix(es: Entries, n: int)
    requires
        ordered(es),
        0 <= n <= es.len(),
    ensures
        ordered(es.take(n)),
{
    let t = es.take(n);
    assert forall|i: int| 0 <= i < t.len() implies (#[trigger] t[i]).lo() < t[i].hi() by {
        assert(t[i] == es[i]);
    }
    assert forall|i: int, j: int| 0 <= i < j < t.len() implies (#[trigger] t[i]).hi() <= (
    #[trigger] t[j]).lo() by {
        assert(t[i] == es[i] && t[j] == es[j]);
    }
}

/// Offsets at the ends of `[s, t)` at which the entry is cut do not overflow.
pub open spec fn cut_fits(e: VmMapEntry, s: int, t: int) -> bool {
    &&& e.lo < s ==> e.offset_fits_at(s)
    &&& e.hi > t ==> e.offset_fits_at(t)
}

/// Offsets at which entries are cut do not overflow.
pub open spec fn cuts_fit(es: Entries, s: int, t: int) -> bool {
    forall|i: int| 0 <= i < es.len() && overlaps(#[trigger] es[i], s, t) ==> cut_fits(es[i], s, t)
}

/// The pieces of an entry lie within it, in order, and cover what is expected.
proof fn lemma_pieces(e: VmMapEntry, s: int, t: int, perm: Option<MapPerm>)
    requires
        0 <= s < t <= u64::MAX,
        e.lo < e.hi,
        overlaps(e, s, t),
    ensures
        ({
            let p = pieces(e, s, t, perm);
            &&& ordered(p)
            &&& forall|i: int|
                0 <= i < p.len() ==> e.lo <= (#[trigger] p[i]).lo && p[i].hi <= e.hi
            &&& forall|i: int|
                0 <= i < p.len() ==> object_of((#[trigger] p[i]).mapping) == object_of(e.mapping)
            &&& p.len() <= 3
        }),
        middle_part(e, s, t).lo < middle_part(e, s, t).hi,
        object_of(middle_part(e, s, t).mapping) == object_of(e.mapping),
{
}

/// What carving leaves of the first entries lies below what follows them.
proof fn lemma_carved(es: Entries, s: int, t: int, perm: Option<MapPerm>)
    requires
        ordered(es),
        0 <= s < t <= u64::MAX,
    ensures
        ordered(carved(es, s, t, perm)),
        forall|i: int|
            0 <= i < carved(es, s, t, perm).len() ==> (#[trigger] carved(es, s, t, perm)[i]).hi
                <= es.last().hi,
        es.len() == 0 ==> carved(es, s, t, perm).len() == 0,
    decreases es.len(),
{
    if es.len() > 0 {
        let n = es.len() - 1;
        let pre = es.drop_last();
        let e = es.last();
        lemma_ordered_prefix(es, n);
        assert(pre =~= es.take(n));
        lemma_carved(pre, s, t, perm);
        let a = carved(pre, s, t, perm);
        let b = if overlaps(e, s, t) {
            pieces(e, s, t, perm)
        } else {
            seq![e]
        };
        assert(es[n].lo() < es[n].hi());
        if overlaps(e, s, t) {
            lemma_pieces(e, s, t, perm);
        }
        assert(ordered(b));
        if pre.len() > 0 {
            assert(pre.last() == es[n - 1]);
            assert(es[n - 1].hi() <= es[n].lo());
        }
        lemma_concat_ordered(a, b, e.lo as int);
        let c = a + b;
        assert forall|i: int| 0 <= i < c.len() implies (#[trigger] c[i]).hi <= e.hi by {
            if i < a.len() {
                assert(c[i] == a[i]);
            } else {
                assert(c[i] == b[i - a.len()]);
            }
        }
    }
}

/// Two ordered sequences on the two sides of `x` make one.
proof fn lemma_concat_ordered(a: Entries, b: Entries, x: int)
    requires
        ordered(a),
        ordered(b),
        forall|i: int| 0 <= i < a.len() ==> (#[trigger] a[i]).hi() <= x,
        forall|i: int| 0 <= i < b.len() ==> x <= (#[trigger] b[i]).lo(),
    ensures
        ordered(a + b),
{
    let c = a + b;
    assert forall|i: int| 0 <= i < c.len() implies (#[trigger] c[i]).lo() < c[i].hi() by {
        if i < a.len() {
            assert(c[i] == a[i]);
        } else {
            assert(c[i] == b[i - a.len()]);
        }
    }
    assert forall|i: int, j: int| 0 <= i < j < c.len() implies (#[trigger] c[i]).hi() <= (
    #[trigger] c[j]).lo() by {
        if j < a.len() {
            assert(c[i] == a[i] && c[j] == a[j]);
        } else if i >= a.len() {
            assert(c[i] == b[i - a.len()] && c[j] == b[j - a.len()]);
        } else {
            assert(c[i] == a[i] && c[j] == b[j - a.len()]);
        }
    }
}

/// The rank of a range that belongs between the first `pos` entries and the rest.
proof fn lemma_rank_is(s: Entries, e: VmMapEntry, pos: int)
    requires
        ordered(s),
        e.lo < e.hi,
        0 <= pos <= s.len(),
        forall|i: int| 0 <= i < pos ==> (#[trigger] s[i]).hi <= e.lo,
        forall|i: int| pos <= i < s.len() ==> e.hi <= (#[trigger] s[i]).lo,
    ensures
        rank(s, e.lo()) == pos,
        forall|i: int| 0 <= i < s.len() ==> (#[trigger] s[i]).hi() <= e.lo() || e.hi() <= s[i].lo(),
{
    lemma_rank(s, e.lo());
    let r = rank(s, e.lo());
    if r < pos {
        assert(s[r].lo() > e.lo());
        assert(s[r].hi <= e.lo);
        assert(s[r].lo() < s[r].hi());
    }
    if r > pos {
        assert(s[pos].lo() <= e.lo());
        assert(e.hi <= s[pos].lo);
    }
}

/// Stores that differ in the numbers of handles only.
pub open spec fn same_but_refs(a: Objects<PageRef>, b: Objects<PageRef>) -> bool {
    &&& a.len() == b.len()
    &&& forall|id: int| #[trigger] live(a, id) <==> live(b, id)
    &&& forall|id: int| #[trigger]
        live(a, id) ==> b[id] == Some(Object { refs: (b[id]->0).refs, ..(a[id]->0) })
}

/// Every entry that has an object has one that exists.
pub open spec fn backed(es: Entries, store: &VmObjects) -> bool {
    forall|i: int|
        0 <= i < es.len() ==> (object_of((#[trigger] es[i]).mapping) matches Some(o) ==> store.has(
            o as int,
        ))
}

/// Handles to the object at `id`.
pub open spec fn refs_of(store: &VmObjects, id: int) -> int {
    if store.has(id) {
        store.obj(id).refs as int
    } else {
        0
    }
}

/// An address map.
pub struct VmMap {
    /// The entries.
    pub tree: SplayTree<VmMapEntry>,
    /// The page table.
    pub pmap: Pmap,
    /// Bytes covered.
    pub size: u64,
    /// Number of entries.
    pub nentries: usize,
    /// Raised at every change, so that a change made while no lock was held shows.
    pub timestamp: u32,
}

/// Result of splitting an entry at the ends of a range.
pub struct SplitResult {
    /// What lies before the range.
    pub left: Option<VmMapEntry>,
    /// What lies in the range.
    pub middle: VmMapEntry,
    /// What lies after the range.
    pub right: Option<VmMapEntry>,
}

/// Split an entry at the ends of `[clip_start, clip_end)`.
pub fn split_entry_at(entry: VmMapEntry, clip_start: VirtAddr, clip_end: VirtAddr) -> (r: SplitResult)
    requires
        entry.lo < entry.hi,
        cut_fits(entry, clip_start.0 as int, clip_end.0 as int),
        clip_start.0 < clip_end.0,
        overlaps(entry, clip_start.0 as int, clip_end.0 as int),
    ensures
        r.left == if entry.lo < clip_start.0 {
            Some(entry.part(entry.lo as int, clip_start.0 as int))
        } else {
            None
        },
        r.right == if entry.hi > clip_end.0 {
            Some(entry.part(clip_end.0 as int, entry.hi as int))
        } else {
            None
        },
        r.middle == middle_part(entry, clip_start.0 as int, clip_end.0 as int),
{
    let left = if entry.lo < clip_start.0 {
        let mut l = entry.clone_for_split(entry.start());
        l.set_bounds(entry.start(), clip_start);
        Some(l)
    } else {
        None
    };
    let right = if entry.hi > clip_end.0 {
        let mut r = entry.clone_for_split(clip_end);
        r.set_bounds(clip_end, entry.end());
        Some(r)
    } else {
        None
    };
    let mid_start = if entry.lo > clip_start.0 {
        entry.start()
    } else {
        clip_start
    };
    let mid_end = if entry.hi < clip_end.0 {
        entry.end()
    } else {
        clip_end
    };
    let mut middle = entry.clone_for_split(mid_start);
    middle.set_bounds(mid_start, mid_end);
    SplitResult { left, middle, right }
}

impl VmMap {
    /// The entries in order.
    pub open spec fn entries(&self) -> Entries {
        self.tree.entries()
    }

    /// The entries do not overlap, and the counts are right.
    pub open spec fn wf(&self) -> bool {
        &&& self.tree.wf()
        &&& forall|i: int|
            0 <= i < self.entries().len() ==> (#[trigger] self.entries()[i]).hi + 4095 <= u64::MAX
        &&& self.size == total(self.entries())
        &&& self.nentries == self.entries().len()
        &&& self.pmap.wf()
    }

    pub fn new(pmap: Pmap) -> (r: Self)
        requires
            pmap.wf(),
        ensures
            r.wf(),
            r.entries().len() == 0,
            r.pmap == pmap,
            r.timestamp == 0,
    {
        VmMap { tree: SplayTree::new(), pmap, size: 0, nentries: 0, timestamp: 0 }
    }

    /// Take the entry that holds `key` out of the tree.
    fn remove_tree_entry(&mut self, key: u64) -> (r: Option<VmMapEntry>)
        requires
            old(self).wf(),
        ensures
            final(self).wf(),
            final(self).pmap == old(self).pmap,
            final(self).timestamp == old(self).timestamp,
            match r {
                Some(e) => exists|i: int| #[trigger]
                    found(old(self).entries(), key as int, i) && e == old(self).entries()[i]
                        && final(self).entries() == old(self).entries().remove(i),
                None => final(self).entries() == old(self).entries() && forall|i: int| !#[trigger]
                    found(old(self).entries(), key as int, i),
            },
    {
        let ghost es = self.entries();
        match self.tree.remove(key) {
            None => None,
            Some(entry) => {
                proof {
                    let i = choose|i: int| #[trigger]
                        found(es, key as int, i) && entry == es[i] && self.entries() == es.remove(i);
                    lemma_sum_remove(es, i, |e: VmMapEntry| e.hi - e.lo);
                    lemma_total_bound(self.entries());
                    assert forall|j: int| 0 <= j < self.entries().len() implies (
                    #[trigger] self.entries()[j]).hi + 4095 <= u64::MAX by {
                        assert(self.entries()[j] == es[if j < i {
                            j
                        } else {
                            j + 1
                        }]);
                    }
                }
                self.size = self.size.saturating_sub(entry.size());
                self.nentries = self.nentries.saturating_sub(1);
                Some(entry)
            },
        }
    }

    /// Put an entry back into the tree, where it belongs before the entry at `pos`.
    fn reinsert(&mut self, entry: VmMapEntry, Ghost(pos): Ghost<int>)
        requires
            old(self).wf(),
            entry.lo < entry.hi,
            entry.hi + 4095 <= u64::MAX,
            0 <= pos <= old(self).entries().len(),
            forall|i: int| 0 <= i < pos ==> (#[trigger] old(self).entries()[i]).hi <= entry.lo,
            forall|i: int|
                pos <= i < old(self).entries().len() ==> entry.hi <= (
                #[trigger] old(self).entries()[i]).lo,
            old(self).nentries < usize::MAX,
        ensures
            final(self).wf(),
            final(self).pmap == old(self).pmap,
            final(self).timestamp == old(self).timestamp,
            final(self).entries() == old(self).entries().insert(pos, entry),
    {
        let ghost es = self.entries();
        proof {
            lemma_rank_is(es, entry, pos);
            lemma_insert_ordered(es, entry);
            lemma_sum_insert(es, pos, entry, |e: VmMapEntry| e.hi - e.lo);
            lemma_total_bound(es.insert(pos, entry));
        }
        self.size = self.size + entry.size();
        self.nentries = self.nentries + 1;
        self.tree.insert(entry);
        assert forall|j: int| 0 <= j < self.entries().len() implies (
        #[trigger] self.entries()[j]).hi + 4095 <= u64::MAX by {
            if j < pos {
                assert(self.entries()[j] == es[j]);
            } else if j > pos {
                assert(self.entries()[j] == es[j - 1]);
            }
        }
    }

    /// Raise the timestamp.
    pub(crate) fn touch(&mut self)
        ensures
            *final(self) == (VmMap {
                timestamp: old(self).timestamp.wrapping_add(1),
                ..*old(self)
            }),
    {
        self.timestamp = self.timestamp.wrapping_add(1);
    }

    /// Whether no entry reaches into `[start, end)`.
    pub fn is_range_free(&self, start: VirtAddr, end: VirtAddr) -> (r: bool)
        requires
            self.wf(),
        ensures
            r == range_free(self.entries(), start.0 as int, end.0 as int),
    {
        let all = self.tree.to_vec();
        let mut i: usize = 0;
        while i < all.len()
            invariant
                i <= all@.len(),
                all@.len() == self.entries().len(),
                forall|j: int| 0 <= j < all@.len() ==> *(#[trigger] all@[j]) == self.entries()[j],
                forall|j: int|
                    0 <= j < i ==> !meets(
                        #[trigger] self.entries()[j],
                        start.0 as int,
                        end.0 as int,
                    ),
            decreases all@.len() - i,
        {
            let vma = all[i];
            assert(*vma == self.entries()[i as int]);
            let lo = if vma.lo > start.0 {
                vma.lo
            } else {
                start.0
            };
            let hi = if vma.hi < end.0 {
                vma.hi
            } else {
                end.0
            };
            if lo < hi {
                assert(meets(self.entries()[i as int], start.0 as int, end.0 as int));
                return false;
            }
            i += 1;
        }
        true
    }

    /// Put an entry in.  Refused where the range is empty, not made of whole pages,
    /// or overlaps an entry.
    pub fn insert_entry(&mut self, entry: VmMapEntry) -> (r: Result<(), Errno>)
        requires
            old(self).wf(),
            entry.lo < entry.hi ==> entry.hi + 4095 <= u64::MAX,
            old(self).nentries < usize::MAX,
        ensures
            final(self).wf(),
            final(self).pmap == old(self).pmap,
            inserted(old(self), final(self), entry, r),
    {
        if entry.lo >= entry.hi {
            return Err(Errno::Einval);
        }
        if entry.lo % PAGE_SIZE != 0 || entry.hi % PAGE_SIZE != 0 {
            return Err(Errno::Einval);
        }
        if !self.is_range_free(entry.start(), entry.end()) {
            return Err(Errno::Einval);
        }
        let ghost es = self.entries();
        proof {
            assert forall|i: int| 0 <= i < es.len() implies (#[trigger] es[i]).hi() <= entry.lo()
                || entry.hi() <= es[i].lo() by {
                assert(!meets(es[i], entry.lo as int, entry.hi as int));
                assert(es[i].lo() < es[i].hi());
            }
            lemma_insert_ordered(es, entry);
        }
        self.reinsert(entry, Ghost(rank(es, entry.lo())));
        self.touch();
        Ok(())
    }
}

/// Whether the entry and `[s, t)` share an address.
pub open spec fn meets(e: VmMapEntry, s: int, t: int) -> bool {
    (if e.lo > s {
        e.lo as int
    } else {
        s
    }) < (if e.hi < t {
        e.hi as int
    } else {
        t
    })
}

/// No entry shares an address with `[s, t)`.
pub open spec fn range_free(es: Entries, s: int, t: int) -> bool {
    forall|i: int| 0 <= i < es.len() ==> !meets(#[trigger] es[i], s, t)
}

/// Whether an entry may be put in.
pub open spec fn insertable(es: Entries, e: VmMapEntry) -> bool {
    &&& e.lo < e.hi
    &&& e.lo as int % 4096 == 0
    &&& e.hi as int % 4096 == 0
    &&& range_free(es, e.lo as int, e.hi as int)
}

/// What putting an entry in does.
pub open spec fn inserted(
    before: &VmMap,
    after: &VmMap,
    e: VmMapEntry,
    r: Result<(), Errno>,
) -> bool {
    if insertable(before.entries(), e) {
        &&& r is Ok
        &&& after.entries() == before.entries().insert(rank(before.entries(), e.lo()), e)
        &&& after.timestamp == before.timestamp.wrapping_add(1)
    } else {
        &&& r == Err::<(), Errno>(Errno::Einval)
        &&& after.entries() == before.entries()
        &&& after.timestamp == before.timestamp
    }
}

/// A timestamp that was raised `n` times.
pub open spec fn raised(t: u32, n: int) -> u32
    decreases n,
{
    if n <= 0 {
        t
    } else {
        raised(t, n - 1).wrapping_add(1)
    }
}

/// Raised by one number and then by another.
pub proof fn lemma_raised_twice(t: u32, m: int, n: int)
    requires
        0 <= m,
        0 <= n,
    ensures
        raised(raised(t, m), n) == raised(t, m + n),
    decreases n,
{
    if n > 0 {
        lemma_raised_twice(t, m, n - 1);
    }
}

/// Take another handle to the object of an entry, if it has one.
fn retain_for(store: &mut VmObjects, e: &VmMapEntry)
    requires
        old(store).wf(),
        object_of(e.mapping) matches Some(o) ==> old(store).has(o as int) && refs_of(
            old(store),
            o as int,
        ) < usize::MAX,
    ensures
        final(store).wf(),
        final(store).pagers == old(store).pagers,
        same_but_refs(old(store).objects@, final(store).objects@),
        forall|id: int| #[trigger]
            refs_of(final(store), id) == refs_of(old(store), id) + handle(*e, id),
{
    if let Some(o) = e.mapping.object() {
        store.retain(o);
    }
    proof {
        assert forall|id: int| #[trigger]
            refs_of(store, id) == refs_of(old(store), id) + handle(*e, id) by {
            assert(live(store.objects@, id) == live(old(store).objects@, id));
        }
    }
}

proof fn lemma_same_but_refs_trans(
    a: Objects<PageRef>,
    b: Objects<PageRef>,
    c: Objects<PageRef>,
)
    requires
        same_but_refs(a, b),
        same_but_refs(b, c),
    ensures
        same_but_refs(a, c),
{
    assert forall|id: int| #[trigger] live(a, id) <==> live(c, id) by {
        assert(live(a, id) <==> live(b, id));
        assert(live(b, id) <==> live(c, id));
    }
    assert forall|id: int| #[trigger] live(a, id) implies c[id] == Some(
        Object { refs: (c[id]->0).refs, ..(a[id]->0) },
    ) by {
        assert(live(b, id));
    }
}

/// Carving changes nothing where nothing reaches into the range.
proof fn lemma_carved_none(es: Entries, s: int, t: int, perm: Option<MapPerm>)
    requires
        forall|i: int| 0 <= i < es.len() ==> !overlaps(#[trigger] es[i], s, t),
    ensures
        carved(es, s, t, perm) == es,
        taken_out(es, s, t) == Seq::<VmMapEntry>::empty(),
    decreases es.len(),
{
    if es.len() > 0 {
        let pre = es.drop_last();
        assert forall|i: int| 0 <= i < pre.len() implies !overlaps(#[trigger] pre[i], s, t) by {
            assert(pre[i] == es[i]);
        }
        lemma_carved_none(pre, s, t, perm);
        assert(!overlaps(es[es.len() - 1], s, t));
        assert(pre.push(es.last()) =~= es);
        assert(carved(es, s, t, perm) =~= es);
        assert(taken_out(es, s, t) =~= Seq::empty());
    } else {
        assert(carved(es, s, t, perm) =~= es);
    }
}

/// Entries past the range do not change what carving gives.
proof fn lemma_carved_rest(es: Entries, n: int, s: int, t: int, perm: Option<MapPerm>)
    requires
        0 <= n <= es.len(),
        forall|i: int| n <= i < es.len() ==> !overlaps(#[trigger] es[i], s, t),
    ensures
        carved(es, s, t, perm) == carved(es.take(n), s, t, perm) + es.skip(n),
        taken_out(es, s, t) == taken_out(es.take(n), s, t),
    decreases es.len() - n,
{
    if n == es.len() {
        assert(es.take(n) =~= es);
        assert(es.skip(n) =~= Seq::empty());
        assert(carved(es, s, t, perm) =~= carved(es.take(n), s, t, perm) + es.skip(n));
    } else {
        lemma_carved_rest(es, n + 1, s, t, perm);
        assert(es.take(n + 1).drop_last() =~= es.take(n));
        assert(es.take(n + 1).last() == es[n]);
        assert(es.skip(n) =~= seq![es[n]] + es.skip(n + 1));
        assert(carved(es, s, t, perm) =~= carved(es.take(n), s, t, perm) + es.skip(n));
        assert(taken_out(es.take(n + 1), s, t) =~= taken_out(es.take(n), s, t));
    }
}

impl VmMap {
    /// Start addresses of the entries that reach into `[start, end)`, in order.
    /// They stand next to each other; the ghost result is the place of the first.
    fn overlapping_keys(&self, start: VirtAddr, end: VirtAddr) -> (r: (Vec<u64>, Ghost<int>))
        requires
            self.wf(),
            start.0 < end.0,
        ensures
            ({
                let a = r.1@;
                let es = self.entries();
                &&& 0 <= a
                &&& a + r.0@.len() <= es.len()
                &&& forall|i: int| 0 <= i < r.0@.len() ==> #[trigger] r.0@[i] == es[a + i].lo
                &&& forall|j: int|
                    0 <= j < es.len() ==> (overlaps(#[trigger] es[j], start.0 as int, end.0 as int)
                        <==> a <= j < a + r.0@.len())
            }),
    {
        let all = self.tree.to_vec();
        let ghost es = self.entries();
        let ghost s = start.0 as int;
        let ghost t = end.0 as int;
        let mut keys: Vec<u64> = Vec::new();
        let ghost mut a: int = 0;
        let mut i: usize = 0;
        while i < all.len()
            invariant
                i <= all@.len(),
                all@.len() == es.len(),
                es == self.entries(),
                ordered(es),
                s == start.0,
                t == end.0,
                s < t,
                forall|j: int| 0 <= j < all@.len() ==> *(#[trigger] all@[j]) == es[j],
                0 <= a,
                a + keys@.len() <= i,
                keys@.len() == 0 ==> a == i,
                forall|j: int| 0 <= j < keys@.len() ==> #[trigger] keys@[j] == es[a + j].lo,
                forall|j: int|
                    0 <= j < i ==> (overlaps(#[trigger] es[j], s, t) <==> a <= j < a + keys@.len()),
            decreases all@.len() - i,
        {
            let e = all[i];
            assert(*e == es[i as int]);
            if e.lo < end.0 && e.hi > start.0 {
                proof {
                    if keys@.len() > 0 && a + keys@.len() < i {
                        let j = a + keys@.len();
                        assert(!overlaps(es[j], s, t));
                        assert(overlaps(es[a], s, t));
                        assert(es[a].hi() <= es[j].lo());
                        assert(es[j].hi() <= es[i as int].lo());
                        assert(es[a].lo() < es[a].hi() && es[j].lo() < es[j].hi());
                    }
                }
                keys.push(e.lo);
            } else {
                proof {
                    if keys@.len() == 0 {
                        a = i + 1;
                    }
                }
            }
            i += 1;
        }
        (keys, Ghost(a))
    }

    /// Take out the entry `e0`, which starts at `key` and stands between `head` and
    /// `tail`.
    fn take_exact(
        &mut self,
        key: u64,
        Ghost(head): Ghost<Entries>,
        Ghost(e0): Ghost<VmMapEntry>,
        Ghost(tail): Ghost<Entries>,
    ) -> (r: VmMapEntry)
        requires
            old(self).wf(),
            old(self).entries() == head + seq![e0] + tail,
            key == e0.lo,
            e0.lo < e0.hi,
        ensures
            final(self).wf(),
            final(self).pmap == old(self).pmap,
            final(self).timestamp == old(self).timestamp,
            r == e0,
            final(self).entries() == head + tail,
            final(self).nentries == old(self).nentries - 1,
            forall|id: int| #[trigger]
                handles(final(self).entries(), id) == handles(old(self).entries(), id) - handle(
                    e0,
                    id,
                ),
    {
        let ghost cur = self.entries();
        let ghost pos = head.len() as int;
        proof {
            assert(cur[pos] == e0);
            assert(found(cur, key as int, pos));
        }
        let popped = self.remove_tree_entry(key);
        proof {
            let i = choose|i: int| #[trigger]
                found(cur, key as int, i) && popped->0 == cur[i] && self.entries() == cur.remove(i);
            lemma_found_unique(cur, key as int, i, pos);
            assert(self.entries() =~= head + tail);
            lemma_handles_remove(cur, pos);
        }
        popped.unwrap()
    }

    /// Put a part of an entry, if there is one, between `head` and `tail`, with a
    /// handle of its own where `share` says so.
    fn put_parts(
        &mut self,
        store: &mut VmObjects,
        part: Option<VmMapEntry>,
        share: bool,
        Ghost(head): Ghost<Entries>,
        Ghost(tail): Ghost<Entries>,
        Ghost(parts): Ghost<Entries>,
    )
        requires
            old(self).wf(),
            old(store).wf(),
            old(self).entries() == head + tail,
            parts == match part {
                Some(e) => seq![e],
                None => Seq::empty(),
            },
            part matches Some(e) ==> {
                &&& e.lo < e.hi
                &&& e.hi + 4095 <= u64::MAX
                &&& forall|i: int| 0 <= i < head.len() ==> (#[trigger] head[i]).hi <= e.lo
                &&& forall|i: int| 0 <= i < tail.len() ==> e.hi <= (#[trigger] tail[i]).lo
                &&& share && object_of(e.mapping) is Some ==> old(store).has(
                    object_of(e.mapping)->0 as int,
                ) && refs_of(old(store), object_of(e.mapping)->0 as int) < usize::MAX
            },
            old(self).nentries < usize::MAX,
        ensures
            final(self).wf(),
            final(store).wf(),
            final(self).pmap == old(self).pmap,
            final(self).timestamp == old(self).timestamp,
            final(store).pagers == old(store).pagers,
            same_but_refs(old(store).objects@, final(store).objects@),
            final(self).entries() == head + parts + tail,
            final(self).nentries == old(self).nentries + parts.len(),
            forall|id: int| #[trigger]
                refs_of(final(store), id) == refs_of(old(store), id) + if share {
                    handles(parts, id)
                } else {
                    0
                },
            forall|id: int| #[trigger]
                handles(final(self).entries(), id) == handles(old(self).entries(), id) + handles(
                    parts,
                    id,
                ),
    {
        let ghost cur = self.entries();
        let ghost pos = head.len() as int;
        proof {
            assert forall|id: int| #[trigger] handles(parts, id) == match part {
                Some(e) => handle(e, id),
                None => 0,
            } by {
                lemma_handles_small(parts, id);
            }
            assert(same_but_refs(store.objects@, store.objects@));
        }
        match part {
            None => {
                assert(head + parts + tail =~= head + tail);
            },
            Some(e) => {
                if share {
                    retain_for(store, &e);
                }
                proof {
                    assert forall|i: int| 0 <= i < pos implies (#[trigger] cur[i]).hi <= e.lo by {
                        assert(cur[i] == head[i]);
                    }
                    assert forall|i: int| pos <= i < cur.len() implies e.hi <= (
                    #[trigger] cur[i]).lo by {
                        assert(cur[i] == tail[i - pos]);
                    }
                }
                self.reinsert(e, Ghost(pos));
                proof {
                    assert(self.entries() =~= head + parts + tail);
                    lemma_handles_insert(cur, pos, e);
                }
            },
        }
    }

    /// Replace the entry `e0`, which starts at `key`, by its parts outside
    /// `[start, end)` and, under a new protection, the part inside.
    #[verifier::rlimit(60)]
    fn carve_one(
        &mut self,
        store: &mut VmObjects,
        key: u64,
        start: VirtAddr,
        end: VirtAddr,
        perm: Option<MapPerm>,
        removed: &mut Vec<VmMapEntry>,
        Ghost(head): Ghost<Entries>,
        Ghost(e0): Ghost<VmMapEntry>,
        Ghost(tail): Ghost<Entries>,
    )
        requires
            old(self).wf(),
            old(store).wf(),
            start.0 < end.0,
            old(self).entries() == head + seq![e0] + tail,
            key == e0.lo,
            e0.lo < e0.hi,
            overlaps(e0, start.0 as int, end.0 as int),
            cut_fits(e0, start.0 as int, end.0 as int),
            forall|i: int| 0 <= i < head.len() ==> (#[trigger] head[i]).hi <= e0.lo,
            forall|i: int| 0 <= i < tail.len() ==> e0.hi <= (#[trigger] tail[i]).lo,
            old(self).nentries + 2 <= usize::MAX,
            object_of(e0.mapping) matches Some(o) ==> old(store).has(o as int) && refs_of(
                old(store),
                o as int,
            ) + 2 <= usize::MAX,
        ensures
            final(self).wf(),
            final(store).wf(),
            final(self).pmap == old(self).pmap,
            final(self).timestamp == old(self).timestamp,
            final(store).pagers == old(store).pagers,
            same_but_refs(old(store).objects@, final(store).objects@),
            final(self).entries() == head + pieces(e0, start.0 as int, end.0 as int, perm) + tail,
            final(self).nentries <= old(self).nentries + 2,
            final(removed)@ == if perm is None {
                old(removed)@.push(middle_part(e0, start.0 as int, end.0 as int))
            } else {
                old(removed)@
            },
            forall|id: int| #[trigger]
                refs_of(final(store), id) <= refs_of(old(store), id) + 2,
            forall|id: int| #[trigger]
                refs_of(final(store), id) - refs_of(old(store), id) == handles(
                    final(self).entries(),
                    id,
                ) + handles(final(removed)@, id) - handles(old(self).entries(), id) - handles(
                    old(removed)@,
                    id,
                ),
    {
        let ghost s = start.0 as int;
        let ghost t = end.0 as int;
        let ghost cur = self.entries();
        let ghost removed0 = removed@;
        let ghost st0 = *store;
        proof {
            lemma_pieces(e0, s, t, perm);
            assert(cur[head.len() as int] == e0);
            assert(e0.hi + 4095 <= u64::MAX);
        }
        let entry = self.take_exact(key, Ghost(head), Ghost(e0), Ghost(tail));
        let ghost h0 = self.entries();
        let split = split_entry_at(entry, start, end);
        let ghost lp = left_part(e0, s);
        let ghost mp = if perm is None {
            Seq::<VmMapEntry>::empty()
        } else {
            seq![VmMapEntry { protection: perm->0, ..middle_part(e0, s, t) }]
        };
        let ghost rp = right_part(e0, t);
        self.put_parts(store, split.left, true, Ghost(head), Ghost(tail), Ghost(lp));
        let ghost st1 = *store;
        let ghost h1 = self.entries();
        let inside = match perm {
            Some(p) => {
                let mut middle = split.middle;
                middle.protection = p;
                Some(middle)
            },
            None => {
                removed.push(split.middle);
                proof {
                    lemma_handles_push(removed0, split.middle);
                }
                None
            },
        };
        self.put_parts(store, inside, false, Ghost(head + lp), Ghost(tail), Ghost(mp));
        let ghost h2 = self.entries();
        proof {
            lemma_same_but_refs_trans(st0.objects@, st1.objects@, store.objects@);
            assert(object_of(e0.mapping) matches Some(o) ==> live(st0.objects@, o as int) && live(
                store.objects@,
                o as int,
            ));
        }
        let ghost st2 = *store;
        proof {
            if let Some(o) = object_of(e0.mapping) {
                lemma_handles_small(lp, o as int);
                assert(refs_of(&st1, o as int) == refs_of(&st0, o as int) + handles(lp, o as int));
                assert(refs_of(&st2, o as int) == refs_of(&st1, o as int));
            }
            let before = (head + lp) + mp;
            assert forall|i: int| 0 <= i < before.len() implies (#[trigger] before[i]).hi <= t by {
                if i < head.len() {
                    assert(before[i] == head[i]);
                } else if i < head.len() + lp.len() {
                    assert(before[i] == lp[i - head.len()]);
                } else {
                    assert(before[i] == mp[i - head.len() - lp.len()]);
                }
            }
        }
        self.put_parts(store, split.right, true, Ghost((head + lp) + mp), Ghost(tail), Ghost(rp));
        proof {
            lemma_same_but_refs_trans(st0.objects@, st2.objects@, store.objects@);
            assert(((head + lp) + mp) + rp + tail =~= head + pieces(e0, s, t, perm) + tail);
            let st3 = *store;
            let h3 = self.entries();
            assert forall|id: int| #[trigger] refs_of(&st3, id) <= refs_of(&st0, id) + 2 by {
                assert(refs_of(&st1, id) - refs_of(&st0, id) == handles(lp, id));
                assert(refs_of(&st2, id) == refs_of(&st1, id));
                assert(refs_of(&st3, id) - refs_of(&st2, id) == handles(rp, id));
                lemma_handles_small(lp, id);
                lemma_handles_small(rp, id);
            }
            assert forall|id: int| #[trigger]
                refs_of(&st3, id) - refs_of(&st0, id) == handles(h3, id) + handles(removed@, id)
                    - handles(cur, id) - handles(removed0, id) by {
                assert(handles(h0, id) == handles(cur, id) - handle(e0, id));
                assert(handles(h1, id) == handles(h0, id) + handles(lp, id));
                assert(handles(h2, id) == handles(h1, id) + handles(mp, id));
                assert(handles(h3, id) == handles(h2, id) + handles(rp, id));
                assert(refs_of(&st1, id) - refs_of(&st0, id) == handles(lp, id));
                assert(refs_of(&st2, id) == refs_of(&st1, id));
                assert(refs_of(&st3, id) - refs_of(&st2, id) == handles(rp, id));
                lemma_handles_small(mp, id);
            }
        }
    }

    /// Take `[start, end)` out of the map, or give it the protection `perm`.
    /// Entries that reach over an end are split there, and the new parts get
    /// handles of their own.  Returns what was taken out.
    #[verifier::rlimit(60)]
    fn carve(
        &mut self,
        store: &mut VmObjects,
        start: VirtAddr,
        end: VirtAddr,
        perm: Option<MapPerm>,
    ) -> (removed: Vec<VmMapEntry>)
        requires
            old(self).wf(),
            old(store).wf(),
            start.0 < end.0,
            backed(old(self).entries(), old(store)),
            cuts_fit(old(self).entries(), start.0 as int, end.0 as int),
            old(self).nentries * 3 <= usize::MAX,
            forall|id: int| #[trigger]
                refs_of(old(store), id) + 2 * old(self).nentries <= usize::MAX,
        ensures
            final(self).wf(),
            final(store).wf(),
            final(self).pmap == old(self).pmap,
            final(self).timestamp == old(self).timestamp,
            final(store).pagers == old(store).pagers,
            same_but_refs(old(store).objects@, final(store).objects@),
            final(self).entries() == carved(
                old(self).entries(),
                start.0 as int,
                end.0 as int,
                perm,
            ),
            removed@ == if perm is None {
                taken_out(old(self).entries(), start.0 as int, end.0 as int)
            } else {
                Seq::empty()
            },
            forall|id: int| #[trigger]
                refs_of(final(store), id) - refs_of(old(store), id) == handles(
                    final(self).entries(),
                    id,
                ) + handles(removed@, id) - handles(old(self).entries(), id),
    {
        let ghost es = self.entries();
        let ghost s = start.0 as int;
        let ghost t = end.0 as int;
        let (keys, Ghost(a)) = self.overlapping_keys(start, end);
        let mut removed: Vec<VmMapEntry> = Vec::new();
        proof {
            let pre = es.take(a);
            assert forall|i: int| 0 <= i < pre.len() implies !overlaps(#[trigger] pre[i], s, t) by {
                assert(pre[i] == es[i]);
            }
            lemma_carved_none(pre, s, t, perm);
            assert(es =~= pre + es.skip(a));
            assert(same_but_refs(store.objects@, store.objects@));
            lemma_handles_push(es, es[0]);
            assert(removed@ =~= Seq::empty());
        }
        let mut k: usize = 0;
        while k < keys.len()
            invariant
                self.wf(),
                store.wf(),
                self.pmap == old(self).pmap,
                self.timestamp == old(self).timestamp,
                store.pagers == old(store).pagers,
                start.0 < end.0,
                s == start.0,
                t == end.0,
                es == old(self).entries(),
                old(self).wf(),
                backed(es, old(store)),
                cuts_fit(es, s, t),
                same_but_refs(old(store).objects@, store.objects@),
                old(self).nentries * 3 <= usize::MAX,
                k <= keys@.len(),
                0 <= a,
                a + keys@.len() <= es.len(),
                self.nentries <= old(self).nentries + 2 * k,
                forall|i: int| 0 <= i < keys@.len() ==> #[trigger] keys@[i] == es[a + i].lo,
                forall|j: int|
                    0 <= j < es.len() ==> (overlaps(#[trigger] es[j], s, t) <==> a <= j < a
                        + keys@.len()),
                self.entries() == carved(es.take(a + k), s, t, perm) + es.skip(a + k),
                removed@ == if perm is None {
                    taken_out(es.take(a + k), s, t)
                } else {
                    Seq::empty()
                },
                forall|id: int| #[trigger]
                    refs_of(old(store), id) + 2 * old(self).nentries <= usize::MAX,
                forall|id: int| #[trigger]
                    refs_of(store, id) <= refs_of(old(store), id) + 2 * k,
                forall|id: int| #[trigger]
                    refs_of(store, id) - refs_of(old(store), id) == handles(self.entries(), id)
                        + handles(removed@, id) - handles(es, id),
            decreases keys@.len() - k,
        {
            let ghost j = a + k;
            let ghost head = carved(es.take(j), s, t, perm);
            let ghost tail = es.skip(j + 1);
            let ghost e0 = es[j];
            let ghost removed0 = removed@;
            let ghost st0 = *store;
            let ghost cur = self.entries();
            proof {
                lemma_ordered_prefix(es, j);
                let pre = es.take(j);
                lemma_carved(pre, s, t, perm);
                assert(es[j].lo() < es[j].hi());
                assert forall|i: int| 0 <= i < head.len() implies (#[trigger] head[i]).hi <= e0.lo by {
                    assert(head[i].hi <= pre.last().hi);
                    assert(pre.last() == es[j - 1]);
                    assert(es[j - 1].hi() <= es[j].lo());
                }
                assert forall|i: int| 0 <= i < tail.len() implies e0.hi <= (#[trigger] tail[i]).lo by {
                    assert(tail[i] == es[j + 1 + i]);
                    assert(es[j].hi() <= es[j + 1 + i].lo());
                }
                assert(overlaps(e0, s, t));
                assert(self.entries() =~= head + seq![e0] + tail);
                assert(object_of(es[j].mapping) matches Some(o) ==> live(
                    old(store).objects@,
                    o as int,
                ));
                assert(object_of(e0.mapping) matches Some(o) ==> refs_of(store, o as int)
                    <= refs_of(old(store), o as int) + 2 * k);
            }
            self.carve_one(
                store,
                keys[k],
                start,
                end,
                perm,
                &mut removed,
                Ghost(head),
                Ghost(e0),
                Ghost(tail),
            );
            proof {
                assert(es.take(j + 1).drop_last() =~= es.take(j));
                assert(es.take(j + 1).last() == e0);
                assert(carved(es.take(j + 1), s, t, perm) =~= head + pieces(e0, s, t, perm));
                if perm is None {
                    assert(removed@ =~= taken_out(es.take(j + 1), s, t));
                }
                lemma_same_but_refs_trans(old(store).objects@, st0.objects@, store.objects@);
                assert forall|id: int| #[trigger]
                    refs_of(store, id) <= refs_of(old(store), id) + 2 * (k + 1) by {
                    assert(refs_of(&st0, id) <= refs_of(old(store), id) + 2 * k);
                }
                assert forall|id: int| #[trigger]
                    refs_of(store, id) - refs_of(old(store), id) == handles(self.entries(), id)
                        + handles(removed@, id) - handles(es, id) by {
                    assert(refs_of(&st0, id) - refs_of(old(store), id) == handles(cur, id) + handles(
                        removed0,
                        id,
                    ) - handles(es, id));
                }
            }
            k += 1;
        }
        proof {
            let n = a + keys@.len();
            lemma_carved_rest(es, n, s, t, perm);
        }
        removed
    }
}

/// Whether some entry holds `addr`.
pub open spec fn mapped(es: Entries, addr: int) -> bool {
    exists|i: int| #[trigger] found(es, addr, i)
}

/// The place of the entry that holds `addr`.
pub open spec fn place_of(es: Entries, addr: int) -> int {
    choose|i: int| #[trigger] found(es, addr, i)
}

/// Only one entry holds an address.
pub proof fn lemma_place(es: Entries, addr: int, i: int)
    requires
        ordered(es),
        found(es, addr, i),
    ensures
        mapped(es, addr),
        place_of(es, addr) == i,
{
    let j = place_of(es, addr);
    assert(found(es, addr, j));
    lemma_found_unique(es, addr, i, j);
}

/// Replacing an entry by one that ends before the next keeps the order.
pub proof fn lemma_update_ordered(es: Entries, i: int, e: VmMapEntry)
    requires
        ordered(es),
        0 <= i < es.len(),
        e.lo == es[i].lo,
        e.lo < e.hi,
        forall|j: int| i < j < es.len() ==> e.hi <= (#[trigger] es[j]).lo,
    ensures
        ordered(es.update(i, e)),
{
    let t = es.update(i, e);
    assert forall|a: int| 0 <= a < t.len() implies (#[trigger] t[a]).lo() < t[a].hi() by {
        if a != i {
            assert(t[a] == es[a]);
        }
    }
    assert forall|a: int, b: int| 0 <= a < b < t.len() implies (#[trigger] t[a]).hi() <= (
    #[trigger] t[b]).lo() by {
        assert(es[a].hi() <= es[b].lo());
        assert(es[a].lo() < es[a].hi());
    }
}

proof fn lemma_sum_update(es: Entries, i: int, e: VmMapEntry, f: spec_fn(VmMapEntry) -> int)
    requires
        0 <= i < es.len(),
    ensures
        sum_of(es.update(i, e), f) == sum_of(es, f) + f(e) - f(es[i]),
{
    let t = es.remove(i);
    assert(t.insert(i, e) =~= es.update(i, e));
    lemma_sum_remove(es, i, f);
    lemma_sum_insert(t, i, e, f);
}

/// The lowest address handed out by the search for a free area below all entries.
pub const FREE_AREA_FLOOR: u64 = 0x1_0000;

/// The search for a free area starts here.
pub const FREE_AREA_TOP: u64 = 0x0003_FFFF_0000;

/// The start of the highest free area of `len` bytes below `top`, looking at the
/// first `n` entries from the last down.
pub open spec fn free_below(es: Entries, n: int, top: int, len: int) -> Option<int>
    decreases n,
{
    if n <= 0 {
        if top >= len + FREE_AREA_FLOOR {
            Some(top - len)
        } else {
            None
        }
    } else {
        let e = es[n - 1];
        if top >= e.hi && top - e.hi >= len {
            Some(top - len)
        } else {
            free_below(
                es,
                n - 1,
                if e.lo < top {
                    e.lo as int
                } else {
                    top
                },
                len,
            )
        }
    }
}

/// An area found free shares no address with any entry and ends below the top.
pub proof fn law_free_area_is_free(es: Entries, n: int, top: int, len: int)
    requires
        ordered(es),
        0 <= n <= es.len(),
        len > 0,
        top <= FREE_AREA_TOP,
        forall|i: int| n <= i < es.len() ==> top <= (#[trigger] es[i]).lo,
    ensures
        free_below(es, n, top, len) matches Some(a) ==> a + len <= top && range_free(es, a, a + len),
    decreases n,
{
    if n > 0 {
        let e = es[n - 1];
        assert(es[n - 1].lo() < es[n - 1].hi());
        if top >= e.hi && top - e.hi >= len {
            let a = top - len;
            assert forall|i: int| 0 <= i < es.len() implies !meets(#[trigger] es[i], a, a + len) by {
                if i < n - 1 {
                    assert(es[i].hi() <= es[n - 1].lo());
                }
            }
        } else {
            let lower = if e.lo < top {
                e.lo as int
            } else {
                top
            };
            law_free_area_is_free(es, n - 1, lower, len);
        }
    } else if top >= len + FREE_AREA_FLOOR {
        let a = top - len;
        assert forall|i: int| 0 <= i < es.len() implies !meets(#[trigger] es[i], a, a + len) by {}
    }
}

/// Wherever `len` bytes are free between the two ends of the search, an area is found, and none
/// that is free lies higher.
pub proof fn law_free_area_is_highest(es: Entries, len: int, b: int)
    requires
        ordered(es),
        len > 0,
        FREE_AREA_FLOOR <= b,
        b + len <= FREE_AREA_TOP,
        range_free(es, b, b + len),
    ensures
        free_below(es, es.len() as int, FREE_AREA_TOP as int, len) matches Some(a) && b <= a,
{
    lemma_free_highest(es, es.len() as int, FREE_AREA_TOP as int, len, b);
}

proof fn lemma_free_highest(es: Entries, n: int, top: int, len: int, b: int)
    requires
        ordered(es),
        0 <= n <= es.len(),
        len > 0,
        FREE_AREA_FLOOR <= b,
        b + len <= top,
        range_free(es, b, b + len),
    ensures
        free_below(es, n, top, len) matches Some(a) && b <= a,
    decreases n,
{
    if n > 0 {
        let e = es[n - 1];
        assert(es[n - 1].lo() < es[n - 1].hi());
        assert(!meets(es[n - 1], b, b + len));
        if !(top >= e.hi && top - e.hi >= len) {
            let lower = if e.lo < top {
                e.lo as int
            } else {
                top
            };
            lemma_free_highest(es, n - 1, lower, len, b);
        }
    }
}

/// Whether `[covered, end)` can get the protection `perm`, looking at the entries
/// from `i` on: an entry that does not allow it is an error, and so is a gap,
/// whichever comes first.
pub open spec fn coverage(
    es: Entries,
    i: int,
    covered: int,
    start: int,
    end: int,
    perm: MapPerm,
) -> Result<(), Errno>
    decreases es.len() - i,
{
    if i < 0 || i >= es.len() {
        Err(Errno::Enomem)
    } else if !overlaps(es[i], start, end) {
        coverage(es, i + 1, covered, start, end, perm)
    } else if es[i].lo > covered {
        Err(Errno::Enomem)
    } else if !es[i].max_protection.has(perm) {
        Err(Errno::Einval)
    } else {
        let now = if es[i].hi > covered {
            es[i].hi as int
        } else {
            covered
        };
        if now >= end {
            Ok(())
        } else {
            coverage(es, i + 1, now, start, end, perm)
        }
    }
}

/// A protection change is allowed exactly where every address of the range is
/// mapped and every entry it reaches allows the protection.
pub proof fn law_coverage(
    es: Entries,
    i: int,
    covered: int,
    start: int,
    end: int,
    perm: MapPerm,
)
    requires
        ordered(es),
        0 <= i <= es.len(),
        start <= covered < end,
        forall|j: int| 0 <= j < i ==> (#[trigger] es[j]).hi <= covered,
        covered > start ==> forall|j: int| i <= j < es.len() ==> (#[trigger] es[j]).lo >= covered,
    ensures
        coverage(es, i, covered, start, end, perm) is Ok <==> (forall|a: int|
            covered <= a < end ==> #[trigger] mapped(es, a)) && forall|j: int|
            i <= j < es.len() && overlaps(#[trigger] es[j], start, end)
                ==> es[j].max_protection.has(perm),
    decreases es.len() - i,
{
    if i >= es.len() {
        assert(!mapped(es, covered)) by {
            if mapped(es, covered) {
                let j = place_of(es, covered);
                assert(found(es, covered, j));
            }
        }
    } else {
        let e = es[i];
        assert(es[i].lo() < es[i].hi());
        if !overlaps(e, start, end) {
            if e.lo >= end {
                // Nothing further on reaches into the range.
                assert(!mapped(es, covered)) by {
                    if mapped(es, covered) {
                        let j = place_of(es, covered);
                        assert(found(es, covered, j));
                        if j > i {
                            assert(es[i].hi() <= es[j].lo());
                        }
                    }
                }
                assert(coverage(es, i, covered, start, end, perm) is Err) by {
                    lemma_no_coverage(es, i, covered, start, end, perm);
                }
            } else {
                law_coverage(es, i + 1, covered, start, end, perm);
            }
        } else if e.lo > covered {
            assert(!mapped(es, covered)) by {
                if mapped(es, covered) {
                    let j = place_of(es, covered);
                    assert(found(es, covered, j));
                    if j > i {
                        assert(es[i].hi() <= es[j].lo());
                    }
                }
            }
        } else if e.max_protection.has(perm) {
            let now = if e.hi > covered {
                e.hi as int
            } else {
                covered
            };
            assert forall|a: int| covered <= a < now implies mapped(es, a) by {
                assert(found(es, a, i));
            }
            if now >= end {
                assert forall|j: int|
                    i <= j < es.len() && overlaps(#[trigger] es[j], start, end) implies es[j].max_protection.has(
                    perm,
                ) by {
                    if j > i {
                        assert(es[i].hi() <= es[j].lo());
                    }
                }
            } else {
                assert forall|j: int| i + 1 <= j < es.len() implies (#[trigger] es[j]).lo >= now by {
                    assert(es[i].hi() <= es[j].lo());
                }
                law_coverage(es, i + 1, now, start, end, perm);
                assert forall|j: int|
                    i <= j < es.len() && overlaps(#[trigger] es[j], start, end) && coverage(
                        es,
                        i + 1,
                        now,
                        start,
                        end,
                        perm,
                    ) is Ok implies es[j].max_protection.has(perm) by {}
            }
        }
    }
}

proof fn lemma_no_coverage(
    es: Entries,
    i: int,
    covered: int,
    start: int,
    end: int,
    perm: MapPerm,
)
    requires
        ordered(es),
        0 <= i < es.len(),
        es[i].lo >= end,
    ensures
        coverage(es, i, covered, start, end, perm) is Err,
    decreases es.len() - i,
{
    assert(!overlaps(es[i], start, end));
    if i + 1 < es.len() {
        assert(es[i].hi() <= es[i + 1].lo());
        assert(es[i].lo() < es[i].hi());
        lemma_no_coverage(es, i + 1, covered, start, end, perm);
    }
}

impl VmMap {
    /// Walk through the entries in order.
    pub fn iter(&self) -> (r: SplayTreeIter<'_, VmMapEntry>)
        ensures
            r.remaining() == self.entries(),
    {
        self.tree.iter()
    }

    /// The entries in order.
    pub fn copy_entries(&self) -> (r: Vec<VmMapEntry>)
        requires
            self.wf(),
        ensures
            r@ == self.entries(),
    {
        let ghost es = self.entries();
        let mut r: Vec<VmMapEntry> = Vec::new();
        let all = self.tree.to_vec();
        let mut i: usize = 0;
        while i < all.len()
            invariant
                i <= all@.len(),
                all@.len() == es.len(),
                forall|j: int| 0 <= j < all@.len() ==> *(#[trigger] all@[j]) == es[j],
                r@ == es.take(i as int),
            decreases all@.len() - i,
        {
            assert(es.take(i + 1) =~= es.take(i as int).push(es[i as int]));
            r.push(*all[i]);
            i += 1;
        }
        assert(es.take(i as int) =~= es);
        r
    }

    /// Remove all mappings.  The entries are handed back, with what has to be flushed.
    pub fn clear(&mut self) -> (r: (Vec<VmMapEntry>, Vec<TlbRange>))
        requires
            old(self).wf(),
        ensures
            final(self).wf(),
            final(self).entries().len() == 0,
            final(self).timestamp == old(self).timestamp.wrapping_add(1),
            r.0@ == old(self).entries(),
            r.1@ == clear_flushes(
                &old(self).pmap,
                old(self).entries(),
                old(self).entries().len() as int,
            ),
            final(self).pmap.same_identity(&old(self).pmap),
            cleared_in_turn(&old(self).pmap, &final(self).pmap, old(self).entries()),
            forall|v: int| #[trigger]
                final(self).pmap.entry_at(v) == if entries_touch(
                    old(self).entries(),
                    old(self).entries().len() as int,
                    v,
                ) && is_valid(old(self).pmap.entry_at(v)) {
                    0
                } else {
                    old(self).pmap.entry_at(v)
                },
    {
        let ghost es = self.entries();
        let r = self.copy_entries();
        let mut flushes: Vec<TlbRange> = Vec::new();
        let ghost mut spaces = seq![self.pmap];
        let mut i: usize = 0;
        while i < r.len()
            invariant
                i <= r@.len(),
                r@ == es,
                flushes@ == clear_flushes(&old(self).pmap, es, i as int),
                clear_steps(spaces, es, i as int),
                spaces[0] == old(self).pmap,
                spaces[i as int] == self.pmap,
                es == old(self).entries(),
                old(self).wf(),
                self.pmap.wf(),
                self.tree == old(self).tree,
                self.timestamp == old(self).timestamp,
                self.pmap.same_identity(&old(self).pmap),
                forall|v: int| #[trigger]
                    self.pmap.entry_at(v) == if entries_touch(es, i as int, v) && is_valid(
                        old(self).pmap.entry_at(v),
                    ) {
                        0
                    } else {
                        old(self).pmap.entry_at(v)
                    },
            decreases r@.len() - i,
        {
            let ghost before = self.pmap;
            assert(es[i as int].hi + 4095 <= u64::MAX);
            let flush = pmap_remove(
                &mut self.pmap,
                VirtAddr::new(r[i].lo),
                VirtAddr::new(r[i].hi),
            );
            proof {
                lemma_left_flush(&old(self).pmap, &before, es, i as int);
                let ss = spaces;
                spaces = spaces.push(self.pmap);
                assert forall|j: int| 0 <= j < i + 1 implies pages_removed(
                    &spaces[j],
                    &spaces[j + 1],
                    (#[trigger] es[j]).lo as int,
                    es[j].hi as int,
                    removal_flush(&spaces[j], es[j].lo as int, es[j].hi as int),
                ) by {
                    if j < i {
                        assert(spaces[j] == ss[j] && spaces[j + 1] == ss[j + 1]);
                    }
                }
            }
            if let Some(f) = flush {
                flushes.push(f);
            }
            proof {
                assert forall|v: int| #[trigger]
                    self.pmap.entry_at(v) == if entries_touch(es, i + 1, v) && is_valid(
                        old(self).pmap.entry_at(v),
                    ) {
                        0
                    } else {
                        old(self).pmap.entry_at(v)
                    } by {
                    lemma_entries_touch(es, i as int, v);
                    assert(before.entry_at(v) == old(self).pmap.entry_at(v) || before.entry_at(v)
                        == 0);
                }
            }
            i += 1;
        }
        self.tree = SplayTree::new();
        self.size = 0;
        self.nentries = 0;
        self.touch();
        (r, flushes)
    }

    /// Remove the entry that holds `va`, with its translations.  Returns it and what has to be
    /// flushed.
    pub fn remove_entry_containing(&mut self, va: VirtAddr) -> (r: Option<
        (VmMapEntry, Option<TlbRange>),
    >)
        requires
            old(self).wf(),
        ensures
            final(self).wf(),
            final(self).pmap.same_identity(&old(self).pmap),
            r is Some <==> mapped(old(self).entries(), va.0 as int),
            r is None ==> final(self).entries() == old(self).entries() && final(self).pmap == old(self).pmap && final(self).timestamp == old(self).timestamp,
            r matches Some((e, flush)) ==> {
                let i = place_of(old(self).entries(), va.0 as int);
                &&& e == old(self).entries()[i]
                &&& final(self).entries() == old(self).entries().remove(i)
                &&& final(self).timestamp == old(self).timestamp.wrapping_add(1)
                &&& pages_removed(
                    &old(self).pmap,
                    &final(self).pmap,
                    e.lo as int,
                    e.hi as int,
                    flush,
                )
            },
    {
        let ghost es = self.entries();
        match self.remove_tree_entry(va.0) {
            None => None,
            Some(entry) => {
                proof {
                    let i = choose|i: int| #[trigger]
                        found(es, va.0 as int, i) && entry == es[i] && self.entries() == es.remove(i);
                    lemma_place(es, va.0 as int, i);
                    assert(es[i].hi + 4095 <= u64::MAX);
                }
                let flush = pmap_remove(&mut self.pmap, entry.start(), entry.end());
                self.touch();
                Some((entry, flush))
            },
        }
    }

    /// Remove `[start, end)`: entries inside go, entries that reach over an end are
    /// cut there.  Returns what was removed and what has to be flushed.
    pub fn remove_range(&mut self, store: &mut VmObjects, start: VirtAddr, end: VirtAddr) -> (r: (
        Vec<VmMapEntry>,
        Option<TlbRange>,
    ))
        requires
            old(self).wf(),
            old(store).wf(),
            backed(old(self).entries(), old(store)),
            end.0 + 4095 <= u64::MAX,
            start.0 < end.0 ==> cuts_fit(old(self).entries(), start.0 as int, end.0 as int),
            old(self).nentries * 3 <= usize::MAX,
            forall|id: int| #[trigger]
                refs_of(old(store), id) + 2 * old(self).nentries <= usize::MAX,
        ensures
            final(self).wf(),
            final(store).wf(),
            final(store).pagers == old(store).pagers,
            same_but_refs(old(store).objects@, final(store).objects@),
            final(self).pmap.same_identity(&old(self).pmap),
            start.0 >= end.0 ==> r.0@.len() == 0 && r.1 is None && *final(self) == *old(self) && *final(store) == *old(store),
            start.0 < end.0 ==> {
                &&& final(self).entries() == carved(
                    old(self).entries(),
                    start.0 as int,
                    end.0 as int,
                    None,
                )
                &&& r.0@ == taken_out(old(self).entries(), start.0 as int, end.0 as int)
                &&& final(self).timestamp == old(self).timestamp.wrapping_add(1)
                &&& pages_removed(
                    &old(self).pmap,
                    &final(self).pmap,
                    start.0 as int,
                    end.0 as int,
                    r.1,
                )
                &&& forall|id: int| #[trigger]
                    refs_of(final(store), id) - refs_of(old(store), id) == handles(
                        final(self).entries(),
                        id,
                    ) + handles(r.0@, id) - handles(old(self).entries(), id)
            },
    {
        if start.0 >= end.0 {
            assert(same_but_refs(store.objects@, store.objects@));
            return (Vec::new(), None);
        }
        let flush = pmap_remove(&mut self.pmap, start, end);
        let removed = self.carve(store, start, end, None);
        self.touch();
        (removed, flush)
    }

    /// The entry that holds `va`.
    pub fn lookup(&mut self, va: VirtAddr) -> (r: Option<VmMapEntry>)
        requires
            old(self).wf(),
        ensures
            final(self).wf(),
            final(self).entries() == old(self).entries(),
            final(self).pmap == old(self).pmap,
            final(self).timestamp == old(self).timestamp,
            r is Some <==> mapped(old(self).entries(), va.0 as int),
            r matches Some(e) ==> e == old(self).entries()[place_of(
                old(self).entries(),
                va.0 as int,
            )],
    {
        let ghost es = self.entries();
        match self.tree.lookup(va.0) {
            None => None,
            Some(e) => {
                proof {
                    let i = choose|i: int| #[trigger] found(es, va.0 as int, i) && *e == es[i];
                    lemma_place(es, va.0 as int, i);
                }
                Some(*e)
            },
        }
    }

    /// The entry that holds `va`, without reshaping the tree.
    pub fn lookup_readonly(&self, va: VirtAddr) -> (r: Option<VmMapEntry>)
        requires
            self.wf(),
        ensures
            r is Some <==> mapped(self.entries(), va.0 as int),
            r matches Some(e) ==> e == self.entries()[place_of(self.entries(), va.0 as int)],
            r matches Some(e) ==> found(
                self.entries(),
                va.0 as int,
                place_of(self.entries(), va.0 as int),
            ),
    {
        let ghost es = self.entries();
        match self.tree.lookup_readonly(va.0) {
            None => None,
            Some(e) => {
                proof {
                    let i = choose|i: int| #[trigger] found(es, va.0 as int, i) && *e == es[i];
                    lemma_place(es, va.0 as int, i);
                }
                Some(*e)
            },
        }
    }

    /// Replace the entry that holds `va` by `e`, which starts where that one does.
    pub(crate) fn set_entry(&mut self, va: VirtAddr, e: VmMapEntry)
        requires
            old(self).wf(),
            mapped(old(self).entries(), va.0 as int),
            ({
                let es = old(self).entries();
                let i = place_of(es, va.0 as int);
                &&& e.lo == es[i].lo
                &&& e.lo < e.hi
                &&& forall|j: int| i < j < es.len() ==> e.hi <= (#[trigger] es[j]).lo
            }),
            e.hi + 4095 <= u64::MAX,
        ensures
            final(self).tree.wf(),
            final(self).entries() == old(self).entries().update(
                place_of(old(self).entries(), va.0 as int),
                e,
            ),
            final(self).pmap == old(self).pmap,
            final(self).size == old(self).size,
            final(self).nentries == old(self).nentries,
            final(self).timestamp == old(self).timestamp,
            forall|j: int|
                0 <= j < final(self).entries().len() ==> (
                #[trigger] final(self).entries()[j]).hi + 4095 <= u64::MAX,
            total(final(self).entries()) == total(old(self).entries()) + (e.hi - e.lo) - (
            old(self).entries()[place_of(old(self).entries(), va.0 as int)].hi
                - old(self).entries()[place_of(old(self).entries(), va.0 as int)].lo),
    {
        let ghost es = self.entries();
        let ghost i = place_of(es, va.0 as int);
        proof {
            assert(found(es, va.0 as int, i));
            lemma_update_ordered(es, i, e);
            assert forall|j: int| #[trigger] found(es, va.0 as int, j) implies ordered(
                es.update(j, e),
            ) by {
                lemma_found_unique(es, va.0 as int, i, j);
            }
            lemma_sum_update(es, i, e, |x: VmMapEntry| x.hi - x.lo);
        }
        let _ = self.tree.replace(va.0, e);
        proof {
            let j = choose|j: int| #[trigger]
                found(es, va.0 as int, j) && self.entries() == es.update(j, e);
            lemma_found_unique(es, va.0 as int, i, j);
            assert forall|k: int| 0 <= k < self.entries().len() implies (
            #[trigger] self.entries()[k]).hi + 4095 <= u64::MAX by {
                if k != i {
                    assert(self.entries()[k] == es[k]);
                }
            }
        }
    }

    /// The start of the highest free area of `len` bytes.
    pub fn find_free_area_topdown(&self, len: u64) -> (r: Option<VirtAddr>)
        requires
            self.wf(),
            len + FREE_AREA_FLOOR <= u64::MAX,
        ensures
            match (
                r,
                free_below(
                    self.entries(),
                    self.entries().len() as int,
                    FREE_AREA_TOP as int,
                    len as int,
                ),
            ) {
                (Some(a), Some(b)) => a.0 == b,
                (None, None) => true,
                _ => false,
            },
    {
        let all = self.tree.to_vec();
        let ghost es = self.entries();
        let mut current_top: u64 = FREE_AREA_TOP;
        let mut n: usize = all.len();
        while n > 0
            invariant
                n <= all@.len(),
                all@.len() == es.len(),
                es == self.entries(),
                len + FREE_AREA_FLOOR <= u64::MAX,
                forall|j: int| 0 <= j < all@.len() ==> *(#[trigger] all@[j]) == es[j],
                free_below(es, es.len() as int, FREE_AREA_TOP as int, len as int) == free_below(
                    es,
                    n as int,
                    current_top as int,
                    len as int,
                ),
            decreases n,
        {
            let e = all[n - 1];
            assert(*e == es[n - 1]);
            if current_top >= e.hi && current_top - e.hi >= len {
                return Some(VirtAddr::new(current_top - len));
            }
            if e.lo < current_top {
                current_top = e.lo;
            }
            n -= 1;
        }
        if current_top >= len + FREE_AREA_FLOOR {
            return Some(VirtAddr::new(current_top - len));
        }
        None
    }

    /// Whether `[start, end)` is mapped throughout and every entry it reaches allows
    /// the protection.
    pub fn validate_protect_coverage(&self, start: VirtAddr, end: VirtAddr, perm: MapPerm) -> (r:
        Result<(), Errno>)
        requires
            self.wf(),
            start.0 < end.0,
        ensures
            r == coverage(
                self.entries(),
                0,
                start.0 as int,
                start.0 as int,
                end.0 as int,
                perm,
            ),
    {
        let all = self.tree.to_vec();
        let ghost es = self.entries();
        let ghost s = start.0 as int;
        let ghost t = end.0 as int;
        let mut covered: u64 = start.0;
        let mut i: usize = 0;
        while i < all.len()
            invariant
                i <= all@.len(),
                all@.len() == es.len(),
                es == self.entries(),
                s == start.0,
                t == end.0,
                forall|j: int| 0 <= j < all@.len() ==> *(#[trigger] all@[j]) == es[j],
                coverage(es, 0, s, s, t, perm) == coverage(es, i as int, covered as int, s, t, perm),
            decreases all@.len() - i,
        {
            let e = all[i];
            assert(*e == es[i as int]);
            if e.lo < end.0 && e.hi > start.0 {
                if e.lo > covered {
                    return Err(Errno::Enomem);
                }
                if !e.max_protection.contains(perm) {
                    return Err(Errno::Einval);
                }
                if e.hi > covered {
                    covered = e.hi;
                }
                if covered >= end.0 {
                    return Ok(());
                }
            }
            i += 1;
        }
        Err(Errno::Enomem)
    }

    /// Give `[start, end)` the protection `perm`, splitting entries at its ends.  Returns
    /// what has to be flushed.
    pub fn protect_range(
        &mut self,
        store: &mut VmObjects,
        start: VirtAddr,
        end: VirtAddr,
        perm: MapPerm,
    ) -> (r: Result<Option<TlbRange>, Errno>)
        requires
            old(self).wf(),
            old(store).wf(),
            backed(old(self).entries(), old(store)),
            end.0 + 4095 <= u64::MAX,
            start.0 < end.0 && coverage(
                old(self).entries(),
                0,
                start.0 as int,
                start.0 as int,
                end.0 as int,
                perm,
            ) is Ok ==> cuts_fit(old(self).entries(), start.0 as int, end.0 as int),
            old(self).nentries * 3 <= usize::MAX,
            forall|id: int| #[trigger]
                refs_of(old(store), id) + 2 * old(self).nentries <= usize::MAX,
        ensures
            final(self).wf(),
            final(store).wf(),
            final(store).pagers == old(store).pagers,
            same_but_refs(old(store).objects@, final(store).objects@),
            ({
                let checked = if start.0 >= end.0 {
                    Err(Errno::Einval)
                } else {
                    coverage(
                        old(self).entries(),
                        0,
                        start.0 as int,
                        start.0 as int,
                        end.0 as int,
                        perm,
                    )
                };
                match r {
                    Ok(_) => checked is Ok,
                    Err(e) => checked == Err::<(), Errno>(e),
                }
            }),
            r is Err ==> *final(self) == *old(self) && *final(store) == *old(store),
            r matches Ok(flush) ==> {
                &&& final(self).entries() == carved(
                    old(self).entries(),
                    start.0 as int,
                    end.0 as int,
                    Some(perm),
                )
                &&& final(self).timestamp == old(self).timestamp.wrapping_add(1)
                &&& pages_protected(
                    &old(self).pmap,
                    &final(self).pmap,
                    start.0 as int,
                    end.0 as int,
                    perm,
                    flush,
                )
                &&& forall|id: int| #[trigger]
                    refs_of(final(store), id) - refs_of(old(store), id) == handles(
                        final(self).entries(),
                        id,
                    ) - handles(old(self).entries(), id)
            },
    {
        assert(same_but_refs(store.objects@, store.objects@));
        if start.0 >= end.0 {
            return Err(Errno::Einval);
        }
        match self.validate_protect_coverage(start, end, perm) {
            Err(e) => Err(e),
            Ok(_) => {
                let none = self.carve(store, start, end, Some(perm));
                proof {
                    assert(none@ =~= Seq::empty());
                    assert forall|id: int| #[trigger] handles(none@, id) == 0 by {
                        lemma_handles_small(none@, id);
                    }
                }
                self.touch();
                let flush = pmap_protect(&mut self.pmap, start, end, perm);
                Ok(flush)
            },
        }
    }

    /// Map `[start, end)`.  Translations come later, by faults.
    pub fn map(&mut self, start: VirtAddr, end: VirtAddr, perm: MapPerm, mapping: VmMapping) -> (r:
        Result<(), Errno>)
        requires
            old(self).wf(),
            start.0 < end.0 ==> end.0 + 4095 <= u64::MAX,
            old(self).nentries < usize::MAX,
        ensures
            final(self).wf(),
            final(self).pmap == old(self).pmap,
            inserted(old(self), final(self), new_entry(start, end, perm, mapping), r),
    {
        let entry = VmMapEntry::new(start, end, mapping, perm);
        self.insert_entry(entry)
    }

    /// Map `[start, end)`, or widen the protection of the entry that is exactly
    /// there with the same offset.
    pub fn map_or_merge(
        &mut self,
        start: VirtAddr,
        end: VirtAddr,
        perm: MapPerm,
        mapping: VmMapping,
    ) -> (r: Result<(), Errno>)
        requires
            old(self).wf(),
            start.0 < end.0 ==> end.0 + 4095 <= u64::MAX,
            old(self).nentries < usize::MAX,
        ensures
            final(self).wf(),
            final(self).pmap == old(self).pmap,
            ({
                let es = old(self).entries();
                let i = place_of(es, start.0 as int);
                if mapped(es, start.0 as int) && es[i].lo == start.0 && es[i].hi == end.0
                    && offset_of(es[i].mapping) == offset_of(mapping) {
                    &&& r is Ok
                    &&& final(self).entries() == es.update(
                        i,
                        VmMapEntry { protection: MapPerm(es[i].protection.0 | perm.0), ..es[i] },
                    )
                    &&& final(self).timestamp == old(self).timestamp
                } else {
                    inserted(old(self), final(self), new_entry(start, end, perm, mapping), r)
                }
            }),
    {
        if let Some(existing) = self.lookup_readonly(start) {
            if existing.lo == start.0 && existing.hi == end.0 && existing.mapping.offset()
                == mapping.offset() {
                let mut merged = existing;
                merged.protection = existing.protection | perm;
                proof {
                    self.lemma_same_bounds(start.0 as int);
                }
                self.set_entry(start, merged);
                return Ok(());
            }
        }
        self.map(start, end, perm, mapping)
    }

    /// What follows the entry that holds `addr` starts after it.
    pub proof fn lemma_same_bounds(&self, addr: int)
        requires
            self.wf(),
            mapped(self.entries(), addr),
        ensures
            ({
                let es = self.entries();
                let i = place_of(es, addr);
                &&& found(es, addr, i)
                &&& es[i].lo < es[i].hi
                &&& es[i].hi + 4095 <= u64::MAX
                &&& forall|j: int| i < j < es.len() ==> es[i].hi <= (#[trigger] es[j]).lo
            }),
    {
        let es = self.entries();
        let i = place_of(es, addr);
        assert(found(es, addr, i));
        assert(es[i].lo() < es[i].hi());
        assert forall|j: int| i < j < es.len() implies es[i].hi <= (#[trigger] es[j]).lo by {
            assert(es[i].hi() <= es[j].lo());
        }
    }

    /// Put another object behind the entry that holds `va`.  The object whose handle
    /// is given up is returned.
    pub fn rebind_store(&mut self, va: VirtAddr, new_object: usize) -> (r: Result<
        Option<usize>,
        Errno,
    >)
        requires
            old(self).wf(),
        ensures
            final(self).wf(),
            final(self).pmap == old(self).pmap,
            !mapped(old(self).entries(), va.0 as int) ==> r == Err::<Option<usize>, Errno>(
                Errno::Esrch,
            ) && final(self).entries() == old(self).entries() && final(self).timestamp == old(self).timestamp,
            mapped(old(self).entries(), va.0 as int) ==> {
                let i = place_of(old(self).entries(), va.0 as int);
                let e = old(self).entries()[i];
                &&& r == Ok::<Option<usize>, Errno>(object_of(e.mapping))
                &&& final(self).entries() == old(self).entries().update(
                    i,
                    VmMapEntry {
                        mapping: crate::mm::vm::map::entry::remapped(
                            e.mapping,
                            new_object,
                            offset_of(e.mapping),
                        ),
                        ..e
                    },
                )
                &&& final(self).timestamp == old(self).timestamp.wrapping_add(1)
            },
    {
        match self.lookup_readonly(va) {
            None => Err(Errno::Esrch),
            Some(vma) => {
                let before = vma.mapping.object();
                let mut now = vma;
                now.mapping = vma.mapping.with_object(new_object);
                proof {
                    self.lemma_same_bounds(va.0 as int);
                }
                self.set_entry(va, now);
                self.touch();
                Ok(before)
            },
        }
    }

    /// Set the copy-on-write state of the entry that holds `va`.
    pub fn set_cow_state(&mut self, va: VirtAddr, state: CowState) -> (r: Result<(), Errno>)
        requires
            old(self).wf(),
        ensures
            final(self).wf(),
            final(self).pmap == old(self).pmap,
            !mapped(old(self).entries(), va.0 as int) ==> r == Err::<(), Errno>(Errno::Esrch)
                && final(self).entries() == old(self).entries() && final(self).timestamp == old(self).timestamp,
            mapped(old(self).entries(), va.0 as int) ==> {
                let i = place_of(old(self).entries(), va.0 as int);
                &&& r is Ok
                &&& final(self).entries() == old(self).entries().update(
                    i,
                    VmMapEntry { cow_state: state, ..old(self).entries()[i] },
                )
                &&& final(self).timestamp == old(self).timestamp.wrapping_add(1)
            },
    {
        match self.lookup_readonly(va) {
            None => Err(Errno::Esrch),
            Some(vma) => {
                let mut now = vma;
                now.cow_state = state;
                proof {
                    self.lemma_same_bounds(va.0 as int);
                }
                self.set_entry(va, now);
                self.touch();
                Ok(())
            },
        }
    }
}

/// The entry that mapping a range makes.
pub open spec fn new_entry(
    start: VirtAddr,
    end: VirtAddr,
    perm: MapPerm,
    mapping: VmMapping,
) -> VmMapEntry {
    VmMapEntry {
        lo: start.0,
        hi: end.0,
        mapping,
        protection: perm,
        max_protection: perm,
        cow_state: CowState::Plain,
    }
}

/// Whether one of the first `n` entries touches the page of `v`.
pub open spec fn entries_touch(es: Entries, n: int, v: int) -> bool {
    exists|i: int|
        0 <= i < n && touches((#[trigger] es[i]).lo as int, es[i].hi as int, v)
}

/// The translations under the first `n` entries were removed one entry after the other.
pub open spec fn clear_steps(spaces: Seq<Pmap>, es: Entries, n: int) -> bool {
    &&& spaces.len() == n + 1
    &&& forall|i: int|
        0 <= i < n ==> pages_removed(
            &spaces[i],
            &spaces[i + 1],
            (#[trigger] es[i]).lo as int,
            es[i].hi as int,
            removal_flush(&spaces[i], es[i].lo as int, es[i].hi as int),
        )
}

/// What removing the translations under all entries, one entry after the other, does.
pub open spec fn cleared_in_turn(before: &Pmap, after: &Pmap, es: Entries) -> bool {
    exists|spaces: Seq<Pmap>| #[trigger]
        clear_steps(spaces, es, es.len() as int) && spaces[0] == *before && spaces[es.len() as int]
            == *after
}

/// What has to be flushed once the first `n` entries were cleared in order: the range of each
/// under which a translation was left.
pub open spec fn clear_flushes(pmap: &Pmap, es: Entries, n: int) -> Seq<TlbRange>
    decreases n,
{
    if n <= 0 {
        Seq::empty()
    } else {
        let e = es[n - 1];
        let rest = clear_flushes(pmap, es, n - 1);
        if exists|v: int|
            touches(e.lo as int, e.hi as int, v) && is_valid(#[trigger] pmap.entry_at(v))
                && !entries_touch(es, n - 1, v) {
            rest.push(TlbRange { start: e.lo, end: e.hi, asid: pmap.asid })
        } else {
            rest
        }
    }
}

/// Every page that lost its translation when the entries were cleared lies in a range that has
/// to be flushed.
pub proof fn law_cleared_page_is_flushed(pmap: &Pmap, es: Entries, n: int, v: int)
    requires
        0 <= n <= es.len(),
        entries_touch(es, n, v),
        is_valid(pmap.entry_at(v)),
    ensures
        exists|k: int|
            0 <= k < clear_flushes(pmap, es, n).len() && touches(
                (#[trigger] clear_flushes(pmap, es, n)[k]).start as int,
                clear_flushes(pmap, es, n)[k].end as int,
                v,
            ) && clear_flushes(pmap, es, n)[k].asid == pmap.asid,
    decreases n,
{
    if n > 0 {
        lemma_entries_touch(es, n - 1, v);
        let rest = clear_flushes(pmap, es, n - 1);
        let all = clear_flushes(pmap, es, n);
        if entries_touch(es, n - 1, v) {
            law_cleared_page_is_flushed(pmap, es, n - 1, v);
            let k = choose|k: int|
                0 <= k < rest.len() && touches(
                    (#[trigger] rest[k]).start as int,
                    rest[k].end as int,
                    v,
                ) && rest[k].asid == pmap.asid;
            assert(all[k] == rest[k]);
        } else {
            assert(all == rest.push(
                TlbRange { start: es[n - 1].lo, end: es[n - 1].hi, asid: pmap.asid },
            ));
            assert(all[rest.len() as int].asid == pmap.asid);
        }
    }
}

/// What is flushed for an entry, once those before it were cleared.
proof fn lemma_left_flush(pmap: &Pmap, now: &Pmap, es: Entries, i: int)
    requires
        0 <= i < es.len(),
        now.asid == pmap.asid,
        forall|v: int| #[trigger]
            now.entry_at(v) == if entries_touch(es, i, v) && is_valid(pmap.entry_at(v)) {
                0
            } else {
                pmap.entry_at(v)
            },
    ensures
        clear_flushes(pmap, es, i + 1) == match removal_flush(
            now,
            es[i].lo as int,
            es[i].hi as int,
        ) {
            Some(f) => clear_flushes(pmap, es, i).push(f),
            None => clear_flushes(pmap, es, i),
        },
{
    let e = es[i];
    let (s, t) = (e.lo as int, e.hi as int);
    if exists|v: int| touches(s, t, v) && is_valid(#[trigger] now.entry_at(v)) {
        let v = choose|v: int| touches(s, t, v) && is_valid(#[trigger] now.entry_at(v));
        assert(is_valid(pmap.entry_at(v)) && !entries_touch(es, i, v));
    } else {
        assert forall|v: int|
            touches(s, t, v) && !entries_touch(es, i, v) implies !is_valid(
            #[trigger] pmap.entry_at(v),
        ) by {
            assert(now.entry_at(v) == pmap.entry_at(v));
        }
    }
}

proof fn lemma_entries_touch(es: Entries, n: int, v: int)
    requires
        0 <= n < es.len(),
    ensures
        entries_touch(es, n + 1, v) <==> entries_touch(es, n, v) || touches(
            es[n].lo as int,
            es[n].hi as int,
            v,
        ),
{
    if entries_touch(es, n + 1, v) {
        let i = choose|i: int|
            0 <= i < n + 1 && touches((#[trigger] es[i]).lo as int, es[i].hi as int, v);
        if i < n {
            assert(touches(es[i].lo as int, es[i].hi as int, v));
        }
    }
}

/// After a range was removed nothing in it is mapped, and outside it everything is
/// mapped as it was.
pub proof fn law_removed_range(es: Entries, s: int, t: int, addr: int)
    requires
        ordered(es),
        0 <= s < t <= u64::MAX,
    ensures
        mapped(carved(es, s, t, None), addr) <==> mapped(es, addr) && !(s <= addr < t),
    decreases es.len(),
{
    lemma_mapped_carved(es, s, t, None, addr);
}

/// After a range was removed, or was given a protection, every address that is still mapped has behind
/// it the same kind of mapping, and the same byte of the same object, as before; only addresses in the
/// range have another protection.
pub proof fn law_rest_of_map_is_kept(
    es: Entries,
    s: int,
    t: int,
    perm: Option<MapPerm>,
    addr: int,
    i: int,
) -> (k: int)
    requires
        ordered(es),
        0 <= s < t <= u64::MAX,
        cuts_fit(es, s, t),
        0 <= i < es.len(),
        es[i].lo <= addr < es[i].hi,
        perm is Some || !(s <= addr < t),
    ensures
        ({
            let now = carved(es, s, t, perm);
            &&& 0 <= k < now.len()
            &&& now[k].lo <= addr < now[k].hi
            &&& object_of(now[k].mapping) == object_of(es[i].mapping)
            &&& same_kind(now[k].mapping, es[i].mapping)
            &&& !(es[i].mapping is Guard) ==> offset_of(now[k].mapping) + (addr - now[k].lo) == offset_of(
                es[i].mapping,
            ) + (addr - es[i].lo)
            &&& now[k].max_protection == es[i].max_protection
            &&& now[k].protection == if s <= addr < t {
                perm->0
            } else {
                es[i].protection
            }
        }),
{
    assert(found(es, addr, i));
    lemma_carved_find(es, s, t, perm, addr, i);
    let now = carved(es, s, t, perm);
    let k = choose|k: int| #[trigger]
        found(now, addr, k) && part_of(now[k], es[i], s, t, perm, addr);
    if overlaps(es[i], s, t) {
        assert(cut_fits(es[i], s, t));
    }
    k
}

/// An entry goes in exactly where it has a size, is made of whole pages and shares no address with
/// another; it is then found at each of its addresses, and every other address is mapped as it was.
pub proof fn law_inserted_entry_is_found(
    before: &VmMap,
    after: &VmMap,
    e: VmMapEntry,
    r: Result<(), Errno>,
    addr: int,
)
    requires
        before.wf(),
        inserted(before, after, e, r),
    ensures
        r is Ok <==> e.lo < e.hi && e.lo % 4096 == 0 && e.hi % 4096 == 0 && forall|j: int|
            0 <= j < before.entries().len() ==> (#[trigger] before.entries()[j]).hi <= e.lo || e.hi
                <= before.entries()[j].lo,
        r is Err ==> after.entries() == before.entries(),
        r is Ok ==> after.entries().len() == before.entries().len() + 1,
        r is Ok && e.lo <= addr < e.hi ==> exists|k: int|
            0 <= k < after.entries().len() && #[trigger] after.entries()[k] == e,
        r is Ok ==> forall|j: int|
            0 <= j < before.entries().len() ==> after.entries().contains(#[trigger] before.entries()[j]),
{
    let es = before.entries();
    assert forall|j: int| 0 <= j < es.len() implies (!meets(
        #[trigger] es[j],
        e.lo as int,
        e.hi as int,
    ) <==> es[j].hi <= e.lo || e.hi <= es[j].lo || e.lo >= e.hi) by {
        assert(es[j].lo() < es[j].hi());
    }
    if insertable(es, e) {
        assert forall|j: int| 0 <= j < es.len() implies (#[trigger] es[j]).hi() <= e.lo() || e.hi()
            <= es[j].lo() by {
            assert(!meets(es[j], e.lo as int, e.hi as int));
        }
        lemma_insert_ordered(es, e);
        let k = rank(es, e.lo());
        let now = after.entries();
        assert(now[k] == e);
        assert forall|j: int| 0 <= j < es.len() implies now.contains(#[trigger] es[j]) by {
            if j < k {
                assert(now[j] == es[j]);
            } else {
                assert(now[j + 1] == es[j]);
            }
        }
    } else if e.lo < e.hi && e.lo % 4096 == 0 && e.hi % 4096 == 0 {
        let j = choose|j: int| 0 <= j < es.len() && meets(#[trigger] es[j], e.lo as int, e.hi as int);
        assert(!(es[j].hi <= e.lo || e.hi <= es[j].lo));
    }
}

/// After a range was given a protection, the same addresses are mapped, and those
/// in the range have that protection.
pub proof fn law_protected_range(es: Entries, s: int, t: int, perm: MapPerm, addr: int)
    requires
        ordered(es),
        0 <= s < t <= u64::MAX,
        cuts_fit(es, s, t),
    ensures
        mapped(carved(es, s, t, Some(perm)), addr) <==> mapped(es, addr),
        mapped(es, addr) ==> {
            let before = es[place_of(es, addr)];
            let now = carved(es, s, t, Some(perm));
            let after = now[place_of(now, addr)];
            &&& after.protection == if s <= addr < t {
                perm
            } else {
                before.protection
            }
            &&& object_of(after.mapping) == object_of(before.mapping)
            &&& !(before.mapping is Guard) ==> offset_of(after.mapping) + (addr - after.lo)
                == offset_of(before.mapping) + (addr - before.lo)
        },
{
    lemma_mapped_carved(es, s, t, Some(perm), addr);
    if mapped(es, addr) {
        let i = place_of(es, addr);
        assert(found(es, addr, i));
        lemma_carved(es, s, t, Some(perm));
        lemma_carved_find(es, s, t, Some(perm), addr, i);
        let now = carved(es, s, t, Some(perm));
        let k = choose|k: int| #[trigger]
            found(now, addr, k) && part_of(now[k], es[i], s, t, Some(perm), addr);
        lemma_place(now, addr, k);
    }
}

/// `x` is the part of `e` that holds `addr`.
pub open spec fn part_of(
    x: VmMapEntry,
    e: VmMapEntry,
    s: int,
    t: int,
    perm: Option<MapPerm>,
    addr: int,
) -> bool {
    &&& object_of(x.mapping) == object_of(e.mapping)
    &&& !(e.mapping is Guard) && (overlaps(e, s, t) ==> cut_fits(e, s, t)) ==> offset_of(x.mapping)
        + (addr - x.lo) == offset_of(e.mapping) + (addr - e.lo)
    &&& x.protection == if s <= addr < t && perm is Some {
        perm->0
    } else {
        e.protection
    }
    &&& x.max_protection == e.max_protection
    &&& same_kind(x.mapping, e.mapping)
}

/// Where an address of entry `i` is found after carving.
proof fn lemma_carved_find(
    es: Entries,
    s: int,
    t: int,
    perm: Option<MapPerm>,
    addr: int,
    i: int,
)
    requires
        ordered(es),
        0 <= s < t <= u64::MAX,
        found(es, addr, i),
        perm is Some || !(s <= addr < t),
    ensures
        exists|k: int| #[trigger]
            found(carved(es, s, t, perm), addr, k) && part_of(
                carved(es, s, t, perm)[k],
                es[i],
                s,
                t,
                perm,
                addr,
            ),
    decreases es.len(),
{
    let n = es.len() - 1;
    let pre = es.drop_last();
    let e = es.last();
    let a = carved(pre, s, t, perm);
    let b = if overlaps(e, s, t) {
        pieces(e, s, t, perm)
    } else {
        seq![e]
    };
    let c = a + b;
    assert(c == carved(es, s, t, perm));
    assert(e == es[n]);
    if i < n {
        lemma_ordered_prefix(es, n);
        assert(pre =~= es.take(n));
        assert(found(pre, addr, i));
        lemma_carved_find(pre, s, t, perm, addr, i);
        let k = choose|k: int| #[trigger]
            found(a, addr, k) && part_of(a[k], pre[i], s, t, perm, addr);
        assert(c[k] == a[k]);
        assert(found(c, addr, k));
    } else {
        let off = a.len() as int;
        if !overlaps(e, s, t) {
            assert(c[off] == e);
            assert(found(c, addr, off));
        } else {
            let l = left_part(e, s);
            let m = if perm is None {
                Seq::<VmMapEntry>::empty()
            } else {
                seq![VmMapEntry { protection: perm->0, ..middle_part(e, s, t) }]
            };
            assert(b =~= l + m + right_part(e, t));
            if addr < s {
                assert(b[0] == e.part(e.lo as int, s));
                assert(c[off] == b[0]);
                assert(found(c, addr, off));
                assert(part_of(c[off], e, s, t, perm, addr));
            } else if addr < t {
                let k = l.len() as int;
                assert(b[k] == m[0]);
                assert(c[off + k] == b[k]);
                assert(found(c, addr, off + k));
                assert(part_of(c[off + k], e, s, t, perm, addr));
            } else {
                let k = l.len() + m.len();
                assert(b[k as int] == e.part(t, e.hi as int));
                assert(c[off + k] == b[k as int]);
                assert(found(c, addr, off + k));
                assert(part_of(c[off + k], e, s, t, perm, addr));
            }
        }
    }
}

proof fn lemma_mapped_carved(es: Entries, s: int, t: int, perm: Option<MapPerm>, addr: int)
    requires
        ordered(es),
        0 <= s < t <= u64::MAX,
    ensures
        mapped(carved(es, s, t, perm), addr) <==> mapped(es, addr) && (perm is Some || !(s <= addr
            < t)),
{
    if mapped(es, addr) && (perm is Some || !(s <= addr < t)) {
        let i = place_of(es, addr);
        assert(found(es, addr, i));
        lemma_carved_find(es, s, t, perm, addr, i);
    }
    if mapped(carved(es, s, t, perm), addr) {
        let k = place_of(carved(es, s, t, perm), addr);
        assert(found(carved(es, s, t, perm), addr, k));
        lemma_carved_source(es, s, t, perm, addr, k);
    }
}

/// What is mapped after carving was mapped before.
proof fn lemma_carved_source(es: Entries, s: int, t: int, perm: Option<MapPerm>, addr: int, k: int)
    requires
        ordered(es),
        0 <= s < t <= u64::MAX,
        found(carved(es, s, t, perm), addr, k),
    ensures
        mapped(es, addr),
        perm is Some || !(s <= addr < t),
    decreases es.len(),
{
    let n = es.len() - 1;
    let pre = es.drop_last();
    let e = es.last();
    let a = carved(pre, s, t, perm);
    let b = if overlaps(e, s, t) {
        pieces(e, s, t, perm)
    } else {
        seq![e]
    };
    lemma_ordered_prefix(es, n);
    assert(pre =~= es.take(n));
    assert(es[n].lo() < es[n].hi());
    if k < a.len() {
        assert(carved(es, s, t, perm)[k] == a[k]);
        assert(found(a, addr, k));
        lemma_carved_source(pre, s, t, perm, addr, k);
        let i = place_of(pre, addr);
        assert(found(pre, addr, i));
        assert(found(es, addr, i));
    } else {
        let x = b[k - a.len()];
        assert(carved(es, s, t, perm)[k] == x);
        if overlaps(e, s, t) {
            lemma_pieces(e, s, t, perm);
        }
        assert(found(es, addr, n));
    }
}

} // verus!
