//! Address maps whose areas are split by giving each part an object of its own.
use vstd::prelude::*;
use crate::hal::addr::{VirtAddr, PAGE_SIZE};
use crate::mm::vm::map::fork::{lemma_lookup_stepped, stepped};
use crate::mm::vm::map::perm::MapPerm;
use crate::mm::vm::map::separation::lemma_write_bit;
use crate::mm::vm::map::splay::{
    found, holds, lemma_found_unique, lemma_insert_ordered, lemma_rank, lemma_remove_ordered, ordered, rank, Ranged,
};
use crate::mm::vm::pager::VnodePager;
use crate::mm::vm::shadow::{live, lookup, object_wf, store_wf, Object, Objects};
use crate::mm::vm::vm_object::{OwnedPage, VmObject, VmObjects};

verus! {

/// A file that can be mapped.
pub trait Vnode {
    /// Number of the file.
    spec fn number(&self) -> u64;

    /// Path of the file.
    spec fn name(&self) -> Seq<char>;

    fn vnode_id(&self) -> (r: u64)
        ensures
            r == self.number(),
    ;

    fn path(&self) -> (r: &str)
        ensures
            r@ == self.name(),
    ;
}

impl Vnode for VnodePager {
    open spec fn number(&self) -> u64 {
        self.vnode_id
    }

    open spec fn name(&self) -> Seq<char> {
        self.path@
    }

    fn vnode_id(&self) -> (r: u64) {
        self.vnode_id
    }

    fn path(&self) -> (r: &str) {
        self.path.as_str()
    }
}

/// Source of area numbers, which never repeat.
pub struct VmaIds {
    pub next: u64,
}

impl VmaIds {
    pub fn new() -> (r: Self)
        ensures
            r.next == 1,
    {
        VmaIds { next: 1 }
    }

    /// Take the next number.
    pub fn next_vma_id(&mut self) -> (r: u64)
        ensures
            r == old(self).next,
            final(self).next == old(self).next.wrapping_add(1),
    {
        let r = self.next;
        self.next = self.next.wrapping_add(1);
        r
    }
}

/// State flags of an area.
#[derive(Debug, Clone, Copy, PartialEq, Eq, Structural)]
pub struct EntryFlags(pub u32);

impl EntryFlags {
    #[allow(non_snake_case)]
    #[verifier::allow_in_spec]
    pub fn COW() -> EntryFlags
        returns
            EntryFlags(1),
    {
        EntryFlags(1)
    }

    #[allow(non_snake_case)]
    #[verifier::allow_in_spec]
    pub fn NEEDS_COPY() -> EntryFlags
        returns
            EntryFlags(2),
    {
        EntryFlags(2)
    }

    #[allow(non_snake_case)]
    #[verifier::allow_in_spec]
    pub fn GROWS_DOWN() -> EntryFlags
        returns
            EntryFlags(4),
    {
        EntryFlags(4)
    }

    #[allow(non_snake_case)]
    #[verifier::allow_in_spec]
    pub fn IN_TRANSITION() -> EntryFlags
        returns
            EntryFlags(8),
    {
        EntryFlags(8)
    }

    #[allow(non_snake_case)]
    #[verifier::allow_in_spec]
    pub fn NEEDS_WAKEUP() -> EntryFlags
        returns
            EntryFlags(16),
    {
        EntryFlags(16)
    }

    /// No flag set.
    pub fn empty() -> (r: EntryFlags)
        ensures
            r.0 == 0,
    {
        EntryFlags(0)
    }

    pub open spec fn has(self, other: EntryFlags) -> bool {
        self.0 & other.0 == other.0
    }

    /// Whether every flag of `other` is set.
    pub fn contains(&self, other: EntryFlags) -> (r: bool)
        ensures
            r == self.has(other),
    {
        self.0 & other.0 == other.0
    }

    /// Clear the flags of `other`.
    pub fn remove(&mut self, other: EntryFlags)
        ensures
            final(self).0 == old(self).0 & !other.0,
    {
        self.0 = self.0 & !other.0;
    }
}

/// What an area is for.
#[derive(Debug, Clone, Copy, PartialEq, Eq, Structural)]
pub enum VmAreaType {
    Anonymous,
    SharedAnonymous,
    FileBacked,
    FileBackedPrivate,
    Stack,
    Heap,
    Device,
}

/// Why an operation on a map failed.
#[derive(Debug, Clone, Copy, PartialEq, Eq, Structural)]
pub enum VmError {
    /// The area overlaps one that is there.
    Overlap,
    /// No area holds the address.
    NotFound,
    /// The range is empty.
    InvalidRange,
}

/// A range of addresses and the object behind it.
#[derive(Debug, Clone, Copy, PartialEq, Eq, Structural)]
pub struct VmArea {
    /// Number of this area, different from that of every other.
    pub id: u64,
    pub start: u64,
    /// First address after the range.
    pub end: u64,
    pub prot: MapPerm,
    /// Place of the object in the store.
    pub object: usize,
    /// Page of the object at which the range starts.
    pub obj_offset: u64,
    pub vma_type: VmAreaType,
    pub flags: EntryFlags,
    /// Number of the file, for a file mapping.
    pub vnode: Option<u64>,
    /// Offset into the file at which the range starts.
    pub file_offset: u64,
    /// Bytes of the range that come from the file.
    pub file_size: u64,
}

impl Ranged for VmArea {
    open spec fn lo(&self) -> int {
        self.start as int
    }

    open spec fn hi(&self) -> int {
        self.end as int
    }

    proof fn lemma_bounds(&self) {
    }

    fn start_addr(&self) -> (r: u64) {
        self.start
    }

    fn end_addr(&self) -> (r: u64) {
        self.end
    }
}

/// Pages needed for `bytes`.
pub open spec fn pages_up(bytes: int) -> int {
    (bytes + 4095) / 4096
}

fn div_ceil_page(bytes: u64) -> (r: u64)
    ensures
        r == pages_up(bytes as int),
{
    if bytes % PAGE_SIZE == 0 {
        bytes / PAGE_SIZE
    } else {
        bytes / PAGE_SIZE + 1
    }
}

impl VmArea {
    /// The offsets of a part of the area that starts at `from` do not overflow.
    pub open spec fn offsets_fit_at(self, from: int) -> bool {
        &&& self.file_offset + (from - self.start) <= u64::MAX
        &&& self.obj_offset + pages_up(from - self.start) <= u64::MAX
    }

    /// A new area, with the next number.
    pub fn new(
        ids: &mut VmaIds,
        start: VirtAddr,
        end: VirtAddr,
        prot: MapPerm,
        object: usize,
        obj_offset: u64,
        vma_type: VmAreaType,
    ) -> (r: Self)
        ensures
            final(ids).next == old(ids).next.wrapping_add(1),
            r == (VmArea {
                id: old(ids).next,
                start: start.0,
                end: end.0,
                prot,
                object,
                obj_offset,
                vma_type,
                flags: EntryFlags(0),
                vnode: None,
                file_offset: 0,
                file_size: 0,
            }),
    {
        VmArea {
            id: ids.next_vma_id(),
            start: start.0,
            end: end.0,
            prot,
            object,
            obj_offset,
            vma_type,
            flags: EntryFlags::empty(),
            vnode: None,
            file_offset: 0,
            file_size: 0,
        }
    }

    /// A new area backed by a file.
    pub fn new_file_backed<V: Vnode>(
        ids: &mut VmaIds,
        start: VirtAddr,
        end: VirtAddr,
        prot: MapPerm,
        object: usize,
        obj_offset: u64,
        vnode: &V,
        file_offset: u64,
        file_size: u64,
    ) -> (r: Self)
        ensures
            final(ids).next == old(ids).next.wrapping_add(1),
            r == (VmArea {
                id: old(ids).next,
                start: start.0,
                end: end.0,
                prot,
                object,
                obj_offset,
                vma_type: VmAreaType::FileBacked,
                flags: EntryFlags(0),
                vnode: Some(vnode.number()),
                file_offset,
                file_size,
            }),
    {
        VmArea {
            id: ids.next_vma_id(),
            start: start.0,
            end: end.0,
            prot,
            object,
            obj_offset,
            vma_type: VmAreaType::FileBacked,
            flags: EntryFlags::empty(),
            vnode: Some(vnode.vnode_id()),
            file_offset,
            file_size,
        }
    }

    /// Whether the area holds `va`.
    pub fn contains(&self, va: VirtAddr) -> (r: bool)
        ensures
            r == (self.start <= va.0 < self.end),
    {
        va.0 >= self.start && va.0 < self.end
    }

    /// The index into the object for an address of the area: the pages from the
    /// start of the area to the address, a part of one counted as one, after those
    /// that the area skips.
    pub fn translate_to_obj_index(&self, va: VirtAddr) -> (r: u64)
        requires
            self.start <= va.0 < self.end,
            self.obj_offset + pages_up(va.0 - self.start) <= u64::MAX,
        ensures
            r == self.obj_offset + pages_up(va.0 - self.start),
    {
        self.obj_offset + div_ceil_page(va.0 - self.start)
    }

    /// The index into the object for an address of the area.
    pub fn pindex_for(&self, vaddr: VirtAddr) -> (r: u64)
        requires
            self.start <= vaddr.0 < self.end,
            self.obj_offset + pages_up(vaddr.0 - self.start) <= u64::MAX,
        ensures
            r == self.obj_offset + pages_up(vaddr.0 - self.start),
    {
        self.obj_offset + div_ceil_page(vaddr.0 - self.start)
    }

    /// Whether the area is being changed by someone.
    pub fn is_in_transition(&self) -> (r: bool)
        ensures
            r == self.flags.has(EntryFlags::IN_TRANSITION()),
    {
        self.flags.contains(EntryFlags::IN_TRANSITION())
    }

    /// Whether the object has still to be copied on write.
    pub fn needs_copy(&self) -> (r: bool)
        ensures
            r == self.flags.has(EntryFlags::NEEDS_COPY()),
    {
        self.flags.contains(EntryFlags::NEEDS_COPY())
    }

    /// The object has been copied.
    pub fn clear_needs_copy(&mut self)
        ensures
            *final(self) == (VmArea {
                flags: EntryFlags(old(self).flags.0 & !2u32),
                ..*old(self)
            }),
            !final(self).flags.has(EntryFlags::NEEDS_COPY()),
    {
        self.flags.remove(EntryFlags::NEEDS_COPY());
        proof {
            let f = old(self).flags.0;
            assert((f & !2u32) & 2 != 2) by (bit_vector);
        }
    }

    /// The part of the area from `from` to `to`, with another protection, number and
    /// object.
    pub open spec fn part(self, from: int, to: int, prot: MapPerm, id: int, object: int) -> VmArea {
        let delta = from - self.start;
        let rest = if self.file_size > delta {
            self.file_size - delta
        } else {
            0
        };
        VmArea {
            id: id as u64,
            start: from as u64,
            end: to as u64,
            prot,
            object: object as usize,
            obj_offset: (self.obj_offset + pages_up(delta)) as u64,
            file_offset: (self.file_offset + delta) as u64,
            file_size: (if to < self.end && rest > to - from {
                to - from
            } else {
                rest
            }) as u64,
            ..self
        }
    }

    /// That part, with a new object.
    fn cut(
        &self,
        store: &mut VmObjects,
        ids: &mut VmaIds,
        from: u64,
        to: u64,
        prot: MapPerm,
    ) -> (r: VmArea)
        requires
            self.start <= from < to <= self.end,
            self.offsets_fit_at(from as int),
            old(store).wf(),
            old(ids).next < u64::MAX,
        ensures
            final(store).wf(),
            final(store).pagers == old(store).pagers,
            r == self.part(
                from as int,
                to as int,
                prot,
                old(ids).next as int,
                old(store).objects@.len() as int,
            ),
            r.object == old(store).objects@.len(),
            final(ids).next == old(ids).next + 1,
            final(store).objects@.len() == old(store).objects@.len() + 1,
            final(store).objects@ == old(store).objects@.push(final(store).objects@.last()),
            is_blank(final(store).objects@.last(), to - from),
    {
        let delta = from - self.start;
        let rest = if self.file_size > delta {
            self.file_size - delta
        } else {
            0
        };
        let file_size = if to < self.end && rest > to - from {
            to - from
        } else {
            rest
        };
        let object = VmObject::new(store, to - from);
        VmArea {
            id: ids.next_vma_id(),
            start: from,
            end: to,
            prot,
            object,
            obj_offset: self.obj_offset + div_ceil_page(delta),
            vma_type: self.vma_type,
            flags: self.flags,
            vnode: self.vnode,
            file_offset: self.file_offset + delta,
            file_size,
        }
    }
}

/// A new object of `size` bytes without pages.
pub open spec fn is_blank(slot: Option<Object<OwnedPage>>, size: int) -> bool {
    slot matches Some(o) && {
        &&& o.pages@ == Map::<u64, OwnedPage>::empty()
        &&& o.pager is None
        &&& o.backing is None
        &&& o.shadow_count == 0
        &&& o.size == size
        &&& o.resident_count == 0
        &&& o.generation == 0
        &&& o.clean_generation == 0
        &&& o.refs == 1
    }
}

/// Areas in order.
pub type Areas = Seq<VmArea>;

/// Whether the area reaches into `[s, t)`.
pub open spec fn reaches(v: VmArea, s: int, t: int) -> bool {
    v.start < t && v.end > s
}

/// What becomes of an area that reaches into `[s, t)`: without `perm` the part
/// inside goes, with it that part gets the protection.  Parts get numbers from `id`
/// on and objects from `object` on.
pub open spec fn split(
    v: VmArea,
    s: int,
    t: int,
    perm: Option<MapPerm>,
    id: int,
    object: int,
) -> Areas {
    let lo = v.start as int;
    let hi = v.end as int;
    match perm {
        None => if lo >= s && hi <= t {
            Seq::empty()
        } else if lo < s && hi > t {
            seq![v.part(lo, s, v.prot, id, object), v.part(t, hi, v.prot, id + 1, object + 1)]
        } else if lo < s {
            seq![v.part(lo, s, v.prot, id, object)]
        } else {
            seq![v.part(t, hi, v.prot, id, object)]
        },
        Some(p) => if lo >= s && hi <= t {
            seq![VmArea { prot: p, ..v }]
        } else if lo < s && hi > t {
            seq![
                v.part(lo, s, v.prot, id, object),
                v.part(s, t, p, id + 1, object + 1),
                v.part(t, hi, v.prot, id + 2, object + 2),
            ]
        } else if lo < s {
            seq![v.part(lo, s, v.prot, id, object), v.part(s, hi, p, id + 1, object + 1)]
        } else {
            seq![v.part(lo, t, p, id, object), v.part(t, hi, v.prot, id + 1, object + 1)]
        },
    }
}

/// How many new parts that makes.
pub open spec fn parts_made(v: VmArea, s: int, t: int, perm: Option<MapPerm>) -> int {
    if !reaches(v, s, t) || v.start >= s && v.end <= t {
        0
    } else {
        split(v, s, t, perm, 0, 0).len() as int
    }
}

/// New parts made of the areas.
pub open spec fn parts_total(vs: Areas, s: int, t: int, perm: Option<MapPerm>) -> int
    decreases vs.len(),
{
    if vs.len() == 0 {
        0
    } else {
        parts_total(vs.drop_last(), s, t, perm) + parts_made(vs.last(), s, t, perm)
    }
}

/// The areas after `[s, t)` was removed or given a protection.
pub open spec fn resplit(
    vs: Areas,
    s: int,
    t: int,
    perm: Option<MapPerm>,
    id: int,
    object: int,
) -> Areas
    decreases vs.len(),
{
    if vs.len() == 0 {
        Seq::empty()
    } else {
        let before = vs.drop_last();
        let n = parts_total(before, s, t, perm);
        resplit(before, s, t, perm, id, object) + if reaches(vs.last(), s, t) {
            split(vs.last(), s, t, perm, id + n, object + n)
        } else {
            seq![vs.last()]
        }
    }
}

/// The areas that are no longer in the map as they were: removed, or cut up.
pub open spec fn replaced(vs: Areas, s: int, t: int, perm: Option<MapPerm>) -> Areas
    decreases vs.len(),
{
    if vs.len() == 0 {
        Seq::empty()
    } else {
        let v = vs.last();
        replaced(vs.drop_last(), s, t, perm) + if reaches(v, s, t) && !(perm is Some && v.start >= s
            && v.end <= t) {
            seq![v]
        } else {
            Seq::empty()
        }
    }
}

/// An address map.
pub struct VmMap {
    /// The areas in order.
    pub areas: Vec<VmArea>,
    /// Address of the page table.
    pub pmap_root: u64,
    /// Raised at every change.
    pub timestamp: u32,
}

/// The search for a free area goes down from here.
pub const MMAP_BASE: u64 = 0x0000_003F_FFF0_0000;

/// And ends here.
pub const MMAP_MIN: u64 = 0x0000_0020_0000_0000;

/// `size` rounded up to whole pages.
pub open spec fn whole_pages(size: int) -> int {
    pages_up(size) * 4096
}

/// The highest free area of `size` bytes below `ceiling`, looking at the first `n`
/// areas from the last down.
pub open spec fn gap_below(vs: Areas, n: int, ceiling: int, size: int) -> Option<int>
    decreases n,
{
    if n <= 0 {
        if ceiling - size >= MMAP_MIN {
            Some(ceiling - size)
        } else {
            None
        }
    } else {
        let v = vs[n - 1];
        if !(v.end > MMAP_MIN && v.start < MMAP_BASE) {
            gap_below(vs, n - 1, ceiling, size)
        } else if ceiling >= v.end + size && ceiling - size >= MMAP_MIN {
            Some(ceiling - size)
        } else {
            gap_below(vs, n - 1, v.start as int, size)
        }
    }
}

/// An area found free lies between the two ends of the search and shares no address
/// with any area.
pub proof fn law_gap_is_free(vs: Areas, n: int, ceiling: int, size: int)
    requires
        ordered(vs),
        0 <= n <= vs.len(),
        size > 0,
        ceiling <= MMAP_BASE,
        forall|i: int| n <= i < vs.len() ==> ceiling <= (#[trigger] vs[i]).start,
    ensures
        gap_below(vs, n, ceiling, size) matches Some(a) ==> {
            &&& MMAP_MIN <= a
            &&& a + size <= MMAP_BASE
            &&& forall|i: int| 0 <= i < vs.len() ==> !reaches(#[trigger] vs[i], a, a + size)
        },
    decreases n,
{
    if n > 0 {
        let v = vs[n - 1];
        assert(vs[n - 1].lo() < vs[n - 1].hi());
        if v.start >= MMAP_BASE {
            law_gap_is_free(vs, n - 1, ceiling, size);
        } else if v.end <= MMAP_MIN {
            // Everything further down lies below the region too.
            assert forall|i: int| 0 <= i < n implies (#[trigger] vs[i]).end <= MMAP_MIN by {
                if i < n - 1 {
                    assert(vs[i].hi() <= vs[n - 1].lo());
                }
            }
            lemma_gap_low(vs, n, ceiling, size);
        } else if ceiling >= v.end + size && ceiling - size >= MMAP_MIN {
            assert forall|i: int| 0 <= i < vs.len() implies !reaches(
                #[trigger] vs[i],
                ceiling - size,
                ceiling,
            ) by {
                if i < n - 1 {
                    assert(vs[i].hi() <= vs[n - 1].lo());
                }
            }
        } else {
            assert forall|i: int| n - 1 <= i < vs.len() implies v.start <= (#[trigger] vs[i]).start by {
                if i > n - 1 {
                    assert(vs[n - 1].hi() <= vs[i].lo());
                }
            }
            law_gap_is_free(vs, n - 1, v.start as int, size);
        }
    }
}

/// Wherever `size` bytes are free between the two ends of the search, an area is found, and none
/// that is free lies higher.
pub proof fn law_gap_is_highest(vs: Areas, size: int, b: int)
    requires
        size > 0,
        MMAP_MIN <= b,
        b + size <= MMAP_BASE,
        forall|i: int| 0 <= i < vs.len() ==> !reaches(#[trigger] vs[i], b, b + size),
    ensures
        gap_below(vs, vs.len() as int, MMAP_BASE as int, size) matches Some(a) && b <= a,
{
    lemma_gap_highest(vs, vs.len() as int, MMAP_BASE as int, size, b);
}

proof fn lemma_gap_highest(vs: Areas, n: int, ceiling: int, size: int, b: int)
    requires
        0 <= n <= vs.len(),
        size > 0,
        MMAP_MIN <= b,
        b + size <= ceiling,
        forall|i: int| 0 <= i < n ==> !reaches(#[trigger] vs[i], b, b + size),
    ensures
        gap_below(vs, n, ceiling, size) matches Some(a) && b <= a,
    decreases n,
{
    if n > 0 {
        let v = vs[n - 1];
        assert(!reaches(vs[n - 1], b, b + size));
        if !(v.end > MMAP_MIN && v.start < MMAP_BASE) {
            lemma_gap_highest(vs, n - 1, ceiling, size, b);
        } else if !(ceiling >= v.end + size && ceiling - size >= MMAP_MIN) {
            lemma_gap_highest(vs, n - 1, v.start as int, size, b);
        }
    }
}

proof fn lemma_gap_low(vs: Areas, n: int, ceiling: int, size: int)
    requires
        0 <= n <= vs.len(),
        forall|i: int| 0 <= i < n ==> (#[trigger] vs[i]).end <= MMAP_MIN,
    ensures
        gap_below(vs, n, ceiling, size) == if ceiling - size >= MMAP_MIN {
            Some(ceiling - size)
        } else {
            None
        },
    decreases n,
{
    if n > 0 {
        assert(vs[n - 1].end <= MMAP_MIN);
        lemma_gap_low(vs, n - 1, ceiling, size);
    }
}

/// Whether some area holds `va`.
pub open spec fn held(vs: Areas, va: int) -> bool {
    exists|i: int| #[trigger] found(vs, va, i)
}

/// The area that holds `va`.
pub open spec fn holder(vs: Areas, va: int) -> int {
    choose|i: int| #[trigger] found(vs, va, i)
}

proof fn lemma_holder(vs: Areas, va: int, i: int)
    requires
        ordered(vs),
        found(vs, va, i),
    ensures
        held(vs, va),
        holder(vs, va) == i,
{
    let j = holder(vs, va);
    assert(found(vs, va, j));
    lemma_found_unique(vs, va, i, j);
}

impl VmMap {
    /// The areas are in order and do not overlap.
    pub open spec fn wf(&self) -> bool {
        ordered(self.areas@)
    }

    /// A map without areas.
    pub fn new() -> (r: Self)
        ensures
            r.wf(),
            r.areas@.len() == 0,
            r.pmap_root == 0,
            r.timestamp == 0,
    {
        VmMap { areas: Vec::new(), pmap_root: 0, timestamp: 0 }
    }

    /// Whether a read lock could be made a write lock in place: it cannot.
    pub fn try_upgrade_read_to_write(&self) -> (r: bool)
        ensures
            !r,
    {
        false
    }

    /// The place of the area that holds `va`.
    fn find(&self, va: VirtAddr) -> (r: Option<usize>)
        requires
            self.wf(),
        ensures
            r is Some <==> held(self.areas@, va.0 as int),
            r matches Some(i) ==> found(self.areas@, va.0 as int, i as int) && i == holder(
                self.areas@,
                va.0 as int,
            ),
    {
        let mut i: usize = 0;
        while i < self.areas.len()
            invariant
                self.wf(),
                i <= self.areas@.len(),
                forall|j: int| 0 <= j < i ==> !found(self.areas@, va.0 as int, j),
            decreases self.areas@.len() - i,
        {
            if self.areas[i].contains(va) {
                proof {
                    lemma_holder(self.areas@, va.0 as int, i as int);
                }
                return Some(i);
            }
            i += 1;
        }
        None
    }

    /// The area that holds `va`.
    pub fn find_area(&self, va: VirtAddr) -> (r: Option<&VmArea>)
        requires
            self.wf(),
        ensures
            r is Some <==> held(self.areas@, va.0 as int),
            r matches Some(v) ==> *v == self.areas@[holder(self.areas@, va.0 as int)],
    {
        match self.find(va) {
            Some(i) => Some(&self.areas[i]),
            None => None,
        }
    }

    /// The area that holds `va`, to be changed.
    pub fn find_area_mut(&mut self, va: VirtAddr) -> (r: Option<&mut VmArea>)
        requires
            old(self).wf(),
        ensures
            r is Some <==> held(old(self).areas@, va.0 as int),
            match r {
                Some(v) => {
                    let i = holder(old(self).areas@, va.0 as int);
                    &&& *v == old(self).areas@[i]
                    &&& final(self).areas@ == old(self).areas@.update(i, *final(v))
                    &&& final(self).pmap_root == old(self).pmap_root
                    &&& final(self).timestamp == old(self).timestamp
                },
                None => *final(self) == *old(self),
            },
    {
        match self.find(va) {
            Some(i) => Some(&mut self.areas[i]),
            None => None,
        }
    }

    /// The area of the given type that ends at `va`, to be changed.
    pub fn find_area_ending_at_mut(&mut self, va: VirtAddr, ty: VmAreaType) -> (r: Option<
        &mut VmArea,
    >)
        requires
            old(self).wf(),
        ensures
            r is Some <==> exists|i: int| #[trigger] ends_at(old(self).areas@, i, va.0, ty),
            match r {
                Some(v) => exists|i: int| #[trigger]
                    ends_at(old(self).areas@, i, va.0, ty) && *v == old(self).areas@[i]
                        && final(self).areas@ == old(self).areas@.update(i, *final(v)),
                None => *final(self) == *old(self),
            },
            final(self).pmap_root == old(self).pmap_root,
            final(self).timestamp == old(self).timestamp,
    {
        let mut i: usize = 0;
        while i < self.areas.len()
            invariant
                *self == *old(self),
                i <= self.areas@.len(),
                forall|j: int| 0 <= j < i ==> !#[trigger] ends_at(self.areas@, j, va.0, ty),
            decreases self.areas@.len() - i,
        {
            if self.areas[i].end == va.0 && self.areas[i].vma_type == ty {
                assert(ends_at(self.areas@, i as int, va.0, ty));
                return Some(&mut self.areas[i]);
            }
            i += 1;
        }
        None
    }

    /// Put an area in.
    pub fn insert(&mut self, area: VmArea) -> (r: Result<(), VmError>)
        requires
            old(self).wf(),
        ensures
            final(self).wf(),
            final(self).pmap_root == old(self).pmap_root,
            final(self).timestamp == old(self).timestamp,
            r == if area.start >= area.end {
                Err(VmError::InvalidRange)
            } else if exists|i: int|
                0 <= i < old(self).areas@.len() && reaches(
                    #[trigger] old(self).areas@[i],
                    area.start as int,
                    area.end as int,
                ) {
                Err(VmError::Overlap)
            } else {
                Ok::<(), VmError>(())
            },
            final(self).areas@ == if r is Ok {
                old(self).areas@.insert(rank(old(self).areas@, area.start as int), area)
            } else {
                old(self).areas@
            },
    {
        if area.start >= area.end {
            return Err(VmError::InvalidRange);
        }
        let ghost vs = self.areas@;
        let mut at: usize = 0;
        let mut i: usize = 0;
        while i < self.areas.len()
            invariant
                *self == *old(self),
                self.wf(),
                area.start < area.end,
                vs == self.areas@,
                i <= vs.len(),
                at <= i,
                forall|j: int|
                    0 <= j < i ==> !reaches(#[trigger] vs[j], area.start as int, area.end as int),
                forall|j: int| 0 <= j < at ==> (#[trigger] vs[j]).start <= area.start,
                forall|j: int| at <= j < i ==> (#[trigger] vs[j]).start > area.start,
                ordered(vs),
            decreases vs.len() - i,
        {
            let existing = self.areas[i];
            if existing.start < area.end && existing.end > area.start {
                assert(reaches(vs[i as int], area.start as int, area.end as int));
                return Err(VmError::Overlap);
            }
            if existing.start <= area.start {
                proof {
                    assert forall|j: int| 0 <= j < i + 1 implies (#[trigger] vs[j]).start
                        <= area.start by {
                        if j < i {
                            assert(vs[j].hi() <= vs[i as int].lo());
                            assert(vs[j].lo() < vs[j].hi());
                        }
                    }
                }
                at = i + 1;
            }
            i += 1;
        }
        proof {
            lemma_rank(vs, area.start as int);
            let r = rank(vs, area.start as int);
            if r < at {
                assert(vs[r].lo() > area.start);
            }
            if r > at {
                assert(vs[at as int].lo() <= area.start);
            }
            assert forall|j: int| 0 <= j < vs.len() implies (#[trigger] vs[j]).hi() <= area.lo()
                || area.hi() <= vs[j].lo() by {
                assert(!reaches(vs[j], area.start as int, area.end as int));
            }
            lemma_insert_ordered(vs, area);
        }
        self.areas.insert(at, area);
        Ok(())
    }

    /// Take the area that holds `va` out.
    pub fn remove(&mut self, va: VirtAddr) -> (r: Option<VmArea>)
        requires
            old(self).wf(),
        ensures
            final(self).wf(),
            final(self).pmap_root == old(self).pmap_root,
            final(self).timestamp == old(self).timestamp,
            r is Some <==> held(old(self).areas@, va.0 as int),
            match r {
                Some(v) => {
                    let i = holder(old(self).areas@, va.0 as int);
                    &&& v == old(self).areas@[i]
                    &&& final(self).areas@ == old(self).areas@.remove(i)
                },
                None => final(self).areas@ == old(self).areas@,
            },
    {
        match self.find(va) {
            Some(i) => {
                let ghost vs = self.areas@;
                let v = self.areas.remove(i);
                proof {
                    lemma_remove_ordered(vs, i as int);
                }
                Some(v)
            },
            None => None,
        }
    }

    /// The start of the highest free area of `size` bytes, in whole pages, between
    /// the two ends of the search.
    pub fn find_free_area_topdown(&self, size: u64) -> (r: Option<VirtAddr>)
        requires
            self.wf(),
            size + 4095 <= u64::MAX,
            forall|i: int|
                0 <= i < self.areas@.len() && (#[trigger] self.areas@[i]).start < MMAP_BASE
                    && self.areas@[i].end > MMAP_MIN ==> self.areas@[i].end + whole_pages(
                    size as int,
                ) <= u64::MAX,
        ensures
            size == 0 ==> r is None,
            size > 0 ==> match (
                r,
                gap_below(
                    self.areas@,
                    self.areas@.len() as int,
                    MMAP_BASE as int,
                    whole_pages(size as int),
                ),
            ) {
                (Some(a), Some(b)) => a.0 == b,
                (None, None) => true,
                _ => false,
            },
    {
        let aligned_size = (size + 0xFFF) / PAGE_SIZE * PAGE_SIZE;
        if aligned_size == 0 {
            return None;
        }
        let ghost vs = self.areas@;
        let mut ceiling: u64 = MMAP_BASE;
        let mut n: usize = self.areas.len();
        while n > 0
            invariant
                vs == self.areas@,
                n <= vs.len(),
                size > 0,
                aligned_size == whole_pages(size as int),
                aligned_size <= size + 4095,
                forall|i: int|
                    0 <= i < vs.len() && (#[trigger] vs[i]).start < MMAP_BASE && vs[i].end > MMAP_MIN
                        ==> vs[i].end + aligned_size <= u64::MAX,
                gap_below(vs, vs.len() as int, MMAP_BASE as int, aligned_size as int) == gap_below(
                    vs,
                    n as int,
                    ceiling as int,
                    aligned_size as int,
                ),
            decreases n,
        {
            let v = self.areas[n - 1];
            assert(v == vs[n - 1]);
            if v.end > MMAP_MIN && v.start < MMAP_BASE {
                if ceiling >= v.end + aligned_size {
                    let base = ceiling - aligned_size;
                    if base >= MMAP_MIN {
                        return Some(VirtAddr::new(base));
                    }
                }
                ceiling = v.start;
            }
            n -= 1;
        }
        if ceiling >= aligned_size {
            let base = ceiling - aligned_size;
            if base >= MMAP_MIN {
                return Some(VirtAddr::new(base));
            }
        }
        None
    }

    /// Remove all areas.  They are handed back.
    pub fn clear(&mut self) -> (r: Vec<VmArea>)
        ensures
            final(self).wf(),
            final(self).areas@.len() == 0,
            final(self).pmap_root == old(self).pmap_root,
            final(self).timestamp == old(self).timestamp,
            r@ == old(self).areas@,
    {
        let mut r: Vec<VmArea> = Vec::new();
        core::mem::swap(&mut r, &mut self.areas);
        r
    }

    /// All areas in order.
    pub fn iter(&self) -> (r: Vec<VmArea>)
        ensures
            r@ == self.areas@,
    {
        let mut r: Vec<VmArea> = Vec::new();
        let mut i: usize = 0;
        while i < self.areas.len()
            invariant
                i <= self.areas@.len(),
                r@ == self.areas@.take(i as int),
            decreases self.areas@.len() - i,
        {
            assert(self.areas@.take(i + 1) =~= self.areas@.take(i as int).push(
                self.areas@[i as int],
            ));
            r.push(self.areas[i]);
            i += 1;
        }
        assert(self.areas@.take(i as int) =~= self.areas@);
        r
    }
}

/// Whether the area at `i` has the type and ends at `va`.
pub open spec fn ends_at(vs: Areas, i: int, va: u64, ty: VmAreaType) -> bool {
    0 <= i < vs.len() && vs[i].end == va && vs[i].vma_type == ty
}

/// Every area that has an object at `base` or after has a new one of its size.
pub open spec fn blanks(vs: Areas, objs: Objects<OwnedPage>, base: int) -> bool {
    forall|i: int|
        0 <= i < vs.len() && (#[trigger] vs[i]).object >= base ==> is_blank(
            objs[vs[i].object as int],
            vs[i].end - vs[i].start,
        )
}

/// The offsets of the parts that start inside an area do not overflow.
pub open spec fn cut_fits(v: VmArea, s: int, t: int, perm: Option<MapPerm>) -> bool {
    &&& perm is Some && v.start < s ==> v.offsets_fit_at(s)
    &&& t < v.end ==> v.offsets_fit_at(t)
}

/// Nor do those of the parts of every area that reaches into `[s, t)`.
pub open spec fn cuts_fit(vs: Areas, s: int, t: int, perm: Option<MapPerm>) -> bool {
    forall|i: int|
        0 <= i < vs.len() && reaches(#[trigger] vs[i], s, t) ==> cut_fits(vs[i], s, t, perm)
}

/// What splitting keeps of an area.
proof fn lemma_split(
    v: VmArea,
    s: int,
    t: int,
    perm: Option<MapPerm>,
    id: int,
    object: int,
)
    requires
        v.start < v.end,
        reaches(v, s, t),
        0 <= s < t <= u64::MAX,
    ensures
        ({
            let p = split(v, s, t, perm, id, object);
            &&& ordered(p)
            &&& forall|i: int|
                0 <= i < p.len() ==> v.start <= (#[trigger] p[i]).start && p[i].end <= v.end
            &&& 0 <= parts_made(v, s, t, perm) <= 3
            &&& p.len() <= 3
        }),
{
    let p = split(v, s, t, perm, id, object);
    assert forall|i: int| 0 <= i < p.len() implies v.start <= (
    #[trigger] p[i]).start && p[i].end <= v.end && p[i].lo() < p[i].hi() by {}
    assert forall|i: int, j: int| 0 <= i < j < p.len() implies (#[trigger] p[i]).hi() <= (
    #[trigger] p[j]).lo() by {}
}

/// What splitting keeps of all areas.
proof fn lemma_resplit(
    vs: Areas,
    s: int,
    t: int,
    perm: Option<MapPerm>,
    id: int,
    object: int,
)
    requires
        ordered(vs),
        0 <= s < t <= u64::MAX,
    ensures
        ordered(resplit(vs, s, t, perm, id, object)),
        vs.len() > 0 ==> forall|i: int|
            0 <= i < resplit(vs, s, t, perm, id, object).len() ==> (#[trigger] resplit(
                vs,
                s,
                t,
                perm,
                id,
                object,
            )[i]).end <= vs.last().end,
        vs.len() == 0 ==> resplit(vs, s, t, perm, id, object).len() == 0,
        0 <= parts_total(vs, s, t, perm) <= 3 * vs.len(),
    decreases vs.len(),
{
    if vs.len() > 0 {
        let n = vs.len() - 1;
        let pre = vs.drop_last();
        let v = vs.last();
        assert(vs[n].lo() < vs[n].hi());
        assert forall|i: int, j: int| 0 <= i < j < pre.len() implies (#[trigger] pre[i]).hi() <= (
        #[trigger] pre[j]).lo() by {
            assert(vs[i].hi() <= vs[j].lo());
        }
        assert forall|i: int| 0 <= i < pre.len() implies (#[trigger] pre[i]).lo() < pre[i].hi() by {
            assert(vs[i].lo() < vs[i].hi());
        }
        lemma_resplit(pre, s, t, perm, id, object);
        let k = parts_total(pre, s, t, perm);
        let a = resplit(pre, s, t, perm, id, object);
        let b = if reaches(v, s, t) {
            split(v, s, t, perm, id + k, object + k)
        } else {
            seq![v]
        };
        if reaches(v, s, t) {
            lemma_split(v, s, t, perm, id + k, object + k);
            lemma_split(v, s, t, perm, 0, 0);
        }
        let c = a + b;
        assert(c == resplit(vs, s, t, perm, id, object));
        assert forall|i: int| 0 <= i < a.len() implies (#[trigger] a[i]).hi() <= v.lo() by {
            assert(pre.len() > 0);
            assert(vs[n - 1].hi() <= vs[n].lo());
        }
        assert forall|i: int| 0 <= i < c.len() implies (#[trigger] c[i]).lo() < c[i].hi()
            && c[i].end <= v.end by {
            if i < a.len() {
                assert(c[i] == a[i]);
                assert(a[i].lo() < a[i].hi());
            } else {
                assert(c[i] == b[i - a.len()]);
                assert(b[i - a.len()].lo() < b[i - a.len()].hi());
            }
        }
        assert forall|i: int, j: int| 0 <= i < j < c.len() implies (#[trigger] c[i]).hi() <= (
        #[trigger] c[j]).lo() by {
            if j < a.len() {
                assert(a[i].hi() <= a[j].lo());
            } else if i < a.len() {
                assert(c[j] == b[j - a.len()]);
                assert(c[i] == a[i]);
            } else {
                assert(b[i - a.len()].hi() <= b[j - a.len()].lo());
            }
        }
    }
}

impl VmMap {
    /// Split the areas at the ends of `[start, end)`; without `perm` what lies in it
    /// goes, with it that gets the protection.  Returns the areas that are no longer
    /// there as they were.
    #[verifier::rlimit(80)]
    fn resplit_range(
        &mut self,
        store: &mut VmObjects,
        ids: &mut VmaIds,
        start: VirtAddr,
        end: VirtAddr,
        perm: Option<MapPerm>,
    ) -> (r: Vec<VmArea>)
        requires
            old(self).wf(),
            old(store).wf(),
            start.0 < end.0,
            old(ids).next + 3 * old(self).areas@.len() <= u64::MAX,
            objects_below(old(self).areas@, old(store).objects@.len() as int),
            cuts_fit(old(self).areas@, start.0 as int, end.0 as int, perm),
        ensures
            final(self).wf(),
            final(store).wf(),
            final(store).pagers == old(store).pagers,
            final(self).pmap_root == old(self).pmap_root,
            final(self).timestamp == old(self).timestamp,
            did_split(
                old(self),
                final(self),
                old(store),
                final(store),
                old(ids),
                final(ids),
                start.0 as int,
                end.0 as int,
                perm,
                r@,
            ),
    {
        let ghost vs = self.areas@;
        let ghost s = start.0 as int;
        let ghost t = end.0 as int;
        let ghost id = ids.next as int;
        let ghost base = store.objects@.len() as int;
        let ghost objs = store.objects@;
        let mut out: Vec<VmArea> = Vec::new();
        let mut gone: Vec<VmArea> = Vec::new();
        let mut i: usize = 0;
        while i < self.areas.len()
            invariant
                *self == *old(self),
                self.wf(),
                vs == self.areas@,
                i <= vs.len(),
                store.wf(),
                store.pagers == old(store).pagers,
                s == start.0,
                t == end.0,
                s < t,
                id == old(ids).next,
                base == objs.len(),
                objs == old(store).objects@,
                id + 3 * vs.len() <= u64::MAX,
                objects_below(vs, base),
                cuts_fit(vs, s, t, perm),
                out@ == resplit(vs.take(i as int), s, t, perm, id, base),
                gone@ == replaced(vs.take(i as int), s, t, perm),
                0 <= parts_total(vs.take(i as int), s, t, perm) <= 3 * i,
                ids.next == id + parts_total(vs.take(i as int), s, t, perm),
                store.objects@.len() == base + parts_total(vs.take(i as int), s, t, perm),
                store.objects@.take(base) == objs,
                blanks(out@, store.objects@, base),
                objects_below(out@, store.objects@.len() as int),
            decreases vs.len() - i,
        {
            let v = self.areas[i];
            let ghost pre = vs.take(i as int);
            let ghost k = parts_total(pre, s, t, perm);
            let ghost out0 = out@;
            proof {
                assert(vs.take(i + 1).drop_last() =~= pre);
                assert(vs.take(i + 1).last() == v);
                assert(vs[i as int].lo() < vs[i as int].hi());
                assert(v.object < base);
                if reaches(v, s, t) {
                    assert(cut_fits(vs[i as int], s, t, perm));
                    lemma_split(v, s, t, perm, 0, 0);
                }
            }
            if v.start < end.0 && v.end > start.0 {
                let ghost objs0 = store.objects@;
                split_area(&v, store, ids, start.0, end.0, perm, &mut out);
                proof {
                    let p = split(v, s, t, perm, id + k, base + k);
                    assert forall|j: int|
                        0 <= j < out@.len() && (#[trigger] out@[j]).object >= base implies is_blank(
                        store.objects@[out@[j].object as int],
                        out@[j].end - out@[j].start,
                    ) by {
                        if j < out0.len() {
                            assert(out@[j] == out0[j]);
                            assert(store.objects@[out0[j].object as int]
                                == objs0[out0[j].object as int]);
                        } else {
                            let x = p[j - out0.len()];
                            assert(out@[j] == x);
                            assert(x.object >= base + k || x.object == v.object);
                        }
                    }
                    assert forall|j: int| 0 <= j < out@.len() implies (#[trigger] out@[j]).object
                        < store.objects@.len() by {
                        if j < out0.len() {
                            assert(out@[j] == out0[j]);
                        } else {
                            assert(out@[j] == p[j - out0.len()]);
                        }
                    }
                    assert(store.objects@.take(base) =~= objs);
                }
                if perm.is_none() || !(v.start >= start.0 && v.end <= end.0) {
                    gone.push(v);
                }
                assert(gone@ =~= replaced(vs.take(i + 1), s, t, perm));
            } else {
                out.push(v);
                proof {
                    assert(out@ =~= out0 + seq![v]);
                    assert(replaced(vs.take(i + 1), s, t, perm) =~= replaced(pre, s, t, perm));
                }
            }
            i += 1;
        }
        proof {
            assert(vs.take(i as int) =~= vs);
            lemma_resplit(vs, s, t, perm, id, base);
        }
        self.areas = out;
        gone
    }
}

/// Every area's object comes before `n`.
pub open spec fn objects_below(vs: Areas, n: int) -> bool {
    forall|i: int| 0 <= i < vs.len() ==> (#[trigger] vs[i]).object < n
}

/// What splitting at the ends of a range does.
pub open spec fn did_split(
    map0: &VmMap,
    map1: &VmMap,
    store0: &VmObjects,
    store1: &VmObjects,
    ids0: &VmaIds,
    ids1: &VmaIds,
    s: int,
    t: int,
    perm: Option<MapPerm>,
    gone: Areas,
) -> bool {
    let vs = map0.areas@;
    let base = store0.objects@.len() as int;
    let made = parts_total(vs, s, t, perm);
    &&& map1.areas@ == resplit(vs, s, t, perm, ids0.next as int, base)
    &&& gone == replaced(vs, s, t, perm)
    &&& ids1.next == ids0.next + made
    &&& store1.objects@.len() == base + made
    &&& store1.objects@.take(base) == store0.objects@
    &&& blanks(map1.areas@, store1.objects@, base)
}

/// Put the parts of an area that reaches into `[start, end)` behind `out`.
#[verifier::rlimit(60)]
fn split_area(
    v: &VmArea,
    store: &mut VmObjects,
    ids: &mut VmaIds,
    start: u64,
    end: u64,
    perm: Option<MapPerm>,
    out: &mut Vec<VmArea>,
)
    requires
        v.start < v.end,
        start < end,
        reaches(*v, start as int, end as int),
        cut_fits(*v, start as int, end as int, perm),
        old(store).wf(),
        old(ids).next + 3 <= u64::MAX,
        v.object < old(store).objects@.len(),
    ensures
        final(store).wf(),
        final(store).pagers == old(store).pagers,
        ({
            let s = start as int;
            let t = end as int;
            let n = old(store).objects@.len() as int;
            let p = split(*v, s, t, perm, old(ids).next as int, n);
            let made = parts_made(*v, s, t, perm);
            &&& final(out)@ == old(out)@ + p
            &&& final(ids).next == old(ids).next + made
            &&& final(store).objects@.len() == n + made
            &&& forall|x: int| 0 <= x < n ==> #[trigger] final(store).objects@[x] == old(store).objects@[x]
            &&& blanks(p, final(store).objects@, n)
            &&& objects_below(p, n + made)
            &&& forall|j: int|
                0 <= j < p.len() ==> (#[trigger] p[j]).object >= n || p[j].object == v.object
        }),
{
    let ghost n = store.objects@.len() as int;
    let ghost out0 = out@;
    let ghost s = start as int;
    let ghost t = end as int;
    let ghost p0 = split(*v, s, t, perm, ids.next as int, n);
    let prot = v.prot;
    if v.start >= start && v.end <= end {
        if let Some(p) = perm {
            let mut updated = *v;
            updated.prot = p;
            out.push(updated);
            assert(out@ =~= out0 + p0);
        } else {
            assert(out@ =~= out0 + p0);
        }
        return;
    }
    if v.start < start {
        let left = v.cut(store, ids, v.start, start, prot);
        out.push(left);
        let ghost b1 = store.objects@;
        assert(is_blank(b1[n], start - v.start));
        if let Some(p) = perm {
            let to = if v.end > end {
                end
            } else {
                v.end
            };
            let mid = v.cut(store, ids, start, to, p);
            out.push(mid);
            let ghost b2 = store.objects@;
            assert(b2[n] == b1[n]);
            assert(is_blank(b2[n + 1], to - start));
            if v.end > end {
                let right = v.cut(store, ids, end, v.end, prot);
                out.push(right);
                let ghost b3 = store.objects@;
                assert(b3[n] == b2[n] && b3[n + 1] == b2[n + 1]);
                assert(is_blank(b3[n + 2], v.end - end));
                assert(p0 =~= seq![left, mid, right]);
            } else {
                assert(p0 =~= seq![left, mid]);
            }
        } else if v.end > end {
            let right = v.cut(store, ids, end, v.end, prot);
            out.push(right);
            let ghost b2 = store.objects@;
            assert(b2[n] == b1[n]);
            assert(is_blank(b2[n + 1], v.end - end));
            assert(p0 =~= seq![left, right]);
        } else {
            assert(p0 =~= seq![left]);
        }
    } else {
        if let Some(p) = perm {
            let left = v.cut(store, ids, v.start, end, p);
            out.push(left);
            let ghost b1 = store.objects@;
            assert(is_blank(b1[n], end - v.start));
            let right = v.cut(store, ids, end, v.end, prot);
            out.push(right);
            let ghost b2 = store.objects@;
            assert(b2[n] == b1[n]);
            assert(is_blank(b2[n + 1], v.end - end));
            assert(p0 =~= seq![left, right]);
        } else {
            let right = v.cut(store, ids, end, v.end, prot);
            out.push(right);
            assert(is_blank(store.objects@[n], v.end - end));
            assert(p0 =~= seq![right]);
        }
    }
    assert(out@ =~= out0 + p0);
}

impl VmMap {
    /// Remove `[start, end)`: areas inside go, areas that reach over an end are cut
    /// there and get a new object.  Returns the areas removed or cut, as they were.
    pub fn remove_range(
        &mut self,
        store: &mut VmObjects,
        ids: &mut VmaIds,
        start: VirtAddr,
        end: VirtAddr,
    ) -> (r: Vec<VmArea>)
        requires
            old(self).wf(),
            old(store).wf(),
            old(ids).next + 3 * old(self).areas@.len() <= u64::MAX,
            objects_below(old(self).areas@, old(store).objects@.len() as int),
            start.0 < end.0 ==> cuts_fit(old(self).areas@, start.0 as int, end.0 as int, None),
        ensures
            final(self).wf(),
            final(store).wf(),
            final(store).pagers == old(store).pagers,
            final(self).pmap_root == old(self).pmap_root,
            final(self).timestamp == old(self).timestamp,
            start.0 >= end.0 ==> r@.len() == 0 && *final(self) == *old(self) && *final(store) == *old(store) && *final(ids) == *old(ids),
            start.0 < end.0 ==> did_split(
                old(self),
                final(self),
                old(store),
                final(store),
                old(ids),
                final(ids),
                start.0 as int,
                end.0 as int,
                None,
                r@,
            ),
    {
        if start.0 >= end.0 {
            return Vec::new();
        }
        self.resplit_range(store, ids, start, end, None)
    }

    /// Give `[start, end)` the protection `new_prot`; areas that reach over an end
    /// are split there, and every part gets a new object.  Returns the areas that
    /// were split, as they were: their handles are the caller's to give up.
    pub fn protect_range(
        &mut self,
        store: &mut VmObjects,
        ids: &mut VmaIds,
        start: VirtAddr,
        end: VirtAddr,
        new_prot: MapPerm,
    ) -> (r: Vec<VmArea>)
        requires
            old(self).wf(),
            old(store).wf(),
            old(ids).next + 3 * old(self).areas@.len() <= u64::MAX,
            objects_below(old(self).areas@, old(store).objects@.len() as int),
            start.0 < end.0 ==> cuts_fit(
                old(self).areas@,
                start.0 as int,
                end.0 as int,
                Some(new_prot),
            ),
        ensures
            final(self).wf(),
            final(store).wf(),
            final(store).pagers == old(store).pagers,
            final(self).pmap_root == old(self).pmap_root,
            final(self).timestamp == old(self).timestamp,
            start.0 >= end.0 ==> r@.len() == 0 && *final(self) == *old(self) && *final(store) == *old(store) && *final(ids) == *old(ids),
            start.0 < end.0 ==> did_split(
                old(self),
                final(self),
                old(store),
                final(store),
                old(ids),
                final(ids),
                start.0 as int,
                end.0 as int,
                Some(new_prot),
                r@,
            ),
    {
        if start.0 >= end.0 {
            return Vec::new();
        }
        self.resplit_range(store, ids, start, end, Some(new_prot))
    }
}

/// Where an address is found after a split.
proof fn lemma_resplit_find(
    vs: Areas,
    s: int,
    t: int,
    perm: Option<MapPerm>,
    id: int,
    object: int,
    addr: int,
    i: int,
)
    requires
        ordered(vs),
        0 <= s < t <= u64::MAX,
        found(vs, addr, i),
        perm is Some || !(s <= addr < t),
    ensures
        exists|k: int| #[trigger]
            found(resplit(vs, s, t, perm, id, object), addr, k) && resplit(
                vs,
                s,
                t,
                perm,
                id,
                object,
            )[k].prot == if s <= addr < t && perm is Some {
                perm->0
            } else {
                vs[i].prot
            },
    decreases vs.len(),
{
    let n = vs.len() - 1;
    let pre = vs.drop_last();
    let v = vs.last();
    let m = parts_total(pre, s, t, perm);
    let a = resplit(pre, s, t, perm, id, object);
    let b = if reaches(v, s, t) {
        split(v, s, t, perm, id + m, object + m)
    } else {
        seq![v]
    };
    let c = a + b;
    assert(c == resplit(vs, s, t, perm, id, object));
    assert(v == vs[n]);
    if i < n {
        assert forall|j: int, l: int| 0 <= j < l < pre.len() implies (#[trigger] pre[j]).hi() <= (
        #[trigger] pre[l]).lo() by {
            assert(vs[j].hi() <= vs[l].lo());
        }
        assert forall|j: int| 0 <= j < pre.len() implies (#[trigger] pre[j]).lo() < pre[j].hi() by {
            assert(vs[j].lo() < vs[j].hi());
        }
        assert(found(pre, addr, i));
        lemma_resplit_find(pre, s, t, perm, id, object, addr, i);
        let k = choose|k: int| #[trigger]
            found(a, addr, k) && a[k].prot == if s <= addr < t && perm is Some {
                perm->0
            } else {
                pre[i].prot
            };
        assert(c[k] == a[k]);
        assert(found(c, addr, k));
    } else {
        let off = a.len() as int;
        assert(vs[n].lo() < vs[n].hi());
        if !reaches(v, s, t) {
            assert(c[off] == v);
            assert(found(c, addr, off));
        } else {
            assert(exists|k: int|
                0 <= k < b.len() && holds(#[trigger] b[k], addr) && b[k].prot == if s <= addr < t
                    && perm is Some {
                    perm->0
                } else {
                    v.prot
                }) by {
                lemma_split(v, s, t, perm, id + m, object + m);
                if b.len() > 0 {
                    assert(b[0].lo() < b[0].hi());
                }
                if b.len() > 1 {
                    assert(b[1].lo() < b[1].hi());
                }
                if b.len() > 2 {
                    assert(b[2].lo() < b[2].hi());
                }
            }
            let k = choose|k: int|
                0 <= k < b.len() && holds(#[trigger] b[k], addr) && b[k].prot == if s <= addr < t
                    && perm is Some {
                    perm->0
                } else {
                    v.prot
                };
            assert(c[off + k] == b[k]);
            assert(found(c, addr, off + k));
        }
    }
}

/// What is there after a split was there before.
proof fn lemma_resplit_source(
    vs: Areas,
    s: int,
    t: int,
    perm: Option<MapPerm>,
    id: int,
    object: int,
    addr: int,
    k: int,
)
    requires
        ordered(vs),
        0 <= s < t <= u64::MAX,
        found(resplit(vs, s, t, perm, id, object), addr, k),
    ensures
        held(vs, addr),
        perm is Some || !(s <= addr < t),
    decreases vs.len(),
{
    let n = vs.len() - 1;
    let pre = vs.drop_last();
    let v = vs.last();
    let m = parts_total(pre, s, t, perm);
    let a = resplit(pre, s, t, perm, id, object);
    let b = if reaches(v, s, t) {
        split(v, s, t, perm, id + m, object + m)
    } else {
        seq![v]
    };
    let c = a + b;
    assert(c == resplit(vs, s, t, perm, id, object));
    assert(vs[n].lo() < vs[n].hi());
    if k < a.len() {
        assert forall|j: int, l: int| 0 <= j < l < pre.len() implies (#[trigger] pre[j]).hi() <= (
        #[trigger] pre[l]).lo() by {
            assert(vs[j].hi() <= vs[l].lo());
        }
        assert forall|j: int| 0 <= j < pre.len() implies (#[trigger] pre[j]).lo() < pre[j].hi() by {
            assert(vs[j].lo() < vs[j].hi());
        }
        assert(c[k] == a[k]);
        assert(found(a, addr, k));
        lemma_resplit_source(pre, s, t, perm, id, object, addr, k);
        let i = holder(pre, addr);
        assert(found(pre, addr, i));
        assert(found(vs, addr, i));
    } else {
        let x = b[k - a.len()];
        assert(c[k] == x);
        if reaches(v, s, t) {
            lemma_split(v, s, t, perm, id + m, object + m);
        }
        assert(found(vs, addr, n));
    }
}

/// After a range was removed nothing in it is held by an area, and outside it
/// exactly the same addresses are as before.
pub proof fn law_area_removed(vs: Areas, s: int, t: int, id: int, object: int, addr: int)
    requires
        ordered(vs),
        0 <= s < t <= u64::MAX,
    ensures
        held(resplit(vs, s, t, None, id, object), addr) <==> held(vs, addr) && !(s <= addr < t),
{
    if held(vs, addr) && !(s <= addr < t) {
        let i = holder(vs, addr);
        assert(found(vs, addr, i));
        lemma_resplit_find(vs, s, t, None, id, object, addr, i);
    }
    let now = resplit(vs, s, t, None, id, object);
    if held(now, addr) {
        let k = holder(now, addr);
        assert(found(now, addr, k));
        lemma_resplit_source(vs, s, t, None, id, object, addr, k);
    }
}

/// After a range was given a protection the same addresses are held; those in the
/// range have that protection and the others the one they had.
pub proof fn law_area_protected(
    vs: Areas,
    s: int,
    t: int,
    prot: MapPerm,
    id: int,
    object: int,
    addr: int,
)
    requires
        ordered(vs),
        0 <= s < t <= u64::MAX,
    ensures
        ({
            let now = resplit(vs, s, t, Some(prot), id, object);
            &&& held(now, addr) <==> held(vs, addr)
            &&& held(vs, addr) ==> now[holder(now, addr)].prot == if s <= addr < t {
                prot
            } else {
                vs[holder(vs, addr)].prot
            }
        }),
{
    let now = resplit(vs, s, t, Some(prot), id, object);
    lemma_resplit(vs, s, t, Some(prot), id, object);
    if held(vs, addr) {
        let i = holder(vs, addr);
        assert(found(vs, addr, i));
        lemma_resplit_find(vs, s, t, Some(prot), id, object, addr, i);
        let k = choose|k: int| #[trigger]
            found(now, addr, k) && now[k].prot == if s <= addr < t {
                prot
            } else {
                vs[i].prot
            };
        lemma_holder(now, addr, k);
    }
    if held(now, addr) {
        let k = holder(now, addr);
        assert(found(now, addr, k));
        lemma_resplit_source(vs, s, t, Some(prot), id, object, addr, k);
    }
}

/// Where the object of a child's area comes from.
#[derive(Debug, Clone, Copy, PartialEq, Eq, Structural)]
pub enum ChildObject {
    /// It is the parent's.
    Shared,
    /// It is a new shadow of the parent's.
    Shadow,
    /// It is a new object.
    Fresh,
}

/// Whether memory of this type is private.
pub open spec fn private_type(ty: VmAreaType) -> bool {
    ty is Anonymous || ty is FileBackedPrivate || ty is Heap || ty is Stack
}

/// Where a child's object comes from.
pub open spec fn child_object(v: VmArea, deep: bool) -> ChildObject {
    if deep {
        if v.prot.has(MapPerm::W()) || private_type(v.vma_type) {
            ChildObject::Fresh
        } else {
            ChildObject::Shared
        }
    } else if private_type(v.vma_type) {
        ChildObject::Shadow
    } else {
        ChildObject::Shared
    }
}

/// Objects made for the first `n` areas.
pub open spec fn made_for(vs: Areas, n: int, deep: bool) -> int
    decreases n,
{
    if n <= 0 {
        0
    } else {
        made_for(vs, n - 1, deep) + if child_object(vs[n - 1], deep) is Shared {
            0int
        } else {
            1
        }
    }
}

/// The child's area for area `i`.
pub open spec fn child_area(vs: Areas, i: int, deep: bool, id: int, base: int) -> VmArea {
    VmArea {
        id: (id + i) as u64,
        object: if child_object(vs[i], deep) is Shared {
            vs[i].object
        } else {
            (base + made_for(vs, i, deep)) as usize
        },
        ..vs[i]
    }
}

/// Handles to the object at `id` that the first `n` areas make a fork take.
pub open spec fn taken(vs: Areas, n: int, deep: bool, id: int) -> int
    decreases n,
{
    if n <= 0 {
        0
    } else {
        taken(vs, n - 1, deep, id) + if vs[n - 1].object == id && !(child_object(vs[n - 1], deep)
            is Fresh) {
            1int
        } else {
            0
        }
    }
}

/// Shadows of the object at `id` that the first `n` areas make a fork make.
pub open spec fn shadowed(vs: Areas, n: int, deep: bool, id: int) -> int
    decreases n,
{
    if n <= 0 {
        0
    } else {
        shadowed(vs, n - 1, deep, id) + if vs[n - 1].object == id && child_object(
            vs[n - 1],
            deep,
        ) is Shadow {
            1int
        } else {
            0
        }
    }
}

/// An empty shadow of the object at `o`.
pub open spec fn is_plain_shadow(slot: Option<Object<OwnedPage>>, o: usize, size: u64) -> bool {
    slot matches Some(s) && {
        &&& s.pages@ == Map::<u64, OwnedPage>::empty()
        &&& s.backing == Some(o)
        &&& s.pager is None
        &&& s.size == size
        &&& s.shadow_count == 0
        &&& s.resident_count == 0
        &&& s.generation == 0
        &&& s.clean_generation == 0
        &&& s.refs == 1
    }
}

/// What forking the first `n` areas does to the objects.
pub open spec fn objects_forked(
    a: Objects<OwnedPage>,
    b: Objects<OwnedPage>,
    vs: Areas,
    n: int,
    deep: bool,
) -> bool {
    &&& b.len() == a.len() + made_for(vs, n, deep)
    &&& forall|id: int|
        0 <= id < a.len() ==> #[trigger] b[id] == stepped(
            a[id],
            taken(vs, n, deep, id),
            shadowed(vs, n, deep, id),
        )
    &&& forall|i: int|
        0 <= i < n ==> match child_object(#[trigger] vs[i], deep) {
            ChildObject::Shared => true,
            ChildObject::Shadow => is_plain_shadow(
                b[a.len() + made_for(vs, i, deep)],
                vs[i].object,
                (a[vs[i].object as int]->0).size,
            ),
            ChildObject::Fresh => is_blank(
                b[a.len() + made_for(vs, i, deep)],
                (a[vs[i].object as int]->0).size as int,
            ),
        }
}

proof fn lemma_made(vs: Areas, i: int, n: int, deep: bool, id: int)
    requires
        0 <= i <= n,
    ensures
        0 <= made_for(vs, i, deep) <= made_for(vs, n, deep),
        i < n && !(child_object(vs[i], deep) is Shared) ==> made_for(vs, i, deep) < made_for(
            vs,
            n,
            deep,
        ),
        0 <= taken(vs, i, deep, id) <= taken(vs, n, deep, id),
        0 <= shadowed(vs, i, deep, id) <= taken(vs, i, deep, id) <= i,
    decreases n,
{
    if i < n {
        lemma_made(vs, i, n - 1, deep, id);
    } else if n > 0 {
        lemma_made(vs, n - 1, n - 1, deep, id);
    }
}

/// What forking the area `v` does to the objects.
pub open spec fn one_forked(
    m: Objects<OwnedPage>,
    b: Objects<OwnedPage>,
    v: VmArea,
    deep: bool,
) -> bool {
    let o = v.object as int;
    let kind = child_object(v, deep);
    &&& b.len() == m.len() + if kind is Shared {
        0int
    } else {
        1
    }
    &&& forall|id: int|
        0 <= id < m.len() ==> #[trigger] b[id] == stepped(
            m[id],
            if id == o && !(kind is Fresh) {
                1
            } else {
                0
            },
            if id == o && kind is Shadow {
                1
            } else {
                0
            },
        )
    &&& kind is Shadow ==> is_plain_shadow(b.last(), v.object, (m[o]->0).size)
    &&& kind is Fresh ==> is_blank(b.last(), (m[o]->0).size as int)
}

/// The objects that were there, after one more area was forked.
proof fn lemma_forked_handles(
    a: Objects<OwnedPage>,
    m: Objects<OwnedPage>,
    b: Objects<OwnedPage>,
    vs: Areas,
    n: int,
    deep: bool,
    id: int,
)
    requires
        0 <= n < vs.len(),
        0 <= id < a.len() <= m.len(),
        m[id] == stepped(a[id], taken(vs, n, deep, id), shadowed(vs, n, deep, id)),
        live(a, id) ==> (a[id]->0).refs + vs.len() <= usize::MAX && (a[id]->0).shadow_count <= (
        a[id]->0).refs,
        one_forked(m, b, vs[n], deep),
    ensures
        b[id] == stepped(a[id], taken(vs, n + 1, deep, id), shadowed(vs, n + 1, deep, id)),
{
    lemma_made(vs, n, n, deep, id);
    let o = vs[n].object as int;
    let kind = child_object(vs[n], deep);
    assert(b[id] == stepped(
        m[id],
        if id == o && !(kind is Fresh) {
            1
        } else {
            0
        },
        if id == o && kind is Shadow {
            1
        } else {
            0
        },
    ));
}

/// The object made for area `i`, after one more area was forked.
proof fn lemma_forked_made(
    a: Objects<OwnedPage>,
    m: Objects<OwnedPage>,
    b: Objects<OwnedPage>,
    vs: Areas,
    n: int,
    deep: bool,
    i: int,
)
    requires
        0 <= i <= n < vs.len(),
        objects_forked(a, m, vs, n, deep),
        live(a, vs[n].object as int),
        one_forked(m, b, vs[n], deep),
    ensures
        match child_object(vs[i], deep) {
            ChildObject::Shared => true,
            ChildObject::Shadow => is_plain_shadow(
                b[a.len() + made_for(vs, i, deep)],
                vs[i].object,
                (a[vs[i].object as int]->0).size,
            ),
            ChildObject::Fresh => is_blank(
                b[a.len() + made_for(vs, i, deep)],
                (a[vs[i].object as int]->0).size as int,
            ),
        },
{
    let at = a.len() + made_for(vs, i, deep);
    lemma_made(vs, i, n, deep, 0);
    if !(child_object(vs[i], deep) is Shared) {
        if i < n {
            assert(b[at] == stepped(m[at], 0, 0));
        } else {
            let o = vs[n].object as int;
            assert(m[o] == stepped(a[o], taken(vs, n, deep, o), shadowed(vs, n, deep, o)));
            assert(b[at] == b.last());
        }
    }
}

/// One more area forked.
proof fn lemma_forked_step(
    a: Objects<OwnedPage>,
    m: Objects<OwnedPage>,
    b: Objects<OwnedPage>,
    vs: Areas,
    n: int,
    deep: bool,
)
    requires
        0 <= n < vs.len(),
        objects_forked(a, m, vs, n, deep),
        live(a, vs[n].object as int),
        forall|id: int| #[trigger] live(a, id) ==> (a[id]->0).refs + vs.len() <= usize::MAX && (
        a[id]->0).shadow_count <= (a[id]->0).refs,
        one_forked(m, b, vs[n], deep),
    ensures
        objects_forked(a, b, vs, n + 1, deep),
{
    lemma_made(vs, 0, n, deep, 0);
    assert forall|id: int| 0 <= id < a.len() implies #[trigger] b[id] == stepped(
        a[id],
        taken(vs, n + 1, deep, id),
        shadowed(vs, n + 1, deep, id),
    ) by {
        assert(m[id] == stepped(a[id], taken(vs, n, deep, id), shadowed(vs, n, deep, id)));
        lemma_forked_handles(a, m, b, vs, n, deep, id);
    }
    assert forall|i: int| 0 <= i < n + 1 implies match child_object(#[trigger] vs[i], deep) {
        ChildObject::Shared => true,
        ChildObject::Shadow => is_plain_shadow(
            b[a.len() + made_for(vs, i, deep)],
            vs[i].object,
            (a[vs[i].object as int]->0).size,
        ),
        ChildObject::Fresh => is_blank(
            b[a.len() + made_for(vs, i, deep)],
            (a[vs[i].object as int]->0).size as int,
        ),
    } by {
        lemma_forked_made(a, m, b, vs, n, deep, i);
    }
}

impl VmMap {
    /// Fork: private areas of the child get a shadow of the parent's object, the
    /// others share it.
    pub fn fork(&self, store: &mut VmObjects, ids: &mut VmaIds) -> (child: VmMap)
        requires
            self.wf(),
            old(store).wf(),
            forkable(self.areas@, old(store), old(ids)),
        ensures
            child.wf(),
            final(store).wf(),
            final(store).pagers == old(store).pagers,
            child.pmap_root == 0,
            child.timestamp == 0,
            did_fork(self, &child, old(store), final(store), old(ids), final(ids), false),
    {
        self.fork_with(store, ids, false)
    }

    /// Fork without shadows: areas that can be written or are private get a new
    /// object, to be filled with copies of the parent's pages; the others share the
    /// parent's.
    pub fn fork_deep_copy(&self, store: &mut VmObjects, ids: &mut VmaIds) -> (child: VmMap)
        requires
            self.wf(),
            old(store).wf(),
            forkable(self.areas@, old(store), old(ids)),
        ensures
            child.wf(),
            final(store).wf(),
            final(store).pagers == old(store).pagers,
            child.pmap_root == 0,
            child.timestamp == 0,
            did_fork(self, &child, old(store), final(store), old(ids), final(ids), true),
    {
        self.fork_with(store, ids, true)
    }

    #[verifier::rlimit(60)]
    fn fork_with(&self, store: &mut VmObjects, ids: &mut VmaIds, deep: bool) -> (child: VmMap)
        requires
            self.wf(),
            old(store).wf(),
            forkable(self.areas@, old(store), old(ids)),
        ensures
            child.wf(),
            final(store).wf(),
            final(store).pagers == old(store).pagers,
            child.pmap_root == 0,
            child.timestamp == 0,
            did_fork(self, &child, old(store), final(store), old(ids), final(ids), deep),
    {
        let mut child = VmMap::new();
        let ghost vs = self.areas@;
        let ghost a = store.objects@;
        let ghost id = ids.next as int;
        let mut i: usize = 0;
        assert forall|x: int| 0 <= x < a.len() implies #[trigger] a[x] == stepped(a[x], 0, 0) by {}
        while i < self.areas.len()
            invariant
                self.wf(),
                store.wf(),
                store.pagers == old(store).pagers,
                vs == self.areas@,
                i <= vs.len(),
                a == old(store).objects@,
                old(store).wf(),
                id == old(ids).next,
                ids.next == id + i,
                forkable(vs, old(store), old(ids)),
                child.areas@.len() == i,
                child.pmap_root == 0,
                child.timestamp == 0,
                forall|j: int|
                    0 <= j < i ==> #[trigger] child.areas@[j] == child_area(
                        vs,
                        j,
                        deep,
                        id,
                        a.len() as int,
                    ),
                objects_forked(a, store.objects@, vs, i as int, deep),
            decreases vs.len() - i,
        {
            let vma = self.areas[i];
            let o = vma.object;
            let ghost m = store.objects@;
            let ghost kind = child_object(vma, deep);
            proof {
                assert(vma == vs[i as int]);
                lemma_made(vs, 0, i as int, deep, 0);
                lemma_made(vs, i as int, i as int, deep, o as int);
                assert(live(a, o as int));
                assert(object_wf(a, o as int));
                assert(m[o as int] == stepped(
                    a[o as int],
                    taken(vs, i as int, deep, o as int),
                    shadowed(vs, i as int, deep, o as int),
                ));
                assert(live(m, o as int));
                assert(object_wf(m, o as int));
            }
            let private = match vma.vma_type {
                VmAreaType::Anonymous | VmAreaType::FileBackedPrivate | VmAreaType::Heap
                | VmAreaType::Stack => true,
                _ => false,
            };
            let size = store.get(o).size();
            let object = if deep && (private || vma.prot.contains(MapPerm::W())) {
                VmObject::new(store, size)
            } else {
                store.retain(o);
                if private && !deep {
                    VmObject::new_shadow(store, o, size)
                } else {
                    o
                }
            };
            proof {
                let b = store.objects@;
                assert forall|x: int| 0 <= x < m.len() implies #[trigger] b[x] == stepped(
                    m[x],
                    if x == o && !(kind is Fresh) {
                        1
                    } else {
                        0
                    },
                    if x == o && kind is Shadow {
                        1
                    } else {
                        0
                    },
                ) by {}
                assert forall|x: int| #[trigger] live(a, x) implies (a[x]->0).refs + vs.len()
                    <= usize::MAX && (a[x]->0).shadow_count <= (a[x]->0).refs by {
                    assert(object_wf(a, x));
                }
                lemma_forked_step(a, m, b, vs, i as int, deep);
            }
            let mut child_vma = vma;
            child_vma.id = ids.next_vma_id();
            child_vma.object = object;
            child.areas.push(child_vma);
            i += 1;
        }
        proof {
            let cs = child.areas@;
            assert forall|j: int| 0 <= j < cs.len() implies (#[trigger] cs[j]).lo() < cs[j].hi() by {
                assert(vs[j].lo() < vs[j].hi());
            }
            assert forall|j: int, l: int| 0 <= j < l < cs.len() implies (#[trigger] cs[j]).hi() <= (
            #[trigger] cs[l]).lo() by {
                assert(vs[j].hi() <= vs[l].lo());
            }
        }
        child
    }
}

/// Objects and numbers are there for a fork.
pub open spec fn forkable(vs: Areas, store: &VmObjects, ids: &VmaIds) -> bool {
    &&& forall|i: int| 0 <= i < vs.len() ==> store.has((#[trigger] vs[i]).object as int)
    &&& forall|id: int| #[trigger]
        live(store.objects@, id) ==> store.obj(id).refs + vs.len() <= usize::MAX
    &&& ids.next + vs.len() <= u64::MAX
}

/// What a fork does.
pub open spec fn did_fork(
    map: &VmMap,
    child: &VmMap,
    store0: &VmObjects,
    store1: &VmObjects,
    ids0: &VmaIds,
    ids1: &VmaIds,
    deep: bool,
) -> bool {
    let vs = map.areas@;
    let base = store0.objects@.len() as int;
    &&& child.areas@.len() == vs.len()
    &&& forall|i: int|
        0 <= i < vs.len() ==> #[trigger] child.areas@[i] == child_area(
            vs,
            i,
            deep,
            ids0.next as int,
            base,
        )
    &&& objects_forked(store0.objects@, store1.objects@, vs, vs.len() as int, deep)
    &&& ids1.next == ids0.next + vs.len()
}

/// Through its own object a child sees the pages that the parent saw when it forked.
pub proof fn law_fork_sees_parent(
    a: Objects<OwnedPage>,
    b: Objects<OwnedPage>,
    vs: Areas,
    i: int,
    k: u64,
)
    requires
        store_wf(a),
        objects_forked(a, b, vs, vs.len() as int, false),
        0 <= i < vs.len(),
        live(a, vs[i].object as int),
    ensures
        lookup(b, vs[i].object as int, k) == lookup(a, vs[i].object as int, k),
        lookup(b, child_area(vs, i, false, 0, a.len() as int).object as int, k) == lookup(
            a,
            vs[i].object as int,
            k,
        ) || a.len() + made_for(vs, i, false) > usize::MAX,
{
    let n = vs.len() as int;
    lemma_made(vs, 0, n, false, 0);
    lemma_made(vs, i, n, false, 0);
    assert forall|x: int| #[trigger] live(a, x) implies (b[x] matches Some(o) && o.pages == (
    a[x]->0).pages && o.backing == (a[x]->0).backing) by {
        assert(b[x] == stepped(a[x], taken(vs, n, false, x), shadowed(vs, n, false, x)));
    }
    lemma_lookup_stepped(a, b, vs[i].object as int, k);
    let at = a.len() + made_for(vs, i, false);
    if child_object(vs[i], false) is Shadow {
        assert(is_plain_shadow(b[at], vs[i].object, (a[vs[i].object as int]->0).size));
    }
}

/// The areas of a child have numbers that no other area has had.
pub proof fn law_numbers_differ(vs: Areas, i: int, j: int, deep: bool, id: int, base: int)
    requires
        0 <= i < j < vs.len(),
        0 <= id,
        id + vs.len() <= u64::MAX,
        forall|x: int| 0 <= x < vs.len() ==> (#[trigger] vs[x]).id < id,
    ensures
        child_area(vs, i, deep, id, base).id != child_area(vs, j, deep, id, base).id,
        forall|x: int|
            0 <= x < vs.len() ==> (#[trigger] vs[x]).id != child_area(vs, i, deep, id, base).id,
{
}

/// A child has every area of its parent, at the same place with the same protection.  Private memory,
/// whatever its type, is seen through a new object: a shadow of that of the parent or, where all pages are
/// copied, one of its own, which then every area that can be written gets.  The others have the same
/// object on both sides.
pub proof fn law_area_fork_separates(
    map: &VmMap,
    child: &VmMap,
    store0: &VmObjects,
    store1: &VmObjects,
    ids0: &VmaIds,
    ids1: &VmaIds,
    deep: bool,
    i: int,
)
    requires
        did_fork(map, child, store0, store1, ids0, ids1, deep),
        0 <= i < map.areas@.len(),
        ids0.next + map.areas@.len() <= u64::MAX,
    ensures
        child.areas@.len() == map.areas@.len(),
        ({
            let v = map.areas@[i];
            let c = child.areas@[i];
            let n = store0.objects@.len();
            let o = store1.objects@[c.object as int];
            let private = v.vma_type is Anonymous || v.vma_type is FileBackedPrivate || v.vma_type is Heap
                || v.vma_type is Stack;
            &&& c.start == v.start && c.end == v.end && c.prot == v.prot && c.vma_type == v.vma_type
            &&& c.obj_offset == v.obj_offset && c.vnode == v.vnode && c.file_offset == v.file_offset
                && c.file_size == v.file_size && c.flags == v.flags
            &&& c.id == ids0.next + i
            &&& !deep && private ==> c.object >= n && o is Some && (o->0).backing == Some(v.object) && (
            o->0).pages@ == Map::<u64, OwnedPage>::empty()
            &&& deep && (private || v.prot.0 / 2 % 2 == 1) ==> c.object >= n && o is Some && (
            o->0).backing is None && (o->0).pages@ == Map::<u64, OwnedPage>::empty()
            &&& !deep && !private || deep && !private && v.prot.0 / 2 % 2 == 0 ==> c.object == v.object
        }),
{
    let vs = map.areas@;
    let v = vs[i];
    lemma_write_bit(v.prot);
    lemma_made(vs, i, vs.len() as int, deep, 0);
    assert(store1.objects.len() == store1.objects@.len());
    assert(child.areas@[i] == child_area(
        vs,
        i,
        deep,
        ids0.next as int,
        store0.objects@.len() as int,
    ));
}

} // verus!
