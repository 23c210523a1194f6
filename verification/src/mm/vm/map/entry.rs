//! Entries of an address map.
use vstd::prelude::*;
use crate::hal::addr::VirtAddr;
use crate::mm::vm::map::perm::MapPerm;
use crate::mm::vm::map::splay::Ranged;
use crate::mm::vm::object::VObjIndex;

verus! {

/// What a child gets of a mapping.
#[derive(Debug, Clone, Copy, PartialEq, Eq, Structural)]
pub enum VmInherit {
    Share,
    Copy,
    Omit,
}

/// Copy-on-write state of an entry.
#[derive(Debug, Clone, Copy, PartialEq, Eq, Structural)]
pub enum CowState {
    Plain,
    CopyOnWrite,
}

/// What a range is and what is behind it.  Objects are known by their place in the
/// object store.
#[derive(Debug, Clone, Copy, PartialEq, Eq, Structural)]
pub enum VmMapping {
    /// Private anonymous memory.
    AnonPrivate { object: usize, offset: u64 },
    /// Private file contents.
    FilePrivate { object: usize, offset: u64 },
    /// Shared file contents.
    FileShared { object: usize, offset: u64 },
    /// The heap.
    Heap { object: usize, offset: u64 },
    /// A shared page.
    Shared { object: usize, offset: u64 },
    /// Nothing: every access is fatal.
    Guard,
}

/// The object behind a mapping.
pub open spec fn object_of(m: VmMapping) -> Option<usize> {
    match m {
        VmMapping::AnonPrivate { object, .. } => Some(object),
        VmMapping::FilePrivate { object, .. } => Some(object),
        VmMapping::FileShared { object, .. } => Some(object),
        VmMapping::Heap { object, .. } => Some(object),
        VmMapping::Shared { object, .. } => Some(object),
        VmMapping::Guard => None,
    }
}

/// The offset into the object.
pub open spec fn offset_of(m: VmMapping) -> u64 {
    match m {
        VmMapping::AnonPrivate { offset, .. } => offset,
        VmMapping::FilePrivate { offset, .. } => offset,
        VmMapping::FileShared { offset, .. } => offset,
        VmMapping::Heap { offset, .. } => offset,
        VmMapping::Shared { offset, .. } => offset,
        VmMapping::Guard => 0,
    }
}

/// The mapping with another object and another offset.
pub open spec fn remapped(m: VmMapping, object: usize, offset: u64) -> VmMapping {
    match m {
        VmMapping::AnonPrivate { .. } => VmMapping::AnonPrivate { object, offset },
        VmMapping::FilePrivate { .. } => VmMapping::FilePrivate { object, offset },
        VmMapping::FileShared { .. } => VmMapping::FileShared { object, offset },
        VmMapping::Heap { .. } => VmMapping::Heap { object, offset },
        VmMapping::Shared { .. } => VmMapping::Shared { object, offset },
        VmMapping::Guard => VmMapping::Guard,
    }
}

/// The mapping as seen `delta` bytes further on.
pub open spec fn advanced(m: VmMapping, delta: int) -> VmMapping {
    match object_of(m) {
        Some(o) => remapped(m, o, (offset_of(m) + delta) as u64),
        None => m,
    }
}

/// Whether two mappings are of one kind.
pub open spec fn same_kind(a: VmMapping, b: VmMapping) -> bool {
    match a {
        VmMapping::AnonPrivate { .. } => b is AnonPrivate,
        VmMapping::FilePrivate { .. } => b is FilePrivate,
        VmMapping::FileShared { .. } => b is FileShared,
        VmMapping::Heap { .. } => b is Heap,
        VmMapping::Shared { .. } => b is Shared,
        VmMapping::Guard => b is Guard,
    }
}

impl VmMapping {
    /// What a child gets: a copy of private memory, shared memory itself, nothing
    /// of a guard.
    pub fn inheritance(&self) -> (r: VmInherit)
        ensures
            r == match *self {
                VmMapping::AnonPrivate { .. } => VmInherit::Copy,
                VmMapping::FilePrivate { .. } => VmInherit::Copy,
                VmMapping::Heap { .. } => VmInherit::Copy,
                VmMapping::FileShared { .. } => VmInherit::Share,
                VmMapping::Shared { .. } => VmInherit::Share,
                VmMapping::Guard => VmInherit::Omit,
            },
    {
        match self {
            VmMapping::AnonPrivate { .. } | VmMapping::FilePrivate { .. } | VmMapping::Heap {
                ..
            } => VmInherit::Copy,
            VmMapping::FileShared { .. } | VmMapping::Shared { .. } => VmInherit::Share,
            VmMapping::Guard => VmInherit::Omit,
        }
    }

    /// The object behind the mapping.
    pub fn object(&self) -> (r: Option<usize>)
        ensures
            r == object_of(*self),
    {
        match *self {
            VmMapping::AnonPrivate { object, .. } => Some(object),
            VmMapping::FilePrivate { object, .. } => Some(object),
            VmMapping::FileShared { object, .. } => Some(object),
            VmMapping::Heap { object, .. } => Some(object),
            VmMapping::Shared { object, .. } => Some(object),
            VmMapping::Guard => None,
        }
    }

    /// The offset into the object, zero for a guard.
    pub fn offset(&self) -> (r: u64)
        ensures
            r == offset_of(*self),
    {
        match *self {
            VmMapping::AnonPrivate { offset, .. } => offset,
            VmMapping::FilePrivate { offset, .. } => offset,
            VmMapping::FileShared { offset, .. } => offset,
            VmMapping::Heap { offset, .. } => offset,
            VmMapping::Shared { offset, .. } => offset,
            VmMapping::Guard => 0,
        }
    }

    /// The same kind of mapping with another object and offset.
    fn with_object_at(&self, object: usize, offset: u64) -> (r: VmMapping)
        ensures
            r == remapped(*self, object, offset),
    {
        match *self {
            VmMapping::AnonPrivate { .. } => VmMapping::AnonPrivate { object, offset },
            VmMapping::FilePrivate { .. } => VmMapping::FilePrivate { object, offset },
            VmMapping::FileShared { .. } => VmMapping::FileShared { object, offset },
            VmMapping::Heap { .. } => VmMapping::Heap { object, offset },
            VmMapping::Shared { .. } => VmMapping::Shared { object, offset },
            VmMapping::Guard => VmMapping::Guard,
        }
    }

    /// The same mapping with another object.
    pub fn with_object(&self, new_object: usize) -> (r: VmMapping)
        ensures
            r == remapped(*self, new_object, offset_of(*self)),
    {
        self.with_object_at(new_object, self.offset())
    }

    /// Number of the kind of mapping.
    fn kind(&self) -> (r: u8)
        ensures
            r == match *self {
                VmMapping::AnonPrivate { .. } => 0u8,
                VmMapping::FilePrivate { .. } => 1,
                VmMapping::FileShared { .. } => 2,
                VmMapping::Heap { .. } => 3,
                VmMapping::Shared { .. } => 4,
                VmMapping::Guard => 5,
            },
    {
        match self {
            VmMapping::AnonPrivate { .. } => 0,
            VmMapping::FilePrivate { .. } => 1,
            VmMapping::FileShared { .. } => 2,
            VmMapping::Heap { .. } => 3,
            VmMapping::Shared { .. } => 4,
            VmMapping::Guard => 5,
        }
    }
}

/// One range of an address map.
#[derive(Debug, Clone, Copy, PartialEq, Eq, Structural)]
pub struct VmMapEntry {
    /// First address.
    pub lo: u64,
    /// First address after the range.
    pub hi: u64,
    pub mapping: VmMapping,
    pub protection: MapPerm,
    pub max_protection: MapPerm,
    pub cow_state: CowState,
}

impl Ranged for VmMapEntry {
    open spec fn lo(&self) -> int {
        self.lo as int
    }

    open spec fn hi(&self) -> int {
        self.hi as int
    }

    proof fn lemma_bounds(&self) {
    }

    fn start_addr(&self) -> (r: u64) {
        self.lo
    }

    fn end_addr(&self) -> (r: u64) {
        self.hi
    }
}

impl VmMapEntry {
    /// The part of the entry from `from` to `to`.
    pub open spec fn part(self, from: int, to: int) -> VmMapEntry {
        VmMapEntry {
            lo: from as u64,
            hi: to as u64,
            mapping: advanced(self.mapping, from - self.lo),
            ..self
        }
    }

    /// The offset into the object of the address `a` does not overflow.
    pub open spec fn offset_fits_at(self, a: int) -> bool {
        offset_of(self.mapping) + (a - self.lo) <= u64::MAX
    }

    /// Offsets into the object do not overflow.
    pub open spec fn offsets_fit(self) -> bool {
        self.offset_fits_at(self.hi - 1)
    }

    pub fn new(start: VirtAddr, end: VirtAddr, mapping: VmMapping, protection: MapPerm) -> (r: Self)
        ensures
            r == (VmMapEntry {
                lo: start.0,
                hi: end.0,
                mapping,
                protection,
                max_protection: protection,
                cow_state: CowState::Plain,
            }),
    {
        VmMapEntry {
            lo: start.0,
            hi: end.0,
            mapping,
            protection,
            max_protection: protection,
            cow_state: CowState::Plain,
        }
    }

    /// Start address.
    pub fn start(&self) -> (r: VirtAddr)
        ensures
            r.0 == self.lo,
    {
        VirtAddr::new(self.lo)
    }

    /// End address.
    pub fn end(&self) -> (r: VirtAddr)
        ensures
            r.0 == self.hi,
    {
        VirtAddr::new(self.hi)
    }

    /// Size in bytes.
    pub fn size(&self) -> (r: u64)
        requires
            self.lo <= self.hi,
        ensures
            r == self.hi - self.lo,
    {
        self.hi - self.lo
    }

    /// The address range.
    pub fn addr_range(&self) -> (r: (VirtAddr, VirtAddr))
        ensures
            r.0.0 == self.lo,
            r.1.0 == self.hi,
    {
        (VirtAddr::new(self.lo), VirtAddr::new(self.hi))
    }

    /// Whether `next` goes on where this entry's object ends, under the same terms.
    pub fn is_mergeable_with(&self, next: &VmMapEntry) -> (r: bool)
        requires
            self.lo <= self.hi,
            object_of(self.mapping) is Some && object_of(self.mapping) == object_of(next.mapping)
                ==> self.offset_fits_at(self.hi as int),
        ensures
            r == (self.cow_state == next.cow_state && self.protection == next.protection
                && same_kind(self.mapping, next.mapping) && (self.mapping is Guard || object_of(
                self.mapping,
            ) == object_of(next.mapping) && offset_of(self.mapping) + (self.hi - self.lo)
                == offset_of(next.mapping))),
    {
        if self.cow_state != next.cow_state || self.protection != next.protection {
            return false;
        }
        if self.mapping.kind() != next.mapping.kind() {
            return false;
        }
        match (self.mapping.object(), next.mapping.object()) {
            (Some(o1), Some(o2)) => {
                o1 == o2 && self.mapping.offset() + self.size() == next.mapping.offset()
            },
            _ => true,
        }
    }

    /// A copy whose mapping starts at `split_addr`; the range is still the whole.
    pub fn clone_for_split(&self, split_addr: VirtAddr) -> (r: Self)
        requires
            self.lo <= split_addr.0,
            self.offset_fits_at(split_addr.0 as int),
        ensures
            r == (VmMapEntry { mapping: advanced(self.mapping, split_addr.0 - self.lo), ..*self }),
    {
        let mut new_entry = *self;
        let delta: u64 = split_addr.0 - self.lo;
        if let Some(object) = self.mapping.object() {
            new_entry.mapping = self.mapping.with_object_at(object, self.mapping.offset() + delta);
        }
        new_entry
    }

    pub fn set_bounds(&mut self, new_start: VirtAddr, new_end: VirtAddr)
        ensures
            *final(self) == (VmMapEntry { lo: new_start.0, hi: new_end.0, ..*old(self) }),
    {
        self.lo = new_start.0;
        self.hi = new_end.0;
    }

    /// The object behind the page at `fault_va_aligned` and the index of that page
    /// in it; `None` for a guard.
    pub fn extract_object_offset(&self, fault_va_aligned: VirtAddr) -> (r: Option<
        (usize, VObjIndex),
    >)
        requires
            self.lo <= fault_va_aligned.0,
            self.offset_fits_at(fault_va_aligned.0 as int),
        ensures
            match r {
                Some((object, index)) => {
                    &&& object_of(self.mapping) == Some(object)
                    &&& index.0 == (offset_of(self.mapping) + (fault_va_aligned.0 - self.lo)) / 4096
                },
                None => self.mapping is Guard,
            },
    {
        match self.mapping.object() {
            None => None,
            Some(object) => {
                let offset_bytes: u64 = self.mapping.offset() + (fault_va_aligned.0 - self.lo);
                Some((object, VObjIndex::from_bytes_floor(offset_bytes)))
            },
        }
    }
}

/// The parts of an entry see the same bytes of its object as the whole.
pub proof fn law_split_keeps_offsets(e: VmMapEntry, from: int, to: int, addr: int)
    requires
        e.offset_fits_at(from),
        e.lo <= from <= addr <= to <= e.hi,
    ensures
        object_of(e.part(from, to).mapping) == object_of(e.mapping),
        !(e.mapping is Guard) ==> offset_of(e.part(from, to).mapping) + (addr - from) == offset_of(
            e.mapping,
        ) + (addr - e.lo),
        same_kind(e.part(from, to).mapping, e.mapping),
        e.part(from, to).protection == e.protection,
{
}

} // verus!
