//! Address spaces as a map from pages to their mapping.
use vstd::prelude::*;
use crate::hal::addr::{PhysAddr, VirtAddr, PAGE_SIZE};
use crate::mm::allocator::frame_allocator::{FramePool, NUM_MAGAZINES};
use crate::mm::pmap::pte::{
    encode_pte, entry_of, flags_for, is_valid, lemma_flag_bits, lemma_join_sw,
    map_perm_to_pte_flags, pte_flags, pte_is_leaf, pte_is_valid, pte_pa, PteFlags,
};
use crate::mm::pmap::space::{
    enter_flags, entered, pmap_enter, Pmap, TlbRange,
};
use crate::mm::pmap::table::{
    lemma_resident_bound, pool_holdable, same_page, set_slot, walk, RootTable, ENTRIES,
};
use crate::mm::vm::map::perm::MapPerm;

verus! {

/// A page whose entry was changed and whose translation has to be flushed.
pub struct ShootdownToken(pub VirtAddr);

impl ShootdownToken {
    pub fn va(&self) -> (r: VirtAddr)
        ensures
            r == self.0,
    {
        self.0
    }
}

/// A mapping as it was when it was looked up.
#[derive(Debug, Clone, Copy)]
pub struct PmapRef {
    pub pa: PhysAddr,
    pub flags: PteFlags,
}

impl PmapRef {
    pub fn pa(&self) -> (r: PhysAddr)
        ensures
            r == self.pa,
    {
        self.pa
    }

    pub fn flags(&self) -> (r: PteFlags)
        ensures
            r == self.flags,
    {
        self.flags
    }

    pub fn permits_write(&self) -> (r: bool)
        ensures
            r == self.flags.has(PteFlags::W()),
    {
        self.flags.contains(PteFlags::W())
    }

    pub fn permits_exec(&self) -> (r: bool)
        ensures
            r == self.flags.has(PteFlags::X()),
    {
        self.flags.contains(PteFlags::X())
    }
}

/// Flags of a mapping whose protection is set anew: the software flags stay.
pub open spec fn flags_kept_sw(old_flags: PteFlags, perm: MapPerm) -> PteFlags {
    PteFlags((flags_for(perm).0 + old_flags.0 / 256 % 4 * 256) as u64)
}

/// The flags for `perm` with the software flags of `old_flags`.
fn with_sw_bits(old_flags: PteFlags, perm: MapPerm) -> (r: PteFlags)
    ensures
        r == flags_kept_sw(old_flags, perm),
        r.wf(),
        r.0 % 2 == 1,
{
    let new_flags = map_perm_to_pte_flags(perm);
    proof {
        lemma_flag_bits(old_flags);
        assert((256u64 | 512) == 768) by (bit_vector);
        lemma_join_sw(new_flags.0, old_flags.0 & 768);
    }
    let sw_bits = old_flags & (PteFlags::SW_WIRED() | PteFlags::SW_MANAGED());
    new_flags | sw_bits
}

/// An existing mapping that can be changed.
pub struct OccupiedEntry {
    pub va: VirtAddr,
    pub pa: PhysAddr,
    pub flags: PteFlags,
}

impl OccupiedEntry {
    /// The entry says what the address space holds.
    pub open spec fn of(&self, pmap: &Pmap) -> bool {
        &&& pmap.wf()
        &&& pmap.root.has_slot(self.va.0 as int)
        &&& pmap.mapping_at(self.va.0 as int) == Some((self.pa.0, self.flags))
        &&& self.va.0 + 4096 <= u64::MAX
    }

    pub fn va(&self) -> (r: VirtAddr)
        ensures
            r == self.va,
    {
        self.va
    }

    pub fn pa(&self) -> (r: PhysAddr)
        ensures
            r == self.pa,
    {
        self.pa
    }

    pub fn flags(&self) -> (r: PteFlags)
        ensures
            r == self.flags,
    {
        self.flags
    }

    /// Map the page to `pa` with the given protection.
    pub fn insert(&mut self, pmap: &mut Pmap, pa: PhysAddr, perm: MapPerm) -> (r: TlbRange)
        requires
            old(self).of(old(pmap)),
        ensures
            final(pmap).wf(),
            final(pmap).same_identity(old(pmap)),
            final(pmap).same_tables(old(pmap)),
            final(pmap).stats == old(pmap).stats,
            *final(self) == (OccupiedEntry {
                va: old(self).va,
                pa,
                flags: flags_kept_sw(old(self).flags, perm),
            }),
            forall|v: int| #[trigger]
                final(pmap).entry_at(v) == if same_page(old(self).va.0 as int, v) {
                    entry_of(pa.0, flags_kept_sw(old(self).flags, perm))
                } else {
                    old(pmap).entry_at(v)
                },
            r == (TlbRange {
                start: old(self).va.0,
                end: (old(self).va.0 + 4096) as u64,
                asid: old(pmap).asid,
            }),
    {
        let flags = with_sw_bits(self.flags, perm);
        let raw = encode_pte(pa.0, flags);
        assert(is_valid(raw)) by {
            assert(raw == pa.0 / 4096 * 1024 + flags.0);
        }
        set_slot(&mut pmap.root, self.va.0, raw);
        self.pa = pa;
        self.flags = flags;
        TlbRange { start: self.va.0, end: self.va.0 + PAGE_SIZE, asid: pmap.asid }
    }

    /// Set the protection of the page anew.
    pub fn promote(&mut self, pmap: &mut Pmap, new_perm: MapPerm) -> (r: TlbRange)
        requires
            old(self).of(old(pmap)),
        ensures
            final(pmap).wf(),
            final(pmap).same_identity(old(pmap)),
            final(pmap).same_tables(old(pmap)),
            final(pmap).stats == old(pmap).stats,
            *final(self) == (OccupiedEntry {
                flags: flags_kept_sw(old(self).flags, new_perm),
                ..*old(self)
            }),
            forall|v: int| #[trigger]
                final(pmap).entry_at(v) == if same_page(old(self).va.0 as int, v) {
                    entry_of(old(self).pa.0, flags_kept_sw(old(self).flags, new_perm))
                } else {
                    old(pmap).entry_at(v)
                },
            r == (TlbRange {
                start: old(self).va.0,
                end: (old(self).va.0 + 4096) as u64,
                asid: old(pmap).asid,
            }),
    {
        let pa = self.pa;
        self.insert(pmap, pa, new_perm)
    }

    /// Remove the mapping.
    pub fn remove(self, pmap: &mut Pmap) -> (r: ShootdownToken)
        requires
            self.of(old(pmap)),
        ensures
            final(pmap).wf(),
            final(pmap).same_identity(old(pmap)),
            final(pmap).same_tables(old(pmap)),
            r.0 == self.va,
            forall|v: int| #[trigger]
                final(pmap).entry_at(v) == if same_page(self.va.0 as int, v) {
                    0
                } else {
                    old(pmap).entry_at(v)
                },
            final(pmap).stats.resident_count == old(pmap).stats.resident_count - 1,
            final(pmap).stats.wired_count == if self.flags.has(PteFlags::SW_WIRED()) && old(pmap).stats.wired_count > 0 {
                old(pmap).stats.wired_count - 1
            } else {
                old(pmap).stats.wired_count as int
            },
    {
        set_slot(&mut pmap.root, self.va.0, 0);
        proof {
            lemma_resident_bound(pmap.root.children@, ENTRIES as int);
        }
        pmap.stats.resident_count = pmap.stats.resident_count.saturating_sub(1);
        if self.flags.contains(PteFlags::SW_WIRED()) {
            pmap.stats.wired_count = pmap.stats.wired_count.saturating_sub(1);
        }
        ShootdownToken(self.va)
    }
}

/// A page without a mapping.
pub struct VacantEntry {
    pub va: VirtAddr,
}

impl VacantEntry {
    /// Map the page.
    pub fn insert(
        self,
        pmap: &mut Pmap,
        pool: &mut FramePool,
        cpu: usize,
        pa: PhysAddr,
        perm: MapPerm,
    ) -> (r: Result<TlbRange, ()>)
        requires
            old(pmap).wf(),
            old(pool).inv(),
            pool_holdable(old(pool)),
            cpu < NUM_MAGAZINES,
            self.va.0 + 4096 <= u64::MAX,
            old(pmap).stats.wired_count < usize::MAX,
        ensures
            final(pmap).wf(),
            final(pool).inv(),
            pool_holdable(final(pool)),
            final(pmap).same_identity(old(pmap)),
            final(pmap).stats.wired_count == old(pmap).stats.wired_count,
            forall|p: int| #[trigger] final(pool).pool_free(p) ==> old(pool).pool_free(p),
            forall|v: int| #[trigger] final(pmap).root.large_at(v) == old(pmap).root.large_at(v),
            old(pmap).root.has_slot(self.va.0 as int) ==> r is Ok,
            entered(
                old(pmap),
                final(pmap),
                old(pool),
                final(pool),
                cpu as int,
                self.va.0 as int,
                entry_of(pa.0, enter_flags(perm, false)),
                r is Ok,
            ),
            r matches Ok(flush) ==> flush == (TlbRange {
                start: self.va.0,
                end: (self.va.0 + 4096) as u64,
                asid: old(pmap).asid,
            }),
    {
        pmap_enter(pmap, pool, cpu, self.va, pa, perm, false)
    }
}

/// A page, with its mapping or without one.
pub enum PmapEntry {
    Occupied(OccupiedEntry),
    Vacant(VacantEntry),
}

impl Pmap {
    /// Look the mapping of `va` up.
    pub fn get(&self, va: VirtAddr) -> (r: Option<PmapRef>)
        requires
            self.wf(),
        ensures
            match (r, self.mapping_at(va.0 as int)) {
                (Some(m), Some(x)) => m.pa.0 == x.0 && m.flags == x.1,
                (None, None) => true,
                _ => false,
            },
    {
        match walk(&self.root, va.0) {
            None => None,
            Some(raw) => {
                if pte_is_valid(raw) && pte_is_leaf(raw) {
                    Some(PmapRef { pa: PhysAddr::new(pte_pa(raw)), flags: pte_flags(raw) })
                } else {
                    None
                }
            },
        }
    }

    /// The entry of `va`.
    pub fn entry(&self, va: VirtAddr) -> (r: PmapEntry)
        requires
            self.wf(),
            va.0 + 4096 <= u64::MAX,
        ensures
            match r {
                PmapEntry::Occupied(e) => e.of(self) && e.va == va,
                PmapEntry::Vacant(e) => e.va == va && self.mapping_at(va.0 as int) is None,
            },
    {
        match walk(&self.root, va.0) {
            Some(raw) => {
                if pte_is_valid(raw) && pte_is_leaf(raw) {
                    PmapEntry::Occupied(
                        OccupiedEntry { va, pa: PhysAddr::new(pte_pa(raw)), flags: pte_flags(raw) },
                    )
                } else {
                    PmapEntry::Vacant(VacantEntry { va })
                }
            },
            None => PmapEntry::Vacant(VacantEntry { va }),
        }
    }

    /// Map the page of `va` unless it is mapped already.  Returns what has to be
    /// flushed.
    pub fn entry_or_insert(
        &mut self,
        pool: &mut FramePool,
        cpu: usize,
        va: VirtAddr,
        pa: PhysAddr,
        perm: MapPerm,
    ) -> (r: Result<Option<TlbRange>, ()>)
        requires
            old(self).wf(),
            old(pool).inv(),
            pool_holdable(old(pool)),
            cpu < NUM_MAGAZINES,
            va.0 + 4096 <= u64::MAX,
            old(self).stats.wired_count < usize::MAX,
        ensures
            final(self).wf(),
            final(pool).inv(),
            pool_holdable(final(pool)),
            final(self).same_identity(old(self)),
            final(self).stats.wired_count == old(self).stats.wired_count,
            forall|p: int| #[trigger] final(pool).pool_free(p) ==> old(pool).pool_free(p),
            forall|v: int| #[trigger] final(self).root.large_at(v) == old(self).root.large_at(v),
            old(self).mapping_at(va.0 as int) is Some ==> r == Ok::<Option<TlbRange>, ()>(None) && *final(self) == *old(self)
                && *final(pool) == *old(pool),
            old(self).root.has_slot(va.0 as int) ==> r is Ok,
            old(self).mapping_at(va.0 as int) is None ==> {
                &&& entered(
                    old(self),
                    final(self),
                    old(pool),
                    final(pool),
                    cpu as int,
                    va.0 as int,
                    entry_of(pa.0, enter_flags(perm, false)),
                    r is Ok,
                )
                &&& r matches Ok(flush) ==> flush == Some(
                    TlbRange { start: va.0, end: (va.0 + 4096) as u64, asid: old(self).asid },
                )
            },
    {
        match self.entry(va) {
            PmapEntry::Occupied(_) => Ok(None),
            PmapEntry::Vacant(v) => match v.insert(self, pool, cpu, pa, perm) {
                Ok(flush) => Ok(Some(flush)),
                Err(_) => Err(()),
            },
        }
    }
}

/// A mapping met while going through a range.
pub struct OccupiedEntryMut {
    pub va: VirtAddr,
    pub pa: PhysAddr,
    pub flags: PteFlags,
}

impl OccupiedEntryMut {
    pub fn va(&self) -> (r: VirtAddr)
        ensures
            r == self.va,
    {
        self.va
    }

    pub fn pa(&self) -> (r: PhysAddr)
        ensures
            r == self.pa,
    {
        self.pa
    }

    pub fn flags(&self) -> (r: PteFlags)
        ensures
            r == self.flags,
    {
        self.flags
    }

    /// Clear the entry.  The counts of the address space are left to the caller.
    pub fn remove(self, root: &mut RootTable) -> (r: ShootdownToken)
        requires
            old(root).wf(),
            old(root).has_slot(self.va.0 as int),
        ensures
            final(root).wf(),
            final(root).same_upper(old(root)),
            r.0 == self.va,
            forall|v: int| #[trigger]
                final(root).entry_at(v) == if same_page(self.va.0 as int, v) {
                    0
                } else {
                    old(root).entry_at(v)
                },
    {
        set_slot(root, self.va.0, 0);
        ShootdownToken(self.va)
    }

    /// Set the protection of the page anew; the software flags stay.
    pub fn set_perm(&mut self, root: &mut RootTable, perm: MapPerm) -> (r: ShootdownToken)
        requires
            old(root).wf(),
            old(root).has_slot(old(self).va.0 as int),
        ensures
            final(root).wf(),
            final(root).same_upper(old(root)),
            r.0 == old(self).va,
            *final(self) == (OccupiedEntryMut {
                flags: flags_kept_sw(old(self).flags, perm),
                ..*old(self)
            }),
            forall|v: int| #[trigger]
                final(root).entry_at(v) == if same_page(old(self).va.0 as int, v) {
                    entry_of(old(self).pa.0, flags_kept_sw(old(self).flags, perm))
                } else {
                    old(root).entry_at(v)
                },
    {
        let flags = with_sw_bits(self.flags, perm);
        set_slot(root, self.va.0, encode_pte(self.pa.0, flags));
        self.flags = flags;
        ShootdownToken(self.va)
    }
}

} // verus!
