//! Physical page metadata and its state machine.
//!
//! A page is exclusively busy while it is in flux and shared busy while readers
//! use it.  Its reference word counts the mappings of the page and records
//! whether an object owns it and whether new mappings are refused.
use vstd::prelude::*;
use crate::hal::addr::PhysAddr;
use crate::mm::allocator::types::{frame_index, get_frame_meta, pfn, role_byte, role_of, PageRole};

verus! {

/// Bits of the busy word.
pub struct BusyState;

impl BusyState {
    /// The page is in flux.
    pub const EXCLUSIVE: u32 = 0x8000_0000;

    /// Sleepers wait on this page.
    pub const WANTED: u32 = 0x4000_0000;

    /// Number of readers.
    pub const SHARED_MASK: u32 = 0x3FFF_FFFF;
}

/// What the busy word says.
pub struct Busy {
    pub exclusive: bool,
    pub wanted: bool,
    pub readers: int,
}

pub open spec fn busy_of(word: u32) -> Busy {
    Busy {
        exclusive: word >= 0x8000_0000,
        wanted: word % 0x8000_0000 >= 0x4000_0000,
        readers: word as int % 0x4000_0000,
    }
}

/// What the reference word says.
pub struct Refs {
    /// New mappings are refused.
    pub blocked: bool,
    /// An object owns the page.
    pub objref: bool,
    /// Number of mappings.
    pub wires: int,
}

pub open spec fn refs_of(word: u32) -> Refs {
    Refs {
        blocked: word >= 0x8000_0000,
        objref: word % 0x8000_0000 >= 0x4000_0000,
        wires: word as int % 0x4000_0000,
    }
}

/// How the two flag bits and the low thirty bits of a word are read and changed.
proof fn lemma_word(w: u32)
    ensures
        (w & 0x8000_0000 != 0) == (w >= 0x8000_0000),
        (w & 0x4000_0000 != 0) == (w % 0x8000_0000 >= 0x4000_0000),
        (w & 0x3FFF_FFFF) == w % 0x4000_0000,
        (w & (0x8000_0000u32 | 0x3FFF_FFFFu32) == 0) == (w < 0x8000_0000 && w % 0x4000_0000 == 0),
        w < 0x8000_0000 ==> (w | 0x8000_0000) == w + 0x8000_0000,
        (w & !(0x8000_0000u32 | 0x4000_0000u32)) == w % 0x4000_0000,
        w >= 0x8000_0000 ==> (w & !0x8000_0000u32) == w - 0x8000_0000,
        w % 0x8000_0000 >= 0x4000_0000 ==> (w & !0x4000_0000u32) == w - 0x4000_0000,
        w % 0x8000_0000 >= 0x4000_0000 && w >= 0x8000_0000 ==> (w ^ (0x8000_0000u32 | 0x4000_0000u32))
            == w - 0xC000_0000,
        w % 0x8000_0000 >= 0x4000_0000 && w < 0x8000_0000 ==> (w ^ (0x8000_0000u32 | 0x4000_0000u32))
            == w + 0x4000_0000,
        (w & !(0x8000_0000u32 | 0x4000_0000u32)) == (w & 0x3FFF_FFFF),
{
    assert((w & 0x8000_0000 != 0) == (w >= 0x8000_0000)
        && (w & 0x4000_0000 != 0) == (w % 0x8000_0000 >= 0x4000_0000)
        && (w & 0x3FFF_FFFF) == w % 0x4000_0000
        && (w & (0x8000_0000u32 | 0x3FFF_FFFFu32) == 0) == (w < 0x8000_0000 && w % 0x4000_0000 == 0)
        && (w < 0x8000_0000 ==> (w | 0x8000_0000) == w + 0x8000_0000)
        && (w & !(0x8000_0000u32 | 0x4000_0000u32)) == w % 0x4000_0000
        && (w >= 0x8000_0000 ==> (w & !0x8000_0000u32) == w - 0x8000_0000)
        && (w % 0x8000_0000 >= 0x4000_0000 ==> (w & !0x4000_0000u32) == w - 0x4000_0000)
        && (w % 0x8000_0000 >= 0x4000_0000 && w >= 0x8000_0000 ==> (w ^ (0x8000_0000u32
        | 0x4000_0000u32)) == w - 0xC000_0000)
        && (w % 0x8000_0000 >= 0x4000_0000 && w < 0x8000_0000 ==> (w ^ (0x8000_0000u32
        | 0x4000_0000u32)) == w + 0x4000_0000)) by (bit_vector);
}

/// What is left to do after the object's hold on a page ends.
#[derive(Debug, Clone, Copy, PartialEq, Eq, Structural)]
pub enum Teardown {
    /// No mapping is left: the frame goes back to the allocator.
    FreeFrame,
    /// Mappings remain and the busy lock was released; `wake` says whether
    /// sleepers have to be woken.
    Released { wake: bool },
}

/// Metadata of one physical frame.
#[derive(Debug)]
pub struct VmPage {
    /// Which object owns this page, if any.
    pub object: Option<u64>,
    /// Logical offset within the object.
    pub pindex: u64,
    /// The physical address of the frame.
    pub phys_addr: PhysAddr,
    /// Busy word.
    pub busy_state: u32,
    /// Reference word.
    pub refs: u32,
    /// Role byte.
    pub role_flags: u8,
    /// Non-zero if the page holds valid data.
    pub valid: u8,
    /// Non-zero if the page was modified since it was last written out.
    pub dirty: u8,
}

impl VmPage {
    pub const VPRC_BLOCKED: u32 = 0x8000_0000;

    pub const VPRC_OBJREF: u32 = 0x4000_0000;

    pub const VPRC_WIRE_MASK: u32 = 0x3FFF_FFFF;

    /// The busy word.
    pub open spec fn busy_word(&self) -> u32 {
        self.busy_state
    }

    /// The state of the busy lock.
    pub open spec fn busy(&self) -> Busy {
        busy_of(self.busy_word())
    }

    /// Everything but the busy word is the same.
    pub open spec fn same_but_busy(&self, other: &VmPage) -> bool {
        &&& self.object == other.object
        &&& self.pindex == other.pindex
        &&& self.phys_addr == other.phys_addr
        &&& self.refs == other.refs
        &&& self.role_flags == other.role_flags
        &&& self.valid == other.valid
        &&& self.dirty == other.dirty
    }

    /// A page is never exclusively busy while it has readers.
    pub open spec fn wf(&self) -> bool {
        self.busy().exclusive ==> self.busy().readers == 0
    }

    pub fn new() -> (r: Self)
        ensures
            r.object is None,
            r.pindex == 0,
            r.phys_addr.0 == 0,
            r.busy_word() == 0,
            r.wf(),
            r.refs == 0,
            r.role_flags == 0,
            r.valid == 0,
            r.dirty == 0,
    {
        VmPage {
            object: None,
            pindex: 0,
            phys_addr: PhysAddr(0),
            busy_state: 0,
            refs: 0,
            role_flags: 0,
            valid: 0,
            dirty: 0,
        }
    }

    /// A valid page at `pa`.
    pub fn new_test(pa: PhysAddr) -> (r: Self)
        ensures
            r.object is None,
            r.pindex == 0,
            r.phys_addr == pa,
            r.busy_word() == 0,
            r.refs == 0,
            r.role_flags == 0,
            r.valid == 1,
            r.dirty == 0,
    {
        let mut p = VmPage::new();
        p.phys_addr = pa;
        p.valid = 1;
        p
    }

    /// A valid, clean page at `pa`.
    pub fn new_cached_test(pa: PhysAddr) -> (r: Self)
        ensures
            r.object is None,
            r.pindex == 0,
            r.phys_addr == pa,
            r.busy_word() == 0,
            r.refs == 0,
            r.role_flags == 0,
            r.valid == 1,
            r.dirty == 0,
    {
        let mut p = VmPage::new_test(pa);
        p.dirty = 0;
        p
    }

    /// Whether the page is exclusively busy.
    pub fn is_exclusive_busied(&self) -> (r: bool)
        ensures
            r == self.busy().exclusive,
    {
        proof {
            lemma_word(self.busy_state);
        }
        self.busy_state & BusyState::EXCLUSIVE != 0
    }

    /// Take the exclusive lock; refused while anyone holds the page busy.
    pub fn try_acquire_exclusive(&mut self) -> (r: bool)
        ensures
            r == (!old(self).busy().exclusive && old(self).busy().readers == 0),
            final(self).busy() == (Busy {
                exclusive: old(self).busy().exclusive || r,
                ..old(self).busy()
            }),
            !r ==> *final(self) == *old(self),
            final(self).same_but_busy(old(self)),
    {
        proof {
            lemma_word(self.busy_state);
        }
        let current = self.busy_state;
        if current & (BusyState::EXCLUSIVE | BusyState::SHARED_MASK) != 0 {
            return false;
        }
        self.busy_state = current | BusyState::EXCLUSIVE;
        true
    }

    /// Note that someone sleeps on this page.
    pub fn mark_wanted(&mut self)
        ensures
            final(self).busy() == (Busy { wanted: true, ..old(self).busy() }),
            final(self).same_but_busy(old(self)),
    {
        let w = self.busy_state;
        assert((w | 0x4000_0000) % 0x4000_0000 == w % 0x4000_0000 && (w | 0x4000_0000) % 0x8000_0000
            >= 0x4000_0000 && ((w | 0x4000_0000) >= 0x8000_0000) == (w >= 0x8000_0000))
            by (bit_vector);
        self.busy_state = w | BusyState::WANTED;
    }

    /// Release the exclusive lock.  Returns whether sleepers have to be woken.
    pub fn release_exclusive(&mut self) -> (wake: bool)
        requires
            old(self).busy().exclusive,
        ensures
            wake == old(self).busy().wanted,
            final(self).busy() == (Busy {
                exclusive: false,
                wanted: false,
                readers: old(self).busy().readers,
            }),
            final(self).same_but_busy(old(self)),
    {
        proof {
            lemma_word(self.busy_state);
        }
        let before = self.busy_state;
        self.busy_state = before & !(BusyState::EXCLUSIVE | BusyState::WANTED);
        before & BusyState::WANTED != 0
    }

    /// Turn the exclusive lock into a shared one.  Returns whether sleepers
    /// have to be woken.
    pub fn downgrade_exclusive_to_shared(&mut self) -> (wake: bool)
        requires
            old(self).busy().exclusive,
            old(self).busy().readers < 0x3FFF_FFFF,
        ensures
            wake == old(self).busy().wanted,
            final(self).busy() == (Busy {
                exclusive: false,
                wanted: false,
                readers: old(self).busy().readers + 1,
            }),
            final(self).same_but_busy(old(self)),
    {
        proof {
            lemma_word(self.busy_state);
        }
        let mut new_state: u32 = self.busy_state & !BusyState::EXCLUSIVE;
        new_state = new_state + 1;
        proof {
            lemma_word(new_state);
        }
        let wake_needed = (new_state & BusyState::WANTED) != 0;
        if wake_needed {
            new_state = new_state & !BusyState::WANTED;
        }
        self.busy_state = new_state;
        wake_needed
    }

    /// Whether readers hold the page.
    pub fn is_shared_busied(&self) -> (r: bool)
        ensures
            r == (self.busy().readers > 0),
    {
        proof {
            lemma_word(self.busy_state);
        }
        self.busy_state & BusyState::SHARED_MASK != 0
    }

    /// Join the readers; refused while the page is exclusively busy.
    pub fn try_acquire_steady_state(&mut self) -> (r: bool)
        requires
            old(self).busy().readers < 0x3FFF_FFFF,
        ensures
            r == !old(self).busy().exclusive,
            final(self).busy() == (Busy {
                readers: old(self).busy().readers + if r {
                    1int
                } else {
                    0
                },
                ..old(self).busy()
            }),
            final(self).same_but_busy(old(self)),
    {
        proof {
            lemma_word(self.busy_state);
        }
        if self.busy_state & BusyState::EXCLUSIVE != 0 {
            return false;
        }
        self.busy_state = self.busy_state + 1;
        true
    }

    /// Leave the readers.
    pub fn release_steady_state(&mut self)
        requires
            old(self).busy().readers > 0,
        ensures
            final(self).busy() == (Busy {
                readers: old(self).busy().readers - 1,
                ..old(self).busy()
            }),
            final(self).same_but_busy(old(self)),
    {
        self.busy_state = self.busy_state - 1;
    }

    pub fn is_valid(&self) -> (r: bool)
        ensures
            r == (self.valid != 0),
    {
        self.valid != 0
    }

    pub fn set_valid(&mut self)
        ensures
            *final(self) == (VmPage { valid: 1, ..*old(self) }),
    {
        self.valid = 1;
    }

    pub fn clear_valid(&mut self)
        ensures
            *final(self) == (VmPage { valid: 0, ..*old(self) }),
    {
        self.valid = 0;
    }

    pub fn is_dirty(&self) -> (r: bool)
        ensures
            r == (self.dirty != 0),
    {
        self.dirty != 0
    }

    pub fn set_dirty(&mut self)
        ensures
            *final(self) == (VmPage { dirty: 1, ..*old(self) }),
    {
        self.dirty = 1;
    }

    pub fn clear_dirty_all(&mut self)
        ensures
            *final(self) == (VmPage { dirty: 0, ..*old(self) }),
    {
        self.dirty = 0;
    }

    /// The physical address of the frame.
    pub fn phys(&self) -> (r: PhysAddr)
        ensures
            r == self.phys_addr,
    {
        self.phys_addr
    }

    /// End the owning object's hold: the object bit falls and further mappings
    /// are refused.
    pub fn teardown_from_object(&mut self) -> (r: Teardown)
        requires
            old(self).busy().exclusive,
            refs_of(old(self).refs).objref,
        ensures
            refs_of(final(self).refs) == (Refs {
                blocked: !refs_of(old(self).refs).blocked,
                objref: false,
                wires: refs_of(old(self).refs).wires,
            }),
            match r {
                Teardown::FreeFrame => refs_of(old(self).refs).wires == 0 && final(self).busy()
                    == old(self).busy(),
                Teardown::Released { wake } => {
                    &&& refs_of(old(self).refs).wires > 0
                    &&& wake == old(self).busy().wanted
                    &&& final(self).busy() == (Busy {
                        exclusive: false,
                        wanted: false,
                        readers: old(self).busy().readers,
                    })
                },
            },
            final(self).same_but_busy(&(VmPage { refs: final(self).refs, ..*old(self) })),
    {
        let before = self.refs;
        proof {
            lemma_word(before);
        }
        self.refs = before ^ (VmPage::VPRC_BLOCKED | VmPage::VPRC_OBJREF);
        if before & VmPage::VPRC_WIRE_MASK == 0 {
            Teardown::FreeFrame
        } else {
            let wake = self.release_exclusive();
            Teardown::Released { wake }
        }
    }

    /// Add a mapping; refused once the page is blocked.
    pub fn try_wire_mapped(&mut self) -> (r: bool)
        requires
            refs_of(old(self).refs).wires < 0x3FFF_FFFF,
        ensures
            r == !refs_of(old(self).refs).blocked,
            refs_of(final(self).refs) == (Refs {
                wires: refs_of(old(self).refs).wires + if r {
                    1int
                } else {
                    0
                },
                ..refs_of(old(self).refs)
            }),
            *final(self) == (VmPage { refs: final(self).refs, ..*old(self) }),
    {
        proof {
            lemma_word(self.refs);
        }
        if self.refs & VmPage::VPRC_BLOCKED != 0 {
            return false;
        }
        self.refs = self.refs + 1;
        true
    }

    /// Drop a mapping.  Returns whether the frame goes back to the allocator:
    /// it was the last mapping and no object owns the page.
    pub fn unwire_mapped(&mut self) -> (free_frame: bool)
        requires
            refs_of(old(self).refs).wires > 0,
        ensures
            free_frame == (refs_of(old(self).refs).wires == 1 && !refs_of(old(self).refs).objref),
            refs_of(final(self).refs) == (Refs {
                wires: refs_of(old(self).refs).wires - 1,
                ..refs_of(old(self).refs)
            }),
            *final(self) == (VmPage { refs: final(self).refs, ..*old(self) }),
    {
        let before = self.refs;
        proof {
            lemma_word(before);
        }
        self.refs = before - 1;
        let count: u32 = before & VmPage::VPRC_WIRE_MASK;
        count == 1 && (before & VmPage::VPRC_OBJREF) == 0
    }

    /// Add one to the reference word.  Returns its value before.
    pub fn inc_ref(&mut self) -> (r: u32)
        ensures
            r == old(self).refs,
            *final(self) == (VmPage { refs: old(self).refs.wrapping_add(1), ..*old(self) }),
    {
        let before = self.refs;
        self.refs = before.wrapping_add(1);
        before
    }

    /// Take one from the reference word.  Returns its value before.
    pub fn dec_ref(&mut self) -> (r: u32)
        ensures
            r == old(self).refs,
            *final(self) == (VmPage { refs: old(self).refs.wrapping_sub(1), ..*old(self) }),
    {
        let before = self.refs;
        self.refs = before.wrapping_sub(1);
        before
    }

    /// The reference word.
    pub fn get_ref(&self) -> (r: u32)
        ensures
            r == self.refs,
    {
        self.refs
    }

    /// Set what the page is used for.
    pub fn set_role(&mut self, role: PageRole)
        ensures
            *final(self) == (VmPage { role_flags: role_byte(role), ..*old(self) }),
    {
        self.role_flags = role.as_u8();
    }

    /// What the page is used for.
    pub fn role(&self) -> (r: PageRole)
        ensures
            r == role_of(self.role_flags),
    {
        PageRole::from(self.role_flags)
    }
}

/// The frame of a page is freed by whichever of the object and the mappings
/// lets go last: with `wires` mappings left, the teardown frees it exactly when
/// there are none, and otherwise exactly the last unmapping does.
pub proof fn law_frame_freed_once(word: u32, wires_left: int)
    requires
        refs_of(word).objref,
        1 <= wires_left <= refs_of(word).wires,
    ensures
        ({
            let torn = Refs { blocked: !refs_of(word).blocked, objref: false, ..refs_of(word) };
            let at = Refs { wires: wires_left, ..torn };
            (at.wires == 1 && !at.objref) <==> wires_left == 1
        }),
        !(refs_of(word).wires == 1 && !refs_of(word).objref),
{
}

/// A shared busy lock on the page at `pa`.
pub struct SharedBusyGuard {
    pa: PhysAddr,
}

impl SharedBusyGuard {
    pub closed spec fn at(&self) -> PhysAddr {
        self.pa
    }

    /// Take the shared lock of the page at `pa`.  `None` where the page is
    /// exclusively busy or has no metadata.
    pub fn try_new(table: &mut Vec<VmPage>, pa: PhysAddr) -> (r: Option<Self>)
        requires
            pfn(pa) < old(table)@.len() ==> old(table)@[pfn(pa)].busy().readers < 0x3FFF_FFFF,
        ensures
            r is Some <==> pfn(pa) < old(table)@.len() && !old(table)@[pfn(pa)].busy().exclusive,
            r is None ==> final(table)@ == old(table)@,
            r matches Some(g) ==> {
                &&& g.at() == pa
                &&& final(table)@.len() == old(table)@.len()
                &&& final(table)@ == old(table)@.update(pfn(pa), final(table)@[pfn(pa)])
                &&& final(table)@[pfn(pa)].same_but_busy(&old(table)@[pfn(pa)])
                &&& final(table)@[pfn(pa)].busy() == (Busy {
                    readers: old(table)@[pfn(pa)].busy().readers + 1,
                    ..old(table)@[pfn(pa)].busy()
                })
            },
    {
        match frame_index(table.len(), pa) {
            None => None,
            Some(i) => {
                if table[i].is_exclusive_busied() {
                    return None;
                }
                let _ = table[i].try_acquire_steady_state();
                Some(SharedBusyGuard { pa })
            },
        }
    }

    /// The physical address of the page.
    pub fn phys(&self) -> (r: PhysAddr)
        ensures
            r == self.at(),
    {
        self.pa
    }

    /// The metadata of the page.
    pub fn meta<'a>(&self, table: &'a Vec<VmPage>) -> (r: &'a VmPage)
        requires
            pfn(self.at()) < table@.len(),
        ensures
            *r == table@[pfn(self.at())],
    {
        get_frame_meta(table, self.pa).unwrap()
    }

    /// Give the lock up.
    pub fn release(self, table: &mut Vec<VmPage>)
        requires
            pfn(self.at()) < old(table)@.len() ==> old(table)@[pfn(self.at())].busy().readers > 0,
        ensures
            pfn(self.at()) >= old(table)@.len() ==> final(table)@ == old(table)@,
            pfn(self.at()) < old(table)@.len() ==> {
                let i = pfn(self.at());
                &&& final(table)@ == old(table)@.update(i, final(table)@[i])
                &&& final(table)@[i].same_but_busy(&old(table)@[i])
                &&& final(table)@[i].busy() == (Busy {
                    readers: old(table)@[i].busy().readers - 1,
                    ..old(table)@[i].busy()
                })
            },
    {
        if let Some(i) = frame_index(table.len(), self.pa) {
            table[i].release_steady_state();
        }
    }
}

/// An exclusive busy lock on the page at `pa`.
pub struct ExclusiveBusyGuard {
    pa: PhysAddr,
}

impl ExclusiveBusyGuard {
    pub closed spec fn at(&self) -> PhysAddr {
        self.pa
    }

    /// Take the exclusive lock of the page at `pa`.  `None` where anyone holds
    /// the page busy or it has no metadata.
    pub fn try_new(table: &mut Vec<VmPage>, pa: PhysAddr) -> (r: Option<Self>)
        ensures
            r is Some <==> pfn(pa) < old(table)@.len() && !old(table)@[pfn(pa)].busy().exclusive
                && old(table)@[pfn(pa)].busy().readers == 0,
            r is None ==> final(table)@ == old(table)@,
            r matches Some(g) ==> {
                &&& g.at() == pa
                &&& final(table)@ == old(table)@.update(pfn(pa), final(table)@[pfn(pa)])
                &&& final(table)@[pfn(pa)].same_but_busy(&old(table)@[pfn(pa)])
                &&& final(table)@[pfn(pa)].busy() == (Busy {
                    exclusive: true,
                    ..old(table)@[pfn(pa)].busy()
                })
            },
    {
        match frame_index(table.len(), pa) {
            None => None,
            Some(i) => {
                if table[i].try_acquire_exclusive() {
                    Some(ExclusiveBusyGuard { pa })
                } else {
                    assert(table@ =~= old(table)@);
                    None
                }
            },
        }
    }

    /// The physical address of the page.
    pub fn phys(&self) -> (r: PhysAddr)
        ensures
            r == self.at(),
    {
        self.pa
    }

    /// Turn the exclusive lock into a shared one.  The second result says
    /// whether sleepers have to be woken.
    pub fn downgrade(self, table: &mut Vec<VmPage>) -> (r: (SharedBusyGuard, bool))
        requires
            pfn(self.at()) < old(table)@.len(),
            old(table)@[pfn(self.at())].busy().exclusive,
            old(table)@[pfn(self.at())].wf(),
        ensures
            r.0.at() == self.at(),
            ({
                let i = pfn(self.at());
                &&& r.1 == old(table)@[i].busy().wanted
                &&& final(table)@ == old(table)@.update(i, final(table)@[i])
                &&& final(table)@[i].same_but_busy(&old(table)@[i])
                &&& final(table)@[i].busy() == (Busy { exclusive: false, wanted: false, readers: 1 })
            }),
    {
        let pa = self.pa;
        let mut wake = false;
        if let Some(i) = frame_index(table.len(), pa) {
            wake = table[i].downgrade_exclusive_to_shared();
        }
        (SharedBusyGuard { pa }, wake)
    }

    /// The metadata of the page.
    pub fn meta<'a>(&self, table: &'a Vec<VmPage>) -> (r: &'a VmPage)
        requires
            pfn(self.at()) < table@.len(),
        ensures
            *r == table@[pfn(self.at())],
    {
        get_frame_meta(table, self.pa).unwrap()
    }

    /// Give the lock up.  Returns whether sleepers have to be woken.
    pub fn release(self, table: &mut Vec<VmPage>) -> (wake: bool)
        requires
            pfn(self.at()) < old(table)@.len() ==> old(table)@[pfn(self.at())].busy().exclusive,
        ensures
            pfn(self.at()) >= old(table)@.len() ==> final(table)@ == old(table)@ && !wake,
            pfn(self.at()) < old(table)@.len() ==> {
                let i = pfn(self.at());
                &&& wake == old(table)@[i].busy().wanted
                &&& final(table)@ == old(table)@.update(i, final(table)@[i])
                &&& final(table)@[i].same_but_busy(&old(table)@[i])
                &&& final(table)@[i].busy() == (Busy {
                    exclusive: false,
                    wanted: false,
                    readers: old(table)@[i].busy().readers,
                })
            },
    {
        match frame_index(table.len(), self.pa) {
            Some(i) => table[i].release_exclusive(),
            None => false,
        }
    }
}

} // verus!
