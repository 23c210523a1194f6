//! Sv39 page table entries: ten flag bits, then the page number.
use vstd::prelude::*;
use crate::mm::vm::map::perm::MapPerm;

verus! {

/// Flags of an entry.
#[derive(Debug, Clone, Copy, PartialEq, Eq, Structural)]
pub struct PteFlags(pub u64);

#[allow(non_snake_case)]
impl PteFlags {
    /// Valid.
    #[verifier::allow_in_spec]
    pub fn V() -> PteFlags
        returns
            PteFlags(1),
    {
        PteFlags(1)
    }

    /// Readable.
    #[verifier::allow_in_spec]
    pub fn R() -> PteFlags
        returns
            PteFlags(2),
    {
        PteFlags(2)
    }

    /// Writable.
    #[verifier::allow_in_spec]
    pub fn W() -> PteFlags
        returns
            PteFlags(4),
    {
        PteFlags(4)
    }

    /// Executable.
    #[verifier::allow_in_spec]
    pub fn X() -> PteFlags
        returns
            PteFlags(8),
    {
        PteFlags(8)
    }

    /// Accessible from user mode.
    #[verifier::allow_in_spec]
    pub fn U() -> PteFlags
        returns
            PteFlags(16),
    {
        PteFlags(16)
    }

    /// Global.
    #[verifier::allow_in_spec]
    pub fn G() -> PteFlags
        returns
            PteFlags(32),
    {
        PteFlags(32)
    }

    /// Accessed.
    #[verifier::allow_in_spec]
    pub fn A() -> PteFlags
        returns
            PteFlags(64),
    {
        PteFlags(64)
    }

    /// Dirty.
    #[verifier::allow_in_spec]
    pub fn D() -> PteFlags
        returns
            PteFlags(128),
    {
        PteFlags(128)
    }

    /// Software: the mapping is wired.
    #[verifier::allow_in_spec]
    pub fn SW_WIRED() -> PteFlags
        returns
            PteFlags(256),
    {
        PteFlags(256)
    }

    /// Software: the mapping is managed.
    #[verifier::allow_in_spec]
    pub fn SW_MANAGED() -> PteFlags
        returns
            PteFlags(512),
    {
        PteFlags(512)
    }

    pub fn empty() -> (r: PteFlags)
        ensures
            r.0 == 0,
    {
        PteFlags(0)
    }

    pub fn all() -> (r: PteFlags)
        ensures
            r.0 == 1023,
    {
        PteFlags(1023)
    }

    /// Whether every flag of `other` is set.
    pub open spec fn has(self, other: PteFlags) -> bool {
        self.0 & other.0 == other.0
    }

    /// Only defined flags are set.
    pub open spec fn wf(self) -> bool {
        self.0 < 1024
    }

    pub fn bits(&self) -> (r: u64)
        ensures
            r == self.0,
    {
        self.0
    }

    /// Whether every flag of `other` is set.
    pub fn contains(&self, other: PteFlags) -> (r: bool)
        ensures
            r == self.has(other),
    {
        self.0 & other.0 == other.0
    }

    /// The flags that are set and not in `other`.
    pub fn difference(self, other: PteFlags) -> (r: PteFlags)
        ensures
            r.0 == self.0 & (!other.0 & 1023),
    {
        PteFlags(self.0 & (!other.0 & 1023))
    }
}

impl vstd::std_specs::ops::BitOrSpecImpl for PteFlags {
    open spec fn obeys_bitor_spec() -> bool {
        true
    }

    open spec fn bitor_req(self, rhs: PteFlags) -> bool {
        true
    }

    open spec fn bitor_spec(self, rhs: PteFlags) -> PteFlags {
        PteFlags(self.0 | rhs.0)
    }
}

impl core::ops::BitOr for PteFlags {
    type Output = PteFlags;

    /// The flags set in either.
    fn bitor(self, rhs: PteFlags) -> (r: PteFlags) {
        PteFlags(self.0 | rhs.0)
    }
}

impl vstd::std_specs::ops::BitAndSpecImpl for PteFlags {
    open spec fn obeys_bitand_spec() -> bool {
        true
    }

    open spec fn bitand_req(self, rhs: PteFlags) -> bool {
        true
    }

    open spec fn bitand_spec(self, rhs: PteFlags) -> PteFlags {
        PteFlags(self.0 & rhs.0)
    }
}

impl core::ops::BitAnd for PteFlags {
    type Output = PteFlags;

    /// The flags set in both.
    fn bitand(self, rhs: PteFlags) -> (r: PteFlags) {
        PteFlags(self.0 & rhs.0)
    }
}

/// Whether the entry is in use.
pub open spec fn is_valid(raw: u64) -> bool {
    raw % 2 == 1
}

/// Whether the entry maps memory rather than pointing to a table.
pub open spec fn is_leaf(raw: u64) -> bool {
    raw / 2 % 8 != 0
}

/// The physical address in an entry.
pub open spec fn addr_of(raw: u64) -> u64 {
    (raw / 1024 % 0x1000_0000_0000 * 4096) as u64
}

/// The flags of an entry.
pub open spec fn flags_of(raw: u64) -> PteFlags {
    PteFlags(raw % 1024)
}

/// The entry for the page at `pa`.
pub open spec fn entry_of(pa: u64, flags: PteFlags) -> u64 {
    (pa / 4096 * 1024 + flags.0) as u64
}

/// An address that an entry can hold: below `2^56`, on a page boundary.
pub open spec fn holdable(pa: u64) -> bool {
    pa < 0x100_0000_0000_0000 && pa % 4096 == 0
}

/// Build an entry from the address of a page and flags.
pub fn encode_pte(pa: u64, flags: PteFlags) -> (r: u64)
    requires
        flags.wf(),
    ensures
        r == entry_of(pa, flags),
{
    let f = flags.0;
    assert(((pa >> 12) << 10) | f == pa / 4096 * 1024 + f) by (bit_vector)
        requires
            f < 1024,
    ;
    ((pa >> 12) << 10) | f
}

/// The physical address in an entry.
pub fn pte_pa(raw: u64) -> (r: u64)
    ensures
        r == addr_of(raw),
        holdable(r),
{
    assert(((raw >> 10) & 0xFFF_FFFF_FFFF) << 12 == raw / 1024 % 0x1000_0000_0000 * 4096)
        by (bit_vector);
    ((raw >> 10) & 0xFFF_FFFF_FFFF) << 12
}

/// The flags of an entry.
pub fn pte_flags(raw: u64) -> (r: PteFlags)
    ensures
        r == flags_of(raw),
        r.wf(),
{
    PteFlags(raw % 1024)
}

/// Whether the entry is in use.
pub fn pte_is_valid(raw: u64) -> (r: bool)
    ensures
        r == is_valid(raw),
{
    raw % 2 == 1
}

/// Whether the entry maps memory rather than pointing to a table.
pub fn pte_is_leaf(raw: u64) -> (r: bool)
    ensures
        r == is_leaf(raw),
{
    raw / 2 % 8 != 0
}

/// Flags for a mapping with the given protection.  Accessed and dirty are set
/// from the start.
pub open spec fn flags_for(perm: MapPerm) -> PteFlags {
    PteFlags(
        (193 + (if perm.has(MapPerm::R()) { 2int } else { 0 }) + (if perm.has(MapPerm::W()) {
            4int
        } else {
            0
        }) + (if perm.has(MapPerm::X()) { 8int } else { 0 }) + (if perm.has(MapPerm::U()) {
            16int
        } else {
            0
        })) as u64,
    )
}

/// Flags for a mapping with the given protection.
pub fn map_perm_to_pte_flags(perm: MapPerm) -> (r: PteFlags)
    ensures
        r == flags_for(perm),
        r.wf(),
{
    let mut f: u64 = 193;
    if perm.contains(MapPerm::R()) {
        f = f + 2;
    }
    if perm.contains(MapPerm::W()) {
        f = f + 4;
    }
    if perm.contains(MapPerm::X()) {
        f = f + 8;
    }
    if perm.contains(MapPerm::U()) {
        f = f + 16;
    }
    PteFlags(f)
}

/// Single flags as parts of the flag word.
pub proof fn lemma_flag_bits(f: PteFlags)
    ensures
        f.has(PteFlags::V()) == (f.0 % 2 == 1),
        f.has(PteFlags::R()) == (f.0 / 2 % 2 == 1),
        f.has(PteFlags::W()) == (f.0 / 4 % 2 == 1),
        f.has(PteFlags::X()) == (f.0 / 8 % 2 == 1),
        f.has(PteFlags::U()) == (f.0 / 16 % 2 == 1),
        f.has(PteFlags::A()) == (f.0 / 64 % 2 == 1),
        f.has(PteFlags::D()) == (f.0 / 128 % 2 == 1),
        f.has(PteFlags::SW_WIRED()) == (f.0 / 256 % 2 == 1),
        f.has(PteFlags::SW_MANAGED()) == (f.0 / 512 % 2 == 1),
        f.0 & 768 == f.0 / 256 % 4 * 256,
        (f.0 | 64) == if f.0 / 64 % 2 == 1 { f.0 as int } else { f.0 + 64 },
        (f.0 | 128) == if f.0 / 128 % 2 == 1 { f.0 as int } else { f.0 + 128 },
        (f.0 | 256) == if f.0 / 256 % 2 == 1 { f.0 as int } else { f.0 + 256 },
        f.wf() ==> f.0 & (!64u64 & 1023) == if f.0 / 64 % 2 == 1 { f.0 - 64 } else { f.0 as int },
        f.wf() ==> f.0 & (!128u64 & 1023) == if f.0 / 128 % 2 == 1 { f.0 - 128 } else { f.0 as int },
{
    let w = f.0;
    assert((w & 1 == 1) == (w % 2 == 1) && (w & 2 == 2) == (w / 2 % 2 == 1) && (w & 4 == 4) == (w
        / 4 % 2 == 1) && (w & 8 == 8) == (w / 8 % 2 == 1) && (w & 16 == 16) == (w / 16 % 2 == 1)
        && (w & 64 == 64) == (w / 64 % 2 == 1) && (w & 128 == 128) == (w / 128 % 2 == 1) && (w & 256
        == 256) == (w / 256 % 2 == 1) && (w & 512 == 512) == (w / 512 % 2 == 1) && w & 768 == w
        / 256 % 4 * 256) by (bit_vector);
    assert((w / 64 % 2 == 1 ==> (w | 64) == w) && (w / 64 % 2 != 1 ==> (w | 64) == w + 64) && (w
        / 128 % 2 == 1 ==> (w | 128) == w) && (w / 128 % 2 != 1 ==> (w | 128) == w + 128) && (w
        / 256 % 2 == 1 ==> (w | 256) == w) && (w / 256 % 2 != 1 ==> (w | 256) == w + 256))
        by (bit_vector);
    assert(w < 1024 ==> (w / 64 % 2 == 1 ==> w & (!64u64 & 1023) == w - 64) && (w / 64 % 2 != 1
        ==> w & (!64u64 & 1023) == w) && (w / 128 % 2 == 1 ==> w & (!128u64 & 1023) == w - 128) && (
    w / 128 % 2 != 1 ==> w & (!128u64 & 1023) == w)) by (bit_vector);
}

/// Hardware flags below bit eight and software flags above it join by addition.
pub proof fn lemma_join_sw(hw: u64, sw: u64)
    requires
        hw < 256,
        sw < 1024,
        sw % 256 == 0,
    ensures
        (hw | sw) == hw + sw,
{
    assert((hw | sw) == hw + sw) by (bit_vector)
        requires
            hw < 256,
            sw < 1024,
            sw % 256 == 0,
    ;
}

/// What is encoded can be read back.
pub proof fn law_pte_roundtrip(pa: u64, flags: PteFlags)
    requires
        holdable(pa),
        flags.wf(),
    ensures
        addr_of(entry_of(pa, flags)) == pa,
        flags_of(entry_of(pa, flags)) == flags,
        is_valid(entry_of(pa, flags)) == flags.has(PteFlags::V()),
        is_leaf(entry_of(pa, flags)) == (flags.has(PteFlags::R()) || flags.has(PteFlags::W())
            || flags.has(PteFlags::X())),
{
    lemma_entry(pa, flags);
    let w = flags.0;
    assert((w % 2 == 1) == (w & 1 == 1) && (w / 2 % 8 != 0) == (w & 2 == 2 || w & 4 == 4 || w & 8
        == 8)) by (bit_vector);
}

/// Parts of an entry, in numbers.
#[verifier::spinoff_prover]
#[verifier::rlimit(40)]
pub proof fn lemma_entry(pa: u64, flags: PteFlags)
    requires
        pa < 0x100_0000_0000_0000,
        flags.wf(),
    ensures
        entry_of(pa, flags) == pa / 4096 * 1024 + flags.0,
        addr_of(entry_of(pa, flags)) == pa / 4096 * 4096,
        flags_of(entry_of(pa, flags)) == flags,
        is_valid(entry_of(pa, flags)) == (flags.0 % 2 == 1),
        is_leaf(entry_of(pa, flags)) == (flags.0 / 2 % 8 != 0),
{
    let q = pa / 4096;
    let raw = entry_of(pa, flags);
    assert(raw == q * 1024 + flags.0);
    assert(raw / 1024 == q);
    assert(raw % 1024 == flags.0);
    assert(raw % 2 == flags.0 % 2);
    assert(raw / 2 == q * 512 + flags.0 / 2);
    assert(raw / 2 % 8 == flags.0 / 2 % 8);
}

/// The protection of a mapping shows in its flags, and every mapping is valid,
/// accessed and dirty.
pub proof fn law_perm_shows_in_flags(perm: MapPerm)
    ensures
        flags_for(perm).has(PteFlags::V()),
        flags_for(perm).has(PteFlags::A()),
        flags_for(perm).has(PteFlags::D()),
        flags_for(perm).has(PteFlags::R()) == perm.has(MapPerm::R()),
        flags_for(perm).has(PteFlags::W()) == perm.has(MapPerm::W()),
        flags_for(perm).has(PteFlags::X()) == perm.has(MapPerm::X()),
        flags_for(perm).has(PteFlags::U()) == perm.has(MapPerm::U()),
        !flags_for(perm).has(PteFlags::SW_WIRED()),
        !flags_for(perm).has(PteFlags::SW_MANAGED()),
{
    lemma_flag_bits(flags_for(perm));
}

} // verus!
