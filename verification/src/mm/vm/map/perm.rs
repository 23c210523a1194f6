//! Page protection flags.
use vstd::prelude::*;

verus! {

/// What may be done with a mapping.
#[derive(Debug, Clone, Copy, PartialEq, Eq, Structural)]
pub struct MapPerm(pub u8);

impl MapPerm {
    /// Read.
    #[allow(non_snake_case)]
    #[verifier::allow_in_spec]
    pub fn R() -> MapPerm
        returns
            MapPerm(1),
    {
        MapPerm(1)
    }

    /// Write.
    #[allow(non_snake_case)]
    #[verifier::allow_in_spec]
    pub fn W() -> MapPerm
        returns
            MapPerm(2),
    {
        MapPerm(2)
    }

    /// Execute.
    #[allow(non_snake_case)]
    #[verifier::allow_in_spec]
    pub fn X() -> MapPerm
        returns
            MapPerm(4),
    {
        MapPerm(4)
    }

    /// From user mode.
    #[allow(non_snake_case)]
    #[verifier::allow_in_spec]
    pub fn U() -> MapPerm
        returns
            MapPerm(8),
    {
        MapPerm(8)
    }

    /// Whether every flag of `other` is set.
    pub open spec fn has(self, other: MapPerm) -> bool {
        self.0 & other.0 == other.0
    }

    /// Only defined flags are set.
    pub open spec fn wf(self) -> bool {
        self.0 < 16
    }

    pub fn empty() -> (r: Self)
        ensures
            r.0 == 0,
    {
        MapPerm(0)
    }

    pub fn all() -> (r: Self)
        ensures
            r.0 == 15,
    {
        MapPerm(15)
    }

    pub fn bits(&self) -> (r: u8)
        ensures
            r == self.0,
    {
        self.0
    }

    pub fn is_empty(&self) -> (r: bool)
        ensures
            r == (self.0 == 0),
    {
        self.0 == 0
    }

    /// Whether every flag of `other` is set.
    pub fn contains(&self, other: MapPerm) -> (r: bool)
        ensures
            r == self.has(other),
    {
        self.0 & other.0 == other.0
    }

    /// The flags that are set and not in `other`.
    pub fn difference(self, other: MapPerm) -> (r: MapPerm)
        ensures
            r.0 == self.0 & (!other.0 & 15),
    {
        MapPerm(self.0 & (!other.0 & 15))
    }
}

impl vstd::std_specs::ops::BitOrSpecImpl for MapPerm {
    open spec fn obeys_bitor_spec() -> bool {
        true
    }

    open spec fn bitor_req(self, rhs: MapPerm) -> bool {
        true
    }

    open spec fn bitor_spec(self, rhs: MapPerm) -> MapPerm {
        MapPerm(self.0 | rhs.0)
    }
}

impl core::ops::BitOr for MapPerm {
    type Output = MapPerm;

    /// The flags set in either.
    fn bitor(self, rhs: MapPerm) -> (r: MapPerm) {
        MapPerm(self.0 | rhs.0)
    }
}

impl vstd::std_specs::ops::BitAndSpecImpl for MapPerm {
    open spec fn obeys_bitand_spec() -> bool {
        true
    }

    open spec fn bitand_req(self, rhs: MapPerm) -> bool {
        true
    }

    open spec fn bitand_spec(self, rhs: MapPerm) -> MapPerm {
        MapPerm(self.0 & rhs.0)
    }
}

impl core::ops::BitAnd for MapPerm {
    type Output = MapPerm;

    /// The flags set in both.
    fn bitand(self, rhs: MapPerm) -> (r: MapPerm) {
        MapPerm(self.0 & rhs.0)
    }
}

/// Stripping the write flag leaves the others as they are.
pub proof fn lemma_strip_write(a: MapPerm)
    ensures
        ({
            let s = MapPerm(a.0 & (!2u8 & 15));
            &&& !s.has(MapPerm::W())
            &&& s.has(MapPerm::R()) == a.has(MapPerm::R())
            &&& s.has(MapPerm::X()) == a.has(MapPerm::X())
            &&& s.has(MapPerm::U()) == a.has(MapPerm::U())
            &&& s.wf()
        }),
{
    let x = a.0;
    assert((x & (!2u8 & 15)) & 2 != 2 && ((x & (!2u8 & 15)) & 1 == 1) == (x & 1 == 1) && ((x & (
    !2u8 & 15)) & 4 == 4) == (x & 4 == 4) && ((x & (!2u8 & 15)) & 8 == 8) == (x & 8 == 8) && (x & (
    !2u8 & 15)) < 16) by (bit_vector);
}

/// The usual protections of user memory as numbers.
pub proof fn lemma_joined()
    ensures
        1u8 | 8 == 9,
        1u8 | 2 == 3,
        (1u8 | 2) | 8 == 11,
        (1u8 | 4) | 8 == 13,
        ((1u8 | 2) | 4) | 8 == 15,
{
    assert(1u8 | 8 == 9 && 1u8 | 2 == 3 && (1u8 | 2) | 8 == 11 && (1u8 | 4) | 8 == 13 && ((1u8 | 2) | 4) | 8
        == 15) by (bit_vector);
}

} // verus!
