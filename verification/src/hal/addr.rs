//! Physical and virtual addresses.
use vstd::prelude::*;

verus! {

/// Bytes in a page.
pub const PAGE_SIZE: u64 = 4096;

/// Base-two logarithm of [`PAGE_SIZE`].
pub const PAGE_SHIFT: u64 = 12;

/// A physical address.
#[derive(Debug, Clone, Copy, PartialEq, Eq, PartialOrd, Ord, Hash, Structural)]
pub struct PhysAddr(pub u64);

/// A virtual address.
#[derive(Debug, Clone, Copy, PartialEq, Eq, PartialOrd, Ord, Hash, Structural)]
pub struct VirtAddr(pub u64);

/// `a` rounded down to a page boundary.
pub open spec fn page_floor(a: int) -> int {
    a / 4096 * 4096
}

/// `a` rounded up to a page boundary.
pub open spec fn page_ceil(a: int) -> int {
    (a + 4095) / 4096 * 4096
}

impl PhysAddr {
    pub fn new(addr: u64) -> (r: Self)
        ensures
            r.0 == addr,
    {
        PhysAddr(addr)
    }

    pub fn as_u64(self) -> (r: u64)
        ensures
            r == self.0,
    {
        self.0
    }

    /// Whether the address lies on a page boundary.
    pub open spec fn is_page_aligned(self) -> bool {
        self.0 as int % 4096 == 0
    }

    pub fn page_align_down(self) -> (r: Self)
        ensures
            r.0 == page_floor(self.0 as int),
    {
        PhysAddr(self.0 / PAGE_SIZE * PAGE_SIZE)
    }
}

impl VirtAddr {
    pub fn new(addr: u64) -> (r: Self)
        ensures
            r.0 == addr,
    {
        VirtAddr(addr)
    }

    pub fn as_u64(self) -> (r: u64)
        ensures
            r == self.0,
    {
        self.0
    }

    /// Whether the address lies on a page boundary.
    pub open spec fn is_page_aligned(self) -> bool {
        self.0 as int % 4096 == 0
    }

    pub fn page_align_down(self) -> (r: Self)
        ensures
            r.0 == page_floor(self.0 as int),
    {
        VirtAddr(self.0 / PAGE_SIZE * PAGE_SIZE)
    }
}

} // verus!
