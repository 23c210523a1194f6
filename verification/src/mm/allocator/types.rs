//! What each physical frame is used for, and where its metadata lies.
use vstd::prelude::*;
use crate::hal::addr::{PhysAddr, PAGE_SIZE};
use crate::mm::vm::page::VmPage;

verus! {

/// What a frame is used for.
#[derive(Debug, Clone, Copy, PartialEq, Eq, Structural)]
pub enum PageRole {
    Free,
    PteL2,
    PteL1,
    PteL0,
    UserAnon,
    UserExec,
    UserStack,
    FileCache,
    KernelStack,
    PipeBuffer,
    SigTrampoline,
    DriverDma,
}

/// The role a byte stands for; bytes past the last role stand for `Free`.
pub open spec fn role_of(val: u8) -> PageRole {
    if val == 1 {
        PageRole::PteL2
    } else if val == 2 {
        PageRole::PteL1
    } else if val == 3 {
        PageRole::PteL0
    } else if val == 4 {
        PageRole::UserAnon
    } else if val == 5 {
        PageRole::UserExec
    } else if val == 6 {
        PageRole::UserStack
    } else if val == 7 {
        PageRole::FileCache
    } else if val == 8 {
        PageRole::KernelStack
    } else if val == 9 {
        PageRole::PipeBuffer
    } else if val == 10 {
        PageRole::SigTrampoline
    } else if val == 11 {
        PageRole::DriverDma
    } else {
        PageRole::Free
    }
}

/// The byte that stands for a role.
pub open spec fn role_byte(role: PageRole) -> u8 {
    match role {
        PageRole::Free => 0,
        PageRole::PteL2 => 1,
        PageRole::PteL1 => 2,
        PageRole::PteL0 => 3,
        PageRole::UserAnon => 4,
        PageRole::UserExec => 5,
        PageRole::UserStack => 6,
        PageRole::FileCache => 7,
        PageRole::KernelStack => 8,
        PageRole::PipeBuffer => 9,
        PageRole::SigTrampoline => 10,
        PageRole::DriverDma => 11,
    }
}

/// A role survives being stored as its byte.
pub proof fn law_role_byte_roundtrip(role: PageRole)
    ensures
        role_of(role_byte(role)) == role,
{
}

impl vstd::std_specs::convert::FromSpecImpl<u8> for PageRole {
    open spec fn obeys_from_spec() -> bool {
        true
    }

    open spec fn from_spec(val: u8) -> PageRole {
        role_of(val)
    }
}

impl From<u8> for PageRole {
    fn from(val: u8) -> (r: PageRole) {
        match val {
            0 => PageRole::Free,
            1 => PageRole::PteL2,
            2 => PageRole::PteL1,
            3 => PageRole::PteL0,
            4 => PageRole::UserAnon,
            5 => PageRole::UserExec,
            6 => PageRole::UserStack,
            7 => PageRole::FileCache,
            8 => PageRole::KernelStack,
            9 => PageRole::PipeBuffer,
            10 => PageRole::SigTrampoline,
            11 => PageRole::DriverDma,
            _ => PageRole::Free,
        }
    }
}

impl PageRole {
    /// The byte that stands for this role.
    pub fn as_u8(self) -> (r: u8)
        ensures
            r == role_byte(self),
    {
        match self {
            PageRole::Free => 0,
            PageRole::PteL2 => 1,
            PageRole::PteL1 => 2,
            PageRole::PteL0 => 3,
            PageRole::UserAnon => 4,
            PageRole::UserExec => 5,
            PageRole::UserStack => 6,
            PageRole::FileCache => 7,
            PageRole::KernelStack => 8,
            PageRole::PipeBuffer => 9,
            PageRole::SigTrampoline => 10,
            PageRole::DriverDma => 11,
        }
    }
}

/// The frame number of a physical address.
pub fn canonical_phys_index(addr: u64) -> (r: u64)
    ensures
        r == addr as int / 4096,
{
    addr / PAGE_SIZE
}

/// The index of the frame that holds `phys`.
pub open spec fn pfn(phys: PhysAddr) -> int {
    phys.0 as int / 4096
}

/// The place of the metadata of the frame that holds `phys`, in a table of
/// `len` entries; `None` where the table does not reach that far.
pub fn frame_index(len: usize, phys: PhysAddr) -> (r: Option<usize>)
    ensures
        match r {
            Some(i) => i == pfn(phys) && i < len,
            None => pfn(phys) >= len,
        },
{
    let i: u64 = canonical_phys_index(phys.page_align_down().0);
    if i < len as u64 {
        Some(i as usize)
    } else {
        None
    }
}

/// The metadata of the frame that holds `phys`.
pub fn get_frame_meta(table: &Vec<VmPage>, phys: PhysAddr) -> (r: Option<&VmPage>)
    ensures
        match r {
            Some(m) => pfn(phys) < table@.len() && *m == table@[pfn(phys)],
            None => pfn(phys) >= table@.len(),
        },
{
    match frame_index(table.len(), phys) {
        Some(i) => Some(&table[i]),
        None => None,
    }
}

} // verus!
