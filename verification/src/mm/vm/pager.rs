//! Where the contents of an object's pages come from.
use vstd::prelude::*;
use crate::hal::addr::PAGE_SIZE;

verus! {

/// How a page is filled.
#[derive(Debug, Clone, Copy, PartialEq, Eq, Structural)]
pub enum PageFill {
    /// All zeros.
    Zero,
    /// A page of the file from `offset`; only the first `keep` bytes are kept and
    /// the rest is zeroed.
    File { offset: u64, keep: u64 },
}

/// How a page is written back.
#[derive(Debug, Clone, Copy, PartialEq, Eq, Structural)]
pub enum PageStore {
    /// Not at all.
    Nothing,
    /// The first `len` bytes go to the file at `offset`.
    File { offset: u64, len: u64 },
}

/// A source of page contents.
pub trait Pager {
    /// Whether pages without contents are zero pages.
    spec fn anon(&self) -> bool;

    /// How the page at byte `offset` of the object is filled.
    spec fn fill_of(&self, offset: u64) -> PageFill;

    /// How the page at byte `offset` of the object is written back.
    spec fn store_of(&self, offset: u64, len: u64) -> PageStore;

    fn page_in(&self, offset: u64) -> (r: PageFill)
        ensures
            r == self.fill_of(offset),
    ;

    fn page_out(&self, offset: u64, len: u64) -> (r: PageStore)
        ensures
            r == self.store_of(offset, len),
    ;

    fn is_anon(&self) -> (r: bool)
        ensures
            r == self.anon(),
    ;
}

/// Pages are zero at first and never written back.
#[derive(Debug, Clone, Copy)]
pub struct AnonPager;

impl Pager for AnonPager {
    open spec fn anon(&self) -> bool {
        true
    }

    open spec fn fill_of(&self, offset: u64) -> PageFill {
        PageFill::Zero
    }

    open spec fn store_of(&self, offset: u64, len: u64) -> PageStore {
        PageStore::Nothing
    }

    fn page_in(&self, offset: u64) -> (r: PageFill) {
        PageFill::Zero
    }

    fn page_out(&self, offset: u64, len: u64) -> (r: PageStore) {
        PageStore::Nothing
    }

    fn is_anon(&self) -> (r: bool) {
        true
    }
}

/// Pages come from a file.
#[derive(Debug)]
pub struct VnodePager {
    pub vnode_id: u64,
    pub path: String,
    /// Offset in the file at which the part behind the object starts; its pages are
    /// numbered by their offset in the file.
    pub base_offset: u64,
    /// Bytes from `base_offset` that come from the file, all where it is the
    /// largest number; what follows is zero.
    pub valid_bytes: u64,
}

/// Bytes of the page at `offset` that come from the file.
pub open spec fn file_bytes_in_page(base_offset: int, valid_bytes: int, offset: int) -> int {
    let rel = if offset > base_offset {
        offset - base_offset
    } else {
        0
    };
    if valid_bytes == u64::MAX {
        4096
    } else if rel >= valid_bytes {
        0
    } else if valid_bytes - rel < 4096 {
        valid_bytes - rel
    } else {
        4096
    }
}

impl Pager for VnodePager {
    open spec fn anon(&self) -> bool {
        false
    }

    open spec fn fill_of(&self, offset: u64) -> PageFill {
        let n = file_bytes_in_page(
            self.base_offset as int,
            self.valid_bytes as int,
            offset as int,
        );
        if n == 0 {
            PageFill::Zero
        } else {
            PageFill::File { offset, keep: n as u64 }
        }
    }

    open spec fn store_of(&self, offset: u64, len: u64) -> PageStore {
        PageStore::File {
            offset,
            len: if len < 4096 {
                len
            } else {
                4096
            },
        }
    }

    fn page_in(&self, offset: u64) -> (r: PageFill) {
        let rel: u64 = offset.saturating_sub(self.base_offset);
        let file_bytes_this_page: u64 = if self.valid_bytes == u64::MAX {
            PAGE_SIZE
        } else if rel >= self.valid_bytes {
            0
        } else if self.valid_bytes - rel < PAGE_SIZE {
            self.valid_bytes - rel
        } else {
            PAGE_SIZE
        };
        if file_bytes_this_page == 0 {
            PageFill::Zero
        } else {
            PageFill::File { offset, keep: file_bytes_this_page }
        }
    }

    fn page_out(&self, offset: u64, len: u64) -> (r: PageStore) {
        PageStore::File {
            offset,
            len: if len < PAGE_SIZE {
                len
            } else {
                PAGE_SIZE
            },
        }
    }

    fn is_anon(&self) -> (r: bool) {
        false
    }
}

/// Past the bytes of the file every page is zero, and no page takes more than
/// its own size from the file.
pub proof fn law_tail_is_zero(base_offset: int, valid_bytes: int, offset: int)
    requires
        0 <= valid_bytes < u64::MAX,
    ensures
        offset >= base_offset + valid_bytes ==> file_bytes_in_page(base_offset, valid_bytes, offset)
            == 0,
        0 <= file_bytes_in_page(base_offset, valid_bytes, offset) <= 4096,
{
}

/// A byte of a page comes from the file, and from its own place there, exactly where it lies within the
/// bytes that the pager has from the file; the others are zero.
pub proof fn law_file_byte_is_kept(p: &VnodePager, offset: u64, i: int)
    requires
        p.base_offset <= offset,
        0 <= i < 4096,
    ensures
        ({
            let within = p.valid_bytes == u64::MAX || offset + i < p.base_offset + p.valid_bytes;
            match p.fill_of(offset) {
                PageFill::Zero => !within,
                PageFill::File { offset: from, keep } => from == offset && (within <==> i < keep),
            }
        }),
{
}

} // verus!
