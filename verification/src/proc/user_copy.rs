//! Reading strings from user memory, and pages to be present before memory is touched.
//!
//! Bytes are read and pages are made present by the caller; what comes next, and what the
//! bytes add up to, is decided here.
use vstd::prelude::*;
use crate::hal::addr::{page_ceil, page_floor, VirtAddr, PAGE_SIZE};
use crate::mm::vm::fault::PageFaultAccessType;
use crate::mm::vm::map::address_map::{Entries, VmMap};
use crate::mm::vm::map::entry::VmMapEntry;
use crate::mm::vm::map::perm::MapPerm;

verus! {

/// The pages from `a` to `b`.
pub open spec fn pages_between(a: int, b: int) -> Seq<u64>
    decreases (if a < b { b - a } else { 0 }),
{
    if a >= b {
        Seq::empty()
    } else {
        seq![a as u64] + pages_between(a + 4096, b)
    }
}

fn list_pages(a: u64, b: u64) -> (r: Vec<u64>)
    requires
        b + 4095 <= u64::MAX,
    ensures
        r@ == pages_between(a as int, b as int),
{
    let mut r: Vec<u64> = Vec::new();
    let mut va: u64 = a;
    assert(r@ + pages_between(a as int, b as int) =~= pages_between(a as int, b as int));
    while va < b
        invariant
            b + 4095 <= u64::MAX,
            r@ + pages_between(va as int, b as int) == pages_between(a as int, b as int),
        decreases (if va < b { b - va } else { 0 }),
    {
        let ghost r0 = r@;
        r.push(va);
        assert(r0 + (seq![va] + pages_between(va + 4096, b as int)) =~= r@ + pages_between(
            va + 4096,
            b as int,
        ));
        va = va + PAGE_SIZE;
    }
    assert(r@ + Seq::<u64>::empty() =~= r@);
    r
}

/// The pages that a buffer of the user lies on: they have to be present before it is copied.
pub fn fault_in_user_buffer(user_ptr: u64, len: u64) -> (r: Vec<u64>)
    requires
        len > 0 ==> user_ptr + len + 4095 <= u64::MAX,
    ensures
        r@ == if len == 0 {
            Seq::empty()
        } else {
            pages_between(page_floor(user_ptr as int), page_ceil(user_ptr + len))
        },
{
    if len == 0 {
        return Vec::new();
    }
    let start = user_ptr / PAGE_SIZE * PAGE_SIZE;
    let end = (user_ptr + len + (PAGE_SIZE - 1)) / PAGE_SIZE * PAGE_SIZE;
    list_pages(start, end)
}

/// Every byte of the buffer lies on one of its pages.
pub proof fn law_buffer_is_covered(ptr: int, len: int, i: int)
    requires
        0 <= ptr,
        0 <= i < len,
        ptr + len + 4095 <= u64::MAX,
    ensures
        pages_between(page_floor(ptr), page_ceil(ptr + len)).contains(page_floor(ptr + i) as u64),
{
    lemma_page_listed(page_floor(ptr), page_ceil(ptr + len), page_floor(ptr + i));
}

proof fn lemma_page_listed(a: int, b: int, p: int)
    requires
        0 <= a <= p < b <= u64::MAX,
        a % 4096 == 0,
        p % 4096 == 0,
    ensures
        pages_between(a, b).contains(p as u64),
    decreases p - a,
{
    let s = pages_between(a, b);
    if a == p {
        assert(s[0] == p as u64);
    } else {
        lemma_page_listed(a + 4096, b, p);
        let rest = pages_between(a + 4096, b);
        let j = choose|j: int| 0 <= j < rest.len() && rest[j] == p as u64;
        assert(s[j + 1] == p as u64);
    }
}

/// What is to be done next to read a string.
#[derive(Debug, Clone, Copy, PartialEq, Eq, Structural)]
pub enum CopyStep {
    /// Make the page present, then read the byte at this address.
    FaultAndRead(u64),
    /// Read the byte at this address.
    Read(u64),
    /// There is no string: no address was given, or it is too long.
    Fail,
}

/// What a byte did to the string.
#[derive(Debug, PartialEq, Eq)]
pub enum CopyResult {
    /// There is more to read.
    More,
    /// The string, without the zero at its end.
    Done(Vec<u8>),
    /// The byte could not be read.
    Fail,
}

/// A string that is being read.
pub struct StringCopy {
    pub user_ptr: u64,
    pub max_len: u64,
    /// Bytes read so far.
    pub out: Vec<u8>,
}

impl StringCopy {
    pub open spec fn wf(&self) -> bool {
        &&& self.out@.len() <= self.max_len
        &&& self.user_ptr + self.max_len <= u64::MAX
        &&& forall|i: int| 0 <= i < self.out@.len() ==> #[trigger] self.out@[i] != 0
    }

    /// Start to read a string of at most `max_len` bytes, its zero among them.
    pub fn new(user_ptr: u64, max_len: u64) -> (r: Self)
        requires
            user_ptr + max_len <= u64::MAX,
        ensures
            r.wf(),
            r.user_ptr == user_ptr,
            r.max_len == max_len,
            r.out@.len() == 0,
    {
        StringCopy { user_ptr, max_len, out: Vec::new() }
    }

    /// What is to be done next: pages are made present when the string reaches them.
    pub fn next(&self) -> (r: CopyStep)
        requires
            self.wf(),
        ensures
            r == if self.user_ptr == 0 || self.out@.len() >= self.max_len {
                CopyStep::Fail
            } else {
                let at = self.user_ptr + self.out@.len();
                if self.out@.len() == 0 || at % 4096 == 0 {
                    CopyStep::FaultAndRead(at as u64)
                } else {
                    CopyStep::Read(at as u64)
                }
            },
    {
        if self.user_ptr == 0 || self.out.len() as u64 >= self.max_len {
            return CopyStep::Fail;
        }
        let at = self.user_ptr + self.out.len() as u64;
        if self.out.len() == 0 || at % PAGE_SIZE == 0 {
            CopyStep::FaultAndRead(at)
        } else {
            CopyStep::Read(at)
        }
    }

    /// The byte was read, or could not be.
    pub fn got(&mut self, byte: Option<u8>) -> (r: CopyResult)
        requires
            old(self).wf(),
            old(self).out@.len() < old(self).max_len,
        ensures
            final(self).wf(),
            final(self).user_ptr == old(self).user_ptr,
            final(self).max_len == old(self).max_len,
            match byte {
                None => r == CopyResult::Fail && final(self).out@ == old(self).out@,
                Some(b) => if b == 0 {
                    r matches CopyResult::Done(s) && s@ == old(self).out@ && final(self).out@.len()
                        == 0
                } else {
                    r == CopyResult::More && final(self).out@ == old(self).out@.push(b)
                },
            },
    {
        match byte {
            None => CopyResult::Fail,
            Some(b) => {
                if b == 0 {
                    let mut s: Vec<u8> = Vec::new();
                    core::mem::swap(&mut s, &mut self.out);
                    CopyResult::Done(s)
                } else {
                    self.out.push(b);
                    CopyResult::More
                }
            },
        }
    }
}

/// Strings of an array are at most this long.
pub const MAX_ARG_LEN: u64 = 256;

/// An array of strings that is being read.
pub struct ArgvCopy {
    pub user_argv: u64,
    pub max_count: u64,
    /// Most bytes that the strings may have, their zeros among them.
    pub max_total: u64,
    /// Bytes so far.
    pub total: u64,
    pub result: Vec<Vec<u8>>,
    /// The array has come to its end.
    pub done: bool,
}

impl ArgvCopy {
    pub open spec fn wf(&self) -> bool {
        &&& self.user_argv + self.max_count * 8 <= u64::MAX
        &&& self.total <= self.max_total
        &&& self.max_total + MAX_ARG_LEN <= u64::MAX
        &&& self.result@.len() <= self.max_count
    }

    pub fn new(user_argv: u64, max_count: u64, max_total: u64) -> (r: Self)
        requires
            user_argv + max_count * 8 <= u64::MAX,
            max_total + MAX_ARG_LEN <= u64::MAX,
        ensures
            r.wf(),
            r.user_argv == user_argv,
            r.max_count == max_count,
            r.max_total == max_total,
            r.total == 0,
            r.result@.len() == 0,
            r.done == (user_argv == 0),
    {
        ArgvCopy { user_argv, max_count, max_total, total: 0, result: Vec::new(), done: user_argv == 0 }
    }

    /// Address of the next pointer to read.
    pub fn next_slot(&self) -> (r: Option<u64>)
        requires
            self.wf(),
        ensures
            r == if self.done || self.result@.len() >= self.max_count {
                None
            } else {
                Some((self.user_argv + self.result@.len() * 8) as u64)
            },
    {
        if self.done || self.result.len() as u64 >= self.max_count {
            return None;
        }
        Some(self.user_argv + self.result.len() as u64 * 8)
    }

    /// The pointer was read, or could not be.  Returns the string to read; a null pointer ends
    /// the array.
    pub fn got_pointer(&mut self, ptr: Option<u64>) -> (r: Option<u64>)
        requires
            old(self).wf(),
        ensures
            final(self).wf(),
            *final(self) == (ArgvCopy { done: final(self).done, ..*old(self) }),
            r == match ptr {
                Some(p) => if p == 0 {
                    None
                } else {
                    Some(p)
                },
                None => None,
            },
            final(self).done == (old(self).done || r is None),
    {
        match ptr {
            Some(p) => {
                if p == 0 {
                    self.done = true;
                    None
                } else {
                    Some(p)
                }
            },
            None => {
                self.done = true;
                None
            },
        }
    }

    /// The string was read, or could not be.  It is kept unless all strings become too long;
    /// what cannot be kept ends the array.
    pub fn got_string(&mut self, s: Option<Vec<u8>>)
        requires
            old(self).wf(),
            old(self).result@.len() < old(self).max_count,
            s matches Some(b) ==> b@.len() < MAX_ARG_LEN,
        ensures
            final(self).wf(),
            final(self).user_argv == old(self).user_argv,
            final(self).max_count == old(self).max_count,
            final(self).max_total == old(self).max_total,
            ({
                let kept = s matches Some(b) && old(self).total + b@.len() + 1 <= old(self).max_total;
                &&& final(self).done == (old(self).done || !kept)
                &&& kept ==> final(self).result@ == old(self).result@.push(s->0) && final(self).total == old(self).total + (s->0)@.len() + 1
                &&& !kept ==> final(self).result@ == old(self).result@ && final(self).total == old(self).total
            }),
    {
        match s {
            None => {
                self.done = true;
            },
            Some(b) => {
                let total = self.total + b.len() as u64 + 1;
                if total > self.max_total {
                    self.done = true;
                } else {
                    self.total = total;
                    self.result.push(b);
                }
            },
        }
    }
}

/// The access for which the pages of an entry are made present.
pub open spec fn image_access(e: VmMapEntry) -> PageFaultAccessType {
    if e.protection.has(MapPerm::X()) {
        PageFaultAccessType::EXECUTE()
    } else if e.protection.has(MapPerm::W()) {
        PageFaultAccessType::WRITE()
    } else {
        PageFaultAccessType::READ()
    }
}

/// The pages of an entry with the access.
pub open spec fn entry_pages(e: VmMapEntry) -> Seq<(VirtAddr, PageFaultAccessType)> {
    pages_between(e.lo as int, e.hi as int).map_values(|va: u64| (VirtAddr(va), image_access(e)))
}

/// The pages of the first `n` entries.
pub open spec fn image_pages(es: Entries, n: int) -> Seq<(VirtAddr, PageFaultAccessType)>
    decreases n,
{
    if n <= 0 {
        Seq::empty()
    } else {
        image_pages(es, n - 1) + entry_pages(es[n - 1])
    }
}

/// All pages of an address space, each with the access for which it is to be made present.
pub fn prefault_user_image(vm: &VmMap) -> (r: Vec<(VirtAddr, PageFaultAccessType)>)
    requires
        vm.wf(),
    ensures
        r@ == image_pages(vm.entries(), vm.entries().len() as int),
{
    let all = vm.copy_entries();
    let ghost es = vm.entries();
    let mut r: Vec<(VirtAddr, PageFaultAccessType)> = Vec::new();
    let mut i: usize = 0;
    while i < all.len()
        invariant
            i <= all@.len(),
            all@ == es,
            es == vm.entries(),
            vm.wf(),
            r@ == image_pages(es, i as int),
        decreases all@.len() - i,
    {
        let vma = all[i];
        assert(es[i as int].hi + 4095 <= u64::MAX);
        let access = if vma.protection.contains(MapPerm::X()) {
            PageFaultAccessType::EXECUTE()
        } else if vma.protection.contains(MapPerm::W()) {
            PageFaultAccessType::WRITE()
        } else {
            PageFaultAccessType::READ()
        };
        let pages = list_pages(vma.lo, vma.hi);
        let ghost r0 = r@;
        let ghost ep = entry_pages(vma);
        let mut j: usize = 0;
        assert(r0 + ep.take(0) =~= r0);
        while j < pages.len()
            invariant
                j <= pages@.len(),
                pages@ == pages_between(vma.lo as int, vma.hi as int),
                ep == entry_pages(vma),
                access == image_access(vma),
                r@ == r0 + ep.take(j as int),
            decreases pages@.len() - j,
        {
            r.push((VirtAddr::new(pages[j]), access));
            assert(ep.take(j + 1) =~= ep.take(j as int).push(ep[j as int]));
            assert(r@ =~= r0 + ep.take(j + 1));
            j += 1;
        }
        assert(ep.take(j as int) =~= ep);
        i += 1;
    }
    r
}

/// Every page of every entry is made present: to be executed where the entry allows that, else to be
/// written where it allows that, and else to be read.
pub proof fn law_every_page_is_made_present(es: Entries, n: int, i: int, va: int)
    requires
        0 <= i < n <= es.len(),
        es[i].lo % 4096 == 0,
        es[i].lo <= va < es[i].hi,
        va % 4096 == 0,
    ensures
        ({
            let p = es[i].protection.0;
            let access = PageFaultAccessType {
                read: p & 4 != 4 && p & 2 != 2,
                write: p & 4 != 4 && p & 2 == 2,
                execute: p & 4 == 4,
            };
            image_pages(es, n).contains((VirtAddr(va as u64), access))
        }),
    decreases n,
{
    let p = es[i].protection.0;
    let access = PageFaultAccessType {
        read: p & 4 != 4 && p & 2 != 2,
        write: p & 4 != 4 && p & 2 == 2,
        execute: p & 4 == 4,
    };
    let x = (VirtAddr(va as u64), access);
    let prev = image_pages(es, n - 1);
    let own = entry_pages(es[n - 1]);
    let all = image_pages(es, n);
    if i < n - 1 {
        law_every_page_is_made_present(es, n - 1, i, va);
        let j = choose|j: int| 0 <= j < prev.len() && prev[j] == x;
        assert(all[j] == x);
    } else {
        let e = es[i];
        let s = pages_between(e.lo as int, e.hi as int);
        lemma_page_listed(e.lo as int, e.hi as int, va);
        let j = choose|j: int| 0 <= j < s.len() && s[j] == va as u64;
        assert(own[j] == x);
        assert(all[prev.len() + j] == x);
    }
}

} // verus!
