//! Copying between user and kernel, a page at a time.
//!
//! No chunk crosses a page boundary of the user buffer, so a fault on one page
//! does not hide the bytes copied before it.
use vstd::prelude::*;
use crate::hal::addr::PAGE_SIZE;
use crate::hal::errno::Errno;

verus! {

/// Direction of the copy.
#[derive(Debug, Clone, Copy, PartialEq, Eq, Structural)]
pub enum UioDir {
    /// From user to kernel.
    CopyIn,
    /// From kernel to user.
    CopyOut,
}

/// Result of a copy.
#[derive(Debug, Clone, Copy, PartialEq, Eq, Structural)]
pub struct UioResult {
    /// Bytes copied.
    pub done: u64,
}

/// Bytes from `addr` to the end of its page, but at most `remaining`.
pub open spec fn chunk_of(addr: int, remaining: int) -> int {
    let room = 4096 - addr % 4096;
    if remaining < room {
        remaining
    } else {
        room
    }
}

/// The size of the next chunk, which does not cross a page boundary.
pub fn chunk_size(addr: u64, remaining: u64) -> (r: u64)
    ensures
        r == chunk_of(addr as int, remaining as int),
        r <= remaining,
        remaining > 0 ==> r > 0,
        (addr + r - 1) / 4096 == addr as int / 4096 || r == 0,
{
    let page_remaining: u64 = PAGE_SIZE - addr % PAGE_SIZE;
    if remaining < page_remaining {
        remaining
    } else {
        page_remaining
    }
}

/// Bytes copied from `user` on when the copies of the chunks end as `ok` says:
/// all chunks before the first fault.
pub open spec fn copied(user: int, len: int, ok: spec_fn(nat) -> bool, i: nat) -> int
    decreases len,
{
    if len <= 0 || !ok(i) {
        0
    } else {
        let c = chunk_of(user, len);
        if c <= 0 {
            0
        } else {
            c + copied(user + c, len - c, ok, i + 1)
        }
    }
}

/// A copy in progress.
#[derive(Debug, Clone, Copy)]
pub struct Uio {
    /// Where the user buffer starts.
    pub user: u64,
    /// Bytes asked for.
    pub len: u64,
    pub dir: UioDir,
    /// Bytes copied so far.
    pub done: u64,
}

/// What to do next in a copy.
#[derive(Debug, Clone, Copy)]
pub enum UioStep {
    /// Copy `len` bytes at offset `off` of both buffers.
    Copy { off: u64, len: u64 },
    /// The copy has ended.
    Finished(Result<UioResult, Errno>),
}

impl Uio {
    pub open spec fn wf(&self) -> bool {
        self.done <= self.len && self.user + self.len <= u64::MAX
    }

    /// Start a copy of `len` bytes.
    pub fn start(user: u64, len: u64, dir: UioDir) -> (r: Self)
        requires
            user + len <= u64::MAX,
        ensures
            r.wf(),
            r == (Uio { user, len, dir, done: 0 }),
    {
        Uio { user, len, dir, done: 0 }
    }

    /// The next chunk, or the end of the copy.
    pub fn next(&self) -> (r: UioStep)
        requires
            self.wf(),
        ensures
            r == if self.done == self.len {
                UioStep::Finished(Ok(UioResult { done: self.done }))
            } else {
                UioStep::Copy {
                    off: self.done,
                    len: chunk_of(self.user + self.done, self.len - self.done) as u64,
                }
            },
    {
        if self.done == self.len {
            UioStep::Finished(Ok(UioResult { done: self.done }))
        } else {
            UioStep::Copy {
                off: self.done,
                len: chunk_size(self.user + self.done, self.len - self.done),
            }
        }
    }

    /// Take note of how copying the next chunk ended.  A fault ends the copy:
    /// with the bytes copied before it, or with an error where there are none.
    pub fn chunk_done(&mut self, fault: bool) -> (r: Option<Result<UioResult, Errno>>)
        requires
            old(self).wf(),
            old(self).done < old(self).len,
        ensures
            final(self).wf(),
            fault ==> *final(self) == *old(self) && r == Some(
                if old(self).done > 0 {
                    Ok(UioResult { done: old(self).done })
                } else {
                    Err(Errno::Efault)
                },
            ),
            !fault ==> r is None && *final(self) == (Uio {
                done: (old(self).done + chunk_of(
                    old(self).user + old(self).done,
                    old(self).len - old(self).done,
                )) as u64,
                ..*old(self)
            }),
    {
        if fault {
            if self.done > 0 {
                return Some(Ok(UioResult { done: self.done }));
            }
            return Some(Err(Errno::Efault));
        }
        let chunk = chunk_size(self.user + self.done, self.len - self.done);
        self.done = self.done + chunk;
        None
    }
}

/// What copying `len` bytes returns when the copies of the chunks end as
/// `faults` says, in turn; chunks past the end of `faults` succeed.
pub fn uiomove(user: u64, len: u64, dir: UioDir, faults: &Vec<bool>) -> (r: Result<UioResult, Errno>)
    requires
        user + len <= u64::MAX,
    ensures
        ({
            let n = copied(
                user as int,
                len as int,
                |i: nat| !(i < faults@.len() && faults@[i as int]),
                0,
            );
            r == if len == 0 || n > 0 {
                Ok(UioResult { done: n as u64 })
            } else {
                Err(Errno::Efault)
            }
        }),
{
    let ghost ok = |i: nat| !(i < faults@.len() && faults@[i as int]);
    let mut uio = Uio::start(user, len, dir);
    let mut i: usize = 0;
    while uio.done < uio.len
        invariant
            uio.wf(),
            uio.user == user,
            uio.len == len,
            uio.done > 0 || i == 0,
            i <= faults@.len(),
            ok == (|i: nat| !(i < faults@.len() && faults@[i as int])),
            i < faults@.len() || i == faults@.len(),
            copied(user as int, len as int, ok, 0) == uio.done + copied(
                user + uio.done,
                len - uio.done,
                ok,
                i as nat,
            ),
        decreases len - uio.done,
    {
        let fault = i < faults.len() && faults[i];
        let ghost d = uio.done as int;
        assert(ok(i as nat) == !fault);
        if let Some(r) = uio.chunk_done(fault) {
            return r;
        }
        proof {
            let c = chunk_of(user + d, len - d);
            assert(c > 0);
            if i >= faults@.len() {
                lemma_copied_tail(user + d + c, len - d - c, ok, (i + 1) as nat, i as nat);
            }
        }
        if i < faults.len() {
            i += 1;
        }
    }
    Ok(UioResult { done: uio.done })
}

/// Past the last fault it does not matter which chunk comes next.
proof fn lemma_copied_tail(user: int, len: int, ok: spec_fn(nat) -> bool, i: nat, j: nat)
    requires
        forall|n: nat| n >= i || n >= j ==> #[trigger] ok(n),
    ensures
        copied(user, len, ok, i) == copied(user, len, ok, j),
    decreases len,
{
    if len > 0 {
        assert(ok(i) && ok(j));
        let c = chunk_of(user, len);
        if c > 0 {
            lemma_copied_tail(user + c, len - c, ok, i + 1, j + 1);
        }
    }
}

/// A copy never reports more bytes than were asked for, and reports all of them
/// where no chunk faults.
pub proof fn law_copied_bounds(user: int, len: int, ok: spec_fn(nat) -> bool, i: nat)
    requires
        len >= 0,
    ensures
        0 <= copied(user, len, ok, i) <= len,
        (forall|n: nat| #[trigger] ok(n)) ==> copied(user, len, ok, i) == len,
    decreases len,
{
    if len > 0 && ok(i) {
        let c = chunk_of(user, len);
        if c > 0 {
            law_copied_bounds(user + c, len - c, ok, i + 1);
        }
    }
}

/// No chunk crosses a page boundary of the user buffer, and what is left gets smaller.
pub proof fn law_chunk_stays_in_page(addr: int, remaining: int, i: int)
    requires
        0 <= addr,
        0 < remaining,
        0 <= i < chunk_of(addr, remaining),
    ensures
        (addr + i) / 4096 == addr / 4096,
        0 < chunk_of(addr, remaining) <= remaining,
{
}

/// A copy goes on to the first chunk that faults: what it reports is all that was asked for or, where
/// less, the rest of the first page and a whole page for each further chunk before that one.
pub proof fn law_copy_stops_at_first_fault(
    user: int,
    len: int,
    ok: spec_fn(nat) -> bool,
    i: nat,
    m: nat,
)
    requires
        0 <= user,
        0 <= len,
        forall|n: nat| i <= n < i + m ==> #[trigger] ok(n),
        !ok(i + m),
    ensures
        ({
            let before: int = if m == 0 {
                0
            } else {
                4096 - user % 4096 + (m - 1) * 4096
            };
            copied(user, len, ok, i) == if len < before {
                len
            } else {
                before
            }
        }),
    decreases m,
{
    if m == 0 {
        assert(i + m == i);
        assert(!ok(i));
    } else if len > 0 {
        assert(ok(i));
        let c = chunk_of(user, len);
        assert(c > 0);
        if c < len {
            assert((user + c) % 4096 == 0);
            let k: nat = (m - 1) as nat;
            assert(i + 1 + k == i + m);
            law_copy_stops_at_first_fault(user + c, len - c, ok, i + 1, k);
        } else {
            assert(copied(user + c, len - c, ok, i + 1) == 0);
        }
    }
}

} // verus!
