//! Generation-based address-space identifiers.
//!
//! Each address space stores the identifier it was given and its generation.
//! When the identifiers run out, the generation goes up and all of them can be
//! given out again, once every CPU has flushed its translations.
use vstd::prelude::*;

verus! {

/// Identifiers are given out from here up; zero is the kernel's.
pub const FIRST_ASID: u16 = 1;

/// Gives out address-space identifiers.
pub struct AsidAllocator {
    pub next: u16,
    pub generation: u64,
}

impl AsidAllocator {
    /// The next identifier is one that may be given out.
    pub open spec fn wf(&self) -> bool {
        self.next >= FIRST_ASID
    }

    pub fn new() -> (r: Self)
        ensures
            r.wf(),
            r.next == FIRST_ASID,
            r.generation == 1,
    {
        AsidAllocator { next: FIRST_ASID, generation: 1 }
    }
}

/// One identifier was given out: the next is another one, or of the next generation.
pub open spec fn asid_taken(before: &AsidAllocator, after: &AsidAllocator) -> bool {
    if before.next < u16::MAX {
        after.next == before.next + 1 && after.generation == before.generation
    } else {
        after.next == FIRST_ASID && after.generation == before.generation + 1
    }
}

/// Give out the next identifier with its generation.  After the last one the
/// generation goes up and the identifiers start over.
pub fn alloc_asid(a: &mut AsidAllocator) -> (r: (u16, u64))
    requires
        old(a).wf(),
        old(a).generation < u64::MAX,
    ensures
        final(a).wf(),
        r == (old(a).next, old(a).generation),
        asid_taken(old(a), final(a)),
{
    let r = (a.next, a.generation);
    if a.next == u16::MAX {
        a.next = FIRST_ASID;
        a.generation = a.generation + 1;
    } else {
        a.next = a.next + 1;
    }
    r
}

/// The current generation.
pub fn global_generation(a: &AsidAllocator) -> (r: u64)
    ensures
        r == a.generation,
{
    a.generation
}

/// The identifier and generation given out by the `n`-th allocation from a
/// state in which `next` and `generation` come next.
pub open spec fn nth_asid(next: int, generation: int, n: nat) -> (int, int)
    decreases n,
{
    if n == 0 {
        (next, generation)
    } else if next == u16::MAX {
        nth_asid(FIRST_ASID as int, generation + 1, (n - 1) as nat)
    } else {
        nth_asid(next + 1, generation, (n - 1) as nat)
    }
}

/// What is given out next after an identifier was taken is what comes second.
pub proof fn law_taken_comes_once(before: &AsidAllocator, after: &AsidAllocator, n: nat)
    requires
        asid_taken(before, after),
    ensures
        nth_asid(after.next as int, after.generation as int, n) == nth_asid(
            before.next as int,
            before.generation as int,
            n + 1,
        ),
{
}

/// No two allocations give out the same identifier with the same generation.
pub proof fn law_asid_generation_unique(next: int, generation: int, m: nat, n: nat)
    requires
        FIRST_ASID <= next <= u16::MAX,
        m < n,
    ensures
        nth_asid(next, generation, m) != nth_asid(next, generation, n),
    decreases m,
{
    if m == 0 {
        lemma_nth_later(next, generation, n);
    } else if next == u16::MAX {
        law_asid_generation_unique(
            FIRST_ASID as int,
            generation + 1,
            (m - 1) as nat,
            (n - 1) as nat,
        );
    } else {
        law_asid_generation_unique(next + 1, generation, (m - 1) as nat, (n - 1) as nat);
    }
}

proof fn lemma_nth_later(next: int, generation: int, n: nat)
    requires
        FIRST_ASID <= next <= u16::MAX,
        n > 0,
    ensures
        ({
            let r = nth_asid(next, generation, n);
            r.1 > generation || r.1 == generation && r.0 > next
        }),
    decreases n,
{
    let (next1, gen1) = if next == u16::MAX {
        (FIRST_ASID as int, generation + 1)
    } else {
        (next + 1, generation)
    };
    if n > 1 {
        lemma_nth_later(next1, gen1, (n - 1) as nat);
    } else {
        assert(nth_asid(next1, gen1, 0) == (next1, gen1));
    }
}

} // verus!
